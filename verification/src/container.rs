use vstd::prelude::*;

use crate::hash::{compute_hash_strong, strong_hash_of, Hash128};
use crate::patchy::{
    apply_patch, build_patch, cmd_covers, cmds_in_bounds, compute_blocks, compute_diff,
    count_covering, lemma_count_covering_at, lemma_count_covering_nonneg, maps_to, patch_wf,
    sum_sizes, CopyCmd, Patch,
};

verus! {

/// Why producing or consuming a patch container failed.
#[derive(Clone, Copy, Debug, PartialEq, Eq, Structural)]
pub enum PatchError {
    /// The container does not begin with the expected identifier.
    BadMagic,
    /// The container version is not the one this library writes.
    BadVersion,
    /// The container is truncated, has trailing bytes, or holds counts
    /// that cannot be materialized.
    Malformed,
    /// The base the patch is applied to does not hash to the recorded
    /// base digest.
    BaseHashMismatch,
    /// The reconstruction does not hash to the recorded target digest.
    OtherHashMismatch,
    /// The patch commands read out of bounds or write a position twice.
    InvalidCommands,
    /// The compressor reported a failure.
    CompressFailed,
    /// The container bytes are not a valid compressed stream.
    DecompressFailed,
}

/// The four little-endian bytes of a 32-bit value.
#[verifier::opaque]
pub open spec fn u32_le(x: u32) -> Seq<u8> {
    seq![
        (x % 256) as u8,
        ((x / 256) % 256) as u8,
        ((x / 0x10000) % 256) as u8,
        ((x / 0x1000000) % 256) as u8,
    ]
}

/// The eight little-endian bytes of a 64-bit value.
#[verifier::opaque]
pub open spec fn u64_le(x: u64) -> Seq<u8> {
    seq![
        (x % 256) as u8,
        ((x / 256) % 256) as u8,
        ((x / 0x10000) % 256) as u8,
        ((x / 0x1000000) % 256) as u8,
        ((x / 0x100000000) % 256) as u8,
        ((x / 0x10000000000) % 256) as u8,
        ((x / 0x1000000000000) % 256) as u8,
        ((x / 0x100000000000000) % 256) as u8,
    ]
}

/// The value of four little-endian bytes.
pub open spec fn u32_of_le(b: Seq<u8>) -> int {
    b[0] + b[1] * 0x100 + b[2] * 0x10000 + b[3] * 0x1000000
}

/// The value of eight little-endian bytes.
pub open spec fn u64_of_le(b: Seq<u8>) -> int {
    b[0] + b[1] * 0x100 + b[2] * 0x10000 + b[3] * 0x1000000 + b[4] * 0x100000000 + b[5]
        * 0x10000000000 + b[6] * 0x1000000000000 + b[7] * 0x100000000000000
}

pub proof fn lemma_u32_le_value(x: u32)
    ensures
        u32_of_le(u32_le(x)) == x,
        u32_le(x).len() == 4,
{
    reveal(u32_le);
    assert(x % 256 + ((x / 256) % 256) * 0x100 + ((x / 0x10000) % 256) * 0x10000 + ((x
        / 0x1000000) % 256) * 0x1000000 == x) by (bit_vector);
}

pub proof fn lemma_u64_le_value(x: u64)
    ensures
        u64_of_le(u64_le(x)) == x,
        u64_le(x).len() == 8,
{
    reveal(u64_le);
    assert(x % 256 + ((x / 256) % 256) * 0x100 + ((x / 0x10000) % 256) * 0x10000 + ((x
        / 0x1000000) % 256) * 0x1000000 + ((x / 0x100000000) % 256) * 0x100000000 + ((x
        / 0x10000000000) % 256) * 0x10000000000 + ((x / 0x1000000000000) % 256)
        * 0x1000000000000 + ((x / 0x100000000000000) % 256) * 0x100000000000000 == x)
        by (bit_vector);
}

pub proof fn lemma_u32_le_of_bytes(b: Seq<u8>)
    requires
        b.len() == 4,
    ensures
        0 <= u32_of_le(b) <= u32::MAX,
        u32_le(u32_of_le(b) as u32) == b,
{
    reveal(u32_le);
    let b0 = b[0];
    let b1 = b[1];
    let b2 = b[2];
    let b3 = b[3];
    let x = (b0 + b1 * 0x100 + b2 * 0x10000 + b3 * 0x1000000) as u32;
    assert(x == b0 + b1 * 0x100 + b2 * 0x10000 + b3 * 0x1000000);
    assert(x % 256 == b0 && (x / 256) % 256 == b1 && (x / 0x10000) % 256 == b2 && (x
        / 0x1000000) % 256 == b3) by (bit_vector)
        requires
            x == b0 + b1 * 0x100 + b2 * 0x10000 + b3 * 0x1000000,
    ;
    assert(u32_le(u32_of_le(b) as u32) =~= b);
}

pub proof fn lemma_u64_le_of_bytes(b: Seq<u8>)
    requires
        b.len() == 8,
    ensures
        0 <= u64_of_le(b) <= u64::MAX,
        u64_le(u64_of_le(b) as u64) == b,
{
    reveal(u64_le);
    let b0 = b[0];
    let b1 = b[1];
    let b2 = b[2];
    let b3 = b[3];
    let b4 = b[4];
    let b5 = b[5];
    let b6 = b[6];
    let b7 = b[7];
    let x = (b0 + b1 * 0x100 + b2 * 0x10000 + b3 * 0x1000000 + b4 * 0x100000000 + b5
        * 0x10000000000 + b6 * 0x1000000000000 + b7 * 0x100000000000000) as u64;
    assert(x == b0 + b1 * 0x100 + b2 * 0x10000 + b3 * 0x1000000 + b4 * 0x100000000 + b5
        * 0x10000000000 + b6 * 0x1000000000000 + b7 * 0x100000000000000);
    assert(x % 256 == b0 && (x / 256) % 256 == b1 && (x / 0x10000) % 256 == b2 && (x
        / 0x1000000) % 256 == b3 && (x / 0x100000000) % 256 == b4 && (x / 0x10000000000) % 256
        == b5 && (x / 0x1000000000000) % 256 == b6 && (x / 0x100000000000000) % 256 == b7)
        by (bit_vector)
        requires
            x == b0 + b1 * 0x100 + b2 * 0x10000 + b3 * 0x1000000 + b4 * 0x100000000 + b5
                * 0x10000000000 + b6 * 0x1000000000000 + b7 * 0x100000000000000,
    ;
    assert(u64_le(u64_of_le(b) as u64) =~= b);
}

} // verus!

verus! {

/// The eight identifying bytes at the start of every container: `!patchy!`.
pub open spec fn magic_seq() -> Seq<u8> {
    seq![33u8, 112u8, 97u8, 116u8, 99u8, 104u8, 121u8, 33u8]
}

pub const CONTAINER_VERSION: u32 = 1;

/// One command on the wire: source, target (64-bit), size (32-bit), all
/// little-endian.
pub open spec fn encode_cmd(c: CopyCmd) -> Seq<u8> {
    u64_le(c.source) + u64_le(c.target) + u32_le(c.size)
}

pub open spec fn encode_cmds(s: Seq<CopyCmd>) -> Seq<u8>
    decreases s.len(),
{
    if s.len() == 0 {
        Seq::empty()
    } else {
        encode_cmds(s.drop_last()) + encode_cmd(s.last())
    }
}

pub proof fn lemma_encode_cmds_len(s: Seq<CopyCmd>)
    ensures
        encode_cmds(s).len() == 20 * s.len(),
    decreases s.len(),
{
    if s.len() > 0 {
        lemma_encode_cmds_len(s.drop_last());
        lemma_u64_le_value(s.last().source);
        lemma_u64_le_value(s.last().target);
        lemma_u32_le_value(s.last().size);
    }
}

/// The byte layout of the whole container, before compression: magic,
/// version, the two digests, then the patch with every sequence length
/// prefixed.
pub open spec fn container_bytes(bh: Seq<u8>, oh: Seq<u8>, p: Patch) -> Seq<u8> {
    magic_seq() + u32_le(CONTAINER_VERSION) + bh + oh + u64_le(p.data@.len() as u64) + p.data@
        + u64_le(p.base@.len() as u64) + encode_cmds(p.base@) + u64_le(p.other@.len() as u64)
        + encode_cmds(p.other@) + u64_le(p.other_size)
}

/// Where each field of the container lies.
#[verifier::rlimit(60)]
pub proof fn lemma_container_shape(bh: Seq<u8>, oh: Seq<u8>, p: Patch)
    requires
        bh.len() == 16,
        oh.len() == 16,
    ensures
        ({
            let c = container_bytes(bh, oh, p);
            let dlen = p.data@.len() as int;
            let blen = p.base@.len() as int;
            let olen = p.other@.len() as int;
            &&& c.len() == 76 + dlen + 20 * blen + 20 * olen
            &&& c.subrange(0, 8) == magic_seq()
            &&& c.subrange(8, 12) == u32_le(CONTAINER_VERSION)
            &&& c.subrange(12, 28) == bh
            &&& c.subrange(28, 44) == oh
            &&& c.subrange(44, 52) == u64_le(p.data@.len() as u64)
            &&& c.subrange(52, 52 + dlen) == p.data@
            &&& c.subrange(52 + dlen, 60 + dlen) == u64_le(p.base@.len() as u64)
            &&& c.subrange(60 + dlen, 60 + dlen + 20 * blen) == encode_cmds(p.base@)
            &&& c.subrange(60 + dlen + 20 * blen, 68 + dlen + 20 * blen) == u64_le(
                p.other@.len() as u64,
            )
            &&& c.subrange(68 + dlen + 20 * blen, 68 + dlen + 20 * blen + 20 * olen)
                == encode_cmds(p.other@)
            &&& c.subrange(68 + dlen + 20 * blen + 20 * olen, 76 + dlen + 20 * blen + 20
                * olen) == u64_le(p.other_size)
        }),
{
    let c = container_bytes(bh, oh, p);
    let dlen = p.data@.len() as int;
    let blen = p.base@.len() as int;
    let olen = p.other@.len() as int;
    lemma_u32_le_value(CONTAINER_VERSION);
    lemma_u64_le_value(p.data@.len() as u64);
    lemma_u64_le_value(p.base@.len() as u64);
    lemma_u64_le_value(p.other@.len() as u64);
    lemma_u64_le_value(p.other_size);
    lemma_encode_cmds_len(p.base@);
    lemma_encode_cmds_len(p.other@);
    assert(c.subrange(0, 8) =~= magic_seq());
    assert(c.subrange(8, 12) =~= u32_le(CONTAINER_VERSION));
    assert(c.subrange(12, 28) =~= bh);
    assert(c.subrange(28, 44) =~= oh);
    assert(c.subrange(44, 52) =~= u64_le(p.data@.len() as u64));
    assert(c.subrange(52, 52 + dlen) =~= p.data@);
    assert(c.subrange(52 + dlen, 60 + dlen) =~= u64_le(p.base@.len() as u64));
    assert(c.subrange(60 + dlen, 60 + dlen + 20 * blen) =~= encode_cmds(p.base@));
    assert(c.subrange(60 + dlen + 20 * blen, 68 + dlen + 20 * blen) =~= u64_le(
        p.other@.len() as u64,
    ));
    assert(c.subrange(68 + dlen + 20 * blen, 68 + dlen + 20 * blen + 20 * olen)
        =~= encode_cmds(p.other@));
    assert(c.subrange(68 + dlen + 20 * blen + 20 * olen, 76 + dlen + 20 * blen + 20 * olen)
        =~= u64_le(p.other_size));
}

/// The 20-byte record of command `k` inside an encoded list.
pub proof fn lemma_encode_cmds_index(s: Seq<CopyCmd>, k: int)
    requires
        0 <= k < s.len(),
    ensures
        encode_cmds(s).subrange(20 * k, 20 * k + 20) == encode_cmd(s[k]),
        encode_cmd(s[k]).subrange(0, 8) == u64_le(s[k].source),
        encode_cmd(s[k]).subrange(8, 16) == u64_le(s[k].target),
        encode_cmd(s[k]).subrange(16, 20) == u32_le(s[k].size),
    decreases s.len(),
{
    lemma_encode_cmds_len(s);
    lemma_u64_le_value(s[k].source);
    lemma_u64_le_value(s[k].target);
    lemma_u32_le_value(s[k].size);
    assert(encode_cmd(s[k]).subrange(0, 8) =~= u64_le(s[k].source));
    assert(encode_cmd(s[k]).subrange(8, 16) =~= u64_le(s[k].target));
    assert(encode_cmd(s[k]).subrange(16, 20) =~= u32_le(s[k].size));
    if k == s.len() - 1 {
        lemma_encode_cmds_len(s.drop_last());
        assert(encode_cmds(s).subrange(20 * k, 20 * k + 20) =~= encode_cmd(s[k]));
    } else {
        lemma_encode_cmds_index(s.drop_last(), k);
        lemma_encode_cmds_len(s.drop_last());
        assert(s.drop_last()[k] == s[k]);
        assert(encode_cmds(s).subrange(20 * k, 20 * k + 20) =~= encode_cmds(
            s.drop_last(),
        ).subrange(20 * k, 20 * k + 20));
    }
}

fn push_u32_le(out: &mut Vec<u8>, x: u32)
    ensures
        final(out)@ == old(out)@ + u32_le(x),
{
    out.push((x % 256) as u8);
    out.push((x / 256 % 256) as u8);
    out.push((x / 0x10000 % 256) as u8);
    out.push((x / 0x1000000 % 256) as u8);
    proof {
        reveal(u32_le);
        assert(out@ =~= old(out)@ + u32_le(x));
    }
}

fn push_u64_le(out: &mut Vec<u8>, x: u64)
    ensures
        final(out)@ == old(out)@ + u64_le(x),
{
    out.push((x % 256) as u8);
    out.push((x / 256 % 256) as u8);
    out.push((x / 0x10000 % 256) as u8);
    out.push((x / 0x1000000 % 256) as u8);
    out.push((x / 0x100000000 % 256) as u8);
    out.push((x / 0x10000000000 % 256) as u8);
    out.push((x / 0x1000000000000 % 256) as u8);
    out.push((x / 0x100000000000000 % 256) as u8);
    proof {
        reveal(u64_le);
        assert(out@ =~= old(out)@ + u64_le(x));
    }
}

fn push_cmds(out: &mut Vec<u8>, cmds: &Vec<CopyCmd>)
    ensures
        final(out)@ == old(out)@ + encode_cmds(cmds@),
{
    let mut i: usize = 0;
    proof {
        assert(out@ =~= old(out)@ + encode_cmds(cmds@.take(0))) by {
            assert(cmds@.take(0) =~= Seq::<CopyCmd>::empty());
        }
    }
    while i < cmds.len()
        invariant
            i <= cmds@.len(),
            out@ == old(out)@ + encode_cmds(cmds@.take(i as int)),
        decreases cmds@.len() - i,
    {
        let c = cmds[i];
        push_u64_le(out, c.source);
        push_u64_le(out, c.target);
        push_u32_le(out, c.size);
        proof {
            assert(cmds@.take(i + 1).drop_last() =~= cmds@.take(i as int));
            assert(cmds@.take(i + 1).last() == cmds@[i as int]);
            assert(out@ =~= old(out)@ + encode_cmds(cmds@.take(i + 1)));
        }
        i = i + 1;
    }
    proof {
        assert(cmds@.take(cmds@.len() as int) =~= cmds@);
    }
}

/// Serialize the container: magic, version, both digests, and the patch.
pub fn encode_container(base_hash: &Hash128, other_hash: &Hash128, patch: &Patch) -> (r: Vec<
    u8,
>)
    ensures
        r@ == container_bytes(base_hash@, other_hash@, *patch),
{
    let mut out: Vec<u8> = Vec::new();
    out.push(33u8);
    out.push(112u8);
    out.push(97u8);
    out.push(116u8);
    out.push(99u8);
    out.push(104u8);
    out.push(121u8);
    out.push(33u8);
    proof {
        assert(out@ =~= magic_seq());
    }
    push_u32_le(&mut out, CONTAINER_VERSION);
    out.extend_from_slice(base_hash.as_bytes().as_slice());
    out.extend_from_slice(other_hash.as_bytes().as_slice());
    push_u64_le(&mut out, patch.data.len() as u64);
    out.extend_from_slice(patch.data.as_slice());
    push_u64_le(&mut out, patch.base.len() as u64);
    push_cmds(&mut out, &patch.base);
    push_u64_le(&mut out, patch.other.len() as u64);
    push_cmds(&mut out, &patch.other);
    push_u64_le(&mut out, patch.other_size);
    proof {
        assert(out@ =~= container_bytes(base_hash@, other_hash@, *patch));
    }
    out
}

} // verus!

verus! {

fn read_u32_le(bytes: &[u8], pos: usize) -> (r: u32)
    requires
        pos + 4 <= bytes@.len(),
    ensures
        r == u32_of_le(bytes@.subrange(pos as int, pos + 4)),
{
    let l = bytes.len();
    assert(pos + 4 <= l);
    let b0 = *vstd::slice::slice_index_get(bytes, pos) as u32;
    let b1 = *vstd::slice::slice_index_get(bytes, pos + 1) as u32;
    let b2 = *vstd::slice::slice_index_get(bytes, pos + 2) as u32;
    let b3 = *vstd::slice::slice_index_get(bytes, pos + 3) as u32;
    let r = b0 + b1 * 0x100 + b2 * 0x10000 + b3 * 0x1000000;
    proof {
        let s = bytes@.subrange(pos as int, pos + 4);
        assert(s[0] == bytes@[pos as int] && s[1] == bytes@[pos + 1] && s[2] == bytes@[pos + 2]
            && s[3] == bytes@[pos + 3]);
    }
    r
}

fn read_u64_le(bytes: &[u8], pos: usize) -> (r: u64)
    requires
        pos + 8 <= bytes@.len(),
    ensures
        r == u64_of_le(bytes@.subrange(pos as int, pos + 8)),
{
    let l = bytes.len();
    assert(pos + 8 <= l);
    let b0 = *vstd::slice::slice_index_get(bytes, pos) as u64;
    let b1 = *vstd::slice::slice_index_get(bytes, pos + 1) as u64;
    let b2 = *vstd::slice::slice_index_get(bytes, pos + 2) as u64;
    let b3 = *vstd::slice::slice_index_get(bytes, pos + 3) as u64;
    let b4 = *vstd::slice::slice_index_get(bytes, pos + 4) as u64;
    let b5 = *vstd::slice::slice_index_get(bytes, pos + 5) as u64;
    let b6 = *vstd::slice::slice_index_get(bytes, pos + 6) as u64;
    let b7 = *vstd::slice::slice_index_get(bytes, pos + 7) as u64;
    let r = b0 + b1 * 0x100 + b2 * 0x10000 + b3 * 0x1000000 + b4 * 0x100000000 + b5
        * 0x10000000000 + b6 * 0x1000000000000 + b7 * 0x100000000000000;
    proof {
        let s = bytes@.subrange(pos as int, pos + 8);
        assert(s[0] == bytes@[pos as int] && s[1] == bytes@[pos + 1] && s[2] == bytes@[pos + 2]
            && s[3] == bytes@[pos + 3] && s[4] == bytes@[pos + 4] && s[5] == bytes@[pos + 5]
            && s[6] == bytes@[pos + 6] && s[7] == bytes@[pos + 7]);
    }
    r
}

fn read_cmd(bytes: &[u8], cur: usize) -> (c: CopyCmd)
    requires
        cur + 20 <= bytes@.len(),
    ensures
        encode_cmd(c) == bytes@.subrange(cur as int, cur + 20),
{
    let l = bytes.len();
    assert(cur + 20 <= l);
    let source = read_u64_le(bytes, cur);
    let target = read_u64_le(bytes, cur + 8);
    let size = read_u32_le(bytes, cur + 16);
    let c = CopyCmd { source, target, size };
    proof {
        lemma_u64_le_of_bytes(bytes@.subrange(cur as int, cur + 8));
        lemma_u64_le_of_bytes(bytes@.subrange(cur + 8, cur + 16));
        lemma_u32_le_of_bytes(bytes@.subrange(cur + 16, cur + 20));
        lemma_u64_le_value(c.source);
        lemma_u64_le_value(c.target);
        lemma_u32_le_value(c.size);
        assert(encode_cmd(c) =~= bytes@.subrange(cur as int, cur + 20));
    }
    c
}

#[verifier::rlimit(100)]
fn read_cmds(bytes: &[u8], pos: usize, count: usize) -> (r: Vec<CopyCmd>)
    requires
        pos + 20 * count <= bytes@.len(),
    ensures
        r@.len() == count,
        encode_cmds(r@) == bytes@.subrange(pos as int, pos + 20 * count),
{
    let l = bytes.len();
    let mut out: Vec<CopyCmd> = Vec::new();
    let mut k: usize = 0;
    let mut cur: usize = pos;
    proof {
        assert(encode_cmds(out@) =~= bytes@.subrange(pos as int, pos as int));
    }
    while k < count
        invariant
            k <= count,
            cur == pos + 20 * k,
            l == bytes@.len(),
            pos + 20 * count <= l,
            out@.len() == k,
            encode_cmds(out@) == bytes@.subrange(pos as int, pos + 20 * (k as int)),
        decreases count - k,
    {
        proof {
            assert(20 * (k + 1) <= 20 * count) by (nonlinear_arith)
                requires
                    k < count,
            ;
            assert(20 * (k as int) + 20 == 20 * (k + 1));
        }
        let c = read_cmd(bytes, cur);
        proof {
            lemma_read_cmds_step(bytes@, pos as int, k as int, out@, c);
        }
        out.push(c);
        k = k + 1;
        cur = cur + 20;
    }
    out
}

/// Appending one decoded command extends the encoded prefix by its record.
proof fn lemma_read_cmds_step(bytes: Seq<u8>, pos: int, k: int, prev: Seq<CopyCmd>, c: CopyCmd)
    requires
        pos >= 0,
        k >= 0,
        pos + 20 * (k + 1) <= bytes.len(),
        prev.len() == k,
        encode_cmds(prev) == bytes.subrange(pos, pos + 20 * k),
        encode_cmd(c) == bytes.subrange(pos + 20 * k, pos + 20 * k + 20),
    ensures
        encode_cmds(prev.push(c)) == bytes.subrange(pos, pos + 20 * (k + 1)),
{
    assert(prev.push(c).drop_last() =~= prev);
    assert(encode_cmds(prev.push(c)) == encode_cmds(prev) + encode_cmd(c));
    lemma_encode_cmds_len(prev);
    lemma_u64_le_value(c.source);
    lemma_u64_le_value(c.target);
    lemma_u32_le_value(c.size);
    assert(encode_cmd(c).len() == 20);
    assert(encode_cmds(prev) + encode_cmd(c) =~= bytes.subrange(pos, pos + 20 * (k + 1)));
}

/// Parse a container: the exact inverse of `encode_container`. Succeeds
/// exactly on byte strings that some container serializes to; rejects a
/// wrong identifier and an unknown version by name, and anything else that
/// cannot be a container as malformed.
#[verifier::loop_isolation(false)]
#[verifier::rlimit(100)]
pub fn decode_container(bytes: &[u8]) -> (r: Result<(Hash128, Hash128, Patch), PatchError>)
    ensures
        match r {
            Ok(t) => bytes@ == container_bytes(t.0@, t.1@, t.2),
            Err(e) => {
                &&& forall|bh: Hash128, oh: Hash128, p: Patch|
                    bytes@ != container_bytes(bh@, oh@, p)
                &&& (e == PatchError::BadMagic || e == PatchError::BadVersion || e
                    == PatchError::Malformed)
            },
        },
        bytes@.len() >= 12 && bytes@.subrange(0, 8) != magic_seq() ==> r == Err::<
            (Hash128, Hash128, Patch),
            PatchError,
        >(PatchError::BadMagic),
        bytes@.len() >= 12 && bytes@.subrange(0, 8) == magic_seq() && u32_of_le(
            bytes@.subrange(8, 12),
        ) != CONTAINER_VERSION ==> r == Err::<(Hash128, Hash128, Patch), PatchError>(
            PatchError::BadVersion,
        ),
{
    let len = bytes.len();
    if len < 12 {
        proof {
            assert forall|bh: Hash128, oh: Hash128, p: Patch|
                bytes@ != container_bytes(bh@, oh@, p) by {
                if bytes@ == container_bytes(bh@, oh@, p) {
                    lemma_no_parse_common(bytes@, bh, oh, p);
                }
            }
        }
        return Err(PatchError::Malformed);
    }
    let m0 = *vstd::slice::slice_index_get(bytes, 0);
    let m1 = *vstd::slice::slice_index_get(bytes, 1);
    let m2 = *vstd::slice::slice_index_get(bytes, 2);
    let m3 = *vstd::slice::slice_index_get(bytes, 3);
    let m4 = *vstd::slice::slice_index_get(bytes, 4);
    let m5 = *vstd::slice::slice_index_get(bytes, 5);
    let m6 = *vstd::slice::slice_index_get(bytes, 6);
    let m7 = *vstd::slice::slice_index_get(bytes, 7);
    let magic_ok = m0 == 33 && m1 == 112 && m2 == 97 && m3 == 116 && m4 == 99 && m5 == 104
        && m6 == 121 && m7 == 33;
    proof {
        if magic_ok {
            assert(bytes@.subrange(0, 8) =~= magic_seq());
        } else {
            assert(bytes@.subrange(0, 8) != magic_seq()) by {
                if bytes@.subrange(0, 8) == magic_seq() {
                    assert(bytes@.subrange(0, 8)[0] == m0 && bytes@.subrange(0, 8)[1] == m1
                        && bytes@.subrange(0, 8)[2] == m2 && bytes@.subrange(0, 8)[3] == m3
                        && bytes@.subrange(0, 8)[4] == m4 && bytes@.subrange(0, 8)[5] == m5
                        && bytes@.subrange(0, 8)[6] == m6 && bytes@.subrange(0, 8)[7] == m7);
                }
            }
        }
    }
    if !magic_ok {
        proof {
            assert forall|bh: Hash128, oh: Hash128, p: Patch|
                bytes@ != container_bytes(bh@, oh@, p) by {
                if bytes@ == container_bytes(bh@, oh@, p) {
                    crate::hash::lemma_hash128_len(bh);
                    crate::hash::lemma_hash128_len(oh);
                    lemma_container_shape(bh@, oh@, p);
                }
            }
        }
        return Err(PatchError::BadMagic);
    }
    let version = read_u32_le(bytes, 8);
    if version != CONTAINER_VERSION {
        proof {
            lemma_u32_le_value(CONTAINER_VERSION);
            assert forall|bh: Hash128, oh: Hash128, p: Patch|
                bytes@ != container_bytes(bh@, oh@, p) by {
                if bytes@ == container_bytes(bh@, oh@, p) {
                    crate::hash::lemma_hash128_len(bh);
                    crate::hash::lemma_hash128_len(oh);
                    lemma_container_shape(bh@, oh@, p);
                }
            }
        }
        return Err(PatchError::BadVersion);
    }
    if len < 76 {
        proof {
            lemma_u32_le_value(CONTAINER_VERSION);
            assert forall|bh: Hash128, oh: Hash128, p: Patch|
                bytes@ != container_bytes(bh@, oh@, p) by {
                if bytes@ == container_bytes(bh@, oh@, p) {
                    lemma_no_parse_common(bytes@, bh, oh, p);
                }
            }
        }
        return Err(PatchError::Malformed);
    }
    let base_hash = Hash128::from_slice(vstd::slice::slice_subrange(bytes, 12, 28));
    let other_hash = Hash128::from_slice(vstd::slice::slice_subrange(bytes, 28, 44));
    let data_len64 = read_u64_le(bytes, 44);
    // every later check failure means no container can produce these bytes:
    // the shape of a container fixes each length field
    if usize::BITS < 64 && data_len64 > usize::MAX as u64 {
        proof {
            lemma_no_parse_data_len(bytes@, data_len64);
        }
        return Err(PatchError::Malformed);
    }
    let data_len = data_len64 as usize;
    if len - 76 < data_len {
        proof {
            lemma_no_parse_data_fit(bytes@, data_len64);
        }
        return Err(PatchError::Malformed);
    }
    let data = vstd::slice::slice_to_vec(vstd::slice::slice_subrange(bytes, 52, 52 + data_len));
    let base_count64 = read_u64_le(bytes, 52 + data_len);
    let rest_after_base_count = len - 76 - data_len;
    if base_count64 > (rest_after_base_count / 20) as u64 {
        proof {
            lemma_no_parse_base_count(bytes@, data_len64, base_count64);
        }
        return Err(PatchError::Malformed);
    }
    let base_count = base_count64 as usize;
    proof {
        lemma_mul_div20(rest_after_base_count as int, base_count as int);
    }
    let base_cmds = read_cmds(bytes, 60 + data_len, base_count);
    let other_count64 = read_u64_le(bytes, 60 + data_len + 20 * base_count);
    let rest_after_other_count = rest_after_base_count - 20 * base_count;
    if other_count64 > (rest_after_other_count / 20) as u64 {
        proof {
            lemma_no_parse_other_count(bytes@, data_len64, base_count64, other_count64);
        }
        return Err(PatchError::Malformed);
    }
    let other_count = other_count64 as usize;
    proof {
        lemma_mul_div20(rest_after_other_count as int, other_count as int);
    }
    let other_cmds = read_cmds(bytes, 68 + data_len + 20 * base_count, other_count);
    let tail_pos = 68 + data_len + 20 * base_count + 20 * other_count;
    if len - tail_pos != 8 {
        proof {
            lemma_no_parse_trailing(bytes@, data_len64, base_count64, other_count64);
        }
        return Err(PatchError::Malformed);
    }
    let other_size = read_u64_le(bytes, tail_pos);
    let patch = Patch { data, base: base_cmds, other: other_cmds, other_size };
    proof {
        crate::hash::lemma_hash128_len(base_hash);
        crate::hash::lemma_hash128_len(other_hash);
        lemma_u32_le_of_bytes(bytes@.subrange(8, 12));
        lemma_u64_le_of_bytes(bytes@.subrange(44, 52));
        lemma_u64_le_of_bytes(bytes@.subrange(52 + data_len as int, 60 + data_len as int));
        lemma_u64_le_of_bytes(
            bytes@.subrange(
                60 + data_len as int + 20 * base_count as int,
                68 + data_len as int + 20 * base_count as int,
            ),
        );
        lemma_u64_le_of_bytes(bytes@.subrange(tail_pos as int, tail_pos + 8));
        lemma_container_assemble(bytes@, base_hash, other_hash, patch);
    }
    Ok((base_hash, other_hash, patch))
}

} // verus!

verus! {

/// A count bounded by `rest / 20` moves at most `rest` bytes of records.
proof fn lemma_mul_div20(rest: int, count: int)
    requires
        rest >= 0,
        0 <= count <= rest / 20,
    ensures
        20 * count <= rest,
{
    vstd::arithmetic::div_mod::lemma_fundamental_div_mod(rest, 20);
    vstd::arithmetic::div_mod::lemma_mod_division_less_than_divisor(rest, 20);
    vstd::arithmetic::mul::lemma_mul_inequality(count, rest / 20, 20);
    assert((rest / 20) * 20 <= rest);
    assert(count * 20 == 20 * count) by (nonlinear_arith);
}

/// What every failed parse step shares: if the bytes were some container,
/// its shape would fix the field that the step just read.
proof fn lemma_no_parse_common(bytes: Seq<u8>, bh: Hash128, oh: Hash128, p: Patch)
    requires
        bytes == container_bytes(bh@, oh@, p),
    ensures
        bytes.len() == 76 + p.data@.len() + 20 * p.base@.len() + 20 * p.other@.len(),
        p.data@.len() <= usize::MAX,
        p.base@.len() <= usize::MAX,
        p.other@.len() <= usize::MAX,
        u64_of_le(bytes.subrange(44, 52)) == p.data@.len(),
        u64_of_le(
            bytes.subrange(52 + p.data@.len() as int, 60 + p.data@.len() as int),
        ) == p.base@.len(),
        u64_of_le(
            bytes.subrange(
                60 + p.data@.len() as int + 20 * p.base@.len() as int,
                68 + p.data@.len() as int + 20 * p.base@.len() as int,
            ),
        ) == p.other@.len(),
        20 * p.base@.len() >= 0,
        20 * p.other@.len() >= 0,
{
    crate::hash::lemma_hash128_len(bh);
    crate::hash::lemma_hash128_len(oh);
    lemma_container_shape(bh@, oh@, p);
    vstd::std_specs::vec::axiom_spec_len(&p.base);
    vstd::std_specs::vec::axiom_spec_len(&p.other);
    vstd::std_specs::vec::axiom_spec_len(&p.data);
    lemma_u64_le_value(p.data@.len() as u64);
    lemma_u64_le_value(p.base@.len() as u64);
    lemma_u64_le_value(p.other@.len() as u64);
    assert(20 * p.base@.len() >= 0) by (nonlinear_arith);
    assert(20 * p.other@.len() >= 0) by (nonlinear_arith);
}

proof fn lemma_no_parse_data_len(bytes: Seq<u8>, data_len64: u64)
    requires
        bytes.len() >= 52,
        data_len64 == u64_of_le(bytes.subrange(44, 52)),
        data_len64 > usize::MAX,
    ensures
        forall|bh: Hash128, oh: Hash128, p: Patch| bytes != container_bytes(bh@, oh@, p),
{
    assert forall|bh: Hash128, oh: Hash128, p: Patch|
        bytes != container_bytes(bh@, oh@, p) by {
        if bytes == container_bytes(bh@, oh@, p) {
            lemma_no_parse_common(bytes, bh, oh, p);
        }
    }
}

proof fn lemma_no_parse_data_fit(bytes: Seq<u8>, data_len64: u64)
    requires
        bytes.len() >= 76,
        data_len64 == u64_of_le(bytes.subrange(44, 52)),
        bytes.len() - 76 < data_len64,
    ensures
        forall|bh: Hash128, oh: Hash128, p: Patch| bytes != container_bytes(bh@, oh@, p),
{
    assert forall|bh: Hash128, oh: Hash128, p: Patch|
        bytes != container_bytes(bh@, oh@, p) by {
        if bytes == container_bytes(bh@, oh@, p) {
            lemma_no_parse_common(bytes, bh, oh, p);
        }
    }
}

proof fn lemma_no_parse_base_count(bytes: Seq<u8>, data_len64: u64, base_count64: u64)
    requires
        bytes.len() >= 76,
        data_len64 == u64_of_le(bytes.subrange(44, 52)),
        data_len64 <= bytes.len() - 76,
        base_count64 == u64_of_le(
            bytes.subrange(52 + data_len64 as int, 60 + data_len64 as int),
        ),
        base_count64 > (bytes.len() - 76 - data_len64) / 20,
    ensures
        forall|bh: Hash128, oh: Hash128, p: Patch| bytes != container_bytes(bh@, oh@, p),
{
    assert forall|bh: Hash128, oh: Hash128, p: Patch|
        bytes != container_bytes(bh@, oh@, p) by {
        if bytes == container_bytes(bh@, oh@, p) {
            lemma_no_parse_common(bytes, bh, oh, p);
            let rest = bytes.len() - 76 - data_len64;
            assert(rest == 20 * p.base@.len() + 20 * p.other@.len());
            assert(rest / 20 >= p.base@.len()) by {
                assert(rest == 20 * (p.base@.len() + p.other@.len())) by (nonlinear_arith)
                    requires
                        rest == 20 * p.base@.len() + 20 * p.other@.len(),
                ;
                vstd::arithmetic::div_mod::lemma_div_multiples_vanish(
                    p.base@.len() + p.other@.len() as int,
                    20,
                );
            }
        }
    }
}

proof fn lemma_no_parse_other_count(
    bytes: Seq<u8>,
    data_len64: u64,
    base_count64: u64,
    other_count64: u64,
)
    requires
        bytes.len() >= 76,
        data_len64 == u64_of_le(bytes.subrange(44, 52)),
        data_len64 <= bytes.len() - 76,
        base_count64 == u64_of_le(
            bytes.subrange(52 + data_len64 as int, 60 + data_len64 as int),
        ),
        base_count64 <= (bytes.len() - 76 - data_len64) / 20,
        other_count64 == u64_of_le(
            bytes.subrange(
                60 + data_len64 as int + 20 * base_count64 as int,
                68 + data_len64 as int + 20 * base_count64 as int,
            ),
        ),
        other_count64 > (bytes.len() - 76 - data_len64 - 20 * base_count64) / 20,
    ensures
        forall|bh: Hash128, oh: Hash128, p: Patch| bytes != container_bytes(bh@, oh@, p),
{
    assert forall|bh: Hash128, oh: Hash128, p: Patch|
        bytes != container_bytes(bh@, oh@, p) by {
        if bytes == container_bytes(bh@, oh@, p) {
            lemma_no_parse_common(bytes, bh, oh, p);
            assert(base_count64 == p.base@.len());
            let rest = bytes.len() - 76 - data_len64 - 20 * base_count64;
            assert(rest == 20 * p.other@.len());
            assert(rest / 20 >= p.other@.len()) by {
                vstd::arithmetic::div_mod::lemma_div_multiples_vanish(
                    p.other@.len() as int,
                    20,
                );
            }
        }
    }
}

proof fn lemma_no_parse_trailing(
    bytes: Seq<u8>,
    data_len64: u64,
    base_count64: u64,
    other_count64: u64,
)
    requires
        bytes.len() >= 76,
        data_len64 == u64_of_le(bytes.subrange(44, 52)),
        data_len64 <= bytes.len() - 76,
        base_count64 == u64_of_le(
            bytes.subrange(52 + data_len64 as int, 60 + data_len64 as int),
        ),
        other_count64 == u64_of_le(
            bytes.subrange(
                60 + data_len64 as int + 20 * base_count64 as int,
                68 + data_len64 as int + 20 * base_count64 as int,
            ),
        ),
        bytes.len() - (68 + data_len64 + 20 * base_count64 + 20 * other_count64) != 8,
    ensures
        forall|bh: Hash128, oh: Hash128, p: Patch| bytes != container_bytes(bh@, oh@, p),
{
    assert forall|bh: Hash128, oh: Hash128, p: Patch|
        bytes != container_bytes(bh@, oh@, p) by {
        if bytes == container_bytes(bh@, oh@, p) {
            lemma_no_parse_common(bytes, bh, oh, p);
            assert(base_count64 == p.base@.len());
            assert(other_count64 == p.other@.len());
        }
    }
}

} // verus!

verus! {

/// A byte string whose segments each hold one container field is the
/// container's encoding.
#[verifier::rlimit(100)]
proof fn lemma_container_assemble(bytes: Seq<u8>, bh: Hash128, oh: Hash128, p: Patch)
    requires
        bh@.len() == 16,
        oh@.len() == 16,
        bytes.len() == 76 + p.data@.len() + 20 * p.base@.len() + 20 * p.other@.len(),
        bytes.subrange(0, 8) == magic_seq(),
        bytes.subrange(8, 12) == u32_le(CONTAINER_VERSION),
        bytes.subrange(12, 28) == bh@,
        bytes.subrange(28, 44) == oh@,
        bytes.subrange(44, 52) == u64_le(p.data@.len() as u64),
        bytes.subrange(52, 52 + p.data@.len() as int) == p.data@,
        bytes.subrange(52 + p.data@.len() as int, 60 + p.data@.len() as int) == u64_le(
            p.base@.len() as u64,
        ),
        bytes.subrange(
            60 + p.data@.len() as int,
            60 + p.data@.len() as int + 20 * p.base@.len() as int,
        ) == encode_cmds(p.base@),
        bytes.subrange(
            60 + p.data@.len() as int + 20 * p.base@.len() as int,
            68 + p.data@.len() as int + 20 * p.base@.len() as int,
        ) == u64_le(p.other@.len() as u64),
        bytes.subrange(
            68 + p.data@.len() as int + 20 * p.base@.len() as int,
            68 + p.data@.len() as int + 20 * p.base@.len() as int + 20
                * p.other@.len() as int,
        ) == encode_cmds(p.other@),
        bytes.subrange(
            68 + p.data@.len() as int + 20 * p.base@.len() as int + 20
                * p.other@.len() as int,
            76 + p.data@.len() as int + 20 * p.base@.len() as int + 20
                * p.other@.len() as int,
        ) == u64_le(p.other_size),
    ensures
        bytes == container_bytes(bh@, oh@, p),
{
    lemma_container_shape(bh@, oh@, p);
    let c2 = container_bytes(bh@, oh@, p);
    let dlen = p.data@.len() as int;
    let blen = p.base@.len() as int;
    let olen = p.other@.len() as int;
    assert forall|i: int| 0 <= i < bytes.len() implies bytes[i] == c2[i] by {
        if i < 8 {
            assert(c2.subrange(0, 8)[i] == c2[i]);
            assert(bytes.subrange(0, 8)[i] == bytes[i]);
        } else if i < 12 {
            assert(c2.subrange(8, 12)[i - 8] == c2[i]);
            assert(bytes.subrange(8, 12)[i - 8] == bytes[i]);
        } else if i < 28 {
            assert(c2.subrange(12, 28)[i - 12] == c2[i]);
            assert(bytes.subrange(12, 28)[i - 12] == bytes[i]);
        } else if i < 44 {
            assert(c2.subrange(28, 44)[i - 28] == c2[i]);
            assert(bytes.subrange(28, 44)[i - 28] == bytes[i]);
        } else if i < 52 {
            assert(c2.subrange(44, 52)[i - 44] == c2[i]);
            assert(bytes.subrange(44, 52)[i - 44] == bytes[i]);
        } else if i < 52 + dlen {
            assert(c2.subrange(52, 52 + dlen)[i - 52] == c2[i]);
            assert(bytes.subrange(52, 52 + dlen)[i - 52] == bytes[i]);
        } else if i < 60 + dlen {
            assert(c2.subrange(52 + dlen, 60 + dlen)[i - 52 - dlen] == c2[i]);
            assert(bytes.subrange(52 + dlen, 60 + dlen)[i - 52 - dlen] == bytes[i]);
        } else if i < 60 + dlen + 20 * blen {
            assert(c2.subrange(60 + dlen, 60 + dlen + 20 * blen)[i - 60 - dlen] == c2[i]);
            assert(bytes.subrange(60 + dlen, 60 + dlen + 20 * blen)[i - 60 - dlen]
                == bytes[i]);
        } else if i < 68 + dlen + 20 * blen {
            assert(c2.subrange(60 + dlen + 20 * blen, 68 + dlen + 20 * blen)[i - 60 - dlen - 20
                * blen] == c2[i]);
            assert(bytes.subrange(60 + dlen + 20 * blen, 68 + dlen + 20 * blen)[i - 60 - dlen
                - 20 * blen] == bytes[i]);
        } else if i < 68 + dlen + 20 * blen + 20 * olen {
            assert(c2.subrange(68 + dlen + 20 * blen, 68 + dlen + 20 * blen + 20 * olen)[i - 68
                - dlen - 20 * blen] == c2[i]);
            assert(bytes.subrange(68 + dlen + 20 * blen, 68 + dlen + 20 * blen + 20 * olen)[i
                - 68 - dlen - 20 * blen] == bytes[i]);
        } else {
            assert(c2.subrange(
                68 + dlen + 20 * blen + 20 * olen,
                76 + dlen + 20 * blen + 20 * olen,
            )[i - 68 - dlen - 20 * blen - 20 * olen] == c2[i]);
            assert(bytes.subrange(
                68 + dlen + 20 * blen + 20 * olen,
                76 + dlen + 20 * blen + 20 * olen,
            )[i - 68 - dlen - 20 * blen - 20 * olen] == bytes[i]);
        }
    }
    assert(bytes =~= c2);
}

} // verus!

verus! {

/// What zstd's decoder returns on a byte string: a function of the bytes
/// alone; None when they are not a valid frame.
pub uninterp spec fn zstd_decode(compressed: Seq<u8>) -> Option<Seq<u8>>;

/// What zstd's encoder returns for a byte string and a level: encoding to
/// an in-memory buffer is single-threaded and deterministic in the input
/// bytes and the level alone; None when the encoder reports a failure.
pub uninterp spec fn zstd_encode(data: Seq<u8>, level: int) -> Option<Seq<u8>>;

/// Relies on zstd::stream::encode_all and decode_all: encode_all produces
/// a zstd frame deterministically from its input and level, and decode_all
/// restores from that frame exactly the bytes that were encoded.
#[verifier::external_body]
fn compress(data: &Vec<u8>, level: i32) -> (r: Option<Vec<u8>>)
    ensures
        match r {
            Some(v) => zstd_encode(data@, level as int) == Some(v@) && zstd_decode(v@)
                == Some(data@),
            None => zstd_encode(data@, level as int) is None,
        },
{
    match zstd::stream::encode_all(data.as_slice(), level) {
        Ok(v) => Some(v),
        Err(_) => None,
    }
}

/// Relies on zstd::stream::decode_all: its outcome, success or failure,
/// depends on the input bytes alone; `zstd_decode` names that outcome.
#[verifier::external_body]
fn decompress(data: &[u8]) -> (r: Option<Vec<u8>>)
    ensures
        match r {
            Some(v) => zstd_decode(data@) == Some(v@),
            None => zstd_decode(data@) is None,
        },
{
    match zstd::stream::decode_all(data) {
        Ok(v) => Some(v),
        Err(_) => None,
    }
}

/// Coverage counts add up over concatenated command lists.
pub proof fn lemma_count_concat(a: Seq<CopyCmd>, b: Seq<CopyCmd>, t: int)
    ensures
        count_covering(a + b, t) == count_covering(a, t) + count_covering(b, t),
    decreases b.len(),
{
    if b.len() == 0 {
        assert(a + b =~= a);
    } else {
        assert((a + b).drop_last() =~= a + b.drop_last());
        assert((a + b).last() == b.last());
        lemma_count_concat(a, b.drop_last(), t);
    }
}

/// Two commands covering the same position, somewhere in a list, drive the
/// count to at least two.
proof fn lemma_count_ge_two(s: Seq<CopyCmd>, t: int, i: int, j: int)
    requires
        0 <= i < s.len(),
        0 <= j < s.len(),
        i != j,
        cmd_covers(s[i], t),
        cmd_covers(s[j], t),
    ensures
        count_covering(s, t) >= 2,
    decreases s.len(),
{
    let lo = if i < j {
        i
    } else {
        j
    };
    let hi = if i < j {
        j
    } else {
        i
    };
    if hi == s.len() - 1 {
        lemma_count_covering_at(s.drop_last(), t, lo);
    } else {
        lemma_count_ge_two(s.drop_last(), t, lo, hi);
    }
}

/// A count above zero names a covering command.
proof fn lemma_count_pos_witness(s: Seq<CopyCmd>, t: int)
    requires
        count_covering(s, t) > 0,
    ensures
        exists|i: int| 0 <= i < s.len() && cmd_covers(#[trigger] s[i], t),
    decreases s.len(),
{
    if s.len() > 0 {
        if cmd_covers(s.last(), t) {
            assert(cmd_covers(s[s.len() - 1], t));
        } else {
            lemma_count_pos_witness(s.drop_last(), t);
            let i = choose|i: int|
                0 <= i < s.drop_last().len() && cmd_covers(#[trigger] s.drop_last()[i], t);
            assert(cmd_covers(s[i], t));
        }
    }
}

/// Two commands whose ranges intersect, arithmetically.
pub open spec fn cmds_overlap(c1: CopyCmd, c2: CopyCmd) -> bool {
    &&& c1.size > 0
    &&& c2.size > 0
    &&& c1.target < c2.target + c2.size
    &&& c2.target < c1.target + c1.size
}

proof fn lemma_overlap_iff(c1: CopyCmd, c2: CopyCmd)
    ensures
        cmds_overlap(c1, c2) == exists|t: int| cmd_covers(c1, t) && #[trigger] cmd_covers(
            c2,
            t,
        ),
{
    if cmds_overlap(c1, c2) {
        let t = if c1.target >= c2.target {
            c1.target as int
        } else {
            c2.target as int
        };
        assert(cmd_covers(c1, t) && cmd_covers(c2, t));
    }
}

/// Check that a patch can be applied to a base of the given length: every
/// copy stays inside its buffers and no two copies write the same place.
pub fn validate_patch(patch: &Patch, base_len: usize) -> (r: bool)
    ensures
        r == patch_wf(*patch, base_len as int),
{
    if usize::BITS < 64 && patch.other_size > usize::MAX as u64 {
        return false;
    }
    let mut all: Vec<CopyCmd> = Vec::new();
    let mut i: usize = 0;
    while i < patch.base.len()
        invariant
            i <= patch.base@.len(),
            all@ == patch.base@.take(i as int),
        decreases patch.base@.len() - i,
    {
        all.push(patch.base[i]);
        proof {
            assert(patch.base@.take(i + 1) =~= patch.base@.take(i as int).push(
                patch.base@[i as int],
            ));
        }
        i = i + 1;
    }
    let base_cmd_count = all.len();
    let mut j: usize = 0;
    proof {
        assert(patch.base@.take(patch.base@.len() as int) =~= patch.base@);
        assert(patch.other@.take(0) =~= Seq::<CopyCmd>::empty());
        assert(all@ =~= patch.base@ + patch.other@.take(0));
    }
    while j < patch.other.len()
        invariant
            j <= patch.other@.len(),
            all@ == patch.base@ + patch.other@.take(j as int),
        decreases patch.other@.len() - j,
    {
        all.push(patch.other[j]);
        proof {
            assert(patch.other@.take(j + 1) =~= patch.other@.take(j as int).push(
                patch.other@[j as int],
            ));
            assert((patch.base@ + patch.other@.take(j as int)).push(patch.other@[j as int])
                =~= patch.base@ + patch.other@.take(j + 1));
        }
        j = j + 1;
    }
    proof {
        assert(patch.other@.take(patch.other@.len() as int) =~= patch.other@);
    }
    // bounds of every command
    let mut k: usize = 0;
    while k < all.len()
        invariant
            k <= all@.len(),
            all@ == patch.base@ + patch.other@,
            base_cmd_count == patch.base@.len(),
            forall|m: int|
                0 <= m < k ==> {
                    let c = #[trigger] all@[m];
                    let src_len: int = if m < patch.base@.len() {
                        base_len as int
                    } else {
                        patch.data@.len() as int
                    };
                    c.source + c.size <= src_len && c.target + c.size <= patch.other_size
                },
        decreases all@.len() - k,
    {
        let c = all[k];
        let src_len: u64 = if k < base_cmd_count {
            base_len as u64
        } else {
            patch.data.len() as u64
        };
        if !(c.source <= u64::MAX - c.size as u64 && c.source + c.size as u64 <= src_len) {
            proof {
                assert(!patch_wf(*patch, base_len as int)) by {
                    let m = k as int;
                    if m < patch.base@.len() {
                        assert(patch.base@[m] == all@[m]);
                    } else {
                        assert(patch.other@[m - patch.base@.len()] == all@[m]);
                    }
                }
            }
            return false;
        }
        if !(c.target <= u64::MAX - c.size as u64 && c.target + c.size as u64
            <= patch.other_size) {
            proof {
                assert(!patch_wf(*patch, base_len as int)) by {
                    let m = k as int;
                    if m < patch.base@.len() {
                        assert(patch.base@[m] == all@[m]);
                    } else {
                        assert(patch.other@[m - patch.base@.len()] == all@[m]);
                    }
                }
            }
            return false;
        }
        k = k + 1;
    }
    // pairwise disjointness of the written ranges
    let mut a: usize = 0;
    while a < all.len()
        invariant
            a <= all@.len(),
            all@ == patch.base@ + patch.other@,
            forall|x: int, y: int|
                0 <= x < y < all@.len() && x < a ==> !cmds_overlap(
                    #[trigger] all@[x],
                    #[trigger] all@[y],
                ),
        decreases all@.len() - a,
    {
        let ca = all[a];
        let mut b: usize = a + 1;
        while b < all.len()
            invariant
                a < b <= all@.len(),
                a < all@.len(),
                ca == all@[a as int],
                all@ == patch.base@ + patch.other@,
                forall|y: int| a < y < b ==> !cmds_overlap(ca, #[trigger] all@[y]),
            decreases all@.len() - b,
        {
            let cb = all[b];
            let o1 = ca.size > 0 && cb.size > 0 && (ca.target as u128)
                < cb.target as u128 + cb.size as u128 && (cb.target as u128)
                < ca.target as u128 + ca.size as u128;
            if o1 {
                proof {
                    assert(cmds_overlap(all@[a as int], all@[b as int]));
                    lemma_overlap_iff(all@[a as int], all@[b as int]);
                    let t = choose|t: int|
                        cmd_covers(all@[a as int], t) && #[trigger] cmd_covers(
                            all@[b as int],
                            t,
                        );
                    lemma_count_ge_two(all@, t, a as int, b as int);
                    lemma_count_concat(patch.base@, patch.other@, t);
                    lemma_count_covering_nonneg(patch.base@, t);
                    lemma_count_covering_nonneg(patch.other@, t);
                    assert(!patch_wf(*patch, base_len as int));
                }
                return false;
            }
            b = b + 1;
        }
        a = a + 1;
    }
    proof {
        assert(patch_wf(*patch, base_len as int)) by {
            assert forall|t: int|
                count_covering(patch.base@, t) + count_covering(patch.other@, t) <= 1 by {
                lemma_count_concat(patch.base@, patch.other@, t);
                lemma_count_covering_nonneg(patch.base@, t);
                lemma_count_covering_nonneg(patch.other@, t);
                if count_covering(all@, t) >= 2 {
                    lemma_two_covering_indices(all@, t);
                    let (x2, y2): (int, int) = choose|x2: int, y2: int|
                        0 <= x2 < y2 < all@.len() && cmd_covers(#[trigger] all@[x2], t)
                            && cmd_covers(#[trigger] all@[y2], t);
                    lemma_overlap_iff(all@[x2], all@[y2]);
                    assert(cmds_overlap(all@[x2], all@[y2]));
                    assert(false);
                }
            }
            assert(cmds_in_bounds(patch.base@, base_len as int, patch.other_size as int)) by {
                assert forall|m: int| 0 <= m < patch.base@.len() implies (
                #[trigger] patch.base@[m]).source + patch.base@[m].size <= base_len as int
                    && patch.base@[m].target + patch.base@[m].size <= patch.other_size by {
                    assert(all@[m] == patch.base@[m]);
                }
            }
            assert(cmds_in_bounds(
                patch.other@,
                patch.data@.len() as int,
                patch.other_size as int,
            )) by {
                assert forall|m: int| 0 <= m < patch.other@.len() implies (
                #[trigger] patch.other@[m]).source + patch.other@[m].size
                    <= patch.data@.len() as int && patch.other@[m].target
                    + patch.other@[m].size <= patch.other_size by {
                    assert(all@[m + patch.base@.len()] == patch.other@[m]);
                }
            }
        }
    }
    true
}

/// A count of two or more names two distinct covering commands.
proof fn lemma_two_covering_indices(s: Seq<CopyCmd>, t: int)
    requires
        count_covering(s, t) >= 2,
    ensures
        exists|x: int, y: int|
            0 <= x < y < s.len() && cmd_covers(#[trigger] s[x], t) && cmd_covers(
                #[trigger] s[y],
                t,
            ),
    decreases s.len(),
{
    lemma_count_covering_nonneg(s.drop_last(), t);
    if cmd_covers(s.last(), t) {
        if count_covering(s.drop_last(), t) >= 1 {
            lemma_count_pos_witness(s.drop_last(), t);
            let x = choose|x: int|
                0 <= x < s.drop_last().len() && cmd_covers(#[trigger] s.drop_last()[x], t);
            assert(s[x] == s.drop_last()[x]);
            assert(cmd_covers(s[x], t) && cmd_covers(s[s.len() - 1], t));
        } else {
            lemma_two_covering_indices(s.drop_last(), t);
        }
    } else {
        lemma_two_covering_indices(s.drop_last(), t);
        let (x, y): (int, int) = choose|x: int, y: int|
            0 <= x < y < s.drop_last().len() && cmd_covers(#[trigger] s.drop_last()[x], t)
                && cmd_covers(#[trigger] s.drop_last()[y], t);
        assert(s[x] == s.drop_last()[x] && s[y] == s.drop_last()[y]);
        assert(cmd_covers(s[x], t) && cmd_covers(s[y], t));
    }
}

} // verus!

verus! {

/// Equal encodings come from equal containers: every field of the
/// container can be read back off its bytes.
pub proof fn lemma_container_injective(
    bh1: Hash128,
    oh1: Hash128,
    p1: Patch,
    bh2: Hash128,
    oh2: Hash128,
    p2: Patch,
)
    requires
        container_bytes(bh1@, oh1@, p1) == container_bytes(bh2@, oh2@, p2),
    ensures
        bh1@ == bh2@,
        oh1@ == oh2@,
        p1.data@ == p2.data@,
        p1.base@ == p2.base@,
        p1.other@ == p2.other@,
        p1.other_size == p2.other_size,
{
    crate::hash::lemma_hash128_len(bh1);
    crate::hash::lemma_hash128_len(oh1);
    crate::hash::lemma_hash128_len(bh2);
    crate::hash::lemma_hash128_len(oh2);
    lemma_container_shape(bh1@, oh1@, p1);
    lemma_container_shape(bh2@, oh2@, p2);
    let c = container_bytes(bh1@, oh1@, p1);
    lemma_u64_le_value(p1.data@.len() as u64);
    lemma_u64_le_value(p2.data@.len() as u64);
    vstd::std_specs::vec::axiom_spec_len(&p1.data);
    vstd::std_specs::vec::axiom_spec_len(&p2.data);
    vstd::std_specs::vec::axiom_spec_len(&p1.base);
    vstd::std_specs::vec::axiom_spec_len(&p2.base);
    vstd::std_specs::vec::axiom_spec_len(&p1.other);
    vstd::std_specs::vec::axiom_spec_len(&p2.other);
    assert(u64_of_le(c.subrange(44, 52)) == p1.data@.len());
    assert(u64_of_le(c.subrange(44, 52)) == p2.data@.len());
    let dlen = p1.data@.len() as int;
    assert(p1.data@ == c.subrange(52, 52 + dlen) && p2.data@ == c.subrange(52, 52 + dlen));
    lemma_u64_le_value(p1.base@.len() as u64);
    lemma_u64_le_value(p2.base@.len() as u64);
    assert(p1.base@.len() == p2.base@.len());
    let blen = p1.base@.len() as int;
    lemma_u64_le_value(p1.other@.len() as u64);
    lemma_u64_le_value(p2.other@.len() as u64);
    assert(p1.other@.len() == p2.other@.len());
    let olen = p1.other@.len() as int;
    assert(encode_cmds(p1.base@) == c.subrange(60 + dlen, 60 + dlen + 20 * blen));
    assert(encode_cmds(p2.base@) == c.subrange(60 + dlen, 60 + dlen + 20 * blen));
    lemma_encode_cmds_injective(p1.base@, p2.base@);
    assert(encode_cmds(p1.other@) == encode_cmds(p2.other@));
    lemma_encode_cmds_injective(p1.other@, p2.other@);
    lemma_u64_le_value(p1.other_size);
    lemma_u64_le_value(p2.other_size);
    assert(u64_le(p1.other_size) == u64_le(p2.other_size));
    assert(p1.other_size == p2.other_size) by {
        assert(u64_of_le(u64_le(p1.other_size)) == u64_of_le(u64_le(p2.other_size)));
    }
}

/// Command lists of equal length with equal encodings are equal.
proof fn lemma_encode_cmds_injective(s1: Seq<CopyCmd>, s2: Seq<CopyCmd>)
    requires
        s1.len() == s2.len(),
        encode_cmds(s1) == encode_cmds(s2),
    ensures
        s1 == s2,
{
    assert forall|k: int| 0 <= k < s1.len() implies s1[k] == s2[k] by {
        lemma_encode_cmds_index(s1, k);
        lemma_encode_cmds_index(s2, k);
        assert(encode_cmd(s1[k]) == encode_cmd(s2[k]));
        assert(u64_le(s1[k].source) == u64_le(s2[k].source) && u64_le(s1[k].target) == u64_le(
            s2[k].target,
        ) && u32_le(s1[k].size) == u32_le(s2[k].size)) by {
            lemma_u64_le_value(s1[k].source);
            lemma_u64_le_value(s1[k].target);
            lemma_u32_le_value(s1[k].size);
            lemma_u64_le_value(s2[k].source);
            lemma_u64_le_value(s2[k].target);
            lemma_u32_le_value(s2[k].size);
            assert(encode_cmd(s1[k]).subrange(0, 8) =~= u64_le(s1[k].source));
            assert(encode_cmd(s1[k]).subrange(8, 16) =~= u64_le(s1[k].target));
            assert(encode_cmd(s1[k]).subrange(16, 20) =~= u32_le(s1[k].size));
            assert(encode_cmd(s2[k]).subrange(0, 8) =~= u64_le(s2[k].source));
            assert(encode_cmd(s2[k]).subrange(8, 16) =~= u64_le(s2[k].target));
            assert(encode_cmd(s2[k]).subrange(16, 20) =~= u32_le(s2[k].size));
        }
        assert(s1[k].source == s2[k].source) by {
            lemma_u64_le_value(s1[k].source);
            lemma_u64_le_value(s2[k].source);
        }
        assert(s1[k].target == s2[k].target) by {
            lemma_u64_le_value(s1[k].target);
            lemma_u64_le_value(s2[k].target);
        }
        assert(s1[k].size == s2[k].size) by {
            lemma_u32_le_value(s1[k].size);
            lemma_u32_le_value(s2[k].size);
        }
    }
    assert(s1 =~= s2);
}

/// Two patches with the same contents reconstruct the same bytes.
pub proof fn lemma_apply_spec_congruence(base: Seq<u8>, p1: Patch, p2: Patch)
    requires
        p1.data@ == p2.data@,
        p1.base@ == p2.base@,
        p1.other@ == p2.other@,
        p1.other_size == p2.other_size,
    ensures
        crate::laws::apply_spec(base, p1) == crate::laws::apply_spec(base, p2),
        patch_wf(p1, base.len() as int) == patch_wf(p2, base.len() as int),
{
    assert(crate::laws::apply_spec(base, p1) =~= crate::laws::apply_spec(base, p2));
}

} // verus!

verus! {

/// Compute a patch from base to target, verify it internally by applying
/// it, and return the compressed container. Under collision-freedom of the
/// strong hash on the hashed ranges, only the compressor can fail.
pub fn create_patch(base: &[u8], other: &[u8], block_size: usize, level: i32) -> (r: Result<
    Vec<u8>,
    PatchError,
>)
    requires
        1 <= block_size <= u32::MAX,
        other@.len() <= u32::MAX,
    ensures
        match r {
            Ok(bytes) => exists|p: Patch|
                {
                    &&& #[trigger] patch_wf(p, base@.len() as int)
                    &&& zstd_encode(
                        container_bytes(strong_hash_of(base@), strong_hash_of(other@), p),
                        level as int,
                    ) == Some(bytes@)
                    &&& zstd_decode(bytes@) == Some(
                        container_bytes(
                            strong_hash_of(base@),
                            strong_hash_of(other@),
                            p,
                        ),
                    )
                    &&& p.other_size == other@.len()
                    &&& strong_hash_of(crate::laws::apply_spec(base@, p)) == strong_hash_of(
                        other@,
                    )
                },
            Err(e) => e == PatchError::InvalidCommands || e == PatchError::OtherHashMismatch
                || e == PatchError::CompressFailed,
        },
        crate::laws::no_collisions(base@, other@, block_size as int) && r is Err ==> r
            == Err::<Vec<u8>, PatchError>(PatchError::CompressFailed),
        // the compressor fails only on the container it was actually handed:
        // success is owed whenever the encoder accepts that container
        r == Err::<Vec<u8>, PatchError>(PatchError::CompressFailed) ==> exists|p: Patch|
            {
                &&& #[trigger] patch_wf(p, base@.len() as int)
                &&& p.other_size == other@.len()
                &&& strong_hash_of(crate::laws::apply_spec(base@, p)) == strong_hash_of(
                    other@,
                )
                &&& zstd_encode(
                    container_bytes(strong_hash_of(base@), strong_hash_of(other@), p),
                    level as int,
                ) is None
            },
{
    let ghost bs = block_size as int;
    let other_blocks = compute_blocks(other, block_size);
    let patch_commands = compute_diff(base, &other_blocks, block_size);
    let ghost assign = crate::patchy::diff_assign(base@, other_blocks@, bs);
    proof {
        crate::laws::lemma_diff_cmds_basic(
            other_blocks@,
            assign,
            other@,
            bs,
            other_blocks@.len() as int,
        );
        assert(other_blocks@.take(other_blocks@.len() as int) =~= other_blocks@);
        assert(assign.take(assign.len() as int) =~= assign);
        crate::patchy::lemma_ceil_mul_ge(other@.len() as int, bs);
        assert(vstd::math::min(
            other_blocks@.len() as int * bs,
            other@.len() as int,
        ) == other@.len() as int);
    }
    let patch = build_patch(other, &patch_commands);
    if !validate_patch(&patch, base.len()) {
        proof {
            if crate::laws::no_collisions(base@, other@, bs) {
                crate::laws::lemma_round_trip(
                    base@,
                    other@,
                    bs,
                    other_blocks@,
                    patch_commands,
                    assign,
                    patch,
                );
            }
        }
        return Err(PatchError::InvalidCommands);
    }
    let applied = apply_patch(base, &patch);
    proof {
        crate::laws::lemma_apply_unique(base@, patch, applied@);
    }
    let other_hash = compute_hash_strong(other);
    let applied_hash = compute_hash_strong(applied.as_slice());
    if !(applied_hash == other_hash) {
        proof {
            if crate::laws::no_collisions(base@, other@, bs) {
                crate::laws::lemma_round_trip(
                    base@,
                    other@,
                    bs,
                    other_blocks@,
                    patch_commands,
                    assign,
                    patch,
                );
            }
        }
        return Err(PatchError::OtherHashMismatch);
    }
    let base_hash = compute_hash_strong(base);
    let encoded = encode_container(&base_hash, &other_hash, &patch);
    match compress(&encoded, level) {
        Some(compressed) => {
            proof {
                assert(patch_wf(patch, base@.len() as int));
                assert(zstd_decode(compressed@) == Some(
                    container_bytes(strong_hash_of(base@), strong_hash_of(other@), patch),
                ));
            }
            Ok(compressed)
        },
        None => Err(PatchError::CompressFailed),
    }
}

/// Decompress and parse a container, verify the base against its recorded
/// digest, apply the patch, and verify the reconstruction against the
/// recorded target digest. Each recorded digest is compared in constant
/// time; tampering with either one, or with any byte the reconstruction
/// depends on, makes the corresponding verification fail.
pub fn apply_container(base: &[u8], container: &[u8]) -> (r: Result<Vec<u8>, PatchError>)
    ensures
        match r {
            Ok(out) => exists|p: Patch|
                {
                    &&& #[trigger] patch_wf(p, base@.len() as int)
                    &&& zstd_decode(container@) == Some(
                        container_bytes(strong_hash_of(base@), strong_hash_of(out@), p),
                    )
                    &&& out@ == crate::laws::apply_spec(base@, p)
                },
            Err(e) => true,
        },
        (zstd_decode(container@) is None) <==> r == Err::<Vec<u8>, PatchError>(
            PatchError::DecompressFailed,
        ),
        forall|bh: Hash128, oh: Hash128, p: Patch|
            zstd_decode(container@) == Some(#[trigger] container_bytes(bh@, oh@, p)) && bh@
                != strong_hash_of(base@) ==> r == Err::<Vec<u8>, PatchError>(
                PatchError::BaseHashMismatch,
            ),
        forall|bh: Hash128, oh: Hash128, p: Patch|
            zstd_decode(container@) == Some(#[trigger] container_bytes(bh@, oh@, p)) && bh@
                == strong_hash_of(base@) && !patch_wf(p, base@.len() as int) ==> r == Err::<
                Vec<u8>,
                PatchError,
            >(PatchError::InvalidCommands),
        forall|bh: Hash128, oh: Hash128, p: Patch|
            zstd_decode(container@) == Some(#[trigger] container_bytes(bh@, oh@, p)) && bh@
                == strong_hash_of(base@) && patch_wf(p, base@.len() as int)
                && strong_hash_of(crate::laws::apply_spec(base@, p)) != oh@ ==> r == Err::<
                Vec<u8>,
                PatchError,
            >(PatchError::OtherHashMismatch),
        forall|bh: Hash128, oh: Hash128, p: Patch|
            zstd_decode(container@) == Some(#[trigger] container_bytes(bh@, oh@, p)) && bh@
                == strong_hash_of(base@) && patch_wf(p, base@.len() as int)
                && strong_hash_of(crate::laws::apply_spec(base@, p)) == oh@ ==> r is Ok,
        zstd_decode(container@) is Some && (forall|bh: Hash128, oh: Hash128, p: Patch|
            zstd_decode(container@)->0 != container_bytes(bh@, oh@, p)) ==> (r == Err::<
            Vec<u8>,
            PatchError,
        >(PatchError::BadMagic) || r == Err::<Vec<u8>, PatchError>(PatchError::BadVersion) || r
            == Err::<Vec<u8>, PatchError>(PatchError::Malformed)),
{
    let decompressed = match decompress(container) {
        Some(d) => d,
        None => {
            return Err(PatchError::DecompressFailed);
        },
    };
    let (recorded_base_hash, recorded_other_hash, patch) = match decode_container(
        decompressed.as_slice(),
    ) {
        Ok(t) => t,
        Err(e) => {
            proof {
                assert forall|bh: Hash128, oh: Hash128, p: Patch|
                    zstd_decode(container@) != Some(
                        #[trigger] container_bytes(bh@, oh@, p),
                    ) by {
                    assert(decompressed@ != container_bytes(bh@, oh@, p));
                }
            }
            return Err(e);
        },
    };
    proof {
        assert(decompressed@ == container_bytes(
            recorded_base_hash@,
            recorded_other_hash@,
            patch,
        ));
    }
    let base_hash = compute_hash_strong(base);
    if !(base_hash == recorded_base_hash) {
        proof {
            assert forall|bh: Hash128, oh: Hash128, p: Patch|
                zstd_decode(container@) == Some(#[trigger] container_bytes(bh@, oh@, p))
                    implies bh@ == recorded_base_hash@ by {
                lemma_container_injective(
                    bh,
                    oh,
                    p,
                    recorded_base_hash,
                    recorded_other_hash,
                    patch,
                );
            }
        }
        return Err(PatchError::BaseHashMismatch);
    }
    if !validate_patch(&patch, base.len()) {
        proof {
            assert forall|bh: Hash128, oh: Hash128, p: Patch|
                zstd_decode(container@) == Some(#[trigger] container_bytes(bh@, oh@, p))
                    implies bh@ == strong_hash_of(base@) && !patch_wf(
                    p,
                    base@.len() as int,
                ) by {
                lemma_container_injective(
                    bh,
                    oh,
                    p,
                    recorded_base_hash,
                    recorded_other_hash,
                    patch,
                );
                lemma_apply_spec_congruence(base@, p, patch);
            }
        }
        return Err(PatchError::InvalidCommands);
    }
    let applied = apply_patch(base, &patch);
    proof {
        crate::laws::lemma_apply_unique(base@, patch, applied@);
    }
    let applied_hash = compute_hash_strong(applied.as_slice());
    if !(applied_hash == recorded_other_hash) {
        proof {
            assert forall|bh: Hash128, oh: Hash128, p: Patch|
                zstd_decode(container@) == Some(#[trigger] container_bytes(bh@, oh@, p))
                    implies bh@ == strong_hash_of(base@) && patch_wf(p, base@.len() as int)
                && strong_hash_of(crate::laws::apply_spec(base@, p)) != oh@ by {
                lemma_container_injective(
                    bh,
                    oh,
                    p,
                    recorded_base_hash,
                    recorded_other_hash,
                    patch,
                );
                lemma_apply_spec_congruence(base@, p, patch);
            }
        }
        return Err(PatchError::OtherHashMismatch);
    }
    proof {
        assert(patch_wf(patch, base@.len() as int));
        assert(zstd_decode(container@) == Some(
            container_bytes(strong_hash_of(base@), strong_hash_of(applied@), patch),
        ));
        assert forall|bh: Hash128, oh: Hash128, p: Patch|
            zstd_decode(container@) == Some(#[trigger] container_bytes(bh@, oh@, p)) implies (
        bh@ == strong_hash_of(base@) && patch_wf(p, base@.len() as int) && strong_hash_of(
            crate::laws::apply_spec(base@, p),
        ) == oh@) by {
            lemma_container_injective(
                bh,
                oh,
                p,
                recorded_base_hash,
                recorded_other_hash,
                patch,
            );
            lemma_apply_spec_congruence(base@, p, patch);
        }
    }
    Ok(applied)
}

} // verus!
