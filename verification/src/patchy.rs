use vstd::prelude::*;
use vstd::arithmetic::div_mod::{lemma_fundamental_div_mod, lemma_mod_division_less_than_divisor};
use vstd::arithmetic::mul::lemma_mul_inequality;
use vstd::math::min;

use crate::hash::{compute_hash_strong, compute_hash_weak, strong_hash_of, weak_hash_of, Hash128};

verus! {

pub const DEFAULT_BLOCK_SIZE: usize = 2048;

/// Ceiling division.
pub open spec fn div_up_spec(num: int, den: int) -> int {
    if num % den == 0 {
        num / den
    } else {
        num / den + 1
    }
}

fn div_up(num: usize, den: usize) -> (r: usize)
    requires
        den >= 1,
    ensures
        r == div_up_spec(num as int, den as int),
{
    if num % den == 0 {
        num / den
    } else {
        proof {
            lemma_fundamental_div_mod(num as int, den as int);
            lemma_mod_division_less_than_divisor(num as int, den as int);
            assert((num as int) / (den as int) < num) by (nonlinear_arith)
                requires
                    den >= 1,
                    (num as int) % (den as int) != 0,
                    num as int == (den as int) * ((num as int) / (den as int)) + (num as int) % (
                    den as int),
                    0 <= (num as int) % (den as int) < den as int,
            ;
        }
        num / den + 1
    }
}

/// A fixed-size aligned slice of the target sequence, with its two digests.
#[derive(Clone, Copy)]
pub struct Block {
    pub offset: u64,
    pub size: u32,
    pub hash_weak: u32,
    pub hash_strong: Hash128,
}

/// The bytes of block `i` when `input` is cut into aligned pieces of `bs`.
pub open spec fn block_at(input: Seq<u8>, bs: int, i: int) -> Seq<u8> {
    input.subrange(i * bs, min(i * bs + bs, input.len() as int))
}

/// `blocks` is exactly the block decomposition of `input` with block size `bs`.
pub open spec fn is_block_list(blocks: Seq<Block>, input: Seq<u8>, bs: int) -> bool {
    &&& blocks.len() == div_up_spec(input.len() as int, bs)
    &&& forall|i: int|
        0 <= i < blocks.len() ==> {
            &&& (#[trigger] blocks[i]).offset == i * bs
            &&& blocks[i].size == min(i * bs + bs, input.len() as int) - i * bs
            &&& blocks[i].hash_weak == weak_hash_of(block_at(input, bs, i))
            &&& blocks[i].hash_strong@ == strong_hash_of(block_at(input, bs, i))
        }
}

/// The number of whole or partial blocks `i` with `i * bs >= l` and
/// `(i - 1) * bs < l` is exactly the ceiling of `l / bs`.
proof fn lemma_ceil_unique(i: int, l: int, bs: int)
    requires
        bs >= 1,
        l >= 0,
        i >= 0,
        i * bs >= l,
        i == 0 || (i - 1) * bs < l,
    ensures
        i == div_up_spec(l, bs),
{
    let q = div_up_spec(l, bs);
    lemma_fundamental_div_mod(l, bs);
    lemma_mod_division_less_than_divisor(l, bs);
    assert(q * bs >= l) by (nonlinear_arith)
        requires
            bs >= 1,
            l >= 0,
            l == bs * (l / bs) + l % bs,
            0 <= l % bs < bs,
            q == div_up_spec(l, bs),
            q == if l % bs == 0 {
                l / bs
            } else {
                l / bs + 1
            },
    ;
    assert(q == 0 || (q - 1) * bs < l) by (nonlinear_arith)
        requires
            bs >= 1,
            l >= 0,
            l == bs * (l / bs) + l % bs,
            0 <= l % bs < bs,
            q == if l % bs == 0 {
                l / bs
            } else {
                l / bs + 1
            },
    ;
    if i < q {
        lemma_mul_inequality(i, q - 1, bs);
        assert(false);
    }
    if q < i {
        lemma_mul_inequality(q, i - 1, bs);
        assert(q >= 0) by (nonlinear_arith)
            requires
                bs >= 1,
                l >= 0,
                q * bs >= l,
                q == if l % bs == 0 {
                    l / bs
                } else {
                    l / bs + 1
                },
                l == bs * (l / bs) + l % bs,
                0 <= l % bs < bs,
        ;
        assert(false);
    }
}

/// Cut `input` into `ceil(|input| / block_size)` aligned blocks, the last
/// possibly short, each carrying both digests of its bytes.
pub fn compute_blocks(input: &[u8], block_size: usize) -> (r: Vec<Block>)
    requires
        1 <= block_size <= u32::MAX,
    ensures
        is_block_list(r@, input@, block_size as int),
{
    let mut result: Vec<Block> = Vec::new();
    let len = input.len();
    let ghost bs = block_size as int;
    let mut begin: usize = 0;
    proof {
        assert(result@.len() as int * bs == 0) by (nonlinear_arith)
            requires
                result@.len() == 0,
        ;
    }
    while begin < len
        invariant
            1 <= block_size <= u32::MAX,
            bs == block_size as int,
            len == input@.len(),
            begin <= len,
            begin == min(result@.len() as int * bs, len as int),
            result@.len() == 0 || (result@.len() as int - 1) * bs < len,
            forall|j: int|
                0 <= j < result@.len() ==> {
                    &&& (#[trigger] result@[j]).offset == j * bs
                    &&& result@[j].size == min(j * bs + bs, len as int) - j * bs
                    &&& result@[j].hash_weak == weak_hash_of(block_at(input@, bs, j))
                    &&& result@[j].hash_strong@ == strong_hash_of(block_at(input@, bs, j))
                },
        decreases len - begin,
    {
        let ghost i = result@.len() as int;
        proof {
            assert(i * bs <= len as int || len as int <= i * bs);
            assert(begin == i * bs);
        }
        let end = if len - begin >= block_size {
            begin + block_size
        } else {
            len
        };
        let block_slice = vstd::slice::slice_subrange(input, begin, end);
        proof {
            assert(end == min(i * bs + bs, len as int));
            assert(block_slice@ =~= block_at(input@, bs, i));
        }
        let hw = compute_hash_weak(block_slice);
        let hs = compute_hash_strong(block_slice);
        result.push(
            Block {
                offset: begin as u64,
                size: (end - begin) as u32,
                hash_weak: hw,
                hash_strong: hs,
            },
        );
        proof {
            assert((i + 1) * bs == i * bs + bs) by (nonlinear_arith);
            assert(begin as u64 == i * bs);
            assert(result@[i].offset == i * bs);
            assert(result@[i].size == min(i * bs + bs, len as int) - i * bs);
            assert(forall|j: int|
                0 <= j < i ==> result@[j] == (#[trigger] result@.drop_last()[j]));
            assert(end == min((i + 1) * bs, len as int));
        }
        begin = end;
    }
    proof {
        let l = len as int;
        let bs = block_size as int;
        let i = result@.len() as int;
        if l == 0 {
            assert(i == 0);
            assert(l % bs == 0) by {
                vstd::arithmetic::div_mod::lemma_small_mod(0, bs as nat);
            }
            assert(l / bs == 0) by {
                lemma_fundamental_div_mod(l, bs);
                lemma_mod_division_less_than_divisor(l, bs);
                assert(bs * (l / bs) == 0 - l % bs + l);
                assert(l / bs == 0) by (nonlinear_arith)
                    requires
                        bs >= 1 && bs * (l / bs) == 0,
                ;
            }
        } else {
            assert(begin == len);
            assert(i * bs >= l);
            lemma_ceil_unique(i, l, bs);
        }
    }
    result
}

/// A range copy: `size` bytes read at `source` in some source buffer and
/// written at `target` in the reconstruction.
#[derive(Clone, Copy, Debug, PartialEq, Eq, Structural)]
pub struct CopyCmd {
    pub source: u64,
    pub target: u64,
    pub size: u32,
}

/// Total number of bytes moved by a command list.
pub open spec fn sum_sizes(s: Seq<CopyCmd>) -> int
    decreases s.len(),
{
    if s.len() == 0 {
        0
    } else {
        sum_sizes(s.drop_last()) + s.last().size
    }
}

/// Does command `c` write the reconstruction position `t`?
pub open spec fn cmd_covers(c: CopyCmd, t: int) -> bool {
    c.target <= t < c.target + c.size
}

/// The source position that `c` reads for reconstruction position `t`.
pub open spec fn cmd_src(c: CopyCmd, t: int) -> int {
    c.source + (t - c.target)
}

/// How many commands of `s` write position `t`.
pub open spec fn count_covering(s: Seq<CopyCmd>, t: int) -> int
    decreases s.len(),
{
    if s.len() == 0 {
        0
    } else {
        count_covering(s.drop_last(), t) + if cmd_covers(s.last(), t) {
            1int
        } else {
            0int
        }
    }
}

/// Some command of `s` writes position `t` with the byte at source position `v`.
pub open spec fn maps_to(s: Seq<CopyCmd>, t: int, v: int) -> bool {
    exists|i: int| 0 <= i < s.len() && cmd_covers(#[trigger] s[i], t) && v == cmd_src(s[i], t)
}

pub proof fn lemma_count_covering_nonneg(s: Seq<CopyCmd>, t: int)
    ensures
        count_covering(s, t) >= 0,
    decreases s.len(),
{
    if s.len() > 0 {
        lemma_count_covering_nonneg(s.drop_last(), t);
    }
}

/// A covered position contributes at least one to the count, and a count
/// of zero means no command covers the position.
pub proof fn lemma_count_covering_at(s: Seq<CopyCmd>, t: int, i: int)
    requires
        0 <= i < s.len(),
        cmd_covers(s[i], t),
    ensures
        count_covering(s, t) >= 1,
    decreases s.len(),
{
    lemma_count_covering_nonneg(s.drop_last(), t);
    if i < s.len() - 1 {
        lemma_count_covering_at(s.drop_last(), t, i);
    }
}

/// The two intermediate command lists produced by the differ.
pub struct PatchCommands {
    pub base: Vec<CopyCmd>,
    pub other: Vec<CopyCmd>,
}

fn compute_copy_size(cmds: &Vec<CopyCmd>) -> (r: usize)
    requires
        sum_sizes(cmds@) <= usize::MAX,
    ensures
        r == sum_sizes(cmds@),
{
    let mut result: usize = 0;
    let mut i: usize = 0;
    proof {
        lemma_sum_sizes_take(cmds@, cmds@.len() as int);
    }
    while i < cmds.len()
        invariant
            i <= cmds@.len(),
            sum_sizes(cmds@) <= usize::MAX,
            result == sum_sizes(cmds@.take(i as int)),
        decreases cmds@.len() - i,
    {
        proof {
            assert(cmds@.take(i + 1).drop_last() =~= cmds@.take(i as int));
            assert(cmds@.take(i + 1).last() == cmds@[i as int]);
            lemma_sum_sizes_take(cmds@, i + 1);
        }
        result = result + cmds[i].size as usize;
        i = i + 1;
    }
    proof {
        assert(cmds@.take(cmds@.len() as int) =~= cmds@);
    }
    result
}

/// A prefix never moves more bytes than the whole list, and sizes are
/// non-negative throughout.
pub proof fn lemma_sum_sizes_take(s: Seq<CopyCmd>, n: int)
    requires
        0 <= n <= s.len(),
    ensures
        sum_sizes(s.take(n)) <= sum_sizes(s),
        sum_sizes(s.take(n)) >= 0,
        sum_sizes(s) >= 0,
    decreases s.len(),
{
    if s.len() == 0 {
    } else if n == s.len() {
        assert(s.take(n) =~= s);
        lemma_sum_sizes_take(s.drop_last(), s.len() - 1);
    } else {
        assert(s.take(n) =~= s.drop_last().take(n));
        lemma_sum_sizes_take(s.drop_last(), n);
    }
}

impl PatchCommands {
    pub fn new() -> (r: Self)
        ensures
            r.base@.len() == 0,
            r.other@.len() == 0,
    {
        Self { base: Vec::new(), other: Vec::new() }
    }

    pub fn need_bytes_from_base(&self) -> (r: usize)
        requires
            sum_sizes(self.base@) <= usize::MAX,
        ensures
            r == sum_sizes(self.base@),
    {
        compute_copy_size(&self.base)
    }

    pub fn need_bytes_from_other(&self) -> (r: usize)
        requires
            sum_sizes(self.other@) <= usize::MAX,
        ensures
            r == sum_sizes(self.other@),
    {
        compute_copy_size(&self.other)
    }

    /// True when the commands say that the first `base_len` bytes of the
    /// base already are the reconstruction: nothing is taken from the
    /// target side, every copy is an identity copy, and together the
    /// copies move exactly `base_len` bytes.
    pub fn is_synchronized(&self, base_len: u64) -> (r: bool)
        requires
            sum_sizes(self.base@) <= usize::MAX,
        ensures
            r == synchronized(self.base@, self.other@, base_len as int),
    {
        if self.other.len() != 0 {
            proof {
                assert(!synchronized(self.base@, self.other@, base_len as int));
            }
            return false;
        }
        let mut i: usize = 0;
        while i < self.base.len()
            invariant
                i <= self.base@.len(),
                forall|j: int|
                    0 <= j < i ==> (#[trigger] self.base@[j]).source == self.base@[j].target,
            decreases self.base@.len() - i,
        {
            if self.base[i].source != self.base[i].target {
                return false;
            }
            i = i + 1;
        }
        let total = compute_copy_size(&self.base);
        if usize::BITS < 64 && base_len > usize::MAX as u64 {
            return false;
        }
        total as u64 == base_len
    }
}

/// The intermediate command lists describe a base that already equals the
/// reconstruction target.
pub open spec fn synchronized(base: Seq<CopyCmd>, other: Seq<CopyCmd>, base_len: int) -> bool {
    &&& other.len() == 0
    &&& forall|j: int| 0 <= j < base.len() ==> (#[trigger] base[j]).source == base[j].target
    &&& sum_sizes(base) == base_len
}

} // verus!

use crate::hash::{rh_absorb, rh_digest, rh_init, RollingHash};

verus! {

/// Membership structure for the weak hashes of the target's blocks.
struct WeakSet {
    entries: Vec<u32>,
}

impl WeakSet {
    spec fn contains_spec(&self, x: u32) -> bool {
        self.entries@.contains(x)
    }

    fn new() -> (r: Self)
        ensures
            forall|y: u32| !r.contains_spec(y),
    {
        let r = WeakSet { entries: Vec::new() };
        proof {
            assert(forall|y: u32| !r.entries@.contains(y));
        }
        r
    }

    fn contains(&self, x: u32) -> (r: bool)
        ensures
            r == self.contains_spec(x),
    {
        let mut i: usize = 0;
        while i < self.entries.len()
            invariant
                i <= self.entries@.len(),
                forall|j: int| 0 <= j < i ==> self.entries@[j] != x,
            decreases self.entries@.len() - i,
        {
            if self.entries[i] == x {
                return true;
            }
            i = i + 1;
        }
        false
    }

    fn insert(&mut self, x: u32)
        ensures
            forall|y: u32|
                final(self).contains_spec(y) == (old(self).contains_spec(y) || y == x),
    {
        if !self.contains(x) {
            self.entries.push(x);
            proof {
                let es = self.entries@;
                assert forall|y: u32|
                    self.contains_spec(y) == (old(self).contains_spec(y) || y == x) by {
                    if y == x {
                        assert(es[es.len() - 1] == x);
                        assert(es.contains(y));
                    } else {
                        if old(self).contains_spec(y) {
                            let i = choose|i: int|
                                0 <= i < old(self).entries@.len() && old(self).entries@[i] == y;
                            assert(es[i] == y);
                        }
                        if self.contains_spec(y) {
                            let i = choose|i: int| 0 <= i < es.len() && es[i] == y;
                            assert(i < es.len() - 1);
                            assert(old(self).entries@[i] == y);
                        }
                    }
                }
            }
        }
    }
}

/// First-writer-wins association from a strong hash to a 64-bit offset.
struct StrongMap {
    entries: Vec<(Hash128, u64)>,
}

impl StrongMap {
    spec fn contains_spec(&self, h: Seq<u8>) -> bool {
        exists|i: int| 0 <= i < self.entries@.len() && (#[trigger] self.entries@[i]).0@ == h
    }

    fn new() -> (r: Self)
        ensures
            r.entries@.len() == 0,
            forall|h: Seq<u8>| !r.contains_spec(h),
    {
        StrongMap { entries: Vec::new() }
    }

    fn contains(&self, h: &Hash128) -> (r: bool)
        ensures
            r == self.contains_spec(h@),
    {
        let mut i: usize = 0;
        while i < self.entries.len()
            invariant
                i <= self.entries@.len(),
                forall|j: int| 0 <= j < i ==> (#[trigger] self.entries@[j]).0@ != h@,
            decreases self.entries@.len() - i,
        {
            if self.entries[i].0 == *h {
                return true;
            }
            i = i + 1;
        }
        false
    }

    fn get(&self, h: &Hash128) -> (r: Option<u64>)
        ensures
            match r {
                Some(v) => exists|i: int|
                    0 <= i < self.entries@.len() && (#[trigger] self.entries@[i]).0@ == h@
                        && self.entries@[i].1 == v,
                None => !self.contains_spec(h@),
            },
    {
        let mut i: usize = 0;
        while i < self.entries.len()
            invariant
                i <= self.entries@.len(),
                forall|j: int| 0 <= j < i ==> (#[trigger] self.entries@[j]).0@ != h@,
            decreases self.entries@.len() - i,
        {
            if self.entries[i].0 == *h {
                return Some(self.entries[i].1);
            }
            i = i + 1;
        }
        None
    }

    fn insert_if_absent(&mut self, h: Hash128, v: u64)
        ensures
            old(self).contains_spec(h@) ==> final(self).entries@ == old(self).entries@,
            !old(self).contains_spec(h@) ==> final(self).entries@ == old(self).entries@.push(
                (h, v),
            ),
            forall|x: Seq<u8>|
                final(self).contains_spec(x) == (old(self).contains_spec(x) || x == h@),
    {
        if self.contains(&h) {
            return;
        }
        self.entries.push((h, v));
        proof {
            let es = self.entries@;
            assert forall|x: Seq<u8>|
                self.contains_spec(x) == (old(self).contains_spec(x) || x == h@) by {
                if x == h@ {
                    assert(es[es.len() - 1].0@ == x);
                } else {
                    if old(self).contains_spec(x) {
                        let i = choose|i: int|
                            0 <= i < old(self).entries@.len() && (#[trigger] old(
                                self,
                            ).entries@[i]).0@ == x;
                        assert(es[i].0@ == x);
                    }
                    if self.contains_spec(x) {
                        let i = choose|i: int| 0 <= i < es.len() && (#[trigger] es[i]).0@ == x;
                        assert(i < es.len() - 1);
                        assert(old(self).entries@[i].0@ == x);
                    }
                }
            }
        }
    }
}

} // verus!

verus! {

/// Length of the matcher window that starts at `wb`: the block size, or
/// what remains of the base.
pub open spec fn window_len(base_len: int, wb: int, bs: int) -> int {
    min(bs, base_len - wb)
}

/// The window bytes that start at `wb`.
pub open spec fn window_at(base: Seq<u8>, bs: int, wb: int) -> Seq<u8> {
    base.subrange(wb, wb + window_len(base.len() as int, wb, bs))
}

/// A recorded match: some window of the base hashes to the block's strong
/// hash.
pub open spec fn match_ok(base: Seq<u8>, bs: int, src: u64, b: Block) -> bool {
    &&& 0 <= src < base.len()
    &&& strong_hash_of(window_at(base, bs, src as int)) == b.hash_strong@
}

/// The base-sourced commands that the differ emits, given which block was
/// matched where.
pub open spec fn base_cmds_of(blocks: Seq<Block>, assign: Seq<Option<u64>>) -> Seq<CopyCmd>
    decreases blocks.len(),
{
    if blocks.len() == 0 {
        Seq::empty()
    } else {
        let rest = base_cmds_of(blocks.drop_last(), assign.drop_last());
        match assign.last() {
            Some(src) => rest.push(
                CopyCmd { source: src, target: blocks.last().offset, size: blocks.last().size },
            ),
            None => rest,
        }
    }
}

/// The target-sourced commands that the differ emits for unmatched blocks.
pub open spec fn other_cmds_of(blocks: Seq<Block>, assign: Seq<Option<u64>>) -> Seq<CopyCmd>
    decreases blocks.len(),
{
    if blocks.len() == 0 {
        Seq::empty()
    } else {
        let rest = other_cmds_of(blocks.drop_last(), assign.drop_last());
        match assign.last() {
            Some(src) => rest,
            None => rest.push(
                CopyCmd {
                    source: blocks.last().offset,
                    target: blocks.last().offset,
                    size: blocks.last().size,
                },
            ),
        }
    }
}

/// What the differ guarantees: each block becomes exactly one command, in
/// block order; matched blocks point at a base window that carries their
/// strong hash, the rest copy the block's own range.
pub open spec fn diff_post(
    r: PatchCommands,
    base: Seq<u8>,
    blocks: Seq<Block>,
    bs: int,
    assign: Seq<Option<u64>>,
) -> bool {
    &&& assign.len() == blocks.len()
    &&& r.base@ == base_cmds_of(blocks, assign)
    &&& r.other@ == other_cmds_of(blocks, assign)
    &&& forall|i: int|
        0 <= i < assign.len() && assign[i] is Some ==> match_ok(
            base,
            bs,
            (#[trigger] assign[i])->0,
            blocks[i],
        )
}

/// The ceiling of `l / bs`, multiplied back, reaches `l`.
pub proof fn lemma_ceil_mul_ge(l: int, bs: int)
    requires
        bs >= 1,
        l >= 0,
    ensures
        div_up_spec(l, bs) * bs >= l,
        div_up_spec(l, bs) >= 0,
        div_up_spec(l, bs) == 0 || (div_up_spec(l, bs) - 1) * bs < l,
{
    let q = div_up_spec(l, bs);
    lemma_fundamental_div_mod(l, bs);
    lemma_mod_division_less_than_divisor(l, bs);
    assert(q * bs >= l && q >= 0 && (q == 0 || (q - 1) * bs < l)) by (nonlinear_arith)
        requires
            bs >= 1,
            l >= 0,
            l == bs * (l / bs) + l % bs,
            0 <= l % bs < bs,
            q == if l % bs == 0 {
                l / bs
            } else {
                l / bs + 1
            },
    ;
}

/// Any block index below the block count begins strictly inside the input.
pub proof fn lemma_ceil_pos(l: int, bs: int, k: int)
    requires
        bs >= 1,
        l >= 0,
        0 <= k < div_up_spec(l, bs),
    ensures
        k * bs < l,
{
    lemma_ceil_mul_ge(l, bs);
    lemma_mul_inequality(k, div_up_spec(l, bs) - 1, bs);
}

/// An aligned offset below `l` lies in a block with an index below the
/// block count.
proof fn lemma_index_lt_ceil(k: int, l: int, bs: int)
    requires
        bs >= 1,
        0 <= k,
        k * bs < l,
    ensures
        k < div_up_spec(l, bs),
{
    lemma_ceil_mul_ge(l, bs);
    let q = div_up_spec(l, bs);
    if k >= q {
        lemma_mul_inequality(q, k, bs);
        assert(false);
    }
}

/// Some block of the list carries this weak hash.
pub open spec fn weak_hash_present(blocks: Seq<Block>, w: int) -> bool {
    exists|j: int| 0 <= j < blocks.len() && (#[trigger] blocks[j]).hash_weak == w
}

/// Some block of the list carries this strong hash.
pub open spec fn strong_hash_present(blocks: Seq<Block>, h: Seq<u8>) -> bool {
    exists|j: int| 0 <= j < blocks.len() && (#[trigger] blocks[j]).hash_strong@ == h
}

/// The match map pairs a strong hash with the base offset of the first
/// confirmed window that carried it.
pub open spec fn match_map_has(m: Seq<(Seq<u8>, u64)>, h: Seq<u8>) -> bool {
    exists|i: int| 0 <= i < m.len() && (#[trigger] m[i]).0 == h
}

pub open spec fn match_map_get(m: Seq<(Seq<u8>, u64)>, h: Seq<u8>) -> Option<u64>
    decreases m.len(),
{
    if m.len() == 0 {
        None
    } else if m[0].0 == h {
        Some(m[0].1)
    } else {
        match_map_get(m.subrange(1, m.len() as int), h)
    }
}

/// The matcher's scan, as a function of its inputs alone: slide a window
/// over the base; where the window's weak hash occurs among the blocks and
/// its strong hash does too, record the window's offset for that strong
/// hash (first writer wins) and start the next window right after it;
/// otherwise slide by one byte.
pub open spec fn scan_matches(
    base: Seq<u8>,
    blocks: Seq<Block>,
    bs: int,
    wb: int,
    m: Seq<(Seq<u8>, u64)>,
) -> Seq<(Seq<u8>, u64)>
    decreases base.len() - wb
        when 0 <= wb && 1 <= bs
{
    if wb >= base.len() {
        m
    } else {
        let w = window_at(base, bs, wb);
        if weak_hash_present(blocks, weak_hash_of(w)) && strong_hash_present(
            blocks,
            strong_hash_of(w),
        ) {
            let m2 = if match_map_has(m, strong_hash_of(w)) {
                m
            } else {
                m.push((strong_hash_of(w), wb as u64))
            };
            scan_matches(base, blocks, bs, wb + window_len(base.len() as int, wb, bs), m2)
        } else {
            scan_matches(base, blocks, bs, wb + 1, m)
        }
    }
}

/// The whole match map of the scan.
pub open spec fn diff_matches(base: Seq<u8>, blocks: Seq<Block>, bs: int) -> Seq<
    (Seq<u8>, u64),
> {
    scan_matches(base, blocks, bs, 0, Seq::empty())
}

/// The source each block receives: the first confirmed base window that
/// carries its strong hash, if the scan found one.
pub open spec fn diff_assign(base: Seq<u8>, blocks: Seq<Block>, bs: int) -> Seq<Option<u64>> {
    Seq::new(
        blocks.len(),
        |i: int| match_map_get(diff_matches(base, blocks, bs), blocks[i].hash_strong@),
    )
}

/// First-match policy, stated on its own: blocks that carry the same
/// strong hash are assigned the same base source.
pub proof fn lemma_shared_source(base: Seq<u8>, blocks: Seq<Block>, bs: int, i: int, j: int)
    requires
        0 <= i < blocks.len(),
        0 <= j < blocks.len(),
        blocks[i].hash_strong@ == blocks[j].hash_strong@,
    ensures
        diff_assign(base, blocks, bs)[i] == diff_assign(base, blocks, bs)[j],
{
}

/// The digests-and-offsets content of the exec match map.
pub open spec fn entries_view(entries: Seq<(Hash128, u64)>) -> Seq<(Seq<u8>, u64)> {
    Seq::new(entries.len(), |i: int| (entries[i].0@, entries[i].1))
}

proof fn lemma_map_get_found(m: Seq<(Seq<u8>, u64)>, h: Seq<u8>, v: u64)
    requires
        exists|i: int| 0 <= i < m.len() && (#[trigger] m[i]).0 == h && m[i].1 == v,
        forall|i: int, j: int| 0 <= i < j < m.len() ==> m[i].0 != m[j].0,
    ensures
        match_map_get(m, h) == Some(v),
    decreases m.len(),
{
    let i = choose|i: int| 0 <= i < m.len() && (#[trigger] m[i]).0 == h && m[i].1 == v;
    if m[0].0 == h {
        assert(i == 0);
    } else {
        assert(i >= 1);
        let t = m.subrange(1, m.len() as int);
        assert(t[i - 1] == m[i]);
        assert(forall|x: int, y: int| 0 <= x < y < t.len() ==> t[x].0 != t[y].0) by {
            assert(forall|x: int| 0 <= x < t.len() ==> t[x] == (#[trigger] m[x + 1]));
        }
        lemma_map_get_found(t, h, v);
    }
}

proof fn lemma_map_get_absent(m: Seq<(Seq<u8>, u64)>, h: Seq<u8>)
    requires
        forall|i: int| 0 <= i < m.len() ==> (#[trigger] m[i]).0 != h,
    ensures
        match_map_get(m, h) is None,
    decreases m.len(),
{
    if m.len() > 0 {
        let t = m.subrange(1, m.len() as int);
        assert(forall|x: int| 0 <= x < t.len() ==> t[x] == (#[trigger] m[x + 1]));
        lemma_map_get_absent(t, h);
    }
}

/// Scan the base with a sliding window, recording where each of the
/// target's block hashes can be found, and emit one copy command per
/// target block: from the base when its content was located there, else
/// from the target itself.
#[verifier::loop_isolation(false)]
pub fn compute_diff(input: &[u8], other_blocks: &Vec<Block>, block_size: usize) -> (r:
    PatchCommands)
    requires
        1 <= block_size,
    ensures
        diff_post(
            r,
            input@,
            other_blocks@,
            block_size as int,
            diff_assign(input@, other_blocks@, block_size as int),
        ),
        is_block_list(other_blocks@, input@, block_size as int) ==> r.other@.len() == 0,
{
    let ghost bs = block_size as int;
    let ghost blocks = other_blocks@;
    let ghost premise = is_block_list(other_blocks@, input@, block_size as int);
    let len = input.len();

    let mut weak_hash_set = WeakSet::new();
    let mut other_map = StrongMap::new();
    let mut bi: usize = 0;
    while bi < other_blocks.len()
        invariant
            bi <= blocks.len(),
            forall|y: u32|
                #[trigger] weak_hash_set.contains_spec(y) == exists|j: int|
                    0 <= j < bi && (#[trigger] blocks[j]).hash_weak == y,
            forall|h: Seq<u8>|
                #[trigger] other_map.contains_spec(h) == exists|j: int|
                    0 <= j < bi && (#[trigger] blocks[j]).hash_strong@ == h,
        decreases blocks.len() - bi,
    {
        let b = other_blocks[bi];
        let ghost pre_weak = weak_hash_set;
        let ghost pre_other = other_map;
        weak_hash_set.insert(b.hash_weak);
        other_map.insert_if_absent(b.hash_strong, b.offset);
        proof {
            assert forall|y: u32| #[trigger] weak_hash_set.contains_spec(y) == exists|j: int|
                0 <= j < bi + 1 && (#[trigger] blocks[j]).hash_weak == y by {
                if weak_hash_set.contains_spec(y) {
                    if pre_weak.contains_spec(y) {
                        let j = choose|j: int| 0 <= j < bi && (#[trigger] blocks[j]).hash_weak
                            == y;
                        assert(blocks[j].hash_weak == y);
                    } else {
                        assert(blocks[bi as int].hash_weak == y);
                    }
                }
                if exists|j: int| 0 <= j < bi + 1 && (#[trigger] blocks[j]).hash_weak == y {
                    let j = choose|j: int|
                        0 <= j < bi + 1 && (#[trigger] blocks[j]).hash_weak == y;
                    if j < bi {
                        assert(pre_weak.contains_spec(y));
                    }
                }
            }
            assert forall|h: Seq<u8>| #[trigger] other_map.contains_spec(h) == exists|j: int|
                0 <= j < bi + 1 && (#[trigger] blocks[j]).hash_strong@ == h by {
                if other_map.contains_spec(h) {
                    if pre_other.contains_spec(h) {
                        let j = choose|j: int|
                            0 <= j < bi && (#[trigger] blocks[j]).hash_strong@ == h;
                        assert(blocks[j].hash_strong@ == h);
                    } else {
                        assert(blocks[bi as int].hash_strong@ == h);
                    }
                }
                if exists|j: int| 0 <= j < bi + 1 && (#[trigger] blocks[j]).hash_strong@
                    == h {
                    let j = choose|j: int|
                        0 <= j < bi + 1 && (#[trigger] blocks[j]).hash_strong@ == h;
                    if j < bi {
                        assert(pre_other.contains_spec(h));
                    }
                }
            }
        }
        bi = bi + 1;
    }
    proof {
        assert forall|y: u32| #[trigger] weak_hash_set.contains_spec(y) == weak_hash_present(
            blocks,
            y as int,
        ) by {}
        assert forall|h: Seq<u8>| #[trigger] other_map.contains_spec(h)
            == strong_hash_present(blocks, h) by {}
    }

    let mut base_map = StrongMap::new();
    let mut rolling_hash = RollingHash::new();
    let mut window_begin: usize = 0;
    let mut window_end: usize = 0;
    proof {
        assert(entries_view(base_map.entries@) =~= Seq::<(Seq<u8>, u64)>::empty());
    }
    while window_begin < len
        invariant
            window_begin <= window_end <= len,
            window_end - window_begin <= block_size,
            rolling_hash@ == rh_absorb(
                rh_init(),
                input@.subrange(window_begin as int, window_end as int),
            ),
            rolling_hash@.count == window_end - window_begin,
            forall|i: int|
                0 <= i < base_map.entries@.len() ==> {
                    &&& 0 <= (#[trigger] base_map.entries@[i]).1 < len
                    &&& strong_hash_of(window_at(input@, bs, base_map.entries@[i].1 as int))
                        == base_map.entries@[i].0@
                },
            forall|i: int, j: int|
                0 <= i < j < base_map.entries@.len() ==> (#[trigger] base_map.entries@[i]).0@
                    != (#[trigger] base_map.entries@[j]).0@,
            scan_matches(
                input@,
                blocks,
                bs,
                window_begin as int,
                entries_view(base_map.entries@),
            ) == diff_matches(input@, blocks, bs),
            premise ==> (window_begin as int % bs == 0 || window_begin == len),
            premise ==> window_begin == window_end,
            premise ==> forall|k: int|
                0 <= k < blocks.len() && #[trigger] (k * bs) < window_begin
                    ==> base_map.contains_spec(blocks[k].hash_strong@),
        decreases len - window_begin,
    {
        let remaining_len = len - window_begin;
        let this_window_size = if remaining_len < block_size {
            remaining_len
        } else {
            block_size
        };
        while rolling_hash.count() < this_window_size
            invariant
                window_begin <= window_end <= len,
                window_end - window_begin <= this_window_size,
                rolling_hash@ == rh_absorb(
                    rh_init(),
                    input@.subrange(window_begin as int, window_end as int),
                ),
                rolling_hash@.count == window_end - window_begin,
            decreases this_window_size - (window_end - window_begin),
        {
            let x = *vstd::slice::slice_index_get(input, window_end);
            rolling_hash.add(x);
            proof {
                assert(input@.subrange(window_begin as int, window_end + 1).drop_last()
                    =~= input@.subrange(window_begin as int, window_end as int));
                assert(input@.subrange(window_begin as int, window_end + 1).last() == input@[
                window_end as int]);
            }
            window_end = window_end + 1;
        }
        let ghost window = input@.subrange(window_begin as int, window_end as int);
        proof {
            assert(window =~= window_at(input@, bs, window_begin as int));
        }
        let digest = rolling_hash.get();
        proof {
            assert(digest == weak_hash_of(window));
        }
        let mut matched = false;
        if weak_hash_set.contains(digest) {
            let block_slice = vstd::slice::slice_subrange(input, window_begin, window_end);
            proof {
                assert(block_slice@ =~= window);
            }
            let block_hash_strong = compute_hash_strong(block_slice);
            if other_map.contains(&block_hash_strong) {
                let ghost pre_map = base_map;
                base_map.insert_if_absent(block_hash_strong, window_begin as u64);
                proof {
                    // the scan takes the matched step here
                    let wb = window_begin as int;
                    let mv0 = entries_view(pre_map.entries@);
                    let mv1 = entries_view(base_map.entries@);
                    assert(weak_hash_present(blocks, weak_hash_of(window)));
                    assert(strong_hash_present(blocks, strong_hash_of(window)));
                    assert(match_map_has(mv0, strong_hash_of(window)) == pre_map.contains_spec(
                        strong_hash_of(window),
                    )) by {
                        if match_map_has(mv0, strong_hash_of(window)) {
                            let i = choose|i: int|
                                0 <= i < mv0.len() && (#[trigger] mv0[i]).0 == strong_hash_of(
                                    window,
                                );
                            assert(pre_map.entries@[i].0@ == strong_hash_of(window));
                        }
                        if pre_map.contains_spec(strong_hash_of(window)) {
                            let i = choose|i: int|
                                0 <= i < pre_map.entries@.len() && (
                                #[trigger] pre_map.entries@[i]).0@ == strong_hash_of(window);
                            assert(mv0[i].0 == strong_hash_of(window));
                        }
                    }
                    if pre_map.contains_spec(strong_hash_of(window)) {
                        assert(mv1 == mv0);
                    } else {
                        assert(mv1 =~= mv0.push((strong_hash_of(window), wb as u64)));
                    }
                    assert(scan_matches(input@, blocks, bs, wb, mv0) == scan_matches(
                        input@,
                        blocks,
                        bs,
                        wb + window_len(len as int, wb, bs),
                        mv1,
                    ));
                    assert(window_end as int == wb + window_len(len as int, wb, bs));
                    if premise {
                        let wb = window_begin as int;
                        let k = wb / bs;
                        lemma_fundamental_div_mod(wb, bs);
                        assert(k * bs == wb) by (nonlinear_arith)
                            requires
                                wb % bs == 0,
                                wb == bs * (wb / bs) + wb % bs,
                                k == wb / bs,
                        ;
                        assert(k >= 0) by (nonlinear_arith)
                            requires
                                k * bs == wb,
                                wb >= 0,
                                bs >= 1,
                        ;
                        lemma_index_lt_ceil(k, len as int, bs);
                        assert(blocks[k].hash_strong@ == strong_hash_of(
                            block_at(input@, bs, k),
                        ));
                        assert(block_at(input@, bs, k) =~= window);
                        assert(base_map.contains_spec(blocks[k].hash_strong@));
                        // alignment of the next window start
                        let we = window_end as int;
                        assert(we == wb + window_len(len as int, wb, bs));
                        if we < len {
                            assert(we == wb + bs);
                            assert((k + 1) * bs == we) by (nonlinear_arith)
                                requires
                                    k * bs == wb,
                                    we == wb + bs,
                            ;
                            assert(we % bs == 0) by (nonlinear_arith)
                                requires
                                    (k + 1) * bs == we,
                                    bs >= 1,
                                    k + 1 >= 0,
                            {
                                vstd::arithmetic::div_mod::lemma_mod_multiples_basic(
                                    k + 1,
                                    bs,
                                );
                            }
                        }
                        assert forall|k2: int|
                            0 <= k2 < blocks.len() && #[trigger] (k2 * bs) < we implies base_map
                            .contains_spec(blocks[k2].hash_strong@) by {
                            if k2 * bs < wb {
                            } else {
                                assert(k2 * bs >= wb);
                                assert(k2 == k) by (nonlinear_arith)
                                    requires
                                        k * bs == wb,
                                        k2 * bs >= wb,
                                        k2 * bs < we,
                                        we <= wb + bs,
                                        bs >= 1,
                                        k2 >= 0,
                                        k >= 0,
                                ;
                            }
                        }
                    }
                }
                window_begin = window_end;
                rolling_hash = RollingHash::new();
                proof {
                    assert(input@.subrange(window_begin as int, window_end as int)
                        =~= Seq::<u8>::empty());
                }
                matched = true;
            }
        }
        if !matched {
            proof {
                // the scan slides by one byte here
                let wb = window_begin as int;
                let mv = entries_view(base_map.entries@);
                assert(!(weak_hash_present(blocks, weak_hash_of(window))
                    && strong_hash_present(blocks, strong_hash_of(window))));
                assert(scan_matches(input@, blocks, bs, wb, mv) == scan_matches(
                    input@,
                    blocks,
                    bs,
                    wb + 1,
                    mv,
                ));
                if premise {
                    let wb = window_begin as int;
                    let k = wb / bs;
                    lemma_fundamental_div_mod(wb, bs);
                    assert(k * bs == wb) by (nonlinear_arith)
                        requires
                            wb % bs == 0,
                            wb == bs * (wb / bs) + wb % bs,
                            k == wb / bs,
                    ;
                    assert(k >= 0) by (nonlinear_arith)
                        requires
                            k * bs == wb,
                            wb >= 0,
                            bs >= 1,
                    ;
                    lemma_index_lt_ceil(k, len as int, bs);
                    assert(block_at(input@, bs, k) =~= window);
                    assert(blocks[k].hash_weak == weak_hash_of(window));
                    assert(weak_hash_set.contains_spec(digest));
                    assert(blocks[k].hash_strong@ == strong_hash_of(window));
                    assert(other_map.contains_spec(strong_hash_of(window)));
                    assert(false);
                }
            }
            let x = *vstd::slice::slice_index_get(input, window_begin);
            proof {
                crate::hash::lemma_absorb_sub_front(window);
                assert(window[0] == input@[window_begin as int]);
                assert(window.subrange(1, window.len() as int) =~= input@.subrange(
                    window_begin + 1,
                    window_end as int,
                ));
            }
            rolling_hash.sub(x);
            window_begin = window_begin + 1;
        }
    }

    let ghost full_map = diff_matches(input@, blocks, bs);
    proof {
        // at the end of the scan the exec map holds exactly the scan's map
        assert(scan_matches(input@, blocks, bs, window_begin as int, entries_view(
            base_map.entries@,
        )) == entries_view(base_map.entries@));
        assert(entries_view(base_map.entries@) == full_map);
    }
    let mut patch_commands = PatchCommands::new();
    let ghost mut assign: Seq<Option<u64>> = Seq::empty();
    let mut bi: usize = 0;
    proof {
        assert(blocks.take(0) =~= Seq::<Block>::empty());
    }
    while bi < other_blocks.len()
        invariant
            bi <= blocks.len(),
            assign.len() == bi,
            full_map == entries_view(base_map.entries@),
            forall|i: int|
                0 <= i < bi ==> assign[i] == match_map_get(
                    full_map,
                    (#[trigger] blocks[i]).hash_strong@,
                ),
            patch_commands.base@ == base_cmds_of(blocks.take(bi as int), assign),
            patch_commands.other@ == other_cmds_of(blocks.take(bi as int), assign),
            forall|i: int|
                0 <= i < bi && assign[i] is Some ==> match_ok(
                    input@,
                    bs,
                    (#[trigger] assign[i])->0,
                    blocks[i],
                ),
            premise ==> patch_commands.other@.len() == 0,
        decreases blocks.len() - bi,
    {
        let ob = other_blocks[bi];
        let found = base_map.get(&ob.hash_strong);
        proof {
            assert(blocks.take(bi + 1).drop_last() =~= blocks.take(bi as int));
            assert(blocks.take(bi + 1).last() == blocks[bi as int]);
        }
        match found {
            Some(base_offset) => {
                proof {
                    let h = ob.hash_strong@;
                    let i = choose|i: int|
                        0 <= i < base_map.entries@.len() && (#[trigger] base_map.entries@[i]).0@
                            == h && base_map.entries@[i].1 == base_offset;
                    assert(full_map[i] == (h, base_offset));
                    assert forall|x: int, y: int|
                        0 <= x < y < full_map.len() implies full_map[x].0 != full_map[y].0 by {
                        assert(full_map[x].0 == base_map.entries@[x].0@);
                        assert(full_map[y].0 == base_map.entries@[y].0@);
                    }
                    lemma_map_get_found(full_map, h, base_offset);
                }
                patch_commands.base.push(
                    CopyCmd { source: base_offset, target: ob.offset, size: ob.size },
                );
                proof {
                    let a0 = assign;
                    assign = assign.push(Some(base_offset));
                    assert(assign.drop_last() =~= a0);
                    assert(assign.last() == Some(base_offset));
                }
            },
            None => {
                proof {
                    if premise {
                        let q = div_up_spec(len as int, bs);
                        lemma_ceil_mul_ge(len as int, bs);
                        lemma_mul_inequality(bi as int, q - 1, bs);
                        assert(bi as int * bs < len as int);
                        assert(base_map.contains_spec(blocks[bi as int].hash_strong@));
                        assert(false);
                    }
                    let h = ob.hash_strong@;
                    assert forall|i: int| 0 <= i < full_map.len() implies (
                    #[trigger] full_map[i]).0 != h by {
                        assert(full_map[i].0 == base_map.entries@[i].0@);
                    }
                    lemma_map_get_absent(full_map, h);
                }
                patch_commands.other.push(
                    CopyCmd { source: ob.offset, target: ob.offset, size: ob.size },
                );
                proof {
                    let a0 = assign;
                    assign = assign.push(None);
                    assert(assign.drop_last() =~= a0);
                    assert(assign.last() == None::<u64>);
                }
            },
        }
        bi = bi + 1;
    }
    proof {
        assert(blocks.take(blocks.len() as int) =~= blocks);
        assert(assign =~= diff_assign(input@, blocks, bs));
        assert(diff_post(
            patch_commands,
            input@,
            other_blocks@,
            block_size as int,
            diff_assign(input@, other_blocks@, block_size as int),
        ));
    }
    patch_commands
}

} // verus!

verus! {

/// Command lists stay within their source and destination buffers.
pub open spec fn cmds_in_bounds(s: Seq<CopyCmd>, src_len: int, dst_len: int) -> bool {
    forall|i: int|
        0 <= i < s.len() ==> (#[trigger] s[i]).source + s[i].size <= src_len && s[i].target
            + s[i].size <= dst_len
}

pub open spec fn sorted_by_target(s: Seq<CopyCmd>) -> bool {
    forall|i: int, j: int| 0 <= i <= j < s.len() ==> s[i].target <= s[j].target
}

/// Insert `c` after every command whose target does not exceed `c`'s.
pub open spec fn insert_sorted(c: CopyCmd, s: Seq<CopyCmd>) -> Seq<CopyCmd>
    decreases s.len(),
{
    if s.len() == 0 {
        seq![c]
    } else if s[0].target <= c.target {
        seq![s[0]] + insert_sorted(c, s.subrange(1, s.len() as int))
    } else {
        seq![c] + s
    }
}

/// Stable sort of the command list by target offset.
pub open spec fn sort_by_target_spec(s: Seq<CopyCmd>) -> Seq<CopyCmd>
    decreases s.len(),
{
    if s.len() == 0 {
        s
    } else {
        insert_sorted(s.last(), sort_by_target_spec(s.drop_last()))
    }
}

pub open spec fn zeroed(c: CopyCmd) -> CopyCmd {
    CopyCmd { source: c.source, target: c.target, size: 0 }
}

/// Two commands whose source and target ranges are both contiguous fold
/// into one longer copy.
pub open spec fn can_merge(prev: CopyCmd, cur: CopyCmd) -> bool {
    prev.source + prev.size == cur.source && prev.target + prev.size == cur.target
}

pub open spec fn merged_cmd(prev: CopyCmd, cur: CopyCmd) -> CopyCmd {
    CopyCmd { source: prev.source, target: prev.target, size: (prev.size + cur.size) as u32 }
}

/// The look-behind merge pass: fold each command into its successor when
/// both ranges are contiguous, leaving a zero-size tombstone behind.
pub open spec fn merge_walk(s: Seq<CopyCmd>) -> Seq<CopyCmd>
    decreases s.len(),
{
    if s.len() <= 1 {
        s
    } else {
        let t = merge_walk(s.drop_last());
        let prev = t.last();
        let cur = s.last();
        if can_merge(prev, cur) {
            t.update(t.len() - 1, zeroed(prev)).push(merged_cmd(prev, cur))
        } else {
            t.push(cur)
        }
    }
}

/// Remove the zero-size tombstones.
pub open spec fn drop_zeros(s: Seq<CopyCmd>) -> Seq<CopyCmd>
    decreases s.len(),
{
    if s.len() == 0 {
        s
    } else {
        let rest = drop_zeros(s.drop_last());
        if s.last().size == 0 {
            rest
        } else {
            rest.push(s.last())
        }
    }
}

/// The whole optimization pass: sort by target, merge adjacent commands,
/// drop the tombstones.
pub open spec fn optimize_spec(s: Seq<CopyCmd>) -> Seq<CopyCmd> {
    drop_zeros(merge_walk(sort_by_target_spec(s)))
}

pub proof fn lemma_sum_sizes_push(s: Seq<CopyCmd>, c: CopyCmd)
    ensures
        sum_sizes(s.push(c)) == sum_sizes(s) + c.size,
{
    assert(s.push(c).drop_last() =~= s);
}

pub proof fn lemma_count_push(s: Seq<CopyCmd>, c: CopyCmd, t: int)
    ensures
        count_covering(s.push(c), t) == count_covering(s, t) + if cmd_covers(c, t) {
            1int
        } else {
            0int
        },
{
    assert(s.push(c).drop_last() =~= s);
}

pub proof fn lemma_maps_push(s: Seq<CopyCmd>, c: CopyCmd, t: int, v: int)
    ensures
        maps_to(s.push(c), t, v) == (maps_to(s, t, v) || (cmd_covers(c, t) && v == cmd_src(
            c,
            t,
        ))),
{
    let sp = s.push(c);
    if maps_to(sp, t, v) {
        let i = choose|i: int|
            0 <= i < sp.len() && cmd_covers(#[trigger] sp[i], t) && v == cmd_src(sp[i], t);
        if i < s.len() {
            assert(s[i] == sp[i]);
            assert(maps_to(s, t, v));
        } else {
            assert(sp[i] == c);
        }
    }
    if maps_to(s, t, v) {
        let i = choose|i: int|
            0 <= i < s.len() && cmd_covers(#[trigger] s[i], t) && v == cmd_src(s[i], t);
        assert(sp[i] == s[i]);
        assert(maps_to(sp, t, v));
    }
    if cmd_covers(c, t) && v == cmd_src(c, t) {
        assert(sp[s.len() as int] == c);
        assert(maps_to(sp, t, v));
    }
}

proof fn lemma_sum_sizes_cons(c: CopyCmd, s: Seq<CopyCmd>)
    ensures
        sum_sizes(seq![c] + s) == c.size + sum_sizes(s),
    decreases s.len(),
{
    if s.len() == 0 {
        assert(seq![c] + s =~= Seq::<CopyCmd>::empty().push(c));
        lemma_sum_sizes_push(Seq::empty(), c);
    } else {
        assert((seq![c] + s).drop_last() =~= seq![c] + s.drop_last());
        assert((seq![c] + s).last() == s.last());
        lemma_sum_sizes_cons(c, s.drop_last());
    }
}

proof fn lemma_count_cons(c: CopyCmd, s: Seq<CopyCmd>, t: int)
    ensures
        count_covering(seq![c] + s, t) == count_covering(s, t) + if cmd_covers(c, t) {
            1int
        } else {
            0int
        },
    decreases s.len(),
{
    if s.len() == 0 {
        assert(seq![c] + s =~= Seq::<CopyCmd>::empty().push(c));
        lemma_count_push(Seq::empty(), c, t);
    } else {
        assert((seq![c] + s).drop_last() =~= seq![c] + s.drop_last());
        assert((seq![c] + s).last() == s.last());
        lemma_count_cons(c, s.drop_last(), t);
    }
}

proof fn lemma_maps_cons(c: CopyCmd, s: Seq<CopyCmd>, t: int, v: int)
    ensures
        maps_to(seq![c] + s, t, v) == (maps_to(s, t, v) || (cmd_covers(c, t) && v == cmd_src(
            c,
            t,
        ))),
{
    let cs = seq![c] + s;
    if maps_to(cs, t, v) {
        let i = choose|i: int|
            0 <= i < cs.len() && cmd_covers(#[trigger] cs[i], t) && v == cmd_src(cs[i], t);
        if i == 0 {
            assert(cs[0] == c);
        } else {
            assert(s[i - 1] == cs[i]);
            assert(maps_to(s, t, v));
        }
    }
    if maps_to(s, t, v) {
        let i = choose|i: int|
            0 <= i < s.len() && cmd_covers(#[trigger] s[i], t) && v == cmd_src(s[i], t);
        assert(cs[i + 1] == s[i]);
        assert(maps_to(cs, t, v));
    }
    if cmd_covers(c, t) && v == cmd_src(c, t) {
        assert(cs[0] == c);
        assert(maps_to(cs, t, v));
    }
}

pub proof fn lemma_sum_sizes_elem(s: Seq<CopyCmd>, i: int)
    requires
        0 <= i < s.len(),
    ensures
        s[i].size <= sum_sizes(s),
    decreases s.len(),
{
    lemma_sum_sizes_take(s.drop_last(), s.len() - 1);
    if i < s.len() - 1 {
        lemma_sum_sizes_elem(s.drop_last(), i);
    }
}

proof fn lemma_insert_sorted_props(c: CopyCmd, s: Seq<CopyCmd>)
    ensures
        insert_sorted(c, s).len() == s.len() + 1,
        sum_sizes(insert_sorted(c, s)) == sum_sizes(s) + c.size,
        sorted_by_target(s) ==> sorted_by_target(insert_sorted(c, s)),
        forall|t: int|
            count_covering(insert_sorted(c, s), t) == count_covering(s, t) + (
            if cmd_covers(c, t) {
                1int
            } else {
                0int
            }),
        forall|t: int, v: int|
            maps_to(insert_sorted(c, s), t, v) == (maps_to(s, t, v) || (cmd_covers(c, t) && v
                == cmd_src(c, t))),
        forall|k: int|
            0 <= k < insert_sorted(c, s).len() ==> (#[trigger] insert_sorted(c, s)[k] == c
                || s.contains(insert_sorted(c, s)[k])),
    decreases s.len(),
{
    let r = insert_sorted(c, s);
    if s.len() == 0 {
        assert(r =~= Seq::<CopyCmd>::empty().push(c));
        lemma_sum_sizes_push(Seq::empty(), c);
        assert forall|t: int|
            count_covering(r, t) == count_covering(s, t) + (if cmd_covers(c, t) {
                1int
            } else {
                0int
            }) by {
            lemma_count_push(Seq::empty(), c, t);
        }
        assert forall|t: int, v: int|
            maps_to(r, t, v) == (maps_to(s, t, v) || (cmd_covers(c, t) && v == cmd_src(
                c,
                t,
            ))) by {
            lemma_maps_push(Seq::empty(), c, t, v);
        }
    } else if s[0].target <= c.target {
        let tail = s.subrange(1, s.len() as int);
        let rt = insert_sorted(c, tail);
        lemma_insert_sorted_props(c, tail);
        assert(s =~= seq![s[0]] + tail);
        lemma_sum_sizes_cons(s[0], tail);
        lemma_sum_sizes_cons(s[0], rt);
        assert forall|t: int|
            count_covering(r, t) == count_covering(s, t) + (if cmd_covers(c, t) {
                1int
            } else {
                0int
            }) by {
            lemma_count_cons(s[0], rt, t);
            lemma_count_cons(s[0], tail, t);
        }
        assert forall|t: int, v: int|
            maps_to(r, t, v) == (maps_to(s, t, v) || (cmd_covers(c, t) && v == cmd_src(
                c,
                t,
            ))) by {
            lemma_maps_cons(s[0], rt, t, v);
            lemma_maps_cons(s[0], tail, t, v);
        }
        assert forall|k: int| 0 <= k < r.len() implies (#[trigger] r[k] == c || s.contains(
            r[k],
        )) by {
            if k > 0 {
                assert(r[k] == rt[k - 1]);
                if rt[k - 1] == c {
                } else {
                    assert(tail.contains(rt[k - 1]));
                    let j = choose|j: int| 0 <= j < tail.len() && tail[j] == rt[k - 1];
                    assert(s[j + 1] == tail[j]);
                    assert(s.contains(r[k]));
                }
            } else {
                assert(r[0] == s[0]);
                assert(s.contains(s[0]));
            }
        }
        if sorted_by_target(s) {
            assert(sorted_by_target(tail));
            assert forall|i: int, j: int| 0 <= i <= j < r.len() implies r[i].target
                <= r[j].target by {
                if i == 0 {
                    if j > 0 {
                        if r[j] == c {
                        } else {
                            assert(s.contains(r[j]));
                            let m = choose|m: int| 0 <= m < s.len() && s[m] == r[j];
                            assert(s[0].target <= s[m].target);
                        }
                    }
                } else {
                    assert(r[i] == rt[i - 1] && r[j] == rt[j - 1]);
                }
            }
        }
    } else {
        lemma_sum_sizes_cons(c, s);
        assert forall|t: int|
            count_covering(r, t) == count_covering(s, t) + (if cmd_covers(c, t) {
                1int
            } else {
                0int
            }) by {
            lemma_count_cons(c, s, t);
        }
        assert forall|t: int, v: int|
            maps_to(r, t, v) == (maps_to(s, t, v) || (cmd_covers(c, t) && v == cmd_src(
                c,
                t,
            ))) by {
            lemma_maps_cons(c, s, t, v);
        }
        assert forall|k: int| 0 <= k < r.len() implies (#[trigger] r[k] == c || s.contains(
            r[k],
        )) by {
            if k > 0 {
                assert(r[k] == s[k - 1]);
                assert(s.contains(s[k - 1]));
            }
        }
        if sorted_by_target(s) {
            assert forall|i: int, j: int| 0 <= i <= j < r.len() implies r[i].target
                <= r[j].target by {
                if i == 0 {
                    if j > 0 {
                        assert(r[j] == s[j - 1]);
                        assert(s[0].target <= s[j - 1].target);
                    }
                } else {
                    assert(r[i] == s[i - 1] && r[j] == s[j - 1]);
                }
            }
        }
    }
}

pub proof fn lemma_sort_props(s: Seq<CopyCmd>)
    ensures
        sort_by_target_spec(s).len() == s.len(),
        sum_sizes(sort_by_target_spec(s)) == sum_sizes(s),
        sorted_by_target(sort_by_target_spec(s)),
        forall|t: int|
            count_covering(sort_by_target_spec(s), t) == count_covering(s, t),
        forall|t: int, v: int| maps_to(sort_by_target_spec(s), t, v) == maps_to(s, t, v),
        forall|k: int|
            0 <= k < s.len() ==> (#[trigger] sort_by_target_spec(s)[k] == s.last()
                || s.contains(sort_by_target_spec(s)[k])),
    decreases s.len(),
{
    if s.len() == 0 {
    } else {
        let dl = s.drop_last();
        lemma_sort_props(dl);
        lemma_insert_sorted_props(s.last(), sort_by_target_spec(dl));
        assert forall|t: int|
            count_covering(sort_by_target_spec(s), t) == count_covering(s, t) by {
            assert(count_covering(s, t) == count_covering(dl, t) + if cmd_covers(
                s.last(),
                t,
            ) {
                1int
            } else {
                0int
            });
        }
        assert forall|t: int, v: int|
            maps_to(sort_by_target_spec(s), t, v) == maps_to(s, t, v) by {
            lemma_maps_push(dl, s.last(), t, v);
            assert(dl.push(s.last()) =~= s);
        }
        assert forall|k: int|
            0 <= k < s.len() implies (#[trigger] sort_by_target_spec(s)[k] == s.last()
            || s.contains(sort_by_target_spec(s)[k])) by {
            let r = sort_by_target_spec(s);
            let rd = sort_by_target_spec(dl);
            if r[k] == s.last() {
            } else if rd.contains(r[k]) {
                let j = choose|j: int| 0 <= j < rd.len() && rd[j] == r[k];
                if rd[j] == dl.last() && dl.len() > 0 {
                    assert(s[dl.len() - 1] == dl.last());
                    assert(s.contains(r[k]));
                } else {
                    assert(rd[j] == dl.last() || dl.contains(rd[j]));
                    if dl.contains(rd[j]) {
                        let m = choose|m: int| 0 <= m < dl.len() && dl[m] == rd[j];
                        assert(s[m] == dl[m]);
                        assert(s.contains(r[k]));
                    }
                }
            }
        }
    }
}

} // verus!

verus! {

pub proof fn lemma_merge_walk_props(s: Seq<CopyCmd>)
    requires
        sum_sizes(s) <= u32::MAX,
    ensures
        merge_walk(s).len() == s.len(),
        sum_sizes(merge_walk(s)) == sum_sizes(s),
        sorted_by_target(s) ==> sorted_by_target(merge_walk(s)),
        forall|t: int| count_covering(merge_walk(s), t) == count_covering(s, t),
        forall|t: int, v: int| maps_to(merge_walk(s), t, v) == maps_to(s, t, v),
        forall|k: int|
            0 <= k < s.len() ==> (#[trigger] merge_walk(s)[k]).target <= s[k].target,
        forall|src_len: int, dst_len: int|
            cmds_in_bounds(s, src_len, dst_len) ==> #[trigger] cmds_in_bounds(
                merge_walk(s),
                src_len,
                dst_len,
            ),
    decreases s.len(),
{
    if s.len() <= 1 {
    } else {
        let dl = s.drop_last();
        lemma_sum_sizes_take(dl, dl.len() as int);
        assert(sum_sizes(dl) <= sum_sizes(s)) by {
            assert(sum_sizes(s) == sum_sizes(dl) + s.last().size);
        }
        lemma_merge_walk_props(dl);
        let t = merge_walk(dl);
        let prev = t.last();
        let cur = s.last();
        let r = merge_walk(s);
        lemma_sum_sizes_elem(t, t.len() - 1);
        assert(prev.size + cur.size <= u32::MAX);
        if can_merge(prev, cur) {
            let mg = merged_cmd(prev, cur);
            assert(mg.size == prev.size + cur.size);
            let tu = t.update(t.len() - 1, zeroed(prev));
            assert(tu =~= t.drop_last().push(zeroed(prev)));
            assert(r == tu.push(mg));
            // sizes
            lemma_sum_sizes_push(t.drop_last(), zeroed(prev));
            lemma_sum_sizes_push(tu, mg);
            assert(sum_sizes(t) == sum_sizes(t.drop_last()) + prev.size);
            assert(sum_sizes(r) == sum_sizes(s));
            // coverage of the merged command splits into the two parts
            assert forall|x: int|
                cmd_covers(mg, x) == (cmd_covers(prev, x) || cmd_covers(cur, x)) by {}
            assert forall|x: int| count_covering(r, x) == count_covering(s, x) by {
                lemma_count_push(t.drop_last(), zeroed(prev), x);
                lemma_count_push(tu, mg, x);
                assert(count_covering(t, x) == count_covering(t.drop_last(), x) + if cmd_covers(
                    prev,
                    x,
                ) {
                    1int
                } else {
                    0int
                });
                assert(count_covering(s, x) == count_covering(dl, x) + if cmd_covers(cur, x) {
                    1int
                } else {
                    0int
                });
            }
            assert forall|x: int, v: int| maps_to(r, x, v) == maps_to(s, x, v) by {
                lemma_maps_push(t.drop_last(), zeroed(prev), x, v);
                lemma_maps_push(tu, mg, x, v);
                lemma_maps_push(t.drop_last(), prev, x, v);
                assert(t.drop_last().push(prev) =~= t);
                lemma_maps_push(dl, cur, x, v);
                assert(dl.push(cur) =~= s);
                assert((cmd_covers(mg, x) && v == cmd_src(mg, x)) == ((cmd_covers(prev, x) && v
                    == cmd_src(prev, x)) || (cmd_covers(cur, x) && v == cmd_src(cur, x))));
            }
            // pointwise target bound
            assert forall|k: int| 0 <= k < s.len() implies (#[trigger] r[k]).target
                <= s[k].target by {
                if k < s.len() - 2 {
                    assert(r[k] == t[k]);
                } else if k == s.len() - 2 {
                    assert(r[k] == zeroed(prev));
                    assert(t[k] == prev);
                } else {
                    assert(r[k] == mg);
                    assert(mg.target == prev.target);
                    assert(prev.target <= t[s.len() - 2].target);
                    assert(t[s.len() - 2].target <= s[s.len() - 2].target);
                    assert(mg.target <= cur.target);
                }
            }
            // sortedness
            if sorted_by_target(s) {
                assert(sorted_by_target(dl));
                assert forall|i: int, j: int| 0 <= i <= j < r.len() implies r[i].target
                    <= r[j].target by {
                    if j < s.len() - 1 {
                        assert(r[i].target == t[i].target && r[j].target == t[j].target);
                    } else if i < s.len() - 1 {
                        assert(r[j] == mg);
                        assert(r[i].target == t[i].target);
                        assert(t[i].target <= t[t.len() - 1].target);
                        assert(mg.target == prev.target);
                    }
                }
            }
            // bounds
            assert forall|src_len: int, dst_len: int|
                cmds_in_bounds(s, src_len, dst_len) implies #[trigger] cmds_in_bounds(
                r,
                src_len,
                dst_len,
            ) by {
                assert(cmds_in_bounds(dl, src_len, dst_len)) by {
                    assert(forall|m: int| 0 <= m < dl.len() ==> dl[m] == (#[trigger] s[m]));
                }
                assert(cmds_in_bounds(t, src_len, dst_len));
                assert forall|k: int| 0 <= k < r.len() implies (#[trigger] r[k]).source
                    + r[k].size <= src_len && r[k].target + r[k].size <= dst_len by {
                    if k < s.len() - 2 {
                        assert(r[k] == t[k]);
                    } else if k == s.len() - 2 {
                        assert(r[k] == zeroed(prev));
                        assert(t[k] == prev);
                    } else {
                        assert(r[k] == mg);
                        assert(cur == s[s.len() - 1]);
                        assert(cur.source + cur.size <= src_len);
                        assert(mg.source + mg.size == cur.source + cur.size);
                        assert(mg.target + mg.size == cur.target + cur.size);
                    }
                }
            }
        } else {
            assert(r == t.push(cur));
            lemma_sum_sizes_push(t, cur);
            assert(sum_sizes(s) == sum_sizes(dl) + cur.size);
            assert forall|x: int| count_covering(r, x) == count_covering(s, x) by {
                lemma_count_push(t, cur, x);
                assert(count_covering(s, x) == count_covering(dl, x) + if cmd_covers(cur, x) {
                    1int
                } else {
                    0int
                });
            }
            assert forall|x: int, v: int| maps_to(r, x, v) == maps_to(s, x, v) by {
                lemma_maps_push(t, cur, x, v);
                lemma_maps_push(dl, cur, x, v);
                assert(dl.push(cur) =~= s);
            }
            assert forall|k: int| 0 <= k < s.len() implies (#[trigger] r[k]).target
                <= s[k].target by {
                if k < s.len() - 1 {
                    assert(r[k] == t[k]);
                }
            }
            if sorted_by_target(s) {
                assert(sorted_by_target(dl));
                assert forall|i: int, j: int| 0 <= i <= j < r.len() implies r[i].target
                    <= r[j].target by {
                    if j < s.len() - 1 {
                        assert(r[i].target == t[i].target && r[j].target == t[j].target);
                    } else if i < s.len() - 1 {
                        assert(r[i] == t[i]);
                        assert(t[i].target <= dl[i].target);
                        assert(dl[i].target == s[i].target);
                        assert(s[i].target <= cur.target);
                    }
                }
            }
            assert forall|src_len: int, dst_len: int|
                cmds_in_bounds(s, src_len, dst_len) implies #[trigger] cmds_in_bounds(
                r,
                src_len,
                dst_len,
            ) by {
                assert(cmds_in_bounds(dl, src_len, dst_len)) by {
                    assert(forall|m: int| 0 <= m < dl.len() ==> dl[m] == (#[trigger] s[m]));
                }
                assert(cmds_in_bounds(t, src_len, dst_len));
                assert forall|k: int| 0 <= k < r.len() implies (#[trigger] r[k]).source
                    + r[k].size <= src_len && r[k].target + r[k].size <= dst_len by {
                    if k < s.len() - 1 {
                        assert(r[k] == t[k]);
                    } else {
                        assert(r[k] == cur);
                        assert(cur == s[s.len() - 1]);
                    }
                }
            }
        }
    }
}

pub proof fn lemma_drop_zeros_props(s: Seq<CopyCmd>)
    ensures
        sum_sizes(drop_zeros(s)) == sum_sizes(s),
        sorted_by_target(s) ==> sorted_by_target(drop_zeros(s)),
        forall|t: int| count_covering(drop_zeros(s), t) == count_covering(s, t),
        forall|t: int, v: int| maps_to(drop_zeros(s), t, v) == maps_to(s, t, v),
        forall|k: int| 0 <= k < drop_zeros(s).len() ==> (#[trigger] drop_zeros(s)[k]).size >= 1,
        forall|k: int| 0 <= k < drop_zeros(s).len() ==> s.contains(#[trigger] drop_zeros(s)[k]),
        drop_zeros(s).len() <= s.len(),
    decreases s.len(),
{
    if s.len() == 0 {
    } else {
        let dl = s.drop_last();
        lemma_drop_zeros_props(dl);
        let rd = drop_zeros(dl);
        let r = drop_zeros(s);
        assert(forall|k: int| 0 <= k < dl.len() ==> dl[k] == (#[trigger] s[k]));
        assert forall|k: int| 0 <= k < rd.len() implies s.contains(#[trigger] rd[k]) by {
            assert(dl.contains(rd[k]));
            let m = choose|m: int| 0 <= m < dl.len() && dl[m] == rd[k];
            assert(s[m] == rd[k]);
        }
        if s.last().size == 0 {
            assert(r == rd);
            assert forall|x: int| count_covering(r, x) == count_covering(s, x) by {
                assert(!cmd_covers(s.last(), x));
                assert(count_covering(s, x) == count_covering(dl, x) + if cmd_covers(
                    s.last(),
                    x,
                ) {
                    1int
                } else {
                    0int
                });
            }
            assert forall|x: int, v: int| maps_to(r, x, v) == maps_to(s, x, v) by {
                lemma_maps_push(dl, s.last(), x, v);
                assert(dl.push(s.last()) =~= s);
                assert(!cmd_covers(s.last(), x));
            }
        } else {
            assert(r == rd.push(s.last()));
            lemma_sum_sizes_push(rd, s.last());
            assert forall|x: int| count_covering(r, x) == count_covering(s, x) by {
                lemma_count_push(rd, s.last(), x);
                assert(count_covering(s, x) == count_covering(dl, x) + if cmd_covers(
                    s.last(),
                    x,
                ) {
                    1int
                } else {
                    0int
                });
            }
            assert forall|x: int, v: int| maps_to(r, x, v) == maps_to(s, x, v) by {
                lemma_maps_push(rd, s.last(), x, v);
                lemma_maps_push(dl, s.last(), x, v);
                assert(dl.push(s.last()) =~= s);
            }
            assert forall|k: int| 0 <= k < r.len() implies s.contains(#[trigger] r[k]) by {
                if k < r.len() - 1 {
                    assert(r[k] == rd[k]);
                } else {
                    assert(r[k] == s.last());
                    assert(s[s.len() - 1] == s.last());
                }
            }
            if sorted_by_target(s) {
                assert(sorted_by_target(dl));
                assert forall|i: int, j: int| 0 <= i <= j < r.len() implies r[i].target
                    <= r[j].target by {
                    if j < r.len() - 1 {
                        assert(r[i] == rd[i] && r[j] == rd[j]);
                    } else if i < r.len() - 1 {
                        assert(r[i] == rd[i]);
                        assert(dl.contains(rd[i]));
                        let m = choose|m: int| 0 <= m < dl.len() && dl[m] == rd[i];
                        assert(s[m].target <= s.last().target);
                    }
                }
            }
        }
    }
}

/// Everything the callers need of the optimization pass: it moves the
/// same bytes between the same places, keeps within the same buffers,
/// emits its commands sorted by target, and leaves no tombstone behind.
pub proof fn lemma_optimize_props(s: Seq<CopyCmd>)
    requires
        sum_sizes(s) <= u32::MAX,
    ensures
        sum_sizes(optimize_spec(s)) == sum_sizes(s),
        sorted_by_target(optimize_spec(s)),
        forall|t: int| count_covering(optimize_spec(s), t) == count_covering(s, t),
        forall|t: int, v: int| maps_to(optimize_spec(s), t, v) == maps_to(s, t, v),
        forall|k: int|
            0 <= k < optimize_spec(s).len() ==> (#[trigger] optimize_spec(s)[k]).size >= 1,
        forall|src_len: int, dst_len: int|
            cmds_in_bounds(s, src_len, dst_len) ==> cmds_in_bounds(
                optimize_spec(s),
                src_len,
                dst_len,
            ),
{
    let srt = sort_by_target_spec(s);
    lemma_sort_props(s);
    lemma_merge_walk_props(srt);
    lemma_drop_zeros_props(merge_walk(srt));
    assert forall|src_len: int, dst_len: int|
        cmds_in_bounds(s, src_len, dst_len) implies cmds_in_bounds(
        optimize_spec(s),
        src_len,
        dst_len,
    ) by {
        assert(cmds_in_bounds(srt, src_len, dst_len)) by {
            assert forall|k: int| 0 <= k < srt.len() implies (#[trigger] srt[k]).source
                + srt[k].size <= src_len && srt[k].target + srt[k].size <= dst_len by {
                assert(srt[k] == s.last() || s.contains(srt[k]));
                if s.contains(srt[k]) {
                    let m = choose|m: int| 0 <= m < s.len() && s[m] == srt[k];
                    assert(s[m].source + s[m].size <= src_len);
                } else {
                    assert(s[s.len() - 1] == s.last());
                }
            }
        }
        assert(cmds_in_bounds(merge_walk(srt), src_len, dst_len));
        assert forall|k: int| 0 <= k < optimize_spec(s).len() implies (#[trigger] optimize_spec(
            s,
        )[k]).source + optimize_spec(s)[k].size <= src_len && optimize_spec(s)[k].target
            + optimize_spec(s)[k].size <= dst_len by {
            assert(merge_walk(srt).contains(optimize_spec(s)[k]));
            let m = choose|m: int|
                0 <= m < merge_walk(srt).len() && merge_walk(srt)[m] == optimize_spec(s)[k];
        }
    }
}

} // verus!

verus! {

/// Inserting at the boundary between the commands with smaller-or-equal
/// targets and the strictly larger ones is exactly `insert_sorted`.
proof fn lemma_seq_insert_at_boundary(c: CopyCmd, s: Seq<CopyCmd>, j: int)
    requires
        0 <= j <= s.len(),
        forall|k: int| 0 <= k < j ==> (#[trigger] s[k]).target <= c.target,
        j == s.len() || s[j].target > c.target,
    ensures
        s.insert(j, c) == insert_sorted(c, s),
    decreases j,
{
    if j == 0 {
        if s.len() == 0 {
            assert(s.insert(0, c) =~= seq![c]);
        } else {
            assert(s[0].target > c.target);
            assert(s.insert(0, c) =~= seq![c] + s);
        }
    } else {
        assert(s[0].target <= c.target);
        let tail = s.subrange(1, s.len() as int);
        lemma_seq_insert_at_boundary(c, tail, j - 1);
        assert(s.insert(j, c) =~= seq![s[0]] + tail.insert(j - 1, c));
    }
}

fn sort_cmds_by_target(cmds: &mut Vec<CopyCmd>)
    ensures
        final(cmds)@ == sort_by_target_spec(old(cmds)@),
{
    let ghost orig = cmds@;
    let mut out: Vec<CopyCmd> = Vec::new();
    let mut i: usize = 0;
    proof {
        assert(orig.take(0) =~= Seq::<CopyCmd>::empty());
    }
    while i < cmds.len()
        invariant
            i <= cmds@.len(),
            cmds@ == orig,
            out@ == sort_by_target_spec(orig.take(i as int)),
        decreases cmds@.len() - i,
    {
        let c = cmds[i];
        proof {
            lemma_sort_props(orig.take(i as int));
        }
        let mut j: usize = out.len();
        while j > 0 && out[j - 1].target > c.target
            invariant
                j <= out@.len(),
                forall|k: int| j <= k < out@.len() ==> (#[trigger] out@[k]).target > c.target,
            decreases j,
        {
            j = j - 1;
        }
        proof {
            assert forall|k: int| 0 <= k < j implies (#[trigger] out@[k]).target
                <= c.target by {
                assert(out@[k].target <= out@[j - 1].target);
            }
            lemma_seq_insert_at_boundary(c, out@, j as int);
            assert(orig.take(i + 1).drop_last() =~= orig.take(i as int));
            assert(orig.take(i + 1).last() == orig[i as int]);
        }
        out.insert(j, c);
        i = i + 1;
    }
    proof {
        assert(orig.take(orig.len() as int) =~= orig);
    }
    *cmds = out;
}

fn merge_adjacent_cmds(cmds: &mut Vec<CopyCmd>)
    requires
        sum_sizes(old(cmds)@) <= u32::MAX,
    ensures
        final(cmds)@ == merge_walk(old(cmds)@),
{
    let ghost orig = cmds@;
    if cmds.len() <= 1 {
        return;
    }
    let mut i: usize = 1;
    proof {
        assert(orig.take(1) =~= merge_walk(orig.take(1)));
        assert(cmds@.take(1) =~= orig.take(1));
        assert(cmds@.skip(1) =~= orig.skip(1));
    }
    while i < cmds.len()
        invariant
            1 <= i <= cmds@.len(),
            cmds@.len() == orig.len(),
            sum_sizes(orig) <= u32::MAX,
            cmds@.take(i as int) == merge_walk(orig.take(i as int)),
            cmds@.skip(i as int) == orig.skip(i as int),
        decreases cmds@.len() - i,
    {
        let prev = cmds[i - 1];
        let cur = cmds[i];
        let ghost pre = orig.take(i + 1);
        proof {
            assert(pre.drop_last() =~= orig.take(i as int));
            assert(pre.last() == orig[i as int]);
            assert(cur == cmds@.skip(i as int)[0]);
            assert(cur == orig[i as int]);
            lemma_sum_sizes_take(orig, i + 1);
            lemma_sum_sizes_take(orig, i as int);
            lemma_merge_walk_props(orig.take(i as int));
            let t = merge_walk(orig.take(i as int));
            assert(t.len() == i);
            assert(prev == cmds@.take(i as int)[i - 1]);
            assert(prev == t.last());
            // bound for the merged size
            lemma_sum_sizes_elem(t, i - 1);
            assert(sum_sizes(t) == sum_sizes(orig.take(i as int)));
            assert(sum_sizes(orig.take(i + 1)) == sum_sizes(orig.take(i as int)) + cur.size);
            assert(prev.size + cur.size <= u32::MAX);
        }
        let contiguous = match (
            prev.source.checked_add(prev.size as u64),
            prev.target.checked_add(prev.size as u64),
        ) {
            (Some(ps), Some(pt)) => ps == cur.source && pt == cur.target,
            _ => false,
        };
        proof {
            assert(contiguous == can_merge(prev, cur));
        }
        let ghost before = cmds@;
        if contiguous {
            cmds[i] = CopyCmd { source: prev.source, target: prev.target, size: prev.size
                + cur.size };
            cmds[i - 1] = CopyCmd { source: prev.source, target: prev.target, size: 0 };
            proof {
                let t = merge_walk(orig.take(i as int));
                assert(cmds@.take(i + 1) =~= t.update(t.len() - 1, zeroed(prev)).push(
                    merged_cmd(prev, cur),
                ));
                assert(cmds@.take(i + 1) == merge_walk(orig.take(i + 1)));
                assert forall|k: int| 0 <= k < cmds@.len() - (i + 1) implies #[trigger] cmds@.skip(i + 1)[k] == orig.skip(i + 1)[k] by {
                    assert(cmds@[i + 1 + k] == before[i + 1 + k]);
                    assert(before.skip(i as int)[k + 1] == orig.skip(i as int)[k + 1]);
                }
                assert(cmds@.skip(i + 1) =~= orig.skip(i + 1));
            }
        } else {
            proof {
                let t = merge_walk(orig.take(i as int));
                assert(cmds@.take(i + 1) =~= t.push(cur));
                assert(cmds@.take(i + 1) == merge_walk(orig.take(i + 1)));
                assert forall|k: int| 0 <= k < cmds@.len() - (i + 1) implies #[trigger] cmds@.skip(i + 1)[k] == orig.skip(i + 1)[k] by {
                    assert(before.skip(i as int)[k + 1] == orig.skip(i as int)[k + 1]);
                }
                assert(cmds@.skip(i + 1) =~= orig.skip(i + 1));
            }
        }
        i = i + 1;
    }
    proof {
        assert(orig.take(orig.len() as int) =~= orig);
        assert(cmds@.take(orig.len() as int) =~= cmds@);
    }
}

fn drop_zero_sized_cmds(cmds: &mut Vec<CopyCmd>)
    ensures
        final(cmds)@ == drop_zeros(old(cmds)@),
{
    let ghost orig = cmds@;
    let mut out: Vec<CopyCmd> = Vec::new();
    let mut i: usize = 0;
    proof {
        assert(orig.take(0) =~= Seq::<CopyCmd>::empty());
    }
    while i < cmds.len()
        invariant
            i <= cmds@.len(),
            cmds@ == orig,
            out@ == drop_zeros(orig.take(i as int)),
        decreases cmds@.len() - i,
    {
        let c = cmds[i];
        proof {
            assert(orig.take(i + 1).drop_last() =~= orig.take(i as int));
            assert(orig.take(i + 1).last() == orig[i as int]);
        }
        if c.size != 0 {
            out.push(c);
        }
        i = i + 1;
    }
    proof {
        assert(orig.take(orig.len() as int) =~= orig);
    }
    *cmds = out;
}

/// Sort by target, fold adjacent copies together, and drop the resulting
/// tombstones: the command list shrinks without changing what it writes.
pub fn optimize_copy_cmds(cmds: &mut Vec<CopyCmd>)
    requires
        sum_sizes(old(cmds)@) <= u32::MAX,
    ensures
        final(cmds)@ == optimize_spec(old(cmds)@),
{
    proof {
        lemma_sort_props(old(cmds)@);
    }
    sort_cmds_by_target(cmds);
    merge_adjacent_cmds(cmds);
    drop_zero_sized_cmds(cmds);
}

} // verus!

verus! {

/// The target-side bytes that the patch must carry, in command order.
pub open spec fn payload_of(other: Seq<u8>, cmds: Seq<CopyCmd>) -> Seq<u8>
    decreases cmds.len(),
{
    if cmds.len() == 0 {
        Seq::empty()
    } else {
        payload_of(other, cmds.drop_last()) + other.subrange(
            cmds.last().source as int,
            cmds.last().source + cmds.last().size,
        )
    }
}

/// Rewrite each command to read from the payload, at the running offset
/// of all bytes carried before it.
pub open spec fn relocate(cmds: Seq<CopyCmd>) -> Seq<CopyCmd>
    decreases cmds.len(),
{
    if cmds.len() == 0 {
        cmds
    } else {
        relocate(cmds.drop_last()).push(
            CopyCmd {
                source: sum_sizes(cmds.drop_last()) as u64,
                target: cmds.last().target,
                size: cmds.last().size,
            },
        )
    }
}

pub proof fn lemma_relocate_props(s: Seq<CopyCmd>)
    requires
        sum_sizes(s) <= u64::MAX,
    ensures
        relocate(s).len() == s.len(),
        sum_sizes(relocate(s)) == sum_sizes(s),
        forall|k: int|
            0 <= k < s.len() ==> (#[trigger] relocate(s)[k]).target == s[k].target && relocate(
                s,
            )[k].size == s[k].size && relocate(s)[k].source == sum_sizes(s.take(k)),
    decreases s.len(),
{
    if s.len() > 0 {
        let dl = s.drop_last();
        lemma_sum_sizes_take(s, s.len() - 1);
        assert(s.take(s.len() - 1) =~= dl);
        lemma_relocate_props(dl);
        lemma_sum_sizes_push(relocate(dl), relocate(s).last());
        assert forall|k: int|
            0 <= k < s.len() implies (#[trigger] relocate(s)[k]).target == s[k].target
            && relocate(s)[k].size == s[k].size && relocate(s)[k].source == sum_sizes(
            s.take(k),
        ) by {
            if k < s.len() - 1 {
                assert(relocate(s)[k] == relocate(dl)[k]);
                assert(dl[k] == s[k]);
                assert(dl.take(k) =~= s.take(k));
            } else {
                assert(relocate(s)[k].source == sum_sizes(dl) as u64);
                lemma_sum_sizes_take(dl, dl.len() as int);
                assert(sum_sizes(dl) >= 0);
            }
        }
    }
}

/// The serialization-stable result of a diff: the carried bytes, the two
/// command lists, and the length of the reconstruction.
pub struct Patch {
    pub data: Vec<u8>,
    pub base: Vec<CopyCmd>,
    pub other: Vec<CopyCmd>,
    pub other_size: u64,
}

/// Materialize the payload, rewrite the target-sourced commands to read
/// from it, and run the adjacency merge over both lists.
#[verifier::loop_isolation(false)]
pub fn build_patch(other_data: &[u8], patch_commands: &PatchCommands) -> (r: Patch)
    requires
        forall|i: int|
            0 <= i < patch_commands.other@.len() ==> (#[trigger] patch_commands.other@[i]).source
                + patch_commands.other@[i].size <= other_data@.len(),
        sum_sizes(patch_commands.other@) <= u32::MAX,
        sum_sizes(patch_commands.base@) <= u32::MAX,
    ensures
        r.data@ == payload_of(other_data@, patch_commands.other@),
        r.base@ == optimize_spec(patch_commands.base@),
        r.other@ == optimize_spec(relocate(patch_commands.other@)),
        r.other_size == other_data@.len(),
{
    let ghost ocmds = patch_commands.other@;
    let other_len = other_data.len();
    let mut patch_data: Vec<u8> = Vec::new();
    let mut other_cmds: Vec<CopyCmd> = Vec::new();
    let mut i: usize = 0;
    proof {
        assert(ocmds.take(0) =~= Seq::<CopyCmd>::empty());
        lemma_sum_sizes_take(ocmds, 0);
    }
    while i < patch_commands.other.len()
        invariant
            i <= ocmds.len(),
            patch_commands.other@ == ocmds,
            patch_data@ == payload_of(other_data@, ocmds.take(i as int)),
            other_cmds@ == relocate(ocmds.take(i as int)),
            patch_data@.len() == sum_sizes(ocmds.take(i as int)),
        decreases ocmds.len() - i,
    {
        let cmd = patch_commands.other[i];
        proof {
            assert(cmd == ocmds[i as int]);
            assert(cmd.source + cmd.size <= other_data@.len());
            lemma_sum_sizes_take(ocmds, i + 1);
            assert(ocmds.take(i + 1).drop_last() =~= ocmds.take(i as int));
            assert(ocmds.take(i + 1).last() == ocmds[i as int]);
            assert(sum_sizes(ocmds.take(i + 1)) == sum_sizes(ocmds.take(i as int))
                + cmd.size);
        }
        let patch_copy_cmd = CopyCmd {
            source: patch_data.len() as u64,
            target: cmd.target,
            size: cmd.size,
        };
        let slice_begin = cmd.source as usize;
        let slice_end = cmd.source as usize + cmd.size as usize;
        let slice = vstd::slice::slice_subrange(other_data, slice_begin, slice_end);
        patch_data.extend_from_slice(slice);
        other_cmds.push(patch_copy_cmd);
        proof {
            assert(slice@ =~= other_data@.subrange(
                cmd.source as int,
                cmd.source + cmd.size,
            ));
            assert(patch_data@ =~= payload_of(other_data@, ocmds.take(i + 1)));
            assert(other_cmds@ =~= relocate(ocmds.take(i + 1)));
        }
        i = i + 1;
    }
    proof {
        assert(ocmds.take(ocmds.len() as int) =~= ocmds);
        lemma_relocate_props(ocmds);
    }
    let mut base_cmds: Vec<CopyCmd> = Vec::new();
    let mut j: usize = 0;
    proof {
        assert(base_cmds@ =~= patch_commands.base@.take(0));
    }
    while j < patch_commands.base.len()
        invariant
            j <= patch_commands.base@.len(),
            base_cmds@ == patch_commands.base@.take(j as int),
        decreases patch_commands.base@.len() - j,
    {
        base_cmds.push(patch_commands.base[j]);
        proof {
            assert(patch_commands.base@.take(j + 1) =~= patch_commands.base@.take(
                j as int,
            ).push(patch_commands.base@[j as int]));
        }
        j = j + 1;
    }
    proof {
        assert(patch_commands.base@.take(patch_commands.base@.len() as int)
            =~= patch_commands.base@);
    }
    optimize_copy_cmds(&mut base_cmds);
    optimize_copy_cmds(&mut other_cmds);
    Patch {
        data: patch_data,
        base: base_cmds,
        other: other_cmds,
        other_size: other_data.len() as u64,
    }
}

/// A patch that can be applied to a base of the given length: every copy
/// stays inside its buffers and no two copies write the same position.
pub open spec fn patch_wf(p: Patch, base_len: int) -> bool {
    &&& p.other_size <= usize::MAX
    &&& cmds_in_bounds(p.base@, base_len, p.other_size as int)
    &&& cmds_in_bounds(p.other@, p.data@.len() as int, p.other_size as int)
    &&& forall|t: int|
        count_covering(p.base@, t) + count_covering(p.other@, t) <= 1
}

pub proof fn lemma_count_two_pub(s: Seq<CopyCmd>, t: int, i: int, j: int)
    requires
        0 <= i < j < s.len(),
        cmd_covers(s[i], t),
        cmd_covers(s[j], t),
    ensures
        count_covering(s, t) >= 2,
{
    lemma_count_two(s, t, i, j);
}

proof fn lemma_count_two(s: Seq<CopyCmd>, t: int, i: int, j: int)
    requires
        0 <= i < j < s.len(),
        cmd_covers(s[i], t),
        cmd_covers(s[j], t),
    ensures
        count_covering(s, t) >= 2,
    decreases s.len(),
{
    if j == s.len() - 1 {
        lemma_count_covering_at(s.drop_last(), t, i);
    } else {
        lemma_count_two(s.drop_last(), t, i, j);
    }
}

proof fn lemma_count_take_le(s: Seq<CopyCmd>, n: int, t: int)
    requires
        0 <= n <= s.len(),
    ensures
        count_covering(s.take(n), t) <= count_covering(s, t),
        count_covering(s.take(n), t) >= 0,
    decreases s.len(),
{
    lemma_count_covering_nonneg(s.take(n), t);
    if s.len() == 0 {
    } else if n == s.len() {
        assert(s.take(n) =~= s);
        lemma_count_take_le(s.drop_last(), s.len() - 1, t);
    } else {
        assert(s.take(n) =~= s.drop_last().take(n));
        lemma_count_take_le(s.drop_last(), n, t);
    }
}

/// Execute both command lists into a fresh buffer of the recorded length.
/// Positions that no command writes stay zero.
#[verifier::loop_isolation(false)]
pub fn apply_patch(base_data: &[u8], patch: &Patch) -> (r: Vec<u8>)
    requires
        patch_wf(*patch, base_data@.len() as int),
    ensures
        r@.len() == patch.other_size,
        forall|t: int, v: int| maps_to(patch.base@, t, v) ==> r@[t] == base_data@[v],
        forall|t: int, v: int| maps_to(patch.other@, t, v) ==> r@[t] == patch.data@[v],
        forall|t: int|
            0 <= t < patch.other_size && count_covering(patch.base@, t) + count_covering(
                patch.other@,
                t,
            ) == 0 ==> r@[t] == 0,
{
    let n = patch.other_size as usize;
    let base_len = base_data.len();
    let data_len = patch.data.len();
    let mut result: Vec<u8> = vec![0u8; n];
    let ghost bcmds = patch.base@;
    let ghost omds = patch.other@;
    proof {
        assert(base_data@.len() == base_len);
        assert(patch.data@.len() == data_len);
    }
    let mut i: usize = 0;
    while i < patch.base.len()
        invariant
            result@.len() == n,
            n == patch.other_size,
            i <= bcmds.len(),
            patch.base@ == bcmds,
            patch_wf(*patch, base_data@.len() as int),
            forall|t: int, v: int| maps_to(bcmds.take(i as int), t, v) ==> r_at(result@, t)
                == base_data@[v],
            forall|t: int|
                0 <= t < n && count_covering(bcmds.take(i as int), t) == 0 ==> r_at(result@, t)
                    == 0,
        decreases bcmds.len() - i,
    {
        let c = patch.base[i];
        proof {
            assert(c == bcmds[i as int]);
            assert(c.source + c.size <= base_data@.len());
            assert(c.target + c.size <= patch.other_size);
        }
        let mut k: usize = 0;
        let src = c.source as usize;
        let tgt = c.target as usize;
        let sz = c.size as usize;
        while k < sz
            invariant
                result@.len() == n,
                n == patch.other_size,
                k <= sz,
                i < bcmds.len(),
                c == bcmds[i as int],
                patch.base@ == bcmds,
                src == c.source && tgt == c.target && sz == c.size,
                c.source + c.size <= base_data@.len(),
                c.target + c.size <= n,
                patch_wf(*patch, base_data@.len() as int),
                forall|t: int, v: int| maps_to(bcmds.take(i as int), t, v) ==> r_at(result@, t)
                    == base_data@[v],
                forall|t: int|
                    0 <= t < n && count_covering(bcmds.take(i as int), t) == 0 && !(c.target
                        <= t < c.target + k) ==> r_at(result@, t) == 0,
                forall|d: int| 0 <= d < k ==> #[trigger] r_at(result@, c.target + d)
                    == base_data@[c.source + d],
            decreases sz - k,
        {
            let b = *vstd::slice::slice_index_get(base_data, src + k);
            let ghost pre = result@;
            result[tgt + k] = b;
            proof {
                let wt = c.target + k;
                assert forall|t: int, v: int|
                    maps_to(bcmds.take(i as int), t, v) implies r_at(result@, t)
                    == base_data@[v] by {
                    if t == wt {
                        assert(cmd_covers(c, t));
                        let m = choose|m: int|
                            0 <= m < bcmds.take(i as int).len() && cmd_covers(
                                #[trigger] bcmds.take(i as int)[m],
                                t,
                            ) && v == cmd_src(bcmds.take(i as int)[m], t);
                        assert(bcmds[m] == bcmds.take(i as int)[m]);
                        lemma_count_two(bcmds, t, m, i as int);
                        lemma_count_covering_nonneg(omds, t);
                        assert(count_covering(patch.base@, t) + count_covering(
                            patch.other@,
                            t,
                        ) <= 1);
                        assert(false);
                    } else {
                        assert(r_at(result@, t) == r_at(pre, t));
                    }
                }
                assert forall|t: int|
                    0 <= t < n && count_covering(bcmds.take(i as int), t) == 0 && !(c.target
                        <= t < c.target + k + 1) implies r_at(result@, t) == 0 by {
                    assert(r_at(result@, t) == r_at(pre, t));
                }
                assert(r_at(result@, c.target + k) == base_data@[c.source + k]);
                assert forall|d: int| 0 <= d < k + 1 implies #[trigger] r_at(
                    result@,
                    c.target + d,
                ) == base_data@[c.source + d] by {
                    if d < k {
                        assert(r_at(result@, c.target + d) == r_at(pre, c.target + d));
                    }
                }
            }
            k = k + 1;
        }
        proof {
            assert(bcmds.take(i + 1) =~= bcmds.take(i as int).push(c));
            assert forall|t: int, v: int|
                maps_to(bcmds.take(i + 1), t, v) implies r_at(result@, t) == base_data@[v] by {
                lemma_maps_push(bcmds.take(i as int), c, t, v);
                if cmd_covers(c, t) && v == cmd_src(c, t) {
                    assert(r_at(result@, c.target + (t - c.target)) == base_data@[c.source + (t
                        - c.target)]);
                }
            }
            assert forall|t: int|
                0 <= t < n && count_covering(bcmds.take(i + 1), t) == 0 implies r_at(
                result@,
                t,
            ) == 0 by {
                lemma_count_push(bcmds.take(i as int), c, t);
                lemma_count_covering_nonneg(bcmds.take(i as int), t);
            }
        }
        i = i + 1;
    }
    proof {
        assert(bcmds.take(bcmds.len() as int) =~= bcmds);
    }
    let mut j: usize = 0;
    while j < patch.other.len()
        invariant
            result@.len() == n,
            n == patch.other_size,
            j <= omds.len(),
            patch.other@ == omds,
            patch.base@ == bcmds,
            patch_wf(*patch, base_data@.len() as int),
            forall|t: int, v: int| maps_to(bcmds, t, v) ==> r_at(result@, t) == base_data@[v],
            forall|t: int, v: int| maps_to(omds.take(j as int), t, v) ==> r_at(result@, t)
                == patch.data@[v],
            forall|t: int|
                0 <= t < n && count_covering(bcmds, t) == 0 && count_covering(
                    omds.take(j as int),
                    t,
                ) == 0 ==> r_at(result@, t) == 0,
        decreases omds.len() - j,
    {
        let c = patch.other[j];
        proof {
            assert(c == omds[j as int]);
            assert(c.source + c.size <= patch.data@.len());
            assert(c.target + c.size <= patch.other_size);
        }
        let mut k: usize = 0;
        let src = c.source as usize;
        let tgt = c.target as usize;
        let sz = c.size as usize;
        while k < sz
            invariant
                result@.len() == n,
                n == patch.other_size,
                k <= sz,
                j < omds.len(),
                c == omds[j as int],
                patch.other@ == omds,
                patch.base@ == bcmds,
                src == c.source && tgt == c.target && sz == c.size,
                c.source + c.size <= patch.data@.len(),
                c.target + c.size <= n,
                patch_wf(*patch, base_data@.len() as int),
                forall|t: int, v: int| maps_to(bcmds, t, v) ==> r_at(result@, t) == base_data@[
                    v],
                forall|t: int, v: int| maps_to(omds.take(j as int), t, v) ==> r_at(result@, t)
                    == patch.data@[v],
                forall|t: int|
                    0 <= t < n && count_covering(bcmds, t) == 0 && count_covering(
                        omds.take(j as int),
                        t,
                    ) == 0 && !(c.target <= t < c.target + k) ==> r_at(result@, t) == 0,
                forall|d: int| 0 <= d < k ==> #[trigger] r_at(result@, c.target + d)
                    == patch.data@[c.source + d],
            decreases sz - k,
        {
            let b = patch.data[src + k];
            let ghost pre = result@;
            result[tgt + k] = b;
            proof {
                let wt = c.target + k;
                assert forall|t: int, v: int| maps_to(bcmds, t, v) implies r_at(result@, t)
                    == base_data@[v] by {
                    if t == wt {
                        assert(cmd_covers(c, t));
                        let m = choose|m: int|
                            0 <= m < bcmds.len() && cmd_covers(#[trigger] bcmds[m], t) && v
                                == cmd_src(bcmds[m], t);
                        lemma_count_covering_at(bcmds, t, m);
                        lemma_count_covering_at(omds, t, j as int);
                        assert(count_covering(patch.base@, t) + count_covering(
                            patch.other@,
                            t,
                        ) <= 1);
                        assert(false);
                    } else {
                        assert(r_at(result@, t) == r_at(pre, t));
                    }
                }
                assert forall|t: int|
                    0 <= t < n && count_covering(bcmds, t) == 0 && count_covering(
                        omds.take(j as int),
                        t,
                    ) == 0 && !(c.target <= t < c.target + k + 1) implies r_at(result@, t)
                    == 0 by {
                    assert(r_at(result@, t) == r_at(pre, t));
                }
                assert forall|t: int, v: int|
                    maps_to(omds.take(j as int), t, v) implies r_at(result@, t) == patch.data@[
                    v] by {
                    if t == wt {
                        assert(cmd_covers(c, t));
                        let m = choose|m: int|
                            0 <= m < omds.take(j as int).len() && cmd_covers(
                                #[trigger] omds.take(j as int)[m],
                                t,
                            ) && v == cmd_src(omds.take(j as int)[m], t);
                        assert(omds[m] == omds.take(j as int)[m]);
                        lemma_count_two(omds, t, m, j as int);
                        lemma_count_covering_nonneg(bcmds, t);
                        assert(count_covering(patch.base@, t) + count_covering(
                            patch.other@,
                            t,
                        ) <= 1);
                        assert(false);
                    } else {
                        assert(r_at(result@, t) == r_at(pre, t));
                    }
                }
                assert(r_at(result@, c.target + k) == patch.data@[c.source + k]);
                assert forall|d: int| 0 <= d < k + 1 implies #[trigger] r_at(
                    result@,
                    c.target + d,
                ) == patch.data@[c.source + d] by {
                    if d < k {
                        assert(r_at(result@, c.target + d) == r_at(pre, c.target + d));
                    }
                }
            }
            k = k + 1;
        }
        proof {
            assert(omds.take(j + 1) =~= omds.take(j as int).push(c));
            assert forall|t: int, v: int|
                maps_to(omds.take(j + 1), t, v) implies r_at(result@, t) == patch.data@[v] by {
                lemma_maps_push(omds.take(j as int), c, t, v);
                if cmd_covers(c, t) && v == cmd_src(c, t) {
                    assert(r_at(result@, c.target + (t - c.target)) == patch.data@[c.source + (
                    t - c.target)]);
                }
            }
            assert forall|t: int|
                0 <= t < n && count_covering(bcmds, t) == 0 && count_covering(
                    omds.take(j + 1),
                    t,
                ) == 0 implies r_at(result@, t) == 0 by {
                lemma_count_push(omds.take(j as int), c, t);
                lemma_count_covering_nonneg(omds.take(j as int), t);
            }
        }
        j = j + 1;
    }
    proof {
        assert(omds.take(omds.len() as int) =~= omds);
        assert forall|t: int|
            0 <= t < patch.other_size && count_covering(patch.base@, t) + count_covering(
                patch.other@,
                t,
            ) == 0 implies result@[t] == 0 by {
            lemma_count_covering_nonneg(bcmds, t);
            lemma_count_covering_nonneg(omds, t);
            assert(r_at(result@, t) == 0);
        }
        assert forall|t: int, v: int| maps_to(patch.base@, t, v) implies result@[t]
            == base_data@[v] by {
            assert(r_at(result@, t) == base_data@[v]);
        }
        assert forall|t: int, v: int| maps_to(patch.other@, t, v) implies result@[t]
            == patch.data@[v] by {
            assert(r_at(result@, t) == patch.data@[v]);
        }
    }
    result
}

/// The byte of the reconstruction at position `t`.
pub open spec fn r_at(s: Seq<u8>, t: int) -> u8 {
    s[t]
}

} // verus!

verus! {

/// No two neighbours of the list can still be folded together.
pub open spec fn fully_merged(s: Seq<CopyCmd>) -> bool {
    forall|k: int| 0 <= k < s.len() - 1 ==> !can_merge(#[trigger] s[k], s[k + 1])
}

/// Sorting a list that is already ordered by target changes nothing.
proof fn lemma_sort_sorted_identity(s: Seq<CopyCmd>)
    requires
        sorted_by_target(s),
    ensures
        sort_by_target_spec(s) == s,
    decreases s.len(),
{
    if s.len() > 0 {
        let dl = s.drop_last();
        assert(sorted_by_target(dl)) by {
            assert(forall|i: int| 0 <= i < dl.len() ==> dl[i] == (#[trigger] s[i]));
        }
        lemma_sort_sorted_identity(dl);
        assert forall|k: int| 0 <= k < dl.len() implies (#[trigger] dl[k]).target
            <= s.last().target by {
            assert(dl[k] == s[k]);
        }
        lemma_seq_insert_at_boundary(s.last(), dl, dl.len() as int);
        assert(dl.insert(dl.len() as int, s.last()) =~= s);
    }
}

/// The merge pass leaves a list with no adjacent mergeable pair, and its
/// last command is never a tombstone.
proof fn lemma_walk_fully_merged(s: Seq<CopyCmd>)
    requires
        sum_sizes(s) <= u32::MAX,
        forall|k: int| 0 <= k < s.len() ==> (#[trigger] s[k]).size >= 1,
    ensures
        s.len() >= 1 ==> merge_walk(s).last().size >= 1,
        s.len() >= 1 ==> drop_zeros(merge_walk(s)).len() >= 1 && drop_zeros(
            merge_walk(s),
        ).last() == merge_walk(s).last(),
        fully_merged(drop_zeros(merge_walk(s))),
    decreases s.len(),
{
    if s.len() <= 1 {
        if s.len() == 1 {
            assert(merge_walk(s) == s);
            assert(drop_zeros(s).len() == 1 && drop_zeros(s).last() == s.last()) by {
                assert(s[0].size >= 1);
                assert(s.last().size != 0);
                assert(drop_zeros(s.drop_last()).len() == 0);
                assert(drop_zeros(s) == drop_zeros(s.drop_last()).push(s.last()));
            }
        }
    } else {
        let dl = s.drop_last();
        lemma_sum_sizes_take(s, s.len() - 1);
        assert(s.take(s.len() - 1) =~= dl);
        assert(sum_sizes(s) == sum_sizes(dl) + s.last().size);
        assert(forall|k: int| 0 <= k < dl.len() ==> dl[k] == (#[trigger] s[k]));
        lemma_walk_fully_merged(dl);
        lemma_merge_walk_props(dl);
        let t = merge_walk(dl);
        let prev = t.last();
        let cur = s.last();
        let dzt = drop_zeros(t);
        lemma_sum_sizes_elem(t, t.len() - 1);
        assert(prev.size + cur.size <= u32::MAX);
        assert(dzt == drop_zeros(t.drop_last()).push(prev)) by {
            assert(t.drop_last() =~= t.drop_last());
        }
        if can_merge(prev, cur) {
            let mg = merged_cmd(prev, cur);
            assert(mg.size == prev.size + cur.size);
            let tu = t.update(t.len() - 1, zeroed(prev));
            assert(merge_walk(s) == tu.push(mg));
            assert(merge_walk(s).last() == mg && mg.size >= 1);
            // tombstones drop away down to the previous surviving command
            assert(tu.push(mg).drop_last() =~= tu);
            assert(tu =~= t.drop_last().push(zeroed(prev)));
            assert(drop_zeros(tu) == drop_zeros(t.drop_last())) by {
                assert(tu.drop_last() =~= t.drop_last());
                assert(tu.last() == zeroed(prev));
            }
            assert(drop_zeros(merge_walk(s)) == drop_zeros(t.drop_last()).push(mg));
            assert(drop_zeros(t.drop_last()) =~= dzt.drop_last());
            assert(drop_zeros(merge_walk(s)) == dzt.drop_last().push(mg));
            assert(fully_merged(drop_zeros(merge_walk(s)))) by {
                let r = dzt.drop_last().push(mg);
                assert forall|k: int| 0 <= k < r.len() - 1 implies !can_merge(
                    #[trigger] r[k],
                    r[k + 1],
                ) by {
                    if k + 1 < r.len() - 1 {
                        assert(r[k] == dzt[k] && r[k + 1] == dzt[k + 1]);
                        assert(!can_merge(dzt[k], dzt[k + 1]));
                    } else {
                        // the pair at the boundary: the survivor before the
                        // merged command could not merge with `prev`, and the
                        // merged command starts where `prev` started
                        assert(r[k] == dzt[k] && r[k + 1] == mg);
                        assert(dzt[k + 1] == prev) by {
                            assert(dzt.last() == prev);
                        }
                        assert(!can_merge(dzt[k], prev));
                        assert(mg.source == prev.source && mg.target == prev.target);
                    }
                }
            }
        } else {
            assert(merge_walk(s) == t.push(cur));
            assert(cur.size >= 1) by {
                assert(s[s.len() - 1].size >= 1);
            }
            assert(drop_zeros(merge_walk(s)) == dzt.push(cur)) by {
                assert(t.push(cur).drop_last() =~= t);
            }
            assert(fully_merged(dzt.push(cur))) by {
                let r = dzt.push(cur);
                assert forall|k: int| 0 <= k < r.len() - 1 implies !can_merge(
                    #[trigger] r[k],
                    r[k + 1],
                ) by {
                    if k + 1 < r.len() - 1 {
                        assert(r[k] == dzt[k] && r[k + 1] == dzt[k + 1]);
                        assert(!can_merge(dzt[k], dzt[k + 1]));
                    } else {
                        assert(r[k] == dzt[k] && r[k + 1] == cur);
                        assert(dzt[k] == prev) by {
                            assert(dzt.last() == prev);
                        }
                    }
                }
            }
        }
    }
}

/// Merging a list with no mergeable neighbours changes nothing.
proof fn lemma_walk_merged_identity(s: Seq<CopyCmd>)
    requires
        fully_merged(s),
    ensures
        merge_walk(s) == s,
    decreases s.len(),
{
    if s.len() > 1 {
        let dl = s.drop_last();
        assert(fully_merged(dl)) by {
            assert(forall|i: int| 0 <= i < dl.len() ==> dl[i] == (#[trigger] s[i]));
        }
        lemma_walk_merged_identity(dl);
        assert(!can_merge(s[s.len() - 2], s[s.len() - 1]));
        assert(merge_walk(s) == dl.push(s.last()));
        assert(dl.push(s.last()) =~= s);
    }
}

/// Dropping tombstones from a list without tombstones changes nothing.
proof fn lemma_drop_zeros_identity(s: Seq<CopyCmd>)
    requires
        forall|k: int| 0 <= k < s.len() ==> (#[trigger] s[k]).size >= 1,
    ensures
        drop_zeros(s) == s,
    decreases s.len(),
{
    if s.len() > 0 {
        let dl = s.drop_last();
        assert(forall|i: int| 0 <= i < dl.len() ==> dl[i] == (#[trigger] s[i]));
        lemma_drop_zeros_identity(dl);
        assert(s[s.len() - 1].size >= 1);
        assert(dl.push(s.last()) =~= s);
    }
}

/// Idempotence: running the optimization pass twice gives the same command
/// list as running it once. (A list that already carries zero-size
/// tombstones may lose merge opportunities across them, so the law speaks
/// of lists of real commands.)
pub proof fn lemma_optimize_idempotent(s: Seq<CopyCmd>)
    requires
        sum_sizes(s) <= u32::MAX,
        forall|k: int| 0 <= k < s.len() ==> (#[trigger] s[k]).size >= 1,
    ensures
        optimize_spec(optimize_spec(s)) == optimize_spec(s),
{
    let srt = sort_by_target_spec(s);
    lemma_sort_props(s);
    assert(forall|k: int| 0 <= k < srt.len() ==> (#[trigger] srt[k]).size >= 1) by {
        assert forall|k: int| 0 <= k < srt.len() implies (#[trigger] srt[k]).size >= 1 by {
            assert(srt[k] == s.last() || s.contains(srt[k]));
            if s.contains(srt[k]) {
                let m = choose|m: int| 0 <= m < s.len() && s[m] == srt[k];
            } else {
                assert(s[s.len() - 1] == s.last());
            }
        }
    }
    lemma_walk_fully_merged(srt);
    lemma_merge_walk_props(srt);
    lemma_drop_zeros_props(merge_walk(srt));
    let r = optimize_spec(s);
    assert(sorted_by_target(r));
    assert(fully_merged(r));
    assert(forall|k: int| 0 <= k < r.len() ==> (#[trigger] r[k]).size >= 1);
    lemma_sort_sorted_identity(r);
    lemma_walk_merged_identity(r);
    lemma_drop_zeros_identity(r);
}

} // verus!

verus! {

pub const BLOCK_SIZE_LOG2_MIN: i32 = 6;

pub const BLOCK_SIZE_LOG2_MAX: i32 = 24;

pub const DEFAULT_BLOCK_SIZE_LOG2: i32 = 11;

pub const COMPRESSION_LEVEL_MIN: i32 = 1;

pub const COMPRESSION_LEVEL_MAX: i32 = 22;

pub const DEFAULT_COMPRESSION_LEVEL: i32 = 15;

/// Clamp a tunable into its documented range; out-of-range values are
/// adjusted, never rejected.
pub fn clamp_parameter(v: i32, lo: i32, hi: i32) -> (r: i32)
    requires
        lo <= hi,
    ensures
        r == if v < lo {
            lo
        } else if v > hi {
            hi
        } else {
            v
        },
        lo <= r <= hi,
        r == v || v < lo || v > hi,
{
    if v < lo {
        lo
    } else if v > hi {
        hi
    } else {
        v
    }
}

} // verus!
