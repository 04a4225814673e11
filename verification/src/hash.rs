use vstd::prelude::*;
use vstd::arithmetic::div_mod::{
    lemma_add_mod_noop, lemma_mod_multiples_vanish, lemma_mul_mod_noop_left, lemma_small_mod,
    lemma_sub_mod_noop, lemma_sub_mod_noop_right,
};

verus! {

/// Mathematical state of the rolling checksum: two 16-bit accumulators and
/// the number of bytes currently in the window.
pub struct RollingModel {
    pub a: int,
    pub b: int,
    pub count: int,
}

/// Every byte enters the checksum with a bias of 31, wrapping at 8 bits,
/// so that zero bytes still perturb the accumulators.
pub open spec fn byte_term(x: u8) -> int {
    (x + 31) % 256
}

pub open spec fn rh_init() -> RollingModel {
    RollingModel { a: 0, b: 0, count: 0 }
}

/// Effect of feeding one byte: both accumulators wrap at 16 bits.
pub open spec fn rh_add(st: RollingModel, x: u8) -> RollingModel {
    let a2 = (st.a + byte_term(x)) % 0x10000;
    RollingModel { a: a2, b: (st.b + a2) % 0x10000, count: st.count + 1 }
}

/// Effect of removing the oldest byte of the window.
pub open spec fn rh_sub(st: RollingModel, x: u8) -> RollingModel {
    RollingModel {
        a: (st.a - byte_term(x)) % 0x10000,
        b: (st.b - st.count * byte_term(x)) % 0x10000,
        count: st.count - 1,
    }
}

/// State after feeding a whole byte sequence.
pub open spec fn rh_absorb(st: RollingModel, s: Seq<u8>) -> RollingModel
    decreases s.len(),
{
    if s.len() == 0 {
        st
    } else {
        rh_add(rh_absorb(st, s.drop_last()), s.last())
    }
}

/// The 32-bit fingerprint: `a` in the low half, `b` in the high half.
pub open spec fn rh_digest(st: RollingModel) -> int {
    st.a + st.b * 0x10000
}

/// The weak hash of a byte sequence, as computed from an empty window.
pub open spec fn weak_hash_of(s: Seq<u8>) -> int {
    rh_digest(rh_absorb(rh_init(), s))
}

/// Sum of the biased byte terms of `s`.
pub open spec fn term_sum(s: Seq<u8>) -> int
    decreases s.len(),
{
    if s.len() == 0 {
        0
    } else {
        term_sum(s.drop_last()) + byte_term(s.last())
    }
}

/// Sum of the running `a` accumulators, i.e. each term weighted by its
/// distance from the end of the window.
pub open spec fn weighted_sum(s: Seq<u8>) -> int
    decreases s.len(),
{
    if s.len() == 0 {
        0
    } else {
        weighted_sum(s.drop_last()) + term_sum(s)
    }
}

pub proof fn lemma_absorb_count(st: RollingModel, s: Seq<u8>)
    ensures
        rh_absorb(st, s).count == st.count + s.len(),
    decreases s.len(),
{
    if s.len() > 0 {
        lemma_absorb_count(st, s.drop_last());
    }
}

/// Closed form of the state reached from an empty window.
pub proof fn lemma_absorb_form(s: Seq<u8>)
    ensures
        rh_absorb(rh_init(), s).a == term_sum(s) % 0x10000,
        rh_absorb(rh_init(), s).b == weighted_sum(s) % 0x10000,
        rh_absorb(rh_init(), s).count == s.len(),
    decreases s.len(),
{
    if s.len() == 0 {
        assert(0int % 0x10000 == 0);
    } else {
        let dl = s.drop_last();
        lemma_absorb_form(dl);
        let st = rh_absorb(rh_init(), dl);
        lemma_small_mod(0, 0x10000);
        // a: (term_sum(dl) % M + t) % M == (term_sum(dl) + t) % M
        lemma_add_mod_noop(term_sum(dl), byte_term(s.last()), 0x10000);
        lemma_small_mod(byte_term(s.last()) as nat, 0x10000);
        assert(rh_absorb(rh_init(), s).a == term_sum(s) % 0x10000);
        // b: (weighted_sum(dl) % M + term_sum(s) % M) % M == weighted_sum(s) % M
        lemma_add_mod_noop(weighted_sum(dl), term_sum(s), 0x10000);
        assert(rh_absorb(rh_init(), s).b == (weighted_sum(dl) % 0x10000 + term_sum(s)
            % 0x10000) % 0x10000);
        assert(rh_absorb(rh_init(), s).b == weighted_sum(s) % 0x10000);
    }
}

/// Both sums can also be peeled off at the front of the sequence.
pub proof fn lemma_sums_front(s: Seq<u8>)
    requires
        s.len() >= 1,
    ensures
        term_sum(s) == byte_term(s[0]) + term_sum(s.subrange(1, s.len() as int)),
        weighted_sum(s) == s.len() * byte_term(s[0]) + weighted_sum(
            s.subrange(1, s.len() as int),
        ),
    decreases s.len(),
{
    let n = s.len() as int;
    let tail = s.subrange(1, n);
    if s.len() == 1 {
        assert(tail =~= Seq::<u8>::empty());
        assert(term_sum(s) == term_sum(s.drop_last()) + byte_term(s.last()));
        assert(s.drop_last() =~= Seq::<u8>::empty());
        assert(s.last() == s[0]);
        assert(1 * byte_term(s[0]) == byte_term(s[0])) by (nonlinear_arith);
    } else {
        let dl = s.drop_last();
        lemma_sums_front(dl);
        assert(dl[0] == s[0]);
        assert(dl.subrange(1, dl.len() as int) =~= tail.drop_last());
        assert(tail.last() == s.last());
        // term_sum(s) = term_sum(dl) + bt(last)
        //             = bt(s0) + term_sum(tail.drop_last()) + bt(tail.last())
        //             = bt(s0) + term_sum(tail)
        assert(term_sum(s) == byte_term(s[0]) + term_sum(tail));
        // weighted_sum(s) = weighted_sum(dl) + term_sum(s)
        //   weighted_sum(dl) = (n-1)*bt(s0) + weighted_sum(tail.drop_last())
        //   weighted_sum(tail) = weighted_sum(tail.drop_last()) + term_sum(tail)
        assert(weighted_sum(s) == (n - 1) * byte_term(s[0]) + weighted_sum(tail.drop_last())
            + byte_term(s[0]) + term_sum(tail));
        assert((n - 1) * byte_term(s[0]) + byte_term(s[0]) == n * byte_term(s[0]))
            by (nonlinear_arith);
        assert(weighted_sum(s) == n * byte_term(s[0]) + weighted_sum(tail));
    }
}

/// Removing the oldest byte of a window built from scratch leaves exactly
/// the state of the remaining window: the sliding step of the matcher.
pub proof fn lemma_absorb_sub_front(s: Seq<u8>)
    requires
        s.len() >= 1,
    ensures
        rh_sub(rh_absorb(rh_init(), s), s[0]) == rh_absorb(
            rh_init(),
            s.subrange(1, s.len() as int),
        ),
{
    let n = s.len() as int;
    let tail = s.subrange(1, n);
    let m = 0x10000int;
    lemma_absorb_form(s);
    lemma_absorb_form(tail);
    lemma_sums_front(s);
    let st = rh_absorb(rh_init(), s);
    let t0 = byte_term(s[0]);
    // a component
    lemma_small_mod(t0 as nat, m as nat);
    lemma_sub_mod_noop(term_sum(s), t0, m);
    assert((st.a - t0) % m == (term_sum(s) - t0) % m);
    assert(term_sum(s) - t0 == term_sum(tail));
    // b component
    assert(st.count == n);
    lemma_sub_mod_noop_right(st.b, n * t0, m);
    lemma_sub_mod_noop(weighted_sum(s), n * t0, m);
    assert((st.b - n * t0) % m == (weighted_sum(s) - n * t0) % m);
    assert(weighted_sum(s) - n * t0 == weighted_sum(tail));
    assert((st.b - st.count * t0) % m == weighted_sum(tail) % m);
    assert(rh_sub(st, s[0]).b == rh_absorb(rh_init(), tail).b);
    assert(rh_sub(st, s[0]).a == rh_absorb(rh_init(), tail).a);
    assert(rh_sub(st, s[0]).count == rh_absorb(rh_init(), tail).count);
}

/// Additive rolling checksum with O(1) add and remove.
pub struct RollingHash {
    a: u16,
    b: u16,
    count: usize,
}

impl View for RollingHash {
    type V = RollingModel;

    closed spec fn view(&self) -> RollingModel {
        RollingModel { a: self.a as int, b: self.b as int, count: self.count as int }
    }
}

impl RollingHash {
    pub fn new() -> (r: Self)
        ensures
            r@ == rh_init(),
    {
        RollingHash { a: 0, b: 0, count: 0 }
    }

    pub fn count(&self) -> (r: usize)
        ensures
            r == self@.count,
    {
        self.count
    }

    pub fn update(&mut self, input: &[u8])
        requires
            old(self)@.count + input@.len() <= usize::MAX,
        ensures
            final(self)@ == rh_absorb(old(self)@, input@),
    {
        let ghost st0 = self@;
        let n = input.len();
        let mut i: usize = 0;
        while i < n
            invariant
                i <= n,
                n == input@.len(),
                st0.count + n <= usize::MAX,
                self@ == rh_absorb(st0, input@.take(i as int)),
            decreases n - i,
        {
            proof {
                lemma_absorb_count(st0, input@.take(i as int));
            }
            let x = *vstd::slice::slice_index_get(input, i);
            self.add(x);
            proof {
                assert(input@.take(i + 1).drop_last() =~= input@.take(i as int));
                assert(input@.take(i + 1).last() == input@[i as int]);
            }
            i = i + 1;
        }
        proof {
            assert(input@.take(n as int) =~= input@);
        }
    }

    pub fn get(&self) -> (r: u32)
        ensures
            r == rh_digest(self@),
    {
        let a = self.a;
        let b = self.b;
        let r = (a as u32) | ((b as u32) << 16);
        proof {
            assert(r == a + b * 0x10000) by (bit_vector)
                requires
                    r == ((a as u32) | ((b as u32) << 16u32)),
            ;
        }
        r
    }

    pub fn add(&mut self, x: u8)
        requires
            old(self)@.count < usize::MAX,
        ensures
            final(self)@ == rh_add(old(self)@, x),
    {
        self.a = self.a.wrapping_add(x.wrapping_add(31) as u16);
        self.b = self.b.wrapping_add(self.a);
        self.count = self.count + 1;
    }

    pub fn sub(&mut self, x: u8)
        requires
            old(self)@.count >= 1,
        ensures
            final(self)@ == rh_sub(old(self)@, x),
    {
        let ghost st0 = self@;
        let ghost m: int = 0x10000;
        let x2 = x.wrapping_add(31) as u16;
        self.a = self.a.wrapping_sub(x2);
        proof {
            // a component: wrapping subtraction equals the Euclidean remainder
            let t0 = x2 as int;
            lemma_small_mod(t0 as nat, m as nat);
            if st0.a - t0 >= 0 {
                lemma_small_mod((st0.a - t0) as nat, m as nat);
            } else {
                lemma_mod_multiples_vanish(1, st0.a - t0, m);
                lemma_small_mod((st0.a - t0 + m) as nat, m as nat);
            }
            assert(byte_term(x) == t0);
        }
        let reduced: usize = self.count % 0x10000;
        proof {
            assert(reduced * (x2 as usize) < 0x2000000) by (nonlinear_arith)
                requires
                    reduced < 0x10000 && x2 < 0x200,
            ;
        }
        let prod: usize = reduced * (x2 as usize);
        self.b = self.b.wrapping_sub((prod % 0x10000) as u16);
        proof {
            let t0 = x2 as int;
            lemma_mul_mod_noop_left(st0.count, t0, m);
            assert(prod % 0x10000 == (st0.count * t0) % m);
            let q = (st0.count * t0) % m;
            lemma_sub_mod_noop_right(st0.b, st0.count * t0, m);
            assert((st0.b - q) % m == (st0.b - st0.count * t0) % m);
            if st0.b - q >= 0 {
                lemma_small_mod((st0.b - q) as nat, m as nat);
            } else {
                lemma_mod_multiples_vanish(1, st0.b - q, m);
                lemma_small_mod((st0.b - q + m) as nat, m as nat);
            }
        }
        self.count = self.count - 1;
    }
}

/// A 128-bit content digest, opaque to the delta logic, compared in
/// constant time.
#[derive(Clone, Copy, Debug, Hash)]
pub struct Hash128([u8; 16]);

impl View for Hash128 {
    type V = Seq<u8>;

    closed spec fn view(&self) -> Seq<u8> {
        self.0@
    }
}

impl Hash128 {
    pub fn from_bytes(bytes: [u8; 16]) -> (r: Self)
        ensures
            r@ == bytes@,
    {
        Hash128(bytes)
    }

    pub fn from_slice(bytes: &[u8]) -> (r: Self)
        requires
            bytes@.len() == 16,
        ensures
            r@ == bytes@,
    {
        let arr: [u8; 16] = [
            *vstd::slice::slice_index_get(bytes, 0),
            *vstd::slice::slice_index_get(bytes, 1),
            *vstd::slice::slice_index_get(bytes, 2),
            *vstd::slice::slice_index_get(bytes, 3),
            *vstd::slice::slice_index_get(bytes, 4),
            *vstd::slice::slice_index_get(bytes, 5),
            *vstd::slice::slice_index_get(bytes, 6),
            *vstd::slice::slice_index_get(bytes, 7),
            *vstd::slice::slice_index_get(bytes, 8),
            *vstd::slice::slice_index_get(bytes, 9),
            *vstd::slice::slice_index_get(bytes, 10),
            *vstd::slice::slice_index_get(bytes, 11),
            *vstd::slice::slice_index_get(bytes, 12),
            *vstd::slice::slice_index_get(bytes, 13),
            *vstd::slice::slice_index_get(bytes, 14),
            *vstd::slice::slice_index_get(bytes, 15),
        ];
        proof {
            assert(arr@ =~= bytes@);
        }
        Hash128(arr)
    }

    pub fn as_bytes(&self) -> (r: &[u8; 16])
        ensures
            r@ == self@,
    {
        &self.0
    }
}

impl vstd::std_specs::cmp::PartialEqSpecImpl for Hash128 {
    open spec fn obeys_eq_spec() -> bool {
        true
    }

    open spec fn eq_spec(&self, other: &Hash128) -> bool {
        self@ == other@
    }
}

/// Relies on constant_time_eq::constant_time_eq_16, which returns true
/// exactly when the two 16-byte arrays hold the same bytes, taking time
/// independent of their contents.
#[verifier::external_body]
fn ct_eq16(a: &[u8; 16], b: &[u8; 16]) -> (r: bool)
    ensures
        r == (a@ == b@),
{
    constant_time_eq::constant_time_eq_16(a, b)
}

impl PartialEq for Hash128 {
    fn eq(&self, other: &Self) -> (r: bool) {
        ct_eq16(&self.0, &other.0)
    }
}

impl Eq for Hash128 {

}

/// The digest always holds exactly sixteen bytes.
pub proof fn lemma_hash128_len(h: Hash128)
    ensures
        h@.len() == 16,
{
}

/// What the strong hash returns: a pure function of the input bytes alone.
pub uninterp spec fn strong_hash_of(s: Seq<u8>) -> Seq<u8>;

/// Relies on blake3::Hasher (new, update, finalize): the digest depends on
/// the hashed bytes alone, and its first 16 bytes form the strong hash.
#[verifier::external_body]
pub fn compute_hash_strong(input: &[u8]) -> (r: Hash128)
    ensures
        r@ == strong_hash_of(input@),
{
    let mut hasher_blake3 = blake3::Hasher::new();
    hasher_blake3.update(input);
    let hash = hasher_blake3.finalize();
    let mut bytes: [u8; 16] = [0; 16];
    bytes.copy_from_slice(&hash.as_bytes()[0..16]);
    Hash128(bytes)
}

pub fn compute_hash_weak(input: &[u8]) -> (r: u32)
    ensures
        r == weak_hash_of(input@),
{
    let n = input.len();
    let mut hash_rolling = RollingHash::new();
    assert(input@.len() == n);
    hash_rolling.update(input);
    hash_rolling.get()
}

} // verus!
