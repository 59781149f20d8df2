//! Gray code tables: every pattern of `k` bits once, each differing from the
//! one before it in a single bit.
use vstd::arithmetic::power2::{
    lemma2_to64, lemma_pow2_strictly_increases, lemma_pow2_unfold, pow2,
};
use vstd::prelude::*;

verus! {

/// The largest table width that is built.
pub const MAX_KAY: usize = 16;

/// Entry `i` of the reflected Gray code.
pub open spec fn gray(i: u64) -> u64 {
    i ^ (i >> 1)
}

/// The position at which `v` stands in the Gray code: `gray(rank) == v`.
pub open spec fn gray_rank(v: u64) -> u64 {
    let a = v ^ (v >> 1);
    let b = a ^ (a >> 2);
    let c = b ^ (b >> 4);
    let d = c ^ (c >> 8);
    let e = d ^ (d >> 16);
    e ^ (e >> 32)
}

/// The integer part of the binary logarithm of `n`, and 0 for `n < 2`.
pub open spec fn floor_log2(n: nat) -> nat
    decreases n,
{
    if n < 2 {
        0
    } else {
        1 + floor_log2(n / 2)
    }
}

/// The table width that suits matrices whose smaller dimension is `n`:
/// three quarters of the number of binary digits of `n`, within
/// `[1, MAX_KAY]`.
pub open spec fn spec_opt_k(n: nat) -> nat {
    let res = 3 * (1 + floor_log2(n)) / 4;
    if res < 1 {
        1
    } else if res > 16 {
        16
    } else {
        res
    }
}

/// Every pattern stands at the rank of its Gray code entry, and the other
/// way round: the code is a bijection.
pub proof fn lemma_gray_bijective(v: u64)
    ensures
        gray(gray_rank(v)) == v,
        gray_rank(gray(v)) == v,
{
    assert(gray(gray_rank(v)) == v) by (bit_vector);
    assert(gray_rank(gray(v)) == v) by (bit_vector);
}

/// The code of `k` bits stays within the patterns of `k` bits.
pub proof fn lemma_gray_bounded(v: u64, k: u64)
    requires
        k < 64,
        v < (1u64 << k),
    ensures
        gray(v) < (1u64 << k),
        gray_rank(v) < (1u64 << k),
{
    assert(gray(v) < (1u64 << k)) by (bit_vector)
        requires
            k < 64,
            v < (1u64 << k),
    ;
    assert(gray_rank(v) < (1u64 << k)) by (bit_vector)
        requires
            k < 64,
            v < (1u64 << k),
    ;
}

/// Neighbours in the code differ in the bit at which the rank of the later
/// one has its lowest one.
pub proof fn lemma_gray_step(i: u64, p: u64)
    requires
        p < 64,
        (i >> p) & 1 == 1,
        i & (((1u64 << p) - 1) as u64) == 0,
    ensures
        i >= 1,
        gray(i) == gray((i - 1) as u64) ^ (1u64 << p),
{
    assert(i >= 1 && (i ^ (i >> 1)) == (((i - 1) as u64) ^ (((i - 1) as u64) >> 1)) ^ (1u64 << p))
        by (bit_vector)
        requires
            p < 64,
            (i >> p) & 1 == 1,
            i & (((1u64 << p) - 1) as u64) == 0,
    ;
}

/// A Gray code table for patterns of `k` bits.
///
/// `ord[i]` is entry `i` of the code; `inc[i]`, for `i >= 1`, is the
/// position of the one bit in which `ord[i]` differs from `ord[i - 1]`.
#[derive(Debug)]
pub struct Code {
    pub(crate) k: usize,
    pub(crate) ord: Vec<usize>,
    pub(crate) inc: Vec<usize>,
}

impl Code {
    /// Number of bits of a pattern, as a mathematical integer.
    pub open(crate) spec fn spec_k(&self) -> nat {
        self.k as nat
    }

    /// The entries of the code, in order.
    pub open(crate) spec fn spec_ord(&self) -> Seq<usize> {
        self.ord@
    }

    /// The bit that changes from each entry to the next.
    pub open(crate) spec fn spec_inc(&self) -> Seq<usize> {
        self.inc@
    }

    /// The table invariant.
    pub open(crate) spec fn wf(&self) -> bool {
        &&& 1 <= self.k <= MAX_KAY
        &&& self.ord@.len() == (1u64 << (self.k as u64))
        &&& self.inc@.len() == (1u64 << (self.k as u64))
        &&& forall|i: int|
            0 <= i < self.ord@.len() ==> (#[trigger] self.ord@[i]) as u64 == gray(i as u64)
        &&& self.inc@[0] == 0
        &&& forall|i: int|
            1 <= i < self.inc@.len() ==> (#[trigger] self.inc@[i]) < self.k && gray(i as u64)
                == gray((i - 1) as u64) ^ (1u64 << (self.inc@[i] as u64))
    }

    /// Number of bits of a pattern.
    pub fn k(&self) -> (k: usize)
        ensures
            k == self.spec_k(),
    {
        self.k
    }

    /// Number of entries.
    pub fn len(&self) -> (n: usize)
        ensures
            n == self.spec_ord().len(),
    {
        self.ord.len()
    }

    /// Entry `i` of the code.
    pub fn ord(&self, i: usize) -> (v: usize)
        requires
            i < self.spec_ord().len(),
        ensures
            v == self.spec_ord()[i as int],
    {
        self.ord[i]
    }

    /// The bit in which entry `i` differs from the entry before it.
    pub fn inc(&self, i: usize) -> (p: usize)
        requires
            i < self.spec_inc().len(),
        ensures
            p == self.spec_inc()[i as int],
    {
        self.inc[i]
    }

    /// Every pattern of `k` bits is an entry of the table, at one rank only.
    pub proof fn lemma_enumerates(&self, v: u64)
        requires
            self.wf(),
            v < (1u64 << (self.spec_k() as u64)),
        ensures
            gray_rank(v) < self.spec_ord().len(),
            self.spec_ord()[gray_rank(v) as int] == v,
            forall|i: int|
                0 <= i < self.spec_ord().len() && self.spec_ord()[i] == v ==> i == gray_rank(v),
    {
        lemma_gray_bounded(v, self.k as u64);
        lemma_gray_bijective(v);
        assert forall|i: int| 0 <= i < self.ord@.len() && self.ord@[i] == v implies i == gray_rank(
            v,
        ) by {
            lemma_gray_bijective(i as u64);
        }
    }
}

/// Two to the power `l`.
pub fn two_pow(l: usize) -> (n: usize)
    requires
        l <= MAX_KAY,
    ensures
        n == (1u64 << (l as u64)),
        1 <= n <= 65536,
{
    let s: u64 = l as u64;
    assert(1 <= (1u64 << s) <= 65536) by (bit_vector)
        requires
            s <= 16,
    ;
    (1u64 << s) as usize
}

/// Entry `i` of the Gray code of `2^l` entries.
pub fn m4ri_gray_code(i: usize, l: usize) -> (v: usize)
    requires
        l <= MAX_KAY,
        i < (1u64 << (l as u64)),
    ensures
        v as u64 == gray(i as u64),
        v < (1u64 << (l as u64)),
{
    let x: u64 = i as u64;
    proof {
        lemma_gray_bounded(x, l as u64);
        let s = l as u64;
        assert((1u64 << s) <= 65536) by (bit_vector)
            requires
                s <= 16,
        ;
    }
    (x ^ (x >> 1)) as usize
}

/// The lowest position at which `i` has a one.
fn lowest_one(i: usize, l: usize) -> (p: usize)
    requires
        1 <= l <= MAX_KAY,
        1 <= i < (1u64 << (l as u64)),
    ensures
        p < l,
        gray(i as u64) == gray((i - 1) as u64) ^ (1u64 << (p as u64)),
{
    let x: u64 = i as u64;
    let mut p: usize = 0;
    assert(x & (((1u64 << 0u64) - 1) as u64) == 0) by (bit_vector);
    while (x >> (p as u64)) & 1 == 0
        invariant
            p < l,
            l <= 16,
            1 <= x < (1u64 << (l as u64)),
            x & (((1u64 << (p as u64)) - 1) as u64) == 0,
        decreases l - p,
    {
        let s = p as u64;
        let k = l as u64;
        assert(s + 1 < k && x & (((1u64 << ((s + 1) as u64)) - 1) as u64) == 0) by (bit_vector)
            requires
                s < k,
                k <= 16,
                1 <= x < (1u64 << k),
                x & (((1u64 << s) - 1) as u64) == 0,
                (x >> s) & 1 == 0,
        ;
        p += 1;
    }
    proof {
        let s = p as u64;
        assert((x >> s) & 1 == 0 || (x >> s) & 1 == 1) by (bit_vector);
        lemma_gray_step(x, s);
    }
    p
}

/// The Gray code table for patterns of `l` bits.
pub fn m4ri_build_code(l: usize) -> (code: Code)
    requires
        1 <= l <= MAX_KAY,
    ensures
        code.wf(),
        code.spec_k() == l,
{
    let n = two_pow(l);
    let mut ord: Vec<usize> = Vec::new();
    let mut inc: Vec<usize> = Vec::new();
    ord.push(m4ri_gray_code(0, l));
    inc.push(0);
    let mut i: usize = 1;
    while i < n
        invariant
            1 <= i <= n,
            1 <= l <= MAX_KAY,
            n == (1u64 << (l as u64)),
            ord@.len() == i,
            inc@.len() == i,
            inc@[0] == 0,
            forall|x: int| 0 <= x < i ==> (#[trigger] ord@[x]) as u64 == gray(x as u64),
            forall|x: int|
                1 <= x < i ==> (#[trigger] inc@[x]) < l && gray(x as u64) == gray((x - 1) as u64)
                    ^ (1u64 << (inc@[x] as u64)),
        decreases n - i,
    {
        ord.push(m4ri_gray_code(i, l));
        inc.push(lowest_one(i, l));
        i += 1;
    }
    Code { k: l, ord, inc }
}

/// The integer part of the binary logarithm of `n`, and 0 for `n < 2`.
fn log2_floor(n: usize) -> (r: usize)
    ensures
        r == floor_log2(n as nat),
        r < 64,
{
    let mut v: usize = n;
    let mut r: usize = 0;
    proof {
        lemma2_to64();
    }
    while v >= 2
        invariant
            r + floor_log2(v as nat) == floor_log2(n as nat),
            r < 64,
            v as nat * pow2(r as nat) <= n,
            pow2(64) == 0x1_0000_0000_0000_0000,
        decreases v,
    {
        proof {
            lemma_pow2_unfold((r + 1) as nat);
            assert((v / 2) as nat * pow2((r + 1) as nat) <= v as nat * pow2(r as nat))
                by (nonlinear_arith)
                requires
                    pow2((r + 1) as nat) == 2 * pow2(r as nat),
            ;
            assert(2 * pow2(r as nat) <= v as nat * pow2(r as nat)) by (nonlinear_arith)
                requires
                    v >= 2,
            ;
            if r + 1 >= 64 {
                if r + 1 > 64 {
                    lemma_pow2_strictly_increases(64, (r + 1) as nat);
                }
                assert(false);
            }
        }
        v = v / 2;
        r += 1;
    }
    r
}

/// The table width for a product or an elimination on matrices of `a` rows
/// and `b` columns. The third dimension plays no part.
pub fn m4ri_opt_k(a: usize, b: usize, c: usize) -> (k: usize)
    ensures
        k == spec_opt_k(if a < b { a as nat } else { b as nat }),
        1 <= k <= MAX_KAY,
{
    let n: usize = if a < b {
        a
    } else {
        b
    };
    let res: usize = 3 * (1 + log2_floor(n)) / 4;
    if res < 1 {
        1
    } else if res > MAX_KAY {
        MAX_KAY
    } else {
        res
    }
}

} // verus!
