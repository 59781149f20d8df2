//! Binary vectors: a bit sequence with an explicit length, kept in a
//! `vob::Vob`.
use crate::bits::count_true;
use crate::gf2::row_add;
use vstd::arithmetic::power2::{
    lemma2_to64, lemma2_to64_rest, lemma_pow2_strictly_increases, lemma_pow2_unfold, pow2,
};
use vstd::prelude::*;
use vstd::std_specs::cmp::PartialEqSpecImpl;
use vstd::std_specs::convert::FromSpecImpl;

verus! {

/// `vob::Vob`, a vector of bits; what it holds is named by `vob_bits`.
#[verifier::external_type_specification]
#[verifier::external_body]
#[verifier::reject_recursive_types(T)]
pub struct ExVob<T>(vob::Vob<T>);

/// The bits that a `Vob` holds, first to last.
pub uninterp spec fn vob_bits(v: vob::Vob<usize>) -> Seq<bool>;

/// `Vob::new`: a vector without bits.
#[verifier::external_body]
fn vob_new() -> (v: vob::Vob<usize>)
    ensures
        vob_bits(v) == Seq::<bool>::empty(),
{
    vob::Vob::new()
}

/// `Vob::with_capacity`: a vector without bits, with room for `capacity`.
#[verifier::external_body]
fn vob_with_capacity(capacity: usize) -> (v: vob::Vob<usize>)
    ensures
        vob_bits(v) == Seq::<bool>::empty(),
{
    vob::Vob::with_capacity(capacity)
}

/// `Vob::from_elem`: `len` bits, each of them `value`.
#[verifier::external_body]
fn vob_from_elem(value: bool, len: usize) -> (v: vob::Vob<usize>)
    ensures
        vob_bits(v) == Seq::new(len as nat, |i: int| value),
{
    vob::Vob::from_elem(value, len)
}

/// The bits of `bytes`, the most significant bit of each byte first.
pub open spec fn bytes_bits(bytes: Seq<u8>) -> Seq<bool> {
    Seq::new(bytes.len() * 8, |i: int| (bytes[i / 8] >> ((7 - i % 8) as u8)) & 1 == 1)
}

/// `Vob::from_bytes`: eight bits for each byte, the most significant first.
/// It panics where the number of bits does not fit in `usize`.
#[verifier::external_body]
fn vob_from_bytes(bytes: &[u8]) -> (v: vob::Vob<usize>)
    requires
        bytes@.len() * 8 <= usize::MAX,
    ensures
        vob_bits(v) == bytes_bits(bytes@),
{
    vob::Vob::from_bytes(bytes)
}

/// `Vob::push`: appends one bit. It panics where the length would no longer
/// fit in `usize`.
#[verifier::external_body]
fn vob_push(v: &mut vob::Vob<usize>, value: bool)
    requires
        vob_bits(*old(v)).len() < usize::MAX,
    ensures
        vob_bits(*final(v)) == vob_bits(*old(v)).push(value),
{
    v.push(value)
}

/// `Vob::len`: the number of bits.
#[verifier::external_body]
fn vob_len(v: &vob::Vob<usize>) -> (n: usize)
    ensures
        n == vob_bits(*v).len(),
{
    v.len()
}

/// `Vob::get`: the bit at `index`, or `None` beyond the end.
#[verifier::external_body]
fn vob_get(v: &vob::Vob<usize>, index: usize) -> (b: Option<bool>)
    ensures
        b == if index < vob_bits(*v).len() {
            Some(vob_bits(*v)[index as int])
        } else {
            None
        },
{
    v.get(index)
}

/// `Vob::set`: sets the bit at `index` to `value`, and says whether the bit
/// changed. It panics where `index` is beyond the end.
#[verifier::external_body]
fn vob_set(v: &mut vob::Vob<usize>, index: usize, value: bool) -> (changed: bool)
    requires
        index < vob_bits(*old(v)).len(),
    ensures
        vob_bits(*final(v)) == vob_bits(*old(v)).update(index as int, value),
        changed == (vob_bits(*old(v))[index as int] != value),
{
    v.set(index, value)
}

/// `Vob::xor`: bit-wise exclusive or with `other`, in place; it says whether
/// a bit changed. It panics where the lengths differ.
#[verifier::external_body]
fn vob_xor(v: &mut vob::Vob<usize>, other: &vob::Vob<usize>) -> (changed: bool)
    requires
        vob_bits(*old(v)).len() == vob_bits(*other).len(),
    ensures
        vob_bits(*final(v)) == row_add(vob_bits(*old(v)), vob_bits(*other)),
        changed == (vob_bits(*final(v)) != vob_bits(*old(v))),
{
    v.xor(other)
}

/// Entry-wise product of two rows.
pub open spec fn row_and(a: Seq<bool>, b: Seq<bool>) -> Seq<bool> {
    Seq::new(a.len(), |j: int| a[j] && b[j])
}

/// `Vob::and`: bit-wise conjunction with `other`, in place; it says whether
/// a bit changed. It panics where the lengths differ.
#[verifier::external_body]
fn vob_and(v: &mut vob::Vob<usize>, other: &vob::Vob<usize>) -> (changed: bool)
    requires
        vob_bits(*old(v)).len() == vob_bits(*other).len(),
    ensures
        vob_bits(*final(v)) == row_and(vob_bits(*old(v)), vob_bits(*other)),
        changed == (vob_bits(*final(v)) != vob_bits(*old(v))),
{
    v.and(other)
}

/// `Vob::extend_from_vob`: appends the bits of `other`. It panics where the
/// length would no longer fit in `usize`.
#[verifier::external_body]
fn vob_extend_from_vob(v: &mut vob::Vob<usize>, other: &vob::Vob<usize>)
    requires
        vob_bits(*old(v)).len() + vob_bits(*other).len() <= usize::MAX,
    ensures
        vob_bits(*final(v)) == vob_bits(*old(v)) + vob_bits(*other),
{
    v.extend_from_vob(other)
}

/// `Vob::clone`: a vector with the same bits.
#[verifier::external_body]
fn vob_clone(v: &vob::Vob<usize>) -> (r: vob::Vob<usize>)
    ensures
        vob_bits(r) == vob_bits(*v),
{
    v.clone()
}

/// `Vob::eq`: whether two vectors have the same length and the same bits.
#[verifier::external_body]
fn vob_eq(a: &vob::Vob<usize>, b: &vob::Vob<usize>) -> (r: bool)
    ensures
        r == (vob_bits(*a) == vob_bits(*b)),
{
    a == b
}

/// The number whose binary digits are `s`, lowest digit first.
pub open spec fn bits_value(s: Seq<bool>) -> nat
    decreases s.len(),
{
    if s.len() == 0 {
        0
    } else {
        2 * bits_value(s.drop_first()) + if s[0] {
            1nat
        } else {
            0nat
        }
    }
}

/// A number of `n` binary digits is below `2^n`.
pub proof fn lemma_bits_value_bound(s: Seq<bool>)
    ensures
        bits_value(s) < pow2(s.len()),
    decreases s.len(),
{
    if s.len() == 0 {
        lemma2_to64();
    } else {
        lemma_bits_value_bound(s.drop_first());
        lemma_pow2_unfold(s.len());
    }
}

/// A vector of bits.
#[derive(Debug)]
pub struct BinVector {
    vec: vob::Vob<usize>,
}

impl BinVector {
    /// The bits of the vector, first to last.
    pub closed spec fn view(&self) -> Seq<bool> {
        vob_bits(self.vec)
    }

    /// The empty vector.
    pub fn new() -> (v: BinVector)
        ensures
            v@ == Seq::<bool>::empty(),
    {
        BinVector::from(vob_new())
    }

    /// The vector that holds the bits of `vec`.
    pub fn from(vec: vob::Vob<usize>) -> (v: BinVector)
        ensures
            v@ == vob_bits(vec),
    {
        BinVector { vec }
    }

    /// The vector of `len` bits that are all `elem`.
    pub fn from_elem(len: usize, elem: bool) -> (v: BinVector)
        ensures
            v@ == Seq::new(len as nat, |i: int| elem),
    {
        BinVector::from(vob_from_elem(elem, len))
    }

    /// The vector with the bits of `bools`.
    pub fn from_bools(bools: &[bool]) -> (v: BinVector)
        ensures
            v@ == bools@,
    {
        let mut vec = vob_with_capacity(bools.len());
        let mut i: usize = 0;
        while i < bools.len()
            invariant
                i <= bools@.len(),
                vob_bits(vec) == bools@.take(i as int),
            decreases bools@.len() - i,
        {
            vob_push(&mut vec, bools[i]);
            i += 1;
            assert(vob_bits(vec) =~= bools@.take(i as int));
        }
        assert(bools@.take(i as int) =~= bools@);
        BinVector { vec }
    }

    /// The vector of `len` bits whose bit `i` is `f(i)`.
    pub fn from_function<F: Fn(usize) -> bool>(len: usize, f: F) -> (v: BinVector)
        requires
            forall|i: usize| i < len ==> call_requires(f, (i,)),
        ensures
            v@.len() == len,
            forall|i: usize| i < len ==> call_ensures(f, (i,), #[trigger] v@[i as int]),
    {
        let mut vec = vob_with_capacity(len);
        let mut i: usize = 0;
        while i < len
            invariant
                i <= len,
                vob_bits(vec).len() == i,
                forall|k: usize| k < len ==> call_requires(f, (k,)),
                forall|k: usize| k < i ==> call_ensures(f, (k,), #[trigger] vob_bits(vec)[k as int]),
            decreases len - i,
        {
            let b = f(i);
            vob_push(&mut vec, b);
            i += 1;
        }
        BinVector { vec }
    }

    /// The empty vector, with room for `len` bits.
    pub fn with_capacity(len: usize) -> (v: BinVector)
        ensures
            v@ == Seq::<bool>::empty(),
    {
        BinVector::from(vob_with_capacity(len))
    }

    /// The vector of the bits of `bytes`, the most significant bit of each
    /// byte first.
    pub fn from_bytes(bytes: &[u8]) -> (v: BinVector)
        requires
            bytes@.len() * 8 <= usize::MAX,
        ensures
            v@ == bytes_bits(bytes@),
    {
        BinVector { vec: vob_from_bytes(bytes) }
    }

    /// Number of bits.
    pub fn len(&self) -> (n: usize)
        ensures
            n == self@.len(),
    {
        vob_len(&self.vec)
    }

    /// Whether the vector has no bits.
    pub fn is_empty(&self) -> (b: bool)
        ensures
            b == (self@.len() == 0),
    {
        vob_len(&self.vec) == 0
    }

    /// The bit at `index`, or `None` beyond the end.
    pub fn get(&self, index: usize) -> (b: Option<bool>)
        ensures
            b == if index < self@.len() {
                Some(self@[index as int])
            } else {
                None
            },
    {
        vob_get(&self.vec, index)
    }

    /// Sets the bit at `index` to `value`, and says whether the bit changed.
    pub fn set(&mut self, index: usize, value: bool) -> (changed: bool)
        requires
            index < old(self)@.len(),
        ensures
            final(self)@ == old(self)@.update(index as int, value),
            changed == (old(self)@[index as int] != value),
    {
        vob_set(&mut self.vec, index, value)
    }

    /// Appends one bit.
    pub fn push(&mut self, value: bool)
        requires
            old(self)@.len() < usize::MAX,
        ensures
            final(self)@ == old(self)@.push(value),
    {
        vob_push(&mut self.vec, value);
    }

    /// The Hamming weight: the number of bits that are set.
    pub fn count_ones(&self) -> (n: u32)
        requires
            self@.len() <= u32::MAX,
        ensures
            n == count_true(self@),
    {
        let len = vob_len(&self.vec);
        let mut n: u32 = 0;
        let mut i: usize = 0;
        while i < len
            invariant
                i <= len,
                len == self@.len(),
                len <= u32::MAX,
                n <= i,
                n == count_true(self@.take(i as int)),
            decreases len - i,
        {
            let b = vob_get(&self.vec, i);
            assert(self@.take(i + 1).drop_last() =~= self@.take(i as int));
            if b == Some(true) {
                n += 1;
            }
            i += 1;
        }
        assert(self@.take(len as int) =~= self@);
        n
    }

    /// Appends the bits of `other`.
    pub fn extend_from_binvec(&mut self, other: &BinVector)
        requires
            old(self)@.len() + other@.len() <= usize::MAX,
        ensures
            final(self)@ == old(self)@ + other@,
    {
        vob_extend_from_vob(&mut self.vec, &other.vec);
    }

    /// The `Vob` that holds the bits.
    pub fn into_vob(self) -> (v: vob::Vob<usize>)
        ensures
            vob_bits(v) == self@,
    {
        self.vec
    }

    /// The `Vob` that holds the bits; an older name of `into_vob`.
    pub fn to_vob(self) -> (v: vob::Vob<usize>)
        ensures
            vob_bits(v) == self@,
    {
        self.vec
    }

    /// The number whose binary digits are the bits, lowest digit first.
    pub fn as_u64(&self) -> (n: u64)
        requires
            0 < self@.len() < 64,
        ensures
            n == bits_value(self@),
    {
        let len = vob_len(&self.vec);
        let mut n: u64 = 0;
        let mut i: usize = len;
        proof {
            lemma2_to64();
            lemma2_to64_rest();
            assert(self@.subrange(len as int, len as int) =~= Seq::<bool>::empty());
        }
        while i > 0
            invariant
                i <= len,
                len == self@.len(),
                len < 64,
                n == bits_value(self@.subrange(i as int, len as int)),
                n < pow2((len - i) as nat),
                pow2(63) == 0x8000000000000000,
            decreases i,
        {
            i -= 1;
            let b = vob_get(&self.vec, i);
            proof {
                let s = self@.subrange(i as int, len as int);
                assert(s.drop_first() =~= self@.subrange(i + 1, len as int));
                lemma_pow2_unfold((len - i) as nat);
                if len - i < 63 {
                    lemma_pow2_strictly_increases((len - i) as nat, 63);
                }
            }
            n = 2 * n + if b == Some(true) {
                1
            } else {
                0
            };
        }
        assert(self@.subrange(0, len as int) =~= self@);
        n
    }

    /// The number whose binary digits are the bits, lowest digit first.
    pub fn as_u32(&self) -> (n: u32)
        requires
            0 < self@.len() < 32,
        ensures
            n == bits_value(self@),
    {
        let n = self.as_u64();
        proof {
            lemma_bits_value_bound(self@);
            lemma2_to64();
            lemma_pow2_strictly_increases(self@.len(), 32);
        }
        n as u32
    }

    /// The sum of `self` and `other`.
    pub fn add(&self, other: &BinVector) -> (v: BinVector)
        requires
            self@.len() == other@.len(),
        ensures
            v@ == row_add(self@, other@),
    {
        let mut new = self.clone();
        new.add_assign(other);
        new
    }

    /// Adds `other` to `self` in place.
    pub fn add_assign(&mut self, other: &BinVector)
        requires
            old(self)@.len() == other@.len(),
        ensures
            final(self)@ == row_add(old(self)@, other@),
    {
        let _ = vob_xor(&mut self.vec, &other.vec);
    }

    /// The inner product of `self` and `other`: whether an odd number of
    /// positions is set in both.
    pub fn dot(&self, other: &BinVector) -> (b: bool)
        requires
            self@.len() == other@.len(),
            self@.len() <= u32::MAX,
        ensures
            b == (count_true(row_and(self@, other@)) % 2 == 1),
    {
        let mut vec = self.clone();
        let _ = vob_and(&mut vec.vec, &other.vec);
        vec.count_ones() % 2 == 1
    }
}

impl From<vob::Vob<usize>> for BinVector {
    /// The vector that holds the bits of `v`.
    fn from(v: vob::Vob<usize>) -> (r: BinVector) {
        BinVector { vec: v }
    }
}

impl FromSpecImpl<vob::Vob<usize>> for BinVector {
    open spec fn obeys_from_spec() -> bool {
        true
    }

    closed spec fn from_spec(v: vob::Vob<usize>) -> BinVector {
        BinVector { vec: v }
    }
}

impl Clone for BinVector {
    fn clone(&self) -> (v: BinVector)
        ensures
            v@ == self@,
    {
        BinVector { vec: vob_clone(&self.vec) }
    }
}

impl Default for BinVector {
    fn default() -> (v: BinVector)
        ensures
            v@ == Seq::<bool>::empty(),
    {
        BinVector::new()
    }
}

impl PartialEq for BinVector {
    fn eq(&self, other: &BinVector) -> (r: bool) {
        vob_eq(&self.vec, &other.vec)
    }
}

impl PartialEqSpecImpl for BinVector {
    open spec fn obeys_eq_spec() -> bool {
        true
    }

    open spec fn eq_spec(&self, other: &BinVector) -> bool {
        self@ == other@
    }
}

impl Eq for BinVector {

}

} // verus!
