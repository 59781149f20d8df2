//! Machine words as rows of 64 bits.
//!
//! Bit `b` of a word is the coefficient of `2^b`: the lowest bit of the first
//! word of a row holds column 0.
use vstd::prelude::*;

verus! {

/// Whether bit `b` of `w` is set.
pub open spec fn word_bit(w: u64, b: int) -> bool {
    0 <= b < 64 && (w >> (b as u64)) & 1 == 1
}

/// Number of words needed to hold `ncols` bits.
pub open spec fn spec_words_for(ncols: nat) -> nat {
    ((ncols + 63) / 64) as nat
}

/// The word with exactly the bits of the last word of a row of `ncols` bits
/// that stand for a column.
pub open spec fn spec_tail_mask(ncols: nat) -> u64 {
    if ncols % 64 == 0 {
        0xffff_ffff_ffff_ffffu64
    } else {
        (((1u64 << ((ncols % 64) as u64)) - 1) as u64)
    }
}

/// The bits of a row of `ncols` columns packed into `words`.
pub open spec fn row_bits(words: Seq<u64>, ncols: nat) -> Seq<bool> {
    Seq::new(ncols, |j: int| word_bit(words[j / 64], j % 64))
}

/// Whether `words` is a packed row of `ncols` columns: as many words as
/// needed, and no bit set beyond the last column.
pub open spec fn row_wf(words: Seq<u64>, ncols: nat) -> bool {
    &&& words.len() == spec_words_for(ncols)
    &&& ncols > 0 ==> words[words.len() - 1] & spec_tail_mask(ncols) == words[words.len() - 1]
}

/// Number of `true` entries of `s`.
pub open spec fn count_true(s: Seq<bool>) -> nat
    decreases s.len(),
{
    if s.len() == 0 {
        0
    } else {
        count_true(s.drop_last()) + if s.last() {
            1nat
        } else {
            0nat
        }
    }
}

/// A bit of an exclusive or is the exclusive or of the bits.
pub proof fn lemma_bit_xor(a: u64, b: u64, i: int)
    ensures
        word_bit(a ^ b, i) == (word_bit(a, i) != word_bit(b, i)),
{
    if 0 <= i < 64 {
        let s = i as u64;
        assert(((a ^ b) >> s) & 1 == 1 <==> (((a >> s) & 1 == 1) != ((b >> s) & 1 == 1)))
            by (bit_vector)
            requires
                s < 64,
        ;
    }
}

/// Zero has no bit.
pub proof fn lemma_bit_zero(i: int)
    ensures
        !word_bit(0, i),
{
    if 0 <= i < 64 {
        let s = i as u64;
        assert((0u64 >> s) & 1 == 0) by (bit_vector)
            requires
                s < 64,
        ;
    }
}

/// `1 << i` has bit `i` and no other.
pub proof fn lemma_bit_single(i: int, j: int)
    requires
        0 <= i < 64,
    ensures
        word_bit(1u64 << (i as u64), j) == (i == j),
{
    if 0 <= j < 64 {
        let s = i as u64;
        let t = j as u64;
        assert((((1u64 << s) >> t) & 1 == 1) <==> s == t) by (bit_vector)
            requires
                s < 64,
                t < 64,
        ;
    }
}

/// Or-ing with `1 << i` sets bit `i` and keeps the others.
pub proof fn lemma_bit_set(w: u64, i: int, j: int)
    requires
        0 <= i < 64,
    ensures
        word_bit(w | (1u64 << (i as u64)), j) == (i == j || word_bit(w, j)),
{
    if 0 <= j < 64 {
        let s = i as u64;
        let t = j as u64;
        assert((((w | (1u64 << s)) >> t) & 1 == 1) <==> (s == t || (w >> t) & 1 == 1))
            by (bit_vector)
            requires
                s < 64,
                t < 64,
        ;
    }
}

/// And-ing with the complement of `1 << i` clears bit `i` and keeps the
/// others.
pub proof fn lemma_bit_clear(w: u64, i: int, j: int)
    requires
        0 <= i < 64,
    ensures
        word_bit(w & !(1u64 << (i as u64)), j) == (i != j && word_bit(w, j)),
{
    if 0 <= j < 64 {
        let s = i as u64;
        let t = j as u64;
        assert((((w & !(1u64 << s)) >> t) & 1 == 1) <==> (s != t && (w >> t) & 1 == 1))
            by (bit_vector)
            requires
                s < 64,
                t < 64,
        ;
    }
}

/// A word that equals itself under the tail mask has no bit at or beyond
/// the last column's position, and the other way round.
pub proof fn lemma_tail_mask_bits(w: u64, ncols: nat, j: int)
    requires
        0 <= j < 64,
    ensures
        word_bit(w & spec_tail_mask(ncols), j) == (word_bit(w, j) && (ncols % 64 == 0 || j < ncols
            % 64)),
{
    let t = j as u64;
    if ncols % 64 == 0 {
        assert(w & 0xffff_ffff_ffff_ffffu64 == w) by (bit_vector);
    } else {
        let n = (ncols % 64) as u64;
        assert((((w & (((1u64 << n) - 1) as u64)) >> t) & 1 == 1) <==> ((w >> t) & 1 == 1 && t
            < n)) by (bit_vector)
            requires
                0 < n < 64,
                t < 64,
        ;
    }
}

/// The tail mask keeps what is common to two masked words.
pub proof fn lemma_tail_mask_xor(a: u64, b: u64, m: u64)
    requires
        a & m == a,
        b & m == b,
    ensures
        (a ^ b) & m == a ^ b,
        (a & b) & m == a & b,
{
    assert((a ^ b) & m == a ^ b) by (bit_vector)
        requires
            a & m == a,
            b & m == b,
    ;
    assert((a & b) & m == a & b) by (bit_vector)
        requires
            a & m == a,
    ;
}

/// The lowest `n` bits of `w`.
pub open spec fn low_bits(w: u64, n: int) -> u64 {
    if n >= 64 {
        w
    } else if n <= 0 {
        0
    } else {
        w & (((1u64 << (n as u64)) - 1) as u64)
    }
}

proof fn lemma_low_bits_step(a: u64, b: u64, n: int)
    requires
        0 <= n < 64,
        low_bits(a, n) == low_bits(b, n),
        word_bit(a, n) == word_bit(b, n),
    ensures
        low_bits(a, n + 1) == low_bits(b, n + 1),
{
    let s = n as u64;
    if n == 0 {
        assert(a & (((1u64 << 1u64) - 1) as u64) == b & (((1u64 << 1u64) - 1) as u64)) by (bit_vector)
            requires
                ((a >> 0u64) & 1 == 1) == ((b >> 0u64) & 1 == 1),
        ;
    } else if n == 63 {
        assert(a == b) by (bit_vector)
            requires
                a & (((1u64 << 63u64) - 1) as u64) == b & (((1u64 << 63u64) - 1) as u64),
                ((a >> 63u64) & 1 == 1) == ((b >> 63u64) & 1 == 1),
        ;
    } else {
        let s1 = (n + 1) as u64;
        assert(a & (((1u64 << s1) - 1) as u64) == b & (((1u64 << s1) - 1) as u64)) by (bit_vector)
            requires
                0 < s < 63,
                s1 == s + 1,
                a & (((1u64 << s) - 1) as u64) == b & (((1u64 << s) - 1) as u64),
                ((a >> s) & 1 == 1) == ((b >> s) & 1 == 1),
        ;
    }
}

proof fn lemma_low_bits_equal(a: u64, b: u64, n: int)
    requires
        0 <= n <= 64,
        forall|i: int| 0 <= i < n ==> word_bit(a, i) == word_bit(b, i),
    ensures
        low_bits(a, n) == low_bits(b, n),
    decreases n,
{
    if n > 0 {
        lemma_low_bits_equal(a, b, n - 1);
        lemma_low_bits_step(a, b, n - 1);
    }
}

/// Two words with the same 64 bits are the same word.
pub proof fn lemma_words_equal(a: u64, b: u64)
    requires
        forall|i: int| 0 <= i < 64 ==> word_bit(a, i) == word_bit(b, i),
    ensures
        a == b,
{
    lemma_low_bits_equal(a, b, 64);
}

/// A word without a bit at position `k` or above is below `2^k`.
pub proof fn lemma_small_from_bits(v: u64, k: int)
    requires
        0 < k < 64,
        forall|t: int| k <= t < 64 ==> !#[trigger] word_bit(v, t),
    ensures
        v < (1u64 << (k as u64)),
{
    let m = spec_tail_mask(k as nat);
    assert forall|t: int| 0 <= t < 64 implies word_bit(v & m, t) == word_bit(v, t) by {
        lemma_tail_mask_bits(v, k as nat, t);
    }
    lemma_words_equal(v & m, v);
    let s = k as u64;
    assert(v < (1u64 << s)) by (bit_vector)
        requires
            0 < s < 64,
            v & (((1u64 << s) - 1) as u64) == v,
    ;
}

/// Number of words needed to hold `ncols` bits.
pub fn words_for(ncols: usize) -> (w: usize)
    ensures
        w == spec_words_for(ncols as nat),
        ncols > 0 ==> w > 0,
        w * 64 >= ncols,
        ncols > 0 ==> (w - 1) * 64 < ncols,
{
    let full: usize = ncols / 64;
    if ncols % 64 == 0 {
        full
    } else {
        full + 1
    }
}

/// Mask of the bits of a row's last word that stand for a column.
pub fn tail_mask(ncols: usize) -> (m: u64)
    ensures
        m == spec_tail_mask(ncols as nat),
{
    let r: usize = ncols % 64;
    if r == 0 {
        0xffff_ffff_ffff_ffffu64
    } else {
        let s: u64 = r as u64;
        assert((1u64 << s) >= 1) by (bit_vector)
            requires
                s < 64,
        ;
        (1u64 << s) - 1
    }
}

/// Reads bit `b` of `w`.
pub fn get_bit(w: u64, b: usize) -> (r: bool)
    requires
        b < 64,
    ensures
        r == word_bit(w, b as int),
{
    (w >> (b as u64)) & 1 == 1
}

/// `w` with bit `b` set to `value`.
pub fn with_bit(w: u64, b: usize, value: bool) -> (r: u64)
    requires
        b < 64,
    ensures
        forall|j: int| word_bit(r, j) == if j == b { value } else { word_bit(w, j) },
{
    let s: u64 = b as u64;
    if value {
        let r = w | (1u64 << s);
        proof {
            assert forall|j: int| word_bit(r, j) == if j == b { value } else { word_bit(w, j) } by {
                lemma_bit_set(w, b as int, j);
            }
        }
        r
    } else {
        let r = w & !(1u64 << s);
        proof {
            assert forall|j: int| word_bit(r, j) == if j == b { value } else { word_bit(w, j) } by {
                lemma_bit_clear(w, b as int, j);
            }
        }
        r
    }
}

} // verus!
