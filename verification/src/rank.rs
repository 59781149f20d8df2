//! The rank of a matrix does not depend on how the matrix is brought to row
//! echelon form.
use crate::echelon::{echelon, has_rank, in_echelon_form};
use crate::gf2::{
    cols_of, entry_terms, inner_over_first, inner_over_second, is_matrix,
    lemma_identity_left, lemma_mat_mul_shape, lemma_mul_associative, lemma_xor_sum_add,
    lemma_xor_sum_ext, lemma_xor_sum_pick, lemma_xor_sum_scale, lemma_xor_sum_split,
    lemma_xor_sum_swap, lemma_xor_sum_zero, mat_mul, shifted, xor_sum, zero_row,
};
use crate::rowops::{row_equivalent, transforms};
use vstd::prelude::*;

verus! {

/// Index `i` of a sequence from which the entry at `s` was taken out, as an
/// index of the sequence as it was.
pub open spec fn skip(i: int, s: int) -> int {
    if i < s {
        i
    } else {
        i + 1
    }
}

/// The terms of a sum without the term at `s`.
pub open spec fn without(f: spec_fn(int) -> bool, s: int) -> spec_fn(int) -> bool {
    |i: int| f(skip(i, s))
}

/// The products whose sum is entry `j` of the combination of the rows of
/// `b` with the weights `w`.
pub open spec fn weighted(w: Seq<bool>, b: Seq<Seq<bool>>, j: int) -> spec_fn(int) -> bool {
    |i: int| w[i] && b[i][j]
}

/// Whether `w` is a nonzero choice among `p` rows of `b` whose sum is zero
/// in the first `q` columns.
pub open spec fn annihilates(w: Seq<bool>, b: Seq<Seq<bool>>, p: nat, q: nat) -> bool {
    &&& w.len() == p
    &&& w != zero_row(p)
    &&& forall|j: int| 0 <= j < q ==> !#[trigger] xor_sum(weighted(w, b, j), p)
}

/// A sum is one of its terms plus the sum of the others.
proof fn lemma_xor_sum_remove(f: spec_fn(int) -> bool, p: nat, s: int)
    requires
        0 <= s < p,
    ensures
        xor_sum(f, p) == (f(s) != xor_sum(without(f, s), (p - 1) as nat)),
    decreases p,
{
    let g = without(f, s);
    if s == p - 1 {
        assert forall|i: int| 0 <= i < p - 1 implies #[trigger] g(i) == f(i) by {}
        lemma_xor_sum_ext(g, f, (p - 1) as nat);
    } else {
        lemma_xor_sum_remove(f, (p - 1) as nat, s);
        assert(g(p - 2) == f(p - 1));
        assert(xor_sum(g, (p - 1) as nat) == (xor_sum(g, (p - 2) as nat) != g(p - 2)));
    }
}

/// A nonzero sequence of bits has a first bit that is set.
proof fn lemma_first_true(w: Seq<bool>, k: int) -> (i0: int)
    requires
        0 <= k < w.len(),
        w[k],
    ensures
        0 <= i0 <= k,
        w[i0],
        forall|i: int| 0 <= i < i0 ==> !w[i],
    decreases k,
{
    if exists|j: int| 0 <= j < k && w[j] {
        let j = choose|j: int| 0 <= j < k && w[j];
        lemma_first_true(w, j)
    } else {
        k
    }
}

/// More rows than columns: some of the rows add up to zero.
proof fn lemma_more_rows_dependent(b: Seq<Seq<bool>>, p: nat, q: nat)
    requires
        b.len() == p,
        forall|i: int| 0 <= i < p ==> (#[trigger] b[i]).len() >= q,
        p > q,
    ensures
        exists|w: Seq<bool>| annihilates(w, b, p, q),
    decreases q,
{
    if q == 0 {
        let w = Seq::new(p, |i: int| i == 0);
        assert(w[0] != zero_row(p)[0]);
        assert(annihilates(w, b, p, q));
    } else {
        let last = q - 1;
        let fewer_rows = (p - 1) as nat;
        let fewer_cols = (q - 1) as nat;
        if forall|i: int| 0 <= i < p ==> !(#[trigger] b[i])[last] {
            lemma_more_rows_dependent(b, p, fewer_cols);
            let w = choose|w: Seq<bool>| annihilates(w, b, p, fewer_cols);
            assert forall|j: int| 0 <= j < q implies !#[trigger] xor_sum(weighted(w, b, j), p) by {
                if j == last {
                    let f = weighted(w, b, j);
                    assert forall|i: int| 0 <= i < p implies !#[trigger] f(i) by {
                        assert(!b[i][last]);
                    }
                    lemma_xor_sum_zero(f, p);
                }
            }
            assert(annihilates(w, b, p, q));
        } else {
            let s = choose|s: int| 0 <= s < p && (#[trigger] b[s])[last];
            // the other rows, each with row `s` added where it has a bit in
            // the last column
            let b2 = Seq::new(
                (p - 1) as nat,
                |i: int|
                    Seq::new(
                        q,
                        |j: int| b[skip(i, s)][j] != (b[skip(i, s)][last] && b[s][j]),
                    ),
            );
            lemma_more_rows_dependent(b2, fewer_rows, fewer_cols);
            let w2 = choose|w: Seq<bool>| annihilates(w, b2, fewer_rows, fewer_cols);
            let at_s = xor_sum(|i: int| w2[i] && b[skip(i, s)][last], (p - 1) as nat);
            let w = Seq::new(
                p,
                |i: int|
                    if i == s {
                        at_s
                    } else if i < s {
                        w2[i]
                    } else {
                        w2[i - 1]
                    },
            );
            // `w` is not zero, because `w2` is not
            if w == zero_row(p) {
                assert forall|i: int| 0 <= i < p - 1 implies w2[i] == zero_row((p - 1) as nat)[i] by {
                    assert(w[skip(i, s)] == zero_row(p)[skip(i, s)]);
                }
                assert(w2 =~= zero_row((p - 1) as nat));
            }
            assert forall|j: int| 0 <= j < q implies !#[trigger] xor_sum(weighted(w, b, j), p) by {
                let f = weighted(w, b, j);
                lemma_xor_sum_remove(f, p, s);
                let rest = without(f, s);
                let col = |i: int| w2[i] && b[skip(i, s)][j];
                assert forall|i: int| 0 <= i < p - 1 implies #[trigger] rest(i) == col(i) by {
                    assert(w[skip(i, s)] == w2[i]);
                }
                lemma_xor_sum_ext(rest, col, (p - 1) as nat);
                let lastcol = |i: int| w2[i] && b[skip(i, s)][last];
                if j == last {
                    assert forall|i: int| 0 <= i < p - 1 implies #[trigger] col(i) == lastcol(i) by {}
                    lemma_xor_sum_ext(col, lastcol, (p - 1) as nat);
                    assert(f(s) == at_s);
                } else {
                    // the sum over the changed rows is zero in this column
                    let changed = weighted(w2, b2, j);
                    assert(!xor_sum(changed, (p - 1) as nat));
                    let scaled = |i: int| b[s][j] && lastcol(i);
                    assert forall|i: int| 0 <= i < p - 1 implies #[trigger] changed(i) == (col(i)
                        != scaled(i)) by {
                        assert(b2[i][j] == (b[skip(i, s)][j] != (b[skip(i, s)][last] && b[s][j])));
                    }
                    lemma_xor_sum_add(col, scaled, changed, (p - 1) as nat);
                    lemma_xor_sum_scale(b[s][j], lastcol, scaled, (p - 1) as nat);
                    assert(f(s) == (at_s && b[s][j]));
                }
            }
            assert(annihilates(w, b, p, q));
        }
    }
}

/// The rows of a matrix in echelon form that hold a pivot are independent:
/// a nonzero choice among them has a bit in the pivot column of the first
/// row chosen.
proof fn lemma_echelon_independent(
    e: Seq<Seq<bool>>,
    piv: Seq<usize>,
    w: Seq<bool>,
    rows: nat,
    cols: nat,
) -> (c: int)
    requires
        is_matrix(e, rows, cols),
        echelon(e, piv, cols as int, false),
        w.len() == piv.len(),
        w != zero_row(piv.len()),
    ensures
        0 <= c < cols,
        xor_sum(weighted(w, e, c), piv.len()),
{
    let r = piv.len();
    if forall|i: int| 0 <= i < r ==> !w[i] {
        assert(w =~= zero_row(r));
    }
    let k = choose|i: int| 0 <= i < r && w[i];
    let i0 = lemma_first_true(w, k);
    let c = piv[i0] as int;
    let f = weighted(w, e, c);
    assert forall|i: int| 0 <= i < r && i != i0 implies !#[trigger] f(i) by {
        if i > i0 {
            assert(piv[i0] < piv[i]);
            assert(!e[i][c]);
        }
    }
    lemma_xor_sum_pick(f, r, i0);
    assert(e[i0][piv[i0] as int]);
    c
}

/// A matrix in echelon form that is an invertible multiple of another has
/// no more pivots than the other.
proof fn lemma_rank_at_most(
    a: Seq<Seq<bool>>,
    e1: Seq<Seq<bool>>,
    e2: Seq<Seq<bool>>,
    r1: nat,
    r2: nat,
    rows: nat,
    cols: nat,
)
    requires
        rows > 0,
        cols > 0,
        is_matrix(a, rows, cols),
        row_equivalent(a, e1),
        row_equivalent(a, e2),
        in_echelon_form(e1, r1, false),
        in_echelon_form(e2, r2, false),
    ensures
        r1 <= r2,
{
    let (t1, u1) = choose|t: Seq<Seq<bool>>, u: Seq<Seq<bool>>| transforms(t, u, a, e1);
    let (t2, u2) = choose|t: Seq<Seq<bool>>, u: Seq<Seq<bool>>| transforms(t, u, a, e2);
    let piv1 = choose|piv: Seq<usize>| piv.len() == r1 && echelon(e1, piv, cols_of(e1) as int, false);
    let piv2 = choose|piv: Seq<usize>| piv.len() == r2 && echelon(e2, piv, cols_of(e2) as int, false);
    lemma_mat_mul_shape(t1, a, rows, rows, cols);
    lemma_mat_mul_shape(t2, a, rows, rows, cols);
    if r1 > r2 {
        // e1 == s * e2
        let s = mat_mul(t1, u2);
        lemma_mat_mul_shape(t1, u2, rows, rows, rows);
        lemma_mat_mul_shape(s, e2, rows, rows, cols);
        lemma_identity_left(a, rows, cols);
        lemma_mul_associative(u2, t2, a, rows, rows, rows, cols);
        lemma_mul_associative(t1, u2, e2, rows, rows, rows, cols);
        assert(e1 == mat_mul(s, e2));
        // some of the first r1 rows of s add up to zero in the first r2 columns
        let top = s.take(r1 as int);
        lemma_more_rows_dependent(top, r1, r2);
        let w = choose|w: Seq<bool>| annihilates(w, top, r1, r2);
        // so the same rows of e1 add up to zero
        let c = lemma_echelon_independent(e1, piv1, w, rows, cols);
        let f = |i: int, k: int| w[i] && s[i][k] && e2[k][c];
        let by_row = weighted(w, e1, c);
        assert forall|i: int| 0 <= i < r1 implies #[trigger] by_row(i) == inner_over_second(
            f,
            r2,
        )(i) by {
            let terms = entry_terms(s, e2, i, c);
            lemma_xor_sum_split(terms, r2, (rows - r2) as nat);
            let high = shifted(terms, r2 as int);
            assert forall|k: int| 0 <= k < rows - r2 implies !#[trigger] high(k) by {
                assert(!e2[r2 + k][c]);
            }
            lemma_xor_sum_zero(high, (rows - r2) as nat);
            lemma_xor_sum_scale(w[i], terms, |k: int| f(i, k), r2);
        }
        lemma_xor_sum_ext(by_row, inner_over_second(f, r2), r1);
        lemma_xor_sum_swap(f, r1, r2);
        let by_col = inner_over_first(f, r1);
        assert forall|k: int| 0 <= k < r2 implies !#[trigger] by_col(k) by {
            let weights = weighted(w, top, k);
            assert(!xor_sum(weights, r1));
            lemma_xor_sum_scale(e2[k][c], weights, |i: int| f(i, k), r1);
        }
        lemma_xor_sum_zero(by_col, r2);
        assert(false);
    }
}

/// A matrix has one rank only.
pub proof fn lemma_rank_unique(a: Seq<Seq<bool>>, rows: nat, cols: nat, r1: nat, r2: nat)
    requires
        rows > 0,
        cols > 0,
        is_matrix(a, rows, cols),
        has_rank(a, r1),
        has_rank(a, r2),
    ensures
        r1 == r2,
{
    let e1 = choose|e: Seq<Seq<bool>>| row_equivalent(a, e) && in_echelon_form(e, r1, false);
    let e2 = choose|e: Seq<Seq<bool>>| row_equivalent(a, e) && in_echelon_form(e, r2, false);
    lemma_rank_at_most(a, e1, e2, r1, r2, rows, cols);
    lemma_rank_at_most(a, e2, e1, r2, r1, rows, cols);
}

} // verus!
