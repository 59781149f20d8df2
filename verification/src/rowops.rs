//! Row operations as products with invertible matrices, and what it means
//! for one matrix to be row-equivalent to another.
use crate::gf2::{
    entry_terms, identity_matrix, is_matrix, lemma_identity_left, lemma_is_matrix_ext,
    lemma_mat_mul_shape, lemma_mul_associative, lemma_xor_sum_pick, mat_mul, row_add, xor_sum,
};
use vstd::prelude::*;

verus! {

/// The matrix that adds row `s` to row `d` when multiplied from the left.
pub open spec fn add_row_matrix(n: nat, d: int, s: int) -> Seq<Seq<bool>> {
    Seq::new(n, |i: int| Seq::new(n, |j: int| i == j || (i == d && j == s)))
}

/// The matrix that exchanges rows `a` and `b` when multiplied from the left.
pub open spec fn swap_matrix(n: nat, a: int, b: int) -> Seq<Seq<bool>> {
    Seq::new(
        n,
        |i: int|
            Seq::new(
                n,
                |j: int|
                    j == if i == a {
                        b
                    } else if i == b {
                        a
                    } else {
                        i
                    },
            ),
    )
}

/// `m` with row `s` added to row `d`.
pub open spec fn with_row_added(m: Seq<Seq<bool>>, d: int, s: int) -> Seq<Seq<bool>> {
    m.update(d, row_add(m[d], m[s]))
}

/// `m` with rows `a` and `b` exchanged.
pub open spec fn with_rows_swapped(m: Seq<Seq<bool>>, a: int, b: int) -> Seq<Seq<bool>> {
    m.update(a, m[b]).update(b, m[a])
}

/// `m` with columns `a` and `b` exchanged.
pub open spec fn with_cols_swapped(m: Seq<Seq<bool>>, a: int, b: int) -> Seq<Seq<bool>> {
    Seq::new(m.len(), |i: int| m[i].update(a, m[i][b]).update(b, m[i][a]))
}

/// `m` with row `s` added to row `d` in the columns from `col0` on.
pub open spec fn with_row_added_from(m: Seq<Seq<bool>>, d: int, s: int, col0: int) -> Seq<
    Seq<bool>,
> {
    m.update(
        d,
        Seq::new(
            m[d].len(),
            |j: int|
                if j >= col0 {
                    m[d][j] != m[s][j]
                } else {
                    m[d][j]
                },
        ),
    )
}

/// `t` takes `a` to `b` by multiplication from the left, and `u` undoes `t`.
pub open spec fn transforms(
    t: Seq<Seq<bool>>,
    u: Seq<Seq<bool>>,
    a: Seq<Seq<bool>>,
    b: Seq<Seq<bool>>,
) -> bool {
    &&& is_matrix(t, a.len(), a.len())
    &&& is_matrix(u, a.len(), a.len())
    &&& mat_mul(t, u) == identity_matrix(a.len())
    &&& mat_mul(u, t) == identity_matrix(a.len())
    &&& mat_mul(t, a) == b
}

/// `b` is `a` multiplied from the left by an invertible matrix: `b` comes
/// from `a` by row operations, and `a` from `b`.
pub open spec fn row_equivalent(a: Seq<Seq<bool>>, b: Seq<Seq<bool>>) -> bool {
    exists|t: Seq<Seq<bool>>, u: Seq<Seq<bool>>| transforms(t, u, a, b)
}

/// A sum with at most two nonzero terms is the sum of those two.
pub proof fn lemma_xor_sum_pick2(f: spec_fn(int) -> bool, n: nat, p: int, q: int)
    requires
        0 <= p < n,
        0 <= q < n,
        p != q,
        forall|k: int| 0 <= k < n && k != p && k != q ==> !#[trigger] f(k),
    ensures
        xor_sum(f, n) == (f(p) != f(q)),
    decreases n,
{
    if n - 1 == p {
        lemma_xor_sum_pick(f, (n - 1) as nat, q);
    } else if n - 1 == q {
        lemma_xor_sum_pick(f, (n - 1) as nat, p);
    } else {
        lemma_xor_sum_pick2(f, (n - 1) as nat, p, q);
    }
}

/// Adding row `s` to row `d` is multiplying by `add_row_matrix` from the left.
pub proof fn lemma_add_row_is_mul(m: Seq<Seq<bool>>, rows: nat, cols: nat, d: int, s: int)
    requires
        is_matrix(m, rows, cols),
        0 <= d < rows,
        0 <= s < rows,
        d != s,
    ensures
        mat_mul(add_row_matrix(rows, d, s), m) == with_row_added(m, d, s),
{
    let e = add_row_matrix(rows, d, s);
    assert(is_matrix(e, rows, rows));
    lemma_mat_mul_shape(e, m, rows, rows, cols);
    let target = with_row_added(m, d, s);
    assert(is_matrix(target, rows, cols));
    assert forall|i: int, j: int| 0 <= i < rows && 0 <= j < cols implies mat_mul(e, m)[i][j]
        == target[i][j] by {
        if i == d {
            lemma_xor_sum_pick2(entry_terms(e, m, i, j), rows, d, s);
        } else {
            lemma_xor_sum_pick(entry_terms(e, m, i, j), rows, i);
        }
    }
    lemma_is_matrix_ext(mat_mul(e, m), target, rows, cols);
}

/// Exchanging rows `a` and `b` is multiplying by `swap_matrix` from the left.
pub proof fn lemma_swap_is_mul(m: Seq<Seq<bool>>, rows: nat, cols: nat, a: int, b: int)
    requires
        is_matrix(m, rows, cols),
        0 <= a < rows,
        0 <= b < rows,
    ensures
        mat_mul(swap_matrix(rows, a, b), m) == with_rows_swapped(m, a, b),
{
    let e = swap_matrix(rows, a, b);
    assert(is_matrix(e, rows, rows));
    lemma_mat_mul_shape(e, m, rows, rows, cols);
    let target = with_rows_swapped(m, a, b);
    assert(is_matrix(target, rows, cols));
    assert forall|i: int, j: int| 0 <= i < rows && 0 <= j < cols implies mat_mul(e, m)[i][j]
        == target[i][j] by {
        let p = if i == a {
            b
        } else if i == b {
            a
        } else {
            i
        };
        lemma_xor_sum_pick(entry_terms(e, m, i, j), rows, p);
    }
    lemma_is_matrix_ext(mat_mul(e, m), target, rows, cols);
}

/// Every matrix is row-equivalent to itself.
pub proof fn lemma_row_equivalent_refl(a: Seq<Seq<bool>>, rows: nat, cols: nat)
    requires
        is_matrix(a, rows, cols),
        rows > 0,
    ensures
        row_equivalent(a, a),
{
    let id = identity_matrix(rows);
    assert(is_matrix(id, rows, rows));
    lemma_identity_left(id, rows, rows);
    lemma_identity_left(a, rows, cols);
    assert(transforms(id, id, a, a));
}

/// One more step: if `t` takes `a` to `b` and `e` is its own inverse, then
/// `e * t` takes `a` to `e * b`.
pub proof fn lemma_row_equivalent_step(
    a: Seq<Seq<bool>>,
    b: Seq<Seq<bool>>,
    e: Seq<Seq<bool>>,
    rows: nat,
    cols: nat,
)
    requires
        is_matrix(a, rows, cols),
        is_matrix(e, rows, rows),
        rows > 0,
        row_equivalent(a, b),
        mat_mul(e, e) == identity_matrix(rows),
    ensures
        row_equivalent(a, mat_mul(e, b)),
{
    let (t, u) = choose|t: Seq<Seq<bool>>, u: Seq<Seq<bool>>| transforms(t, u, a, b);
    let id = identity_matrix(rows);
    let t2 = mat_mul(e, t);
    let u2 = mat_mul(u, e);
    lemma_mat_mul_shape(e, t, rows, rows, rows);
    lemma_mat_mul_shape(u, e, rows, rows, rows);
    lemma_mat_mul_shape(t, a, rows, rows, cols);
    // (e t) a == e (t a)
    lemma_mul_associative(e, t, a, rows, rows, rows, cols);
    // (e t) (u e) == e (t (u e)) == e ((t u) e) == e e
    lemma_mul_associative(e, t, u2, rows, rows, rows, rows);
    lemma_mul_associative(t, u, e, rows, rows, rows, rows);
    lemma_identity_left(e, rows, rows);
    // (u e) (e t) == u (e (e t)) == u ((e e) t) == u t
    lemma_mul_associative(u, e, t2, rows, rows, rows, rows);
    lemma_mul_associative(e, e, t, rows, rows, rows, rows);
    lemma_identity_left(t, rows, rows);
    assert(transforms(t2, u2, a, mat_mul(e, b)));
}

/// Adding one row to another keeps a matrix row-equivalent to where it
/// came from.
pub proof fn lemma_row_equivalent_add(
    a: Seq<Seq<bool>>,
    b: Seq<Seq<bool>>,
    rows: nat,
    cols: nat,
    d: int,
    s: int,
)
    requires
        is_matrix(a, rows, cols),
        is_matrix(b, rows, cols),
        row_equivalent(a, b),
        0 <= d < rows,
        0 <= s < rows,
        d != s,
    ensures
        row_equivalent(a, with_row_added(b, d, s)),
{
    let e = add_row_matrix(rows, d, s);
    assert(is_matrix(e, rows, rows));
    lemma_add_row_is_mul(e, rows, rows, d, s);
    lemma_is_matrix_ext(with_row_added(e, d, s), identity_matrix(rows), rows, rows);
    lemma_add_row_is_mul(b, rows, cols, d, s);
    lemma_row_equivalent_step(a, b, e, rows, cols);
}

/// Exchanging two rows keeps a matrix row-equivalent to where it came from.
pub proof fn lemma_row_equivalent_swap(
    a: Seq<Seq<bool>>,
    b: Seq<Seq<bool>>,
    rows: nat,
    cols: nat,
    x: int,
    y: int,
)
    requires
        is_matrix(a, rows, cols),
        is_matrix(b, rows, cols),
        row_equivalent(a, b),
        0 <= x < rows,
        0 <= y < rows,
    ensures
        row_equivalent(a, with_rows_swapped(b, x, y)),
{
    let e = swap_matrix(rows, x, y);
    assert(is_matrix(e, rows, rows));
    lemma_swap_is_mul(e, rows, rows, x, y);
    lemma_is_matrix_ext(with_rows_swapped(e, x, y), identity_matrix(rows), rows, rows);
    lemma_swap_is_mul(b, rows, cols, x, y);
    lemma_row_equivalent_step(a, b, e, rows, cols);
}

/// Row equivalence carries over two steps.
pub proof fn lemma_row_equivalent_trans(
    a: Seq<Seq<bool>>,
    b: Seq<Seq<bool>>,
    c: Seq<Seq<bool>>,
    rows: nat,
    cols: nat,
)
    requires
        is_matrix(a, rows, cols),
        is_matrix(b, rows, cols),
        rows > 0,
        row_equivalent(a, b),
        row_equivalent(b, c),
    ensures
        row_equivalent(a, c),
{
    let (t1, u1) = choose|t: Seq<Seq<bool>>, u: Seq<Seq<bool>>| transforms(t, u, a, b);
    let (t2, u2) = choose|t: Seq<Seq<bool>>, u: Seq<Seq<bool>>| transforms(t, u, b, c);
    let t = mat_mul(t2, t1);
    let u = mat_mul(u1, u2);
    lemma_mat_mul_shape(t2, t1, rows, rows, rows);
    lemma_mat_mul_shape(u1, u2, rows, rows, rows);
    // (t2 t1) a == t2 (t1 a)
    lemma_mul_associative(t2, t1, a, rows, rows, rows, cols);
    // (t2 t1) (u1 u2) == t2 (t1 (u1 u2)) == t2 ((t1 u1) u2) == t2 u2
    lemma_mul_associative(t2, t1, u, rows, rows, rows, rows);
    lemma_mul_associative(t1, u1, u2, rows, rows, rows, rows);
    lemma_identity_left(u2, rows, rows);
    // (u1 u2) (t2 t1) == u1 (u2 (t2 t1)) == u1 ((u2 t2) t1) == u1 t1
    lemma_mul_associative(u1, u2, t, rows, rows, rows, rows);
    lemma_mul_associative(u2, t2, t1, rows, rows, rows, rows);
    lemma_identity_left(t1, rows, rows);
    assert(transforms(t, u, a, c));
}

} // verus!
