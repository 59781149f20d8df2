//! Inversion and the solution of linear systems, both by elimination on an
//! augmented matrix.
use crate::echelon::{echelon, has_rank, in_echelon_form};
use crate::gf2::{
    augment, cols_of, entry_terms, identity_matrix, is_matrix, lemma_identity_left,
    lemma_identity_right, lemma_is_matrix_ext, lemma_mat_mul_shape, lemma_mul_associative,
    lemma_xor_sum_ext, lemma_xor_sum_pick, lemma_xor_sum_zero, mat_mul, submatrix, vec_mat,
    zero_matrix, zero_row,
};
use crate::graycode::MAX_KAY;
use crate::m4ri::eliminate_m4ri;
use crate::matrix::{mzd_read_bit, mzd_write_bit, BinMatrix};
use crate::rowops::{row_equivalent, transforms};
use vstd::prelude::*;

verus! {

/// Whether some rows of `a` add up to zero: a nonzero row vector `t` with
/// `t * a == 0`.
pub open spec fn singular(a: Seq<Seq<bool>>) -> bool {
    exists|t: Seq<bool>| dependency(a, t)
}

/// Whether `t` is a nonzero row vector with `t * a == 0`.
pub open spec fn dependency(a: Seq<Seq<bool>>, t: Seq<bool>) -> bool {
    &&& t.len() == a.len()
    &&& t != zero_row(a.len())
    &&& vec_mat(t, a) == zero_row(cols_of(a))
}

/// Whether `a * x == b` has a solution `x`.
pub open spec fn solvable(a: Seq<Seq<bool>>, b: Seq<Seq<bool>>) -> bool {
    exists|x: Seq<Seq<bool>>| is_matrix(x, cols_of(a), cols_of(b)) && mat_mul(a, x) == b
}

/// Multiplying an augmented matrix from the left multiplies both parts.
pub proof fn lemma_mul_augment(
    t: Seq<Seq<bool>>,
    a: Seq<Seq<bool>>,
    b: Seq<Seq<bool>>,
    m: nat,
    n: nat,
    k: nat,
)
    requires
        m > 0,
        is_matrix(t, m, m),
        is_matrix(a, m, n),
        is_matrix(b, m, k),
    ensures
        mat_mul(t, augment(a, b)) == augment(mat_mul(t, a), mat_mul(t, b)),
{
    let ab = augment(a, b);
    assert(is_matrix(ab, m, n + k));
    lemma_mat_mul_shape(t, ab, m, m, n + k);
    lemma_mat_mul_shape(t, a, m, m, n);
    lemma_mat_mul_shape(t, b, m, m, k);
    let rhs = augment(mat_mul(t, a), mat_mul(t, b));
    assert(is_matrix(rhs, m, n + k));
    assert forall|i: int, j: int| 0 <= i < m && 0 <= j < n + k implies mat_mul(t, ab)[i][j]
        == rhs[i][j] by {
        let f = entry_terms(t, ab, i, j);
        if j < n {
            let g = entry_terms(t, a, i, j);
            assert forall|l: int| 0 <= l < m implies #[trigger] f(l) == g(l) by {
                assert(ab[l][j] == a[l][j]);
            }
            lemma_xor_sum_ext(f, g, m);
        } else {
            let g = entry_terms(t, b, i, j - n);
            assert forall|l: int| 0 <= l < m implies #[trigger] f(l) == g(l) by {
                assert(ab[l][j] == b[l][j - n]);
            }
            lemma_xor_sum_ext(f, g, m);
        }
    }
    lemma_is_matrix_ext(mat_mul(t, ab), rhs, m, n + k);
}

/// The product of a zero matrix and any matrix is zero.
pub proof fn lemma_mul_zero_left(a: Seq<Seq<bool>>, m: nat, n: nat, k: nat)
    requires
        n > 0,
        is_matrix(a, n, k),
    ensures
        mat_mul(zero_matrix(m, n), a) == zero_matrix(m, k),
{
    let z = zero_matrix(m, n);
    assert(is_matrix(z, m, n));
    lemma_mat_mul_shape(z, a, m, n, k);
    assert forall|i: int, j: int| 0 <= i < m && 0 <= j < k implies mat_mul(z, a)[i][j]
        == zero_matrix(m, k)[i][j] by {
        lemma_xor_sum_zero(entry_terms(z, a, i, j), n);
    }
    lemma_is_matrix_ext(mat_mul(z, a), zero_matrix(m, k), m, k);
}

/// As many pivots as columns: the pivot of row `i` is column `i`.
pub proof fn lemma_full_pivots(piv: Seq<usize>, n: nat, i: int)
    requires
        piv.len() == n,
        forall|x: int| 0 <= x < n ==> (#[trigger] piv[x]) < n,
        forall|x: int, y: int| 0 <= x < y < n ==> (#[trigger] piv[x]) < (#[trigger] piv[y]),
        0 <= i < n,
    ensures
        piv[i] == i,
{
    lemma_pivots_at_least(piv, n, i);
    lemma_pivots_at_most(piv, n, i);
}

proof fn lemma_pivots_at_least(piv: Seq<usize>, n: nat, i: int)
    requires
        piv.len() == n,
        forall|x: int, y: int| 0 <= x < y < n ==> (#[trigger] piv[x]) < (#[trigger] piv[y]),
        0 <= i < n,
    ensures
        piv[i] >= i,
    decreases i,
{
    if i > 0 {
        lemma_pivots_at_least(piv, n, i - 1);
    }
}

proof fn lemma_pivots_at_most(piv: Seq<usize>, n: nat, i: int)
    requires
        piv.len() == n,
        forall|x: int| 0 <= x < n ==> (#[trigger] piv[x]) < n,
        forall|x: int, y: int| 0 <= x < y < n ==> (#[trigger] piv[x]) < (#[trigger] piv[y]),
        0 <= i < n,
    ensures
        piv[i] <= i,
    decreases n - i,
{
    if i < n - 1 {
        lemma_pivots_at_most(piv, n, i + 1);
    }
}

/// A left inverse that is itself invertible is a right inverse too.
pub proof fn lemma_left_inverse_is_right(
    t: Seq<Seq<bool>>,
    u: Seq<Seq<bool>>,
    a: Seq<Seq<bool>>,
    n: nat,
)
    requires
        n > 0,
        is_matrix(t, n, n),
        is_matrix(u, n, n),
        is_matrix(a, n, n),
        mat_mul(t, u) == identity_matrix(n),
        mat_mul(u, t) == identity_matrix(n),
        mat_mul(t, a) == identity_matrix(n),
    ensures
        a == u,
        mat_mul(a, t) == identity_matrix(n),
{
    // a == (u t) a == u (t a) == u
    lemma_mul_associative(u, t, a, n, n, n, n);
    lemma_identity_left(a, n, n);
    lemma_identity_right(u, n, n);
}

/// A matrix with a right inverse has no dependency among its rows.
pub proof fn lemma_invertible_not_singular(a: Seq<Seq<bool>>, inv: Seq<Seq<bool>>, n: nat)
    requires
        n > 0,
        is_matrix(a, n, n),
        is_matrix(inv, n, n),
        mat_mul(a, inv) == identity_matrix(n),
    ensures
        !singular(a),
{
    if singular(a) {
        let t = choose|t: Seq<bool>| dependency(a, t);
        let row = seq![t];
        assert(is_matrix(row, 1, n));
        lemma_mat_mul_shape(row, a, 1, n, n);
        assert(mat_mul(row, a)[0] =~= vec_mat(t, a));
        assert(mat_mul(row, a) =~= zero_matrix(1, n));
        // row == row (a inv) == (row a) inv == 0
        lemma_mul_associative(row, a, inv, 1, n, n, n);
        lemma_identity_right(row, 1, n);
        lemma_mul_zero_left(inv, 1, n, n);
        assert(row[0] == zero_matrix(1, n)[0]);
        assert(false);
    }
}

/// Where an invertible `t` takes `a` to a matrix with a zero row, the rows
/// of `a` are dependent.
pub proof fn lemma_zero_row_singular(
    t: Seq<Seq<bool>>,
    u: Seq<Seq<bool>>,
    a: Seq<Seq<bool>>,
    n: nat,
    cols: nat,
    i: int,
)
    requires
        n > 0,
        cols > 0,
        is_matrix(t, n, n),
        is_matrix(u, n, n),
        is_matrix(a, n, cols),
        mat_mul(t, u) == identity_matrix(n),
        0 <= i < n,
        forall|j: int| 0 <= j < cols ==> !#[trigger] mat_mul(t, a)[i][j],
    ensures
        singular(a),
{
    let w = t[i];
    assert(w.len() == n);
    lemma_mat_mul_shape(t, a, n, n, cols);
    assert forall|j: int| 0 <= j < cols implies vec_mat(w, a)[j] == false by {
        assert(!mat_mul(t, a)[i][j]);
        let f = entry_terms(seq![w], a, 0, j);
        let g = entry_terms(t, a, i, j);
        assert forall|l: int| 0 <= l < n implies #[trigger] f(l) == g(l) by {}
        lemma_xor_sum_ext(f, g, n);
    }
    assert(vec_mat(w, a) =~= zero_row(cols));
    if w == zero_row(n) {
        lemma_mat_mul_shape(t, u, n, n, n);
        lemma_xor_sum_zero(entry_terms(t, u, i, i), n);
        assert(mat_mul(t, u)[i][i] == false);
        assert(identity_matrix(n)[i][i] == true);
    }
    assert(dependency(a, w));
}

/// The left part of an augmented matrix in echelon form is in echelon form.
proof fn lemma_echelon_left_block(
    e: Seq<Seq<bool>>,
    c: Seq<Seq<bool>>,
    piv: Seq<usize>,
    m: nat,
    n: nat,
    k: nat,
    full: bool,
)
    requires
        is_matrix(e, m, n),
        is_matrix(c, m, k),
        echelon(augment(e, c), piv, n as int, full),
    ensures
        echelon(e, piv, n as int, full),
{
    let mf = augment(e, c);
    assert forall|i: int, j: int| 0 <= i < m && 0 <= j < n implies #[trigger] e[i][j]
        == mf[i][j] by {}
    assert forall|i: int| 0 <= i < piv.len() implies (#[trigger] piv[i]) < n && e[i][piv[i] as int] by {
        assert(mf[i][piv[i] as int]);
    }
    assert forall|i: int, j: int| 0 <= i < piv.len() && 0 <= j < piv[i] implies !#[trigger] e[i][j] by {
        assert(!mf[i][j]);
    }
    assert forall|i: int, j: int| piv.len() <= i < e.len() && 0 <= j < n implies !#[trigger] e[i][j] by {
        assert(!mf[i][j]);
    }
    if full {
        assert forall|i: int, x: int| 0 <= i < piv.len() && 0 <= x < i implies !#[trigger] e[x][piv[i] as int] by {
            assert(!mf[x][piv[i] as int]);
        }
    }
}

/// With `e` in reduced row echelon form, the matrix that holds row `i` of
/// `c` in its row `piv[i]` and zeros elsewhere solves `e * x == c`, provided
/// that `c` is zero in the rows where `e` is.
proof fn lemma_scatter_solves(
    e: Seq<Seq<bool>>,
    c: Seq<Seq<bool>>,
    x: Seq<Seq<bool>>,
    piv: Seq<usize>,
    m: nat,
    n: nat,
    k: nat,
)
    requires
        n > 0,
        is_matrix(e, m, n),
        is_matrix(c, m, k),
        is_matrix(x, n, k),
        echelon(e, piv, n as int, true),
        forall|i: int| piv.len() <= i < m ==> #[trigger] c[i] == zero_row(k),
        forall|i: int| 0 <= i < piv.len() ==> x[(#[trigger] piv[i]) as int] == c[i],
        forall|l: int|
            0 <= l < n && (forall|i: int| 0 <= i < piv.len() ==> (#[trigger] piv[i]) != l)
                ==> #[trigger] x[l] == zero_row(k),
    ensures
        mat_mul(e, x) == c,
{
    lemma_mat_mul_shape(e, x, m, n, k);
    let r = piv.len() as int;
    assert forall|i: int, j: int| 0 <= i < m && 0 <= j < k implies mat_mul(e, x)[i][j]
        == c[i][j] by {
        let f = entry_terms(e, x, i, j);
        if i < r {
            let p = piv[i] as int;
            assert forall|l: int| 0 <= l < n && l != p implies !#[trigger] f(l) by {
                if exists|i2: int| 0 <= i2 < r && piv[i2] == l {
                    let i2 = choose|i2: int| 0 <= i2 < r && piv[i2] == l;
                    if i2 > i {
                        assert(!e[i][piv[i2] as int]);
                    } else {
                        assert(i2 < i);
                        assert(piv[i2] < piv[i]);
                        assert(!e[i][l]);
                    }
                } else {
                    assert(x[l] == zero_row(k));
                }
            }
            lemma_xor_sum_pick(f, n, p);
            assert(e[i][p]);
            assert(x[p] == c[i]);
        } else {
            assert forall|l: int| 0 <= l < n implies !#[trigger] f(l) by {
                assert(!e[i][l]);
            }
            lemma_xor_sum_zero(f, n);
            assert(c[i] == zero_row(k));
        }
    }
    lemma_is_matrix_ext(mat_mul(e, x), c, m, k);
}

/// A solution of the transformed system solves the system itself.
proof fn lemma_solution_transfers(
    t: Seq<Seq<bool>>,
    u: Seq<Seq<bool>>,
    a: Seq<Seq<bool>>,
    b: Seq<Seq<bool>>,
    x: Seq<Seq<bool>>,
    m: nat,
    n: nat,
    k: nat,
)
    requires
        m > 0,
        n > 0,
        is_matrix(t, m, m),
        is_matrix(u, m, m),
        is_matrix(a, m, n),
        is_matrix(b, m, k),
        is_matrix(x, n, k),
        mat_mul(u, t) == identity_matrix(m),
        mat_mul(mat_mul(t, a), x) == mat_mul(t, b),
    ensures
        mat_mul(a, x) == b,
{
    let ax = mat_mul(a, x);
    lemma_mat_mul_shape(a, x, m, n, k);
    lemma_mat_mul_shape(t, ax, m, m, k);
    // a x == (u t) (a x) == u (t (a x)) == u ((t a) x) == u (t b) == (u t) b == b
    lemma_identity_left(ax, m, k);
    lemma_mul_associative(u, t, ax, m, m, m, k);
    lemma_mul_associative(t, a, x, m, m, n, k);
    lemma_mul_associative(u, t, b, m, m, m, k);
    lemma_identity_left(b, m, k);
}

/// Where the transformed system asks that zero be one, the system has no
/// solution.
proof fn lemma_inconsistent_unsolvable(
    t: Seq<Seq<bool>>,
    a: Seq<Seq<bool>>,
    b: Seq<Seq<bool>>,
    m: nat,
    n: nat,
    k: nat,
    i: int,
    j: int,
)
    requires
        m > 0,
        n > 0,
        k > 0,
        is_matrix(t, m, m),
        is_matrix(a, m, n),
        is_matrix(b, m, k),
        0 <= i < m,
        0 <= j < k,
        forall|l: int| 0 <= l < n ==> !#[trigger] mat_mul(t, a)[i][l],
        mat_mul(t, b)[i][j],
    ensures
        !solvable(a, b),
{
    if solvable(a, b) {
        let x = choose|x: Seq<Seq<bool>>|
            is_matrix(x, cols_of(a), cols_of(b)) && mat_mul(a, x) == b;
        let ta = mat_mul(t, a);
        lemma_mat_mul_shape(t, a, m, m, n);
        lemma_mat_mul_shape(ta, x, m, n, k);
        lemma_mul_associative(t, a, x, m, m, n, k);
        let f = entry_terms(ta, x, i, j);
        assert forall|l: int| 0 <= l < n implies !#[trigger] f(l) by {
            assert(!ta[i][l]);
        }
        lemma_xor_sum_zero(f, n);
        assert(mat_mul(ta, x)[i][j] == false);
        assert(false);
    }
}

/// In a square matrix in echelon form with a pivot in every row, a row
/// vector `s` with `s * e == 0` is zero up to column `j`.
proof fn lemma_triangular_kernel(s: Seq<bool>, e: Seq<Seq<bool>>, piv: Seq<usize>, n: nat, j: int)
    requires
        n > 0,
        s.len() == n,
        is_matrix(e, n, n),
        piv.len() == n,
        echelon(e, piv, n as int, false),
        vec_mat(s, e) == zero_row(n),
        0 <= j < n,
    ensures
        forall|l: int| 0 <= l <= j ==> !#[trigger] s[l],
    decreases j,
{
    if j > 0 {
        lemma_triangular_kernel(s, e, piv, n, j - 1);
    }
    let f = entry_terms(seq![s], e, 0, j);
    assert forall|l: int| 0 <= l < n && l != j implies !#[trigger] f(l) by {
        if l > j {
            lemma_full_pivots(piv, n, l);
            assert(!e[l][j]);
        } else {
            assert(!s[l]);
        }
    }
    lemma_xor_sum_pick(f, n, j);
    lemma_full_pivots(piv, n, j);
    assert(e[j][piv[j] as int]);
    assert(vec_mat(s, e)[j] == false);
}

/// A square matrix has full rank exactly when its rows are independent.
pub proof fn lemma_rank_singular(a: Seq<Seq<bool>>, n: nat, r: nat)
    requires
        n > 0,
        is_matrix(a, n, n),
        has_rank(a, r),
    ensures
        r <= n,
        r == n <==> !singular(a),
{
    let e = choose|e: Seq<Seq<bool>>| row_equivalent(a, e) && in_echelon_form(e, r, false);
    let (t, u) = choose|t: Seq<Seq<bool>>, u: Seq<Seq<bool>>| transforms(t, u, a, e);
    let piv = choose|piv: Seq<usize>| piv.len() == r && echelon(e, piv, cols_of(e) as int, false);
    lemma_mat_mul_shape(t, a, n, n, n);
    if r < n {
        assert forall|j: int| 0 <= j < n implies !#[trigger] mat_mul(t, a)[n - 1][j] by {
            assert(!e[n - 1][j]);
        }
        lemma_zero_row_singular(t, u, a, n, n, n - 1);
    } else if singular(a) {
        let w = choose|w: Seq<bool>| dependency(a, w);
        let row = seq![w];
        assert(is_matrix(row, 1, n));
        let s = mat_mul(row, u);
        lemma_mat_mul_shape(row, u, 1, n, n);
        lemma_mat_mul_shape(row, a, 1, n, n);
        assert(mat_mul(row, a)[0] =~= vec_mat(w, a));
        assert(mat_mul(row, a) =~= zero_matrix(1, n));
        // s e == (row u) (t a) == row (u (t a)) == row ((u t) a) == row a == 0
        lemma_mul_associative(row, u, e, 1, n, n, n);
        lemma_mul_associative(u, t, a, n, n, n, n);
        lemma_identity_left(a, n, n);
        assert(mat_mul(s, e) == zero_matrix(1, n));
        lemma_mat_mul_shape(s, e, 1, n, n);
        assert(vec_mat(s[0], e) =~= zero_row(n)) by {
            assert forall|j: int| 0 <= j < n implies vec_mat(s[0], e)[j] == false by {
                assert(mat_mul(s, e)[0][j] == false);
                let f = entry_terms(seq![s[0]], e, 0, j);
                let g = entry_terms(s, e, 0, j);
                assert forall|l: int| 0 <= l < n implies #[trigger] f(l) == g(l) by {}
                lemma_xor_sum_ext(f, g, n);
            }
        }
        lemma_triangular_kernel(s[0], e, piv, n, n - 1);
        assert(s =~= zero_matrix(1, n)) by {
            assert(s[0] =~= zero_row(n));
        }
        // row == row (u t) == (row u) t == 0 t == 0
        lemma_mul_associative(row, u, t, 1, n, n, n);
        lemma_identity_right(row, 1, n);
        lemma_mul_zero_left(t, 1, n, n);
        assert(row[0] == zero_matrix(1, n)[0]);
        assert(false);
    }
}

/// Whether every bit of `m` in the rows from `row0` on and the columns from
/// `col0` on is zero.
fn block_is_zero(m: &BinMatrix, row0: usize, col0: usize) -> (z: bool)
    requires
        m.wf(),
        row0 <= m.spec_nrows(),
        col0 <= m.spec_ncols(),
    ensures
        z <==> forall|i: int, j: int|
            row0 <= i < m.spec_nrows() && col0 <= j < m.spec_ncols() ==> !#[trigger] m@[i][j],
{
    let mut i: usize = row0;
    while i < m.nrows
        invariant
            row0 <= i <= m.nrows,
            col0 <= m.ncols,
            m.wf(),
            forall|x: int, y: int| row0 <= x < i && col0 <= y < m.ncols ==> !#[trigger] m@[x][y],
        decreases m.nrows - i,
    {
        let mut j: usize = col0;
        while j < m.ncols
            invariant
                row0 <= i < m.nrows,
                col0 <= j <= m.ncols,
                m.wf(),
                forall|x: int, y: int|
                    row0 <= x < i && col0 <= y < m.ncols ==> !#[trigger] m@[x][y],
                forall|y: int| col0 <= y < j ==> !#[trigger] m@[i as int][y],
            decreases m.ncols - j,
        {
            if mzd_read_bit(m, i, j) {
                return false;
            }
            j += 1;
        }
        i += 1;
    }
    true
}

/// Overwrites row `dst_row` of `dst` with the bits of row `src_row` of `src`
/// from column `col0` on.
fn copy_row_segment(
    dst: &mut BinMatrix,
    dst_row: usize,
    src: &BinMatrix,
    src_row: usize,
    col0: usize,
)
    requires
        old(dst).wf(),
        src.wf(),
        dst_row < old(dst).spec_nrows(),
        src_row < src.spec_nrows(),
        col0 + old(dst).spec_ncols() == src.spec_ncols(),
    ensures
        final(dst).wf(),
        final(dst).spec_nrows() == old(dst).spec_nrows(),
        final(dst).spec_ncols() == old(dst).spec_ncols(),
        final(dst)@ == old(dst)@.update(
            dst_row as int,
            src@[src_row as int].subrange(col0 as int, src.spec_ncols() as int),
        ),
{
    let ghost orig = dst@;
    let ghost seg = src@[src_row as int].subrange(col0 as int, src.ncols as int);
    let mut j: usize = 0;
    assert(dst@ =~~= orig.update(
        dst_row as int,
        Seq::new(
            dst.ncols as nat,
            |y: int|
                if y < j {
                    seg[y]
                } else {
                    orig[dst_row as int][y]
                },
        ),
    ));
    while j < dst.ncols
        invariant
            j <= dst.ncols,
            dst.wf(),
            src.wf(),
            dst.nrows == old(dst).nrows,
            dst.ncols == old(dst).ncols,
            dst_row < dst.nrows,
            src_row < src.nrows,
            col0 + dst.ncols == src.ncols,
            orig == old(dst)@,
            seg == src@[src_row as int].subrange(col0 as int, src.ncols as int),
            dst@ == orig.update(
                dst_row as int,
                Seq::new(
                    dst.ncols as nat,
                    |y: int|
                        if y < j {
                            seg[y]
                        } else {
                            orig[dst_row as int][y]
                        },
                ),
            ),
        decreases dst.ncols - j,
    {
        let bit = mzd_read_bit(src, src_row, col0 + j);
        mzd_write_bit(dst, dst_row, j, bit);
        j += 1;
        assert(dst@ =~~= orig.update(
            dst_row as int,
            Seq::new(
                dst.ncols as nat,
                |y: int|
                    if y < j {
                        seg[y]
                    } else {
                        orig[dst_row as int][y]
                    },
            ),
        ));
    }
    assert(dst@ =~~= orig.update(dst_row as int, seg));
}

/// Solves `a * x == b` for `x`. Where a solution exists, the result is
/// `true` and `b` holds one: `x` in its first rows, as many as `a` has
/// columns, and zeros below. Where none exists, the result is `false` and
/// `b` stays as it was.
pub fn solve_left(a: BinMatrix, b: &mut BinMatrix) -> (ok: bool)
    requires
        a.wf(),
        old(b).wf(),
        a.spec_nrows() == old(b).spec_nrows(),
        a.spec_ncols() <= a.spec_nrows(),
        a.spec_ncols() + old(b).spec_ncols() <= usize::MAX,
    ensures
        final(b).wf(),
        final(b).spec_nrows() == old(b).spec_nrows(),
        final(b).spec_ncols() == old(b).spec_ncols(),
        ok <==> solvable(a@, old(b)@),
        !singular(a@) ==> ok,
        a.spec_nrows() == a.spec_ncols() && has_rank(a@, a.spec_nrows()) ==> ok,
        ok ==> mat_mul(
            a@,
            submatrix(final(b)@, 0, 0, a.spec_ncols() as int, old(b).spec_ncols() as int),
        ) == old(b)@,
        ok ==> forall|i: int|
            a.spec_ncols() <= i < a.spec_nrows() ==> #[trigger] final(b)@[i] == zero_row(
                old(b).spec_ncols(),
            ),
        ok && a.spec_nrows() == a.spec_ncols() ==> mat_mul(a@, final(b)@) == old(b)@,
        !ok ==> final(b)@ == old(b)@,
{
    mzd_solve_left(&a, b, true)
}

/// Solves `a * x == b` for `x`, as `solve_left` does, with a choice: without
/// `inconsistency_check` the result is always `true`, and what `b` holds
/// afterwards is a solution only where one exists.
pub fn mzd_solve_left(a: &BinMatrix, b: &mut BinMatrix, inconsistency_check: bool) -> (ok: bool)
    requires
        a.wf(),
        old(b).wf(),
        a.spec_nrows() == old(b).spec_nrows(),
        a.spec_ncols() <= a.spec_nrows(),
        a.spec_ncols() + old(b).spec_ncols() <= usize::MAX,
    ensures
        final(b).wf(),
        final(b).spec_nrows() == old(b).spec_nrows(),
        final(b).spec_ncols() == old(b).spec_ncols(),
        ok <==> solvable(a@, old(b)@) || !inconsistency_check,
        !singular(a@) ==> solvable(a@, old(b)@),
        a.spec_nrows() == a.spec_ncols() && has_rank(a@, a.spec_nrows()) ==> solvable(
            a@,
            old(b)@,
        ),
        solvable(a@, old(b)@) ==> mat_mul(
            a@,
            submatrix(final(b)@, 0, 0, a.spec_ncols() as int, old(b).spec_ncols() as int),
        ) == old(b)@,
        solvable(a@, old(b)@) ==> forall|i: int|
            a.spec_ncols() <= i < a.spec_nrows() ==> #[trigger] final(b)@[i] == zero_row(
                old(b).spec_ncols(),
            ),
        solvable(a@, old(b)@) && a.spec_nrows() == a.spec_ncols() ==> mat_mul(a@, final(b)@)
            == old(b)@,
        !ok ==> final(b)@ == old(b)@,
{
    let rows = a.nrows;
    let n = a.ncols;
    let k = b.ncols;
    let ghost a0 = a@;
    let ghost b0 = b@;
    let ghost mm = rows as nat;
    let ghost nn = n as nat;
    let ghost kk = k as nat;
    let mut m = a.augmented(b);
    let ghost m0 = m@;
    let pivots = eliminate_m4ri(&mut m, true, n, 0);
    let r = pivots.len();
    let ghost (t, u) = choose|t: Seq<Seq<bool>>, u: Seq<Seq<bool>>| transforms(t, u, m0, m@);
    let ghost e = mat_mul(t, a0);
    let ghost c = mat_mul(t, b0);
    proof {
        lemma_mul_augment(t, a0, b0, mm, nn, kk);
        lemma_mat_mul_shape(t, a0, mm, mm, nn);
        lemma_mat_mul_shape(t, b0, mm, mm, kk);
        lemma_echelon_left_block(e, c, pivots@, mm, nn, kk, true);
        if mm == nn && has_rank(a0, mm) {
            lemma_rank_singular(a0, mm, mm);
        }
    }
    // whether the rows without a pivot are zero on the right side too
    let ghost consistent = forall|i: int, j: int|
        r <= i < m.spec_nrows() && n <= j < m.spec_ncols() ==> !#[trigger] m@[i][j];
    proof {
        if !consistent {
            let (i, j) = choose|i: int, j: int|
                r <= i < m.spec_nrows() && n <= j < m.spec_ncols() && #[trigger] m@[i][j];
            assert(m@[i][j] == c[i][j - n]);
            assert forall|l: int| 0 <= l < nn implies !#[trigger] e[i][l] by {}
            lemma_inconsistent_unsolvable(t, a0, b0, mm, nn, kk, i, j - n);
            assert forall|l: int| 0 <= l < nn implies !#[trigger] mat_mul(t, a0)[mm - 1][l] by {
                assert(!e[mm - 1][l]);
            }
            lemma_zero_row_singular(t, u, a0, mm, nn, mm - 1);
        }
    }
    if inconsistency_check && !block_is_zero(&m, r, n) {
        return false;
    }
    let mut x = BinMatrix::zero(rows, k);
    let mut i: usize = 0;
    while i < r
        invariant
            i <= r,
            r == pivots@.len(),
            r <= rows,
            x.wf(),
            m.wf(),
            x.nrows == rows,
            x.ncols == k,
            m.nrows == rows,
            m.ncols == n + k,
            n <= rows,
            echelon(e, pivots@, n as int, true),
            forall|y: int|
                0 <= y < i ==> x@[(#[trigger] pivots@[y]) as int] == m@[y].subrange(
                    n as int,
                    n + k,
                ),
            forall|l: int|
                0 <= l < rows && (forall|y: int| 0 <= y < i ==> (#[trigger] pivots@[y]) != l)
                    ==> #[trigger] x@[l] == zero_row(k as nat),
        decreases r - i,
    {
        let p = pivots[i];
        let ghost before = x@;
        copy_row_segment(&mut x, p, &m, i, n);
        proof {
            assert forall|y: int| 0 <= y < i + 1 implies x@[(#[trigger] pivots@[y]) as int]
                == m@[y].subrange(n as int, n + k) by {
                if y < i {
                    assert(pivots@[y] < pivots@[i as int]);
                    assert(before[pivots@[y] as int] == m@[y].subrange(n as int, n + k));
                }
            }
        }
        i += 1;
    }
    proof {
        if consistent {
            lemma_consistent_solution(e, c, m@, x@, t, u, a0, b0, pivots@, mm, nn, kk);
        }
    }
    *b = x;
    true
}

/// Where the eliminated system is consistent, the matrix that holds row
/// `i` of its right side in row `piv[i]` solves the system.
proof fn lemma_consistent_solution(
    e: Seq<Seq<bool>>,
    c: Seq<Seq<bool>>,
    m: Seq<Seq<bool>>,
    xf: Seq<Seq<bool>>,
    t: Seq<Seq<bool>>,
    u: Seq<Seq<bool>>,
    a0: Seq<Seq<bool>>,
    b0: Seq<Seq<bool>>,
    pivots: Seq<usize>,
    mm: nat,
    nn: nat,
    kk: nat,
)
    requires
        0 < nn <= mm,
        kk > 0,
        is_matrix(a0, mm, nn),
        is_matrix(b0, mm, kk),
        is_matrix(t, mm, mm),
        is_matrix(u, mm, mm),
        is_matrix(xf, mm, kk),
        mat_mul(u, t) == identity_matrix(mm),
        e == mat_mul(t, a0),
        c == mat_mul(t, b0),
        m == augment(e, c),
        echelon(e, pivots, nn as int, true),
        forall|i: int, j: int| pivots.len() <= i < mm && nn <= j < nn + kk ==> !#[trigger] m[i][j],
        forall|y: int|
            0 <= y < pivots.len() ==> xf[(#[trigger] pivots[y]) as int] == m[y].subrange(
                nn as int,
                (nn + kk) as int,
            ),
        forall|l: int|
            0 <= l < mm && (forall|y: int| 0 <= y < pivots.len() ==> (#[trigger] pivots[y]) != l)
                ==> #[trigger] xf[l] == zero_row(kk),
    ensures
        mat_mul(a0, submatrix(xf, 0, 0, nn as int, kk as int)) == b0,
        forall|l: int| nn <= l < mm ==> #[trigger] xf[l] == zero_row(kk),
        mm == nn ==> mat_mul(a0, xf) == b0,
        solvable(a0, b0),
{
    let r = pivots.len();
    lemma_mat_mul_shape(t, a0, mm, mm, nn);
    lemma_mat_mul_shape(t, b0, mm, mm, kk);
    let top = submatrix(xf, 0, 0, nn as int, kk as int);
    assert(is_matrix(top, nn, kk));
    assert forall|y: int| mm > y >= r implies #[trigger] c[y] == zero_row(kk) by {
        assert forall|j: int| 0 <= j < kk implies c[y][j] == false by {
            assert(!m[y][nn + j]);
        }
        assert(c[y] =~= zero_row(kk));
    }
    assert forall|y: int| 0 <= y < r implies top[(#[trigger] pivots[y]) as int] == c[y] by {
        assert(xf[pivots[y] as int] == m[y].subrange(nn as int, (nn + kk) as int));
        assert(m[y].subrange(nn as int, (nn + kk) as int) =~= c[y]);
        assert(top[pivots[y] as int] =~= xf[pivots[y] as int]);
    }
    assert forall|l: int|
        0 <= l < nn && (forall|y: int| 0 <= y < r ==> (#[trigger] pivots[y]) != l)
            implies #[trigger] top[l] == zero_row(kk) by {
        assert(xf[l] == zero_row(kk));
        assert(top[l] =~= xf[l]);
    }
    lemma_scatter_solves(e, c, top, pivots, mm, nn, kk);
    lemma_solution_transfers(t, u, a0, b0, top, mm, nn, kk);
    assert forall|l: int| nn <= l < mm implies #[trigger] xf[l] == zero_row(kk) by {
        assert forall|y: int| 0 <= y < r implies (#[trigger] pivots[y]) != l by {}
    }
    if mm == nn {
        assert(top =~~= xf);
    }
}

/// The inverse of the square matrix `src`, or `None` where the rows of `src`
/// are dependent, which is where its rank is below its size. The
/// elimination makes tables for `k` pivots at a time; `k == 0` asks for the
/// width that suits the size.
pub fn mzd_inv_m4ri(src: &BinMatrix, k: usize) -> (res: Option<BinMatrix>)
    requires
        src.wf(),
        src.spec_nrows() == src.spec_ncols(),
        2 * src.spec_ncols() <= usize::MAX,
        k <= MAX_KAY,
    ensures
        match res {
            Some(inv) => inv.wf() && inv.spec_nrows() == src.spec_nrows() && inv.spec_ncols()
                == src.spec_ncols() && mat_mul(inv@, src@) == identity_matrix(src.spec_nrows())
                && mat_mul(src@, inv@) == identity_matrix(src.spec_nrows()),
            None => true,
        },
        res is None <==> singular(src@),
        forall|r: nat| #[trigger] has_rank(src@, r) ==> (res is Some <==> r == src.spec_nrows()),
{
    let n = src.nrows;
    let id = BinMatrix::identity(n);
    let mut m = src.augmented(&id);
    let ghost m0 = m@;
    let ghost a = src@;
    let ghost nn = n as nat;
    let pivots = eliminate_m4ri(&mut m, true, n, k);
    let ghost (t, u) = choose|t: Seq<Seq<bool>>, u: Seq<Seq<bool>>| transforms(t, u, m0, m@);
    proof {
        assert(is_matrix(identity_matrix(nn), nn, nn));
        lemma_mul_augment(t, a, identity_matrix(nn), nn, nn, nn);
        lemma_identity_right(t, nn, nn);
        lemma_mat_mul_shape(t, a, nn, nn, nn);
        assert(m@ == augment(mat_mul(t, a), t));
        assert forall|r: nat| #[trigger] has_rank(a, r) implies (r == nn <==> !singular(a)) by {
            lemma_rank_singular(a, nn, r);
        }
    }
    if pivots.len() == n {
        let inv = m.get_window(0, n, n, n + n);
        proof {
            assert forall|i: int, j: int| 0 <= i < nn && 0 <= j < nn implies mat_mul(t, a)[i][j]
                == identity_matrix(nn)[i][j] by {
                lemma_full_pivots(pivots@, nn, i);
                lemma_full_pivots(pivots@, nn, j);
                assert(m@[i][j] == mat_mul(t, a)[i][j]);
                if i == j {
                    assert(m@[i][pivots@[i] as int]);
                } else if i < j {
                    assert(!m@[i][pivots@[j] as int]);
                } else {
                    assert(!m@[i][j]);
                }
            }
            lemma_is_matrix_ext(mat_mul(t, a), identity_matrix(nn), nn, nn);
            assert forall|i: int, j: int| 0 <= i < nn && 0 <= j < nn implies inv@[i][j]
                == t[i][j] by {
                assert(m@[i][nn + j] == t[i][j]);
            }
            lemma_is_matrix_ext(inv@, t, nn, nn);
            lemma_left_inverse_is_right(t, u, a, nn);
            lemma_invertible_not_singular(a, t, nn);
        }
        Some(inv)
    } else {
        proof {
            assert forall|j: int| 0 <= j < nn implies !#[trigger] mat_mul(t, a)[nn - 1][j] by {
                assert(!m@[nn - 1][j]);
            }
            lemma_zero_row_singular(t, u, a, nn, nn, nn - 1);
        }
        None
    }
}

impl BinMatrix {
    /// The inverse of a square matrix, or `None` where the rows of the
    /// matrix are dependent, which is where its rank is below its size.
    pub fn inverted(&self) -> (res: Option<BinMatrix>)
        requires
            self.wf(),
            self.spec_nrows() == self.spec_ncols(),
            2 * self.spec_ncols() <= usize::MAX,
        ensures
            match res {
                Some(inv) => inv.wf() && inv.spec_nrows() == self.spec_nrows() && inv.spec_ncols()
                    == self.spec_ncols() && mat_mul(inv@, self@) == identity_matrix(
                    self.spec_nrows(),
                ) && mat_mul(self@, inv@) == identity_matrix(self.spec_nrows()),
                None => true,
            },
            res is None <==> singular(self@),
            forall|r: nat|
                #[trigger] has_rank(self@, r) ==> (res is Some <==> r == self.spec_nrows()),
    {
        mzd_inv_m4ri(self, 0)
    }
}

} // verus!
