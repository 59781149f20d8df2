//! Multiplication by the Strassen-Winograd recursion: seven products of
//! half the size in place of eight.
use crate::gf2::{
    entry_terms, is_matrix, lemma_is_matrix_ext, lemma_mat_mul_shape, lemma_xor_sum_add,
    lemma_xor_sum_ext, lemma_xor_sum_split, lemma_xor_sum_zero, mat_add, mat_entry, mat_mul,
    shifted, submatrix, with_block, zero_matrix,
};
use crate::matrix::BinMatrix;
use crate::russian::mzd_mul_m4rm;
use vstd::prelude::*;

verus! {

/// Below this size the recursion stops where the caller names no cutoff.
pub const STRASSEN_CUTOFF: usize = 256;

/// An entry of a product is additive in the left factor.
proof fn lemma_entry_add_left(
    x1: Seq<Seq<bool>>,
    x2: Seq<Seq<bool>>,
    y: Seq<Seq<bool>>,
    i: int,
    j: int,
    rows: nat,
    n: nat,
)
    requires
        is_matrix(x1, rows, n),
        is_matrix(x2, rows, n),
        y.len() == n,
        0 <= i < rows,
    ensures
        mat_entry(mat_add(x1, x2), y, i, j) == (mat_entry(x1, y, i, j) != mat_entry(x2, y, i, j)),
{
    lemma_xor_sum_add(
        entry_terms(x1, y, i, j),
        entry_terms(x2, y, i, j),
        entry_terms(mat_add(x1, x2), y, i, j),
        n,
    );
}

/// An entry of a product is additive in the right factor.
proof fn lemma_entry_add_right(
    x: Seq<Seq<bool>>,
    y1: Seq<Seq<bool>>,
    y2: Seq<Seq<bool>>,
    i: int,
    j: int,
    n: nat,
    p: nat,
)
    requires
        is_matrix(y1, n, p),
        is_matrix(y2, n, p),
        0 <= j < p,
    ensures
        mat_entry(x, mat_add(y1, y2), i, j) == (mat_entry(x, y1, i, j) != mat_entry(x, y2, i, j)),
{
    lemma_xor_sum_add(
        entry_terms(x, y1, i, j),
        entry_terms(x, y2, i, j),
        entry_terms(x, mat_add(y1, y2), i, j),
        n,
    );
}

/// A block of a product is the sum of two products of blocks: the columns
/// of the left factor and the rows of the right one are cut at `s`.
pub proof fn lemma_block_product(
    a: Seq<Seq<bool>>,
    b: Seq<Seq<bool>>,
    m: nat,
    n: nat,
    p: nat,
    r0: int,
    r1: int,
    c0: int,
    c1: int,
    s: int,
)
    requires
        is_matrix(a, m, n),
        is_matrix(b, n, p),
        0 <= r0 <= r1 <= m,
        0 <= c0 <= c1 <= p,
        0 < s < n,
    ensures
        submatrix(mat_mul(a, b), r0, c0, r1, c1) == mat_add(
            mat_mul(submatrix(a, r0, 0, r1, s), submatrix(b, 0, c0, s, c1)),
            mat_mul(submatrix(a, r0, s, r1, n as int), submatrix(b, s, c0, n as int, c1)),
        ),
{
    let h = (r1 - r0) as nat;
    let w = (c1 - c0) as nat;
    let a1 = submatrix(a, r0, 0, r1, s);
    let a2 = submatrix(a, r0, s, r1, n as int);
    let b1 = submatrix(b, 0, c0, s, c1);
    let b2 = submatrix(b, s, c0, n as int, c1);
    assert(is_matrix(a1, h, s as nat));
    assert(is_matrix(a2, h, (n - s) as nat));
    assert(is_matrix(b1, s as nat, w));
    assert(is_matrix(b2, (n - s) as nat, w));
    lemma_mat_mul_shape(a, b, m, n, p);
    lemma_mat_mul_shape(a1, b1, h, s as nat, w);
    lemma_mat_mul_shape(a2, b2, h, (n - s) as nat, w);
    let lhs = submatrix(mat_mul(a, b), r0, c0, r1, c1);
    let rhs = mat_add(mat_mul(a1, b1), mat_mul(a2, b2));
    assert(is_matrix(lhs, h, w));
    assert(is_matrix(rhs, h, w));
    assert forall|i: int, j: int| 0 <= i < h && 0 <= j < w implies lhs[i][j] == rhs[i][j] by {
        let f = entry_terms(a, b, r0 + i, c0 + j);
        lemma_xor_sum_split(f, s as nat, (n - s) as nat);
        let f1 = entry_terms(a1, b1, i, j);
        let f2 = entry_terms(a2, b2, i, j);
        assert forall|l: int| 0 <= l < s implies #[trigger] f1(l) == f(l) by {}
        lemma_xor_sum_ext(f1, f, s as nat);
        let g = shifted(f, s);
        assert forall|l: int| 0 <= l < n - s implies #[trigger] f2(l) == g(l) by {}
        lemma_xor_sum_ext(f2, g, (n - s) as nat);
    }
    lemma_is_matrix_ext(lhs, rhs, h, w);
}

/// Zeros added to the right of the left factor and below the right one,
/// and rows and columns added on the outside, leave the product as it was
/// in its first rows and columns.
pub proof fn lemma_padded_product(
    a: Seq<Seq<bool>>,
    b: Seq<Seq<bool>>,
    m: nat,
    n: nat,
    p: nat,
    rows2: nat,
    inner2: nat,
    cols2: nat,
)
    requires
        n > 0,
        is_matrix(a, m, n),
        is_matrix(b, n, p),
        m <= rows2,
        n <= inner2,
        p <= cols2,
    ensures
        submatrix(
            mat_mul(
                with_block(zero_matrix(rows2, inner2), 0, 0, a),
                with_block(zero_matrix(inner2, cols2), 0, 0, b),
            ),
            0,
            0,
            m as int,
            p as int,
        ) == mat_mul(a, b),
{
    let pa = with_block(zero_matrix(rows2, inner2), 0, 0, a);
    let pb = with_block(zero_matrix(inner2, cols2), 0, 0, b);
    assert(is_matrix(pa, rows2, inner2));
    assert(is_matrix(pb, inner2, cols2));
    lemma_mat_mul_shape(pa, pb, rows2, inner2, cols2);
    lemma_mat_mul_shape(a, b, m, n, p);
    let lhs = submatrix(mat_mul(pa, pb), 0, 0, m as int, p as int);
    assert(is_matrix(lhs, m, p));
    assert forall|i: int, j: int| 0 <= i < m && 0 <= j < p implies lhs[i][j] == mat_mul(
        a,
        b,
    )[i][j] by {
        let f = entry_terms(pa, pb, i, j);
        lemma_xor_sum_split(f, n, (inner2 - n) as nat);
        let g = shifted(f, n as int);
        assert forall|l: int| 0 <= l < inner2 - n implies !#[trigger] g(l) by {
            assert(!pa[i][n + l]);
        }
        lemma_xor_sum_zero(g, (inner2 - n) as nat);
        let h = entry_terms(a, b, i, j);
        assert forall|l: int| 0 <= l < n implies #[trigger] h(l) == f(l) by {
            assert(pa[i][l] == a[i][l]);
            assert(pb[l][j] == b[l][j]);
        }
        lemma_xor_sum_ext(h, f, n);
    }
    lemma_is_matrix_ext(lhs, mat_mul(a, b), m, p);
}

/// The seven products of Winograd's scheme give the four blocks of the
/// product of two matrices of two by two blocks.
pub proof fn lemma_winograd(
    a11: Seq<Seq<bool>>,
    a12: Seq<Seq<bool>>,
    a21: Seq<Seq<bool>>,
    a22: Seq<Seq<bool>>,
    b11: Seq<Seq<bool>>,
    b12: Seq<Seq<bool>>,
    b21: Seq<Seq<bool>>,
    b22: Seq<Seq<bool>>,
    m: nat,
    n: nat,
    p: nat,
)
    requires
        n > 0,
        is_matrix(a11, m, n),
        is_matrix(a12, m, n),
        is_matrix(a21, m, n),
        is_matrix(a22, m, n),
        is_matrix(b11, n, p),
        is_matrix(b12, n, p),
        is_matrix(b21, n, p),
        is_matrix(b22, n, p),
    ensures
        ({
            let s1 = mat_add(a21, a22);
            let s2 = mat_add(s1, a11);
            let s3 = mat_add(a11, a21);
            let s4 = mat_add(a12, s2);
            let t1 = mat_add(b12, b11);
            let t2 = mat_add(b22, t1);
            let t3 = mat_add(b22, b12);
            let t4 = mat_add(t2, b21);
            let w1 = mat_mul(a11, b11);
            let w2 = mat_mul(a12, b21);
            let w3 = mat_mul(s4, b22);
            let w4 = mat_mul(a22, t4);
            let w5 = mat_mul(s1, t1);
            let w6 = mat_mul(s2, t2);
            let w7 = mat_mul(s3, t3);
            let u2 = mat_add(w1, w6);
            let u3 = mat_add(u2, w7);
            let u4 = mat_add(u2, w5);
            &&& mat_add(w1, w2) == mat_add(mat_mul(a11, b11), mat_mul(a12, b21))
            &&& mat_add(u4, w3) == mat_add(mat_mul(a11, b12), mat_mul(a12, b22))
            &&& mat_add(u3, w4) == mat_add(mat_mul(a21, b11), mat_mul(a22, b21))
            &&& mat_add(u3, w5) == mat_add(mat_mul(a21, b12), mat_mul(a22, b22))
        }),
{
    let s1 = mat_add(a21, a22);
    let s2 = mat_add(s1, a11);
    let s3 = mat_add(a11, a21);
    let s4 = mat_add(a12, s2);
    let t1 = mat_add(b12, b11);
    let t2 = mat_add(b22, t1);
    let t3 = mat_add(b22, b12);
    let t4 = mat_add(t2, b21);
    let w1 = mat_mul(a11, b11);
    let w2 = mat_mul(a12, b21);
    let w3 = mat_mul(s4, b22);
    let w4 = mat_mul(a22, t4);
    let w5 = mat_mul(s1, t1);
    let w6 = mat_mul(s2, t2);
    let w7 = mat_mul(s3, t3);
    let u2 = mat_add(w1, w6);
    let u3 = mat_add(u2, w7);
    let u4 = mat_add(u2, w5);
    assert(is_matrix(s1, m, n));
    assert(is_matrix(s2, m, n));
    assert(is_matrix(s3, m, n));
    assert(is_matrix(s4, m, n));
    assert(is_matrix(t1, n, p));
    assert(is_matrix(t2, n, p));
    assert(is_matrix(t3, n, p));
    assert(is_matrix(t4, n, p));
    lemma_mat_mul_shape(a11, b11, m, n, p);
    lemma_mat_mul_shape(a12, b21, m, n, p);
    lemma_mat_mul_shape(s4, b22, m, n, p);
    lemma_mat_mul_shape(a22, t4, m, n, p);
    lemma_mat_mul_shape(s1, t1, m, n, p);
    lemma_mat_mul_shape(s2, t2, m, n, p);
    lemma_mat_mul_shape(s3, t3, m, n, p);
    lemma_mat_mul_shape(a11, b12, m, n, p);
    lemma_mat_mul_shape(a12, b22, m, n, p);
    lemma_mat_mul_shape(a21, b11, m, n, p);
    lemma_mat_mul_shape(a22, b21, m, n, p);
    lemma_mat_mul_shape(a21, b12, m, n, p);
    lemma_mat_mul_shape(a22, b22, m, n, p);
    let c12 = mat_add(mat_mul(a11, b12), mat_mul(a12, b22));
    let c21 = mat_add(mat_mul(a21, b11), mat_mul(a22, b21));
    let c22 = mat_add(mat_mul(a21, b12), mat_mul(a22, b22));
    assert(is_matrix(mat_add(u4, w3), m, p));
    assert(is_matrix(mat_add(u3, w4), m, p));
    assert(is_matrix(mat_add(u3, w5), m, p));
    assert(is_matrix(c12, m, p));
    assert(is_matrix(c21, m, p));
    assert(is_matrix(c22, m, p));
    assert forall|i: int, j: int| 0 <= i < m && 0 <= j < p implies mat_add(u4, w3)[i][j]
        == c12[i][j] && mat_add(u3, w4)[i][j] == c21[i][j] && mat_add(u3, w5)[i][j]
        == c22[i][j] by {
        // w3 = (a12 + a21 + a22 + a11) b22
        lemma_entry_add_left(a12, s2, b22, i, j, m, n);
        lemma_entry_add_left(s1, a11, b22, i, j, m, n);
        lemma_entry_add_left(a21, a22, b22, i, j, m, n);
        // w4 = a22 (b22 + b12 + b11 + b21)
        lemma_entry_add_right(a22, t2, b21, i, j, n, p);
        lemma_entry_add_right(a22, b22, t1, i, j, n, p);
        lemma_entry_add_right(a22, b12, b11, i, j, n, p);
        // w5 = (a21 + a22) (b12 + b11)
        lemma_entry_add_left(a21, a22, t1, i, j, m, n);
        lemma_entry_add_right(a21, b12, b11, i, j, n, p);
        // w6 = (a21 + a22 + a11) (b22 + b12 + b11)
        lemma_entry_add_left(s1, a11, t2, i, j, m, n);
        lemma_entry_add_left(a21, a22, t2, i, j, m, n);
        lemma_entry_add_right(a21, b22, t1, i, j, n, p);
        lemma_entry_add_right(a22, b22, t1, i, j, n, p);
        lemma_entry_add_right(a11, b22, t1, i, j, n, p);
        lemma_entry_add_right(a11, b12, b11, i, j, n, p);
        // w7 = (a11 + a21) (b22 + b12)
        lemma_entry_add_left(a11, a21, t3, i, j, m, n);
        lemma_entry_add_right(a11, b22, b12, i, j, n, p);
        lemma_entry_add_right(a21, b22, b12, i, j, n, p);
    }
    lemma_is_matrix_ext(mat_add(u4, w3), c12, m, p);
    lemma_is_matrix_ext(mat_add(u3, w4), c21, m, p);
    lemma_is_matrix_ext(mat_add(u3, w5), c22, m, p);
}

/// `a` in the first rows and columns of a matrix of `rows` rows and `cols`
/// columns that is zero elsewhere.
fn padded(a: &BinMatrix, rows: usize, cols: usize) -> (m: BinMatrix)
    requires
        a.wf(),
        a.spec_nrows() <= rows,
        a.spec_ncols() <= cols,
    ensures
        m.wf(),
        m.spec_nrows() == rows,
        m.spec_ncols() == cols,
        m@ == with_block(zero_matrix(rows as nat, cols as nat), 0, 0, a@),
{
    let mut m = BinMatrix::zero(rows, cols);
    m.set_window(0, 0, a);
    m
}

/// The product of two matrices whose dimensions are all even, from seven
/// products of their halves.
fn mul_even(a: &BinMatrix, b: &BinMatrix, cutoff: usize, Ghost(bound): Ghost<nat>) -> (c:
    BinMatrix)
    requires
        a.wf(),
        b.wf(),
        a.spec_ncols() == b.spec_nrows(),
        a.spec_nrows() % 2 == 0,
        a.spec_ncols() % 2 == 0,
        b.spec_ncols() % 2 == 0,
        a.spec_nrows() / 2 + a.spec_ncols() / 2 + b.spec_ncols() / 2 < bound,
    ensures
        c.wf(),
        c.spec_nrows() == a.spec_nrows(),
        c.spec_ncols() == b.spec_ncols(),
        c@ == mat_mul(a@, b@),
    decreases bound, 0nat,
{
    let m = a.nrows;
    let n = a.ncols;
    let p = b.ncols;
    let hm = m / 2;
    let hn = n / 2;
    let hp = p / 2;
    let a11 = a.get_window(0, 0, hm, hn);
    let a12 = a.get_window(0, hn, hm, n);
    let a21 = a.get_window(hm, 0, m, hn);
    let a22 = a.get_window(hm, hn, m, n);
    let b11 = b.get_window(0, 0, hn, hp);
    let b12 = b.get_window(0, hp, hn, p);
    let b21 = b.get_window(hn, 0, n, hp);
    let b22 = b.get_window(hn, hp, n, p);
    let s1 = a21.add(&a22);
    let s2 = s1.add(&a11);
    let s3 = a11.add(&a21);
    let s4 = a12.add(&s2);
    let t1 = b12.add(&b11);
    let t2 = b22.add(&t1);
    let t3 = b22.add(&b12);
    let t4 = t2.add(&b21);
    let w1 = mzd_mul(&a11, &b11, cutoff);
    let w2 = mzd_mul(&a12, &b21, cutoff);
    let w3 = mzd_mul(&s4, &b22, cutoff);
    let w4 = mzd_mul(&a22, &t4, cutoff);
    let w5 = mzd_mul(&s1, &t1, cutoff);
    let w6 = mzd_mul(&s2, &t2, cutoff);
    let w7 = mzd_mul(&s3, &t3, cutoff);
    let u1 = w1.add(&w2);
    let u2 = w1.add(&w6);
    let u3 = u2.add(&w7);
    let u4 = u2.add(&w5);
    let u5 = u4.add(&w3);
    let u6 = u3.add(&w4);
    let u7 = u3.add(&w5);
    let mut c = BinMatrix::zero(m, p);
    c.set_window(0, 0, &u1);
    c.set_window(0, hp, &u5);
    c.set_window(hm, 0, &u6);
    c.set_window(hm, hp, &u7);
    proof {
        let mm = m as nat;
        let nn = n as nat;
        let pp = p as nat;
        let prod = mat_mul(a@, b@);
        lemma_mat_mul_shape(a@, b@, mm, nn, pp);
        lemma_winograd(a11@, a12@, a21@, a22@, b11@, b12@, b21@, b22@, hm as nat, hn as nat, hp as nat);
        lemma_block_product(a@, b@, mm, nn, pp, 0, hm as int, 0, hp as int, hn as int);
        lemma_block_product(a@, b@, mm, nn, pp, 0, hm as int, hp as int, p as int, hn as int);
        lemma_block_product(a@, b@, mm, nn, pp, hm as int, m as int, 0, hp as int, hn as int);
        lemma_block_product(a@, b@, mm, nn, pp, hm as int, m as int, hp as int, p as int, hn as int);
        assert(u1@ == submatrix(prod, 0, 0, hm as int, hp as int));
        assert(u5@ == submatrix(prod, 0, hp as int, hm as int, p as int));
        assert(u6@ == submatrix(prod, hm as int, 0, m as int, hp as int));
        assert(u7@ == submatrix(prod, hm as int, hp as int, m as int, p as int));
        assert forall|i: int, j: int| 0 <= i < mm && 0 <= j < pp implies c@[i][j]
            == prod[i][j] by {
            if i < hm {
                if j < hp {
                    assert(u1@[i][j] == prod[i][j]);
                } else {
                    assert(u5@[i][j - hp] == prod[i][j]);
                }
            } else {
                if j < hp {
                    assert(u6@[i - hm][j] == prod[i][j]);
                } else {
                    assert(u7@[i - hm][j - hp] == prod[i][j]);
                }
            }
        }
        lemma_is_matrix_ext(c@, prod, mm, pp);
    }
    c
}

/// The product `a * b` by the Strassen-Winograd recursion. Products with a
/// dimension below `cutoff` are left to the Method of the Four Russians;
/// `cutoff == 0` asks for the usual cutoff.
pub fn mzd_mul(a: &BinMatrix, b: &BinMatrix, cutoff: usize) -> (c: BinMatrix)
    requires
        a.wf(),
        b.wf(),
        a.spec_ncols() == b.spec_nrows(),
    ensures
        c.wf(),
        c.spec_nrows() == a.spec_nrows(),
        c.spec_ncols() == b.spec_ncols(),
        c@ == mat_mul(a@, b@),
    decreases a.spec_nrows() + a.spec_ncols() + b.spec_ncols(), 1nat,
{
    let m = a.nrows;
    let n = a.ncols;
    let p = b.ncols;
    let limit: usize = if cutoff == 0 {
        STRASSEN_CUTOFF
    } else if cutoff < 2 {
        2
    } else {
        cutoff
    };
    if m < limit || n < limit || p < limit || m == usize::MAX || n == usize::MAX || p
        == usize::MAX {
        return mzd_mul_m4rm(a, b, 0);
    }
    if m % 2 == 0 && n % 2 == 0 && p % 2 == 0 {
        return mul_even(a, b, limit, Ghost((m + n + p) as nat));
    }
    let rows2 = m + m % 2;
    let inner2 = n + n % 2;
    let cols2 = p + p % 2;
    let pa = padded(a, rows2, inner2);
    let pb = padded(b, inner2, cols2);
    let pc = mul_even(&pa, &pb, limit, Ghost((m + n + p) as nat));
    proof {
        lemma_padded_product(a@, b@, m as nat, n as nat, p as nat, rows2 as nat, inner2 as nat, cols2 as nat);
    }
    pc.get_window(0, 0, m, p)
}

} // verus!
