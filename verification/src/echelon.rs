//! Gaussian elimination: row echelon form and rank.
use crate::gf2::{
    cols_of, entry_terms, identity_matrix, is_matrix, lemma_identity_right, lemma_mat_mul_shape,
    lemma_xor_sum_zero, mat_mul, row_add, zero_matrix,
};
use crate::m4ri::mzd_echelonize_m4ri;
use crate::matrix::{mzd_read_bit, BinMatrix};
use crate::rank::lemma_rank_unique;
use crate::rowops::{
    lemma_row_equivalent_add, lemma_row_equivalent_refl, lemma_row_equivalent_swap,
    lemma_row_equivalent_trans, row_equivalent, transforms, with_rows_swapped,
};
use vstd::prelude::*;

verus! {

/// Whether the first `w` columns of `m` are in row echelon form with the
/// pivot of row `i` in column `piv[i]`: each pivot is the first set bit of
/// its row, the pivots move to the right from row to row, and the rows
/// without a pivot are zero. With `full`, a pivot is the only set bit of its
/// column (reduced row echelon form).
pub open spec fn echelon(m: Seq<Seq<bool>>, piv: Seq<usize>, w: int, full: bool) -> bool {
    &&& piv.len() <= m.len()
    &&& forall|i: int| 0 <= i < piv.len() ==> (#[trigger] piv[i]) < w && m[i][piv[i] as int]
    &&& forall|i: int, j: int| 0 <= i < piv.len() && 0 <= j < piv[i] ==> !#[trigger] m[i][j]
    &&& forall|i: int, j: int| 0 <= i < j < piv.len() ==> (#[trigger] piv[i]) < (#[trigger] piv[j])
    &&& forall|i: int, j: int| piv.len() <= i < m.len() && 0 <= j < w ==> !#[trigger] m[i][j]
    &&& full ==> forall|i: int, k: int|
        0 <= i < piv.len() && 0 <= k < i ==> !#[trigger] m[k][piv[i] as int]
}

/// Whether `m` is in row echelon form with exactly `r` pivots.
pub open spec fn in_echelon_form(m: Seq<Seq<bool>>, r: nat, full: bool) -> bool {
    exists|piv: Seq<usize>| piv.len() == r && echelon(m, piv, cols_of(m) as int, full)
}

/// Whether `r` pivots remain when `a` is brought to row echelon form.
pub open spec fn has_rank(a: Seq<Seq<bool>>, r: nat) -> bool {
    exists|e: Seq<Seq<bool>>| row_equivalent(a, e) && in_echelon_form(e, r, false)
}

/// `m` with row `r` added to every other row that has a bit in column `c`:
/// to the rows below `r`, and with `full` to those above it too.
pub open spec fn cleared(m: Seq<Seq<bool>>, r: int, c: int, full: bool, upto: int) -> Seq<
    Seq<bool>,
> {
    Seq::new(
        m.len(),
        |k: int|
            if k < upto && k != r && (k > r || full) && m[k][c] {
                row_add(m[k], m[r])
            } else {
                m[k]
            },
    )
}

/// With no bit in column `c` below the pivots, the echelon form reaches one
/// column further.
proof fn lemma_echelon_skip(m: Seq<Seq<bool>>, piv: Seq<usize>, c: int, full: bool)
    requires
        echelon(m, piv, c, full),
        forall|i: int| piv.len() <= i < m.len() ==> !#[trigger] m[i][c],
    ensures
        echelon(m, piv, c + 1, full),
{
}

/// Once every row has a pivot, the echelon form reaches over all columns.
proof fn lemma_echelon_widen(m: Seq<Seq<bool>>, piv: Seq<usize>, c: int, w: int, full: bool)
    requires
        echelon(m, piv, c, full),
        piv.len() == m.len(),
        c <= w,
    ensures
        echelon(m, piv, w, full),
{
}

/// Exchanging two rows without a pivot keeps the echelon form.
proof fn lemma_echelon_swap(
    m: Seq<Seq<bool>>,
    piv: Seq<usize>,
    c: int,
    full: bool,
    p: int,
    rows: nat,
    cols: nat,
)
    requires
        is_matrix(m, rows, cols),
        echelon(m, piv, c, full),
        piv.len() <= p < rows,
    ensures
        echelon(with_rows_swapped(m, piv.len() as int, p), piv, c, full),
{
}

/// Clearing column `c` with a new pivot in row `piv.len()` extends the
/// echelon form by that pivot.
proof fn lemma_echelon_extend(
    m: Seq<Seq<bool>>,
    piv: Seq<usize>,
    c: usize,
    full: bool,
    rows: nat,
    cols: nat,
)
    requires
        is_matrix(m, rows, cols),
        echelon(m, piv, c as int, full),
        piv.len() < rows,
        c < cols,
        m[piv.len() as int][c as int],
    ensures
        echelon(cleared(m, piv.len() as int, c as int, full, rows as int), piv.push(c), c + 1, full),
{
    let r = piv.len() as int;
    let m1 = cleared(m, r, c as int, full, rows as int);
    let piv1 = piv.push(c);
    assert forall|i: int| 0 <= i < piv1.len() implies (#[trigger] piv1[i]) < c + 1
        && m1[i][piv1[i] as int] by {
        if i < r {
            assert(piv[i] < c);
            assert(!m[r][piv[i] as int]);
        }
    }
    assert forall|i: int, j: int| 0 <= i < piv1.len() && 0 <= j < piv1[i] implies !#[trigger] m1[i][j] by {
        if i < r {
            assert(piv[i] < c);
            assert(!m[r][j]);
            assert(!m[i][j]);
        } else {
            assert(!m[r][j]);
        }
    }
    assert forall|i: int, j: int| 0 <= i < j < piv1.len() implies (#[trigger] piv1[i]) < (
    #[trigger] piv1[j]) by {
        if j == r {
            assert(piv[i] < c);
        }
    }
    assert forall|i: int, j: int| piv1.len() <= i < m1.len() && 0 <= j < c + 1 implies !#[trigger] m1[i][j] by {
        if j < c {
            assert(!m[i][j]);
            assert(!m[r][j]);
        }
    }
    if full {
        assert forall|i: int, k: int| 0 <= i < piv1.len() && 0 <= k < i implies !#[trigger] m1[k][piv1[i] as int] by {
            if i < r {
                assert(piv[i] < c);
                assert(!m[k][piv[i] as int]);
                assert(!m[r][piv[i] as int]);
            }
        }
    }
}

/// The first row at or below `start_row` with a bit in column `col`.
pub(crate) fn find_pivot(m: &BinMatrix, start_row: usize, col: usize) -> (p: Option<usize>)
    requires
        m.wf(),
        start_row <= m.spec_nrows(),
        col < m.spec_ncols(),
    ensures
        match p {
            Some(i) => start_row <= i < m.spec_nrows() && m@[i as int][col as int],
            None => forall|i: int| start_row <= i < m.spec_nrows() ==> !#[trigger] m@[i][col as int],
        },
{
    let mut i: usize = start_row;
    while i < m.nrows
        invariant
            start_row <= i <= m.nrows,
            m.wf(),
            col < m.ncols,
            forall|k: int| start_row <= k < i ==> !#[trigger] m@[k][col as int],
        decreases m.nrows - i,
    {
        if mzd_read_bit(m, i, col) {
            return Some(i);
        }
        i += 1;
    }
    None
}

/// Adds row `r` to every other row with a bit in column `c`: to the rows
/// below `r`, and with `full` to those above it too.
fn clear_column(m: &mut BinMatrix, r: usize, c: usize, full: bool)
    requires
        old(m).wf(),
        r < old(m).spec_nrows(),
        c < old(m).spec_ncols(),
    ensures
        final(m).wf(),
        final(m).spec_nrows() == old(m).spec_nrows(),
        final(m).spec_ncols() == old(m).spec_ncols(),
        row_equivalent(old(m)@, final(m)@),
        final(m)@ == cleared(old(m)@, r as int, c as int, full, old(m).spec_nrows() as int),
{
    let ghost orig = m@;
    let ghost rows = m.nrows as nat;
    let ghost cols = m.ncols as nat;
    proof {
        lemma_row_equivalent_refl(orig, rows, cols);
        assert(m@ =~= cleared(orig, r as int, c as int, full, 0));
    }
    let mut i: usize = if full {
        0
    } else {
        r + 1
    };
    proof {
        assert(m@ =~= cleared(orig, r as int, c as int, full, i as int));
    }
    while i < m.nrows
        invariant
            i <= m.nrows,
            full || i > r,
            m.wf(),
            m.nrows == rows,
            m.ncols == cols,
            r < rows,
            c < cols,
            orig == old(m)@,
            is_matrix(orig, rows, cols),
            row_equivalent(orig, m@),
            m@ == cleared(orig, r as int, c as int, full, i as int),
        decreases m.nrows - i,
    {
        if i != r && mzd_read_bit(m, i, c) {
            proof {
                lemma_row_equivalent_add(orig, m@, rows, cols, i as int, r as int);
            }
            m.add_row(i, r);
        }
        i += 1;
        assert(m@ =~= cleared(orig, r as int, c as int, full, i as int));
    }
}

/// Brings the first `max_col` columns of `m` to row echelon form by row
/// operations on the whole matrix, and returns the pivot columns, one for
/// each of the leading rows.
pub fn eliminate(m: &mut BinMatrix, full: bool, max_col: usize) -> (pivots: Vec<usize>)
    requires
        old(m).wf(),
        max_col <= old(m).spec_ncols(),
    ensures
        final(m).wf(),
        final(m).spec_nrows() == old(m).spec_nrows(),
        final(m).spec_ncols() == old(m).spec_ncols(),
        row_equivalent(old(m)@, final(m)@),
        echelon(final(m)@, pivots@, max_col as int, full),
        pivots@.len() <= max_col,
{
    let ghost orig = m@;
    let ghost rows = m.nrows as nat;
    let ghost cols = m.ncols as nat;
    let mut pivots: Vec<usize> = Vec::new();
    let mut c: usize = 0;
    proof {
        lemma_row_equivalent_refl(orig, rows, cols);
    }
    while c < max_col && pivots.len() < m.nrows
        invariant
            c <= max_col,
            max_col <= cols,
            m.wf(),
            m.nrows == rows,
            m.ncols == cols,
            orig == old(m)@,
            is_matrix(orig, rows, cols),
            row_equivalent(orig, m@),
            echelon(m@, pivots@, c as int, full),
            pivots@.len() <= c,
        decreases max_col - c,
    {
        let r = pivots.len();
        match find_pivot(m, r, c) {
            Some(p) => {
                proof {
                    lemma_row_equivalent_swap(orig, m@, rows, cols, r as int, p as int);
                    lemma_echelon_swap(m@, pivots@, c as int, full, p as int, rows, cols);
                }
                m.swap_rows(r, p);
                let ghost swapped = m@;
                clear_column(m, r, c, full);
                proof {
                    lemma_echelon_extend(swapped, pivots@, c, full, rows, cols);
                    lemma_row_equivalent_trans(orig, swapped, m@, rows, cols);
                }
                pivots.push(c);
            },
            None => {
                proof {
                    lemma_echelon_skip(m@, pivots@, c as int, full);
                }
            },
        }
        c += 1;
    }
    proof {
        if c < max_col {
            lemma_echelon_widen(m@, pivots@, c as int, max_col as int, full);
        }
    }
    pivots
}

/// Brings `a` to row echelon form in place by eliminating one column after
/// the other, reduced where `full` is set, and returns the number of pivots.
pub fn mzd_echelonize_naive(a: &mut BinMatrix, full: bool) -> (r: usize)
    requires
        old(a).wf(),
    ensures
        final(a).wf(),
        final(a).spec_nrows() == old(a).spec_nrows(),
        final(a).spec_ncols() == old(a).spec_ncols(),
        row_equivalent(old(a)@, final(a)@),
        in_echelon_form(final(a)@, r as nat, full),
        has_rank(old(a)@, r as nat),
        r <= old(a).spec_nrows(),
        r <= old(a).spec_ncols(),
{
    let ncols = a.ncols;
    let pivots = eliminate(a, full, ncols);
    proof {
        assert(echelon(a@, pivots@, cols_of(a@) as int, full));
        assert(echelon(a@, pivots@, cols_of(a@) as int, false));
        assert(in_echelon_form(a@, pivots@.len(), false));
    }
    pivots.len()
}

/// Brings `a` to row echelon form in place, reduced where `full` is set, and
/// returns the number of pivots.
pub fn mzd_echelonize(a: &mut BinMatrix, full: bool) -> (r: usize)
    requires
        old(a).wf(),
    ensures
        final(a).wf(),
        final(a).spec_nrows() == old(a).spec_nrows(),
        final(a).spec_ncols() == old(a).spec_ncols(),
        row_equivalent(old(a)@, final(a)@),
        in_echelon_form(final(a)@, r as nat, full),
        has_rank(old(a)@, r as nat),
        r <= old(a).spec_nrows(),
        r <= old(a).spec_ncols(),
{
    mzd_echelonize_m4ri(a, full, 0)
}

impl BinMatrix {
    /// Brings the matrix to row echelon form in place, and returns its rank.
    pub fn echelonize(&mut self) -> (r: usize)
        requires
            old(self).wf(),
        ensures
            final(self).wf(),
            final(self).spec_nrows() == old(self).spec_nrows(),
            final(self).spec_ncols() == old(self).spec_ncols(),
            row_equivalent(old(self)@, final(self)@),
            in_echelon_form(final(self)@, r as nat, false),
            has_rank(old(self)@, r as nat),
            r <= old(self).spec_nrows(),
            r <= old(self).spec_ncols(),
    {
        mzd_echelonize(self, false)
    }

    /// The rank of the matrix, which stays as it is: the number of pivots
    /// of each of its row echelon forms.
    pub fn rank(&self) -> (r: usize)
        requires
            self.wf(),
        ensures
            has_rank(self@, r as nat),
            forall|other: nat| #[trigger] has_rank(self@, other) ==> other == r,
            r <= self.spec_nrows(),
            r <= self.spec_ncols(),
    {
        let mut copy = self.clone();
        let r = copy.echelonize();
        proof {
            assert forall|other: nat| #[trigger] has_rank(self@, other) implies other == r by {
                lemma_rank_unique(
                    self@,
                    self.spec_nrows(),
                    self.spec_ncols(),
                    other,
                    r as nat,
                );
            }
        }
        r
    }
}

/// The rank of the identity is its size.
pub proof fn lemma_rank_identity(n: nat, r: nat)
    requires
        n > 0,
        has_rank(identity_matrix(n), r),
    ensures
        r == n,
{
    let id = identity_matrix(n);
    let e = choose|e: Seq<Seq<bool>>| row_equivalent(id, e) && in_echelon_form(e, r, false);
    let (t, u) = choose|t: Seq<Seq<bool>>, u: Seq<Seq<bool>>| transforms(t, u, id, e);
    let piv = choose|piv: Seq<usize>| piv.len() == r && echelon(e, piv, cols_of(e) as int, false);
    assert(is_matrix(id, n, n));
    lemma_identity_right(t, n, n);
    assert(e == t);
    if r < n {
        // the last row of `e` is zero, so the last row of `e * u` is too
        lemma_mat_mul_shape(e, u, n, n, n);
        lemma_xor_sum_zero(entry_terms(e, u, n - 1, n - 1), n);
        assert(mat_mul(e, u)[n - 1][n - 1] == false);
        assert(identity_matrix(n)[n - 1][n - 1] == true);
    }
}

/// The rank of a zero matrix is zero.
pub proof fn lemma_rank_zero(rows: nat, cols: nat, r: nat)
    requires
        rows > 0,
        cols > 0,
        has_rank(zero_matrix(rows, cols), r),
    ensures
        r == 0,
{
    let z = zero_matrix(rows, cols);
    let e = choose|e: Seq<Seq<bool>>| row_equivalent(z, e) && in_echelon_form(e, r, false);
    let (t, u) = choose|t: Seq<Seq<bool>>, u: Seq<Seq<bool>>| transforms(t, u, z, e);
    let piv = choose|piv: Seq<usize>| piv.len() == r && echelon(e, piv, cols_of(e) as int, false);
    assert(is_matrix(z, rows, cols));
    lemma_mat_mul_shape(t, z, rows, rows, cols);
    if r > 0 {
        let p = piv[0] as int;
        assert(e[0][p]);
        lemma_xor_sum_zero(entry_terms(t, z, 0, p), rows);
        assert(mat_mul(t, z)[0][p] == false);
    }
}

} // verus!
