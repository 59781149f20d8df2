//! PLUQ decomposition: a matrix, its rows and columns permuted, as the
//! product of a unit lower triangular and an upper triangular matrix.
use crate::echelon::find_pivot;
use crate::gf2::{
    cols_of, entry_terms, is_matrix, lemma_is_matrix_ext, lemma_mat_mul_shape, lemma_xor_sum_ext,
    lemma_xor_sum_toggle, mat_entry, mat_mul, xor_sum,
};
use crate::matrix::{mzd_read_bit, BinMatrix};
use crate::permutation::{permuted_cols, permuted_rows, Mzp};
use crate::rowops::{with_cols_swapped, with_rows_swapped};
use vstd::prelude::*;

verus! {

/// The factor `L` that a decomposed matrix `s` of rank `r` holds below its
/// diagonal: `s.len()` rows and `r` columns, ones on the diagonal.
pub open spec fn lower_part(s: Seq<Seq<bool>>, r: nat) -> Seq<Seq<bool>> {
    Seq::new(s.len(), |i: int| Seq::new(r, |k: int| i == k || (k < i && s[i][k])))
}

/// The factor `U` that a decomposed matrix `s` of rank `r` holds on and
/// above its diagonal: `r` rows and as many columns as `s`.
pub open spec fn upper_part(s: Seq<Seq<bool>>, r: nat) -> Seq<Seq<bool>> {
    Seq::new(r, |k: int| Seq::new(cols_of(s), |j: int| k <= j && s[k][j]))
}

/// Entry `(i, j)` of what is left to decompose after `r` steps, together
/// with the rows of `U` found so far.
pub open spec fn remainder(s: Seq<Seq<bool>>, r: int, i: int, j: int) -> bool {
    if i < r {
        i <= j && s[i][j]
    } else {
        r <= j && s[i][j]
    }
}

/// The products of an entry of `L` below the diagonal and an entry of `U`.
pub open spec fn lu_terms(s: Seq<Seq<bool>>, i: int, j: int) -> spec_fn(int) -> bool {
    |k: int| k < i && s[i][k] && k <= j && s[k][j]
}

/// Whether `b` is the product of the `L` and `U` that `s` holds after `r`
/// steps, plus what is left to decompose.
pub open spec fn factored(b: Seq<Seq<bool>>, s: Seq<Seq<bool>>, r: int, rows: nat, cols: nat) -> bool {
    forall|i: int, j: int|
        0 <= i < rows && 0 <= j < cols ==> #[trigger] b[i][j] == (remainder(s, r, i, j) != xor_sum(
            lu_terms(s, i, j),
            r as nat,
        ))
}

/// `s` after step `r` on the rows up to `upto`: row `r` added, in the
/// columns to the right of `r`, to each row below it with a bit in column
/// `r`.
pub open spec fn eliminated(s: Seq<Seq<bool>>, r: int, upto: int) -> Seq<Seq<bool>> {
    Seq::new(
        s.len(),
        |i: int|
            if r < i < upto && s[i][r] {
                Seq::new(
                    s[i].len(),
                    |j: int|
                        if j > r {
                            s[i][j] != s[r][j]
                        } else {
                            s[i][j]
                        },
                )
            } else {
                s[i]
            },
    )
}

proof fn lemma_factored_swap_rows(
    b: Seq<Seq<bool>>,
    s: Seq<Seq<bool>>,
    r: int,
    p: int,
    rows: nat,
    cols: nat,
)
    requires
        is_matrix(b, rows, cols),
        is_matrix(s, rows, cols),
        factored(b, s, r, rows, cols),
        0 <= r <= p < rows,
        r <= cols,
    ensures
        factored(with_rows_swapped(b, r, p), with_rows_swapped(s, r, p), r, rows, cols),
{
    let b2 = with_rows_swapped(b, r, p);
    let s2 = with_rows_swapped(s, r, p);
    assert forall|i: int, j: int| 0 <= i < rows && 0 <= j < cols implies #[trigger] b2[i][j] == (
    remainder(s2, r, i, j) != xor_sum(lu_terms(s2, i, j), r as nat)) by {
        let i0 = if i == r {
            p
        } else if i == p {
            r
        } else {
            i
        };
        assert(b2[i][j] == b[i0][j]);
        let f = lu_terms(s2, i, j);
        let g = lu_terms(s, i0, j);
        assert forall|k: int| 0 <= k < r implies #[trigger] f(k) == g(k) by {
            assert(s2[k] == s[k]);
            assert(s2[i] == s[i0]);
        }
        lemma_xor_sum_ext(f, g, r as nat);
        assert(s2[i] == s[i0]);
    }
}

proof fn lemma_factored_swap_cols(
    b: Seq<Seq<bool>>,
    s: Seq<Seq<bool>>,
    r: int,
    c: int,
    rows: nat,
    cols: nat,
)
    requires
        is_matrix(b, rows, cols),
        is_matrix(s, rows, cols),
        factored(b, s, r, rows, cols),
        0 <= r <= c < cols,
        r <= rows,
    ensures
        factored(with_cols_swapped(b, r, c), with_cols_swapped(s, r, c), r, rows, cols),
{
    let b2 = with_cols_swapped(b, r, c);
    let s2 = with_cols_swapped(s, r, c);
    assert forall|i: int, j: int| 0 <= i < rows && 0 <= j < cols implies #[trigger] b2[i][j] == (
    remainder(s2, r, i, j) != xor_sum(lu_terms(s2, i, j), r as nat)) by {
        let j0 = if j == r {
            c
        } else if j == c {
            r
        } else {
            j
        };
        assert(b2[i][j] == b[i][j0]);
        assert(s2[i][j] == s[i][j0]);
        let f = lu_terms(s2, i, j);
        let g = lu_terms(s, i, j0);
        assert forall|k: int| 0 <= k < r implies #[trigger] f(k) == g(k) by {
            assert(s2[i][k] == s[i][k]);
            assert(s2[k][j] == s[k][j0]);
        }
        lemma_xor_sum_ext(f, g, r as nat);
    }
}

proof fn lemma_factored_eliminate(
    b: Seq<Seq<bool>>,
    s: Seq<Seq<bool>>,
    r: int,
    rows: nat,
    cols: nat,
)
    requires
        is_matrix(b, rows, cols),
        is_matrix(s, rows, cols),
        factored(b, s, r, rows, cols),
        0 <= r < rows,
        r < cols,
        s[r][r],
    ensures
        factored(b, eliminated(s, r, rows as int), r + 1, rows, cols),
{
    let s2 = eliminated(s, r, rows as int);
    assert forall|i: int, j: int| 0 <= i < rows && 0 <= j < cols implies #[trigger] b[i][j] == (
    remainder(s2, r + 1, i, j) != xor_sum(lu_terms(s2, i, j), (r + 1) as nat)) by {
        let f = lu_terms(s2, i, j);
        let g = lu_terms(s, i, j);
        assert forall|k: int| 0 <= k < r implies #[trigger] f(k) == g(k) by {
            assert(s2[i][k] == s[i][k]);
            assert(s2[k] == s[k]);
        }
        lemma_xor_sum_ext(f, g, r as nat);
        assert(xor_sum(f, (r + 1) as nat) == (xor_sum(f, r as nat) != f(r)));
        assert(s2[r] == s[r]);
        assert(s2[i][r] == s[i][r]);
    }
}

proof fn lemma_factored_final(
    b: Seq<Seq<bool>>,
    s: Seq<Seq<bool>>,
    r: int,
    rows: nat,
    cols: nat,
)
    requires
        rows > 0,
        is_matrix(b, rows, cols),
        is_matrix(s, rows, cols),
        factored(b, s, r, rows, cols),
        0 <= r <= rows,
        r <= cols,
        forall|i: int, j: int| r <= i < rows && r <= j < cols ==> !#[trigger] s[i][j],
    ensures
        forall|i: int, j: int|
            0 <= i < rows && 0 <= j < cols ==> #[trigger] b[i][j] == mat_entry(
                lower_part(s, r as nat),
                upper_part(s, r as nat),
                i,
                j,
            ),
{
    let l = lower_part(s, r as nat);
    let u = upper_part(s, r as nat);
    assert forall|i: int, j: int| 0 <= i < rows && 0 <= j < cols implies #[trigger] b[i][j]
        == mat_entry(l, u, i, j) by {
        let f = lu_terms(s, i, j);
        let h = entry_terms(l, u, i, j);
        if i < r {
            assert forall|k: int| 0 <= k < r && k != i implies #[trigger] h(k) == f(k) by {}
            lemma_xor_sum_toggle(f, h, r as nat, i, remainder(s, r, i, j));
        } else {
            assert forall|k: int| 0 <= k < r implies #[trigger] h(k) == f(k) by {}
            lemma_xor_sum_ext(h, f, r as nat);
        }
    }
}

/// The first bit that is set in the rows and the columns from `r` on,
/// column by column.
fn find_block_pivot(m: &BinMatrix, r: usize) -> (p: Option<(usize, usize)>)
    requires
        m.wf(),
        r <= m.spec_nrows(),
        r <= m.spec_ncols(),
    ensures
        match p {
            Some((i, j)) => r <= i < m.spec_nrows() && r <= j < m.spec_ncols() && m@[i as int][j as int],
            None => forall|i: int, j: int|
                r <= i < m.spec_nrows() && r <= j < m.spec_ncols() ==> !#[trigger] m@[i][j],
        },
{
    let mut j: usize = r;
    while j < m.ncols
        invariant
            r <= j <= m.ncols,
            r <= m.nrows,
            m.wf(),
            forall|x: int, y: int| r <= x < m.nrows && r <= y < j ==> !#[trigger] m@[x][y],
        decreases m.ncols - j,
    {
        match find_pivot(m, r, j) {
            Some(i) => {
                return Some((i, j));
            },
            None => {},
        }
        j += 1;
    }
    None
}

/// Decomposes `a` in place, and returns its rank `r`.
///
/// Afterwards `a` holds `L` below its diagonal in its first `r` columns and
/// `U` on and above the diagonal in its first `r` rows, and `p` and `q` say
/// which row and which column of the matrix as it was stands at each
/// place: entry `(p[i], q[j])` of that matrix is entry `(i, j)` of `L * U`.
/// Elimination is direct for every value of `cutoff`.
pub fn mzd_pluq(a: &mut BinMatrix, p: &mut Mzp, q: &mut Mzp, cutoff: usize) -> (r: usize)
    requires
        old(a).wf(),
        old(p)@.len() == old(a).spec_nrows(),
        old(q)@.len() == old(a).spec_ncols(),
    ensures
        final(a).wf(),
        final(a).spec_nrows() == old(a).spec_nrows(),
        final(a).spec_ncols() == old(a).spec_ncols(),
        final(p).wf(),
        final(q).wf(),
        final(p)@.len() == old(p)@.len(),
        final(q)@.len() == old(q)@.len(),
        r <= old(a).spec_nrows(),
        r <= old(a).spec_ncols(),
        forall|i: int, j: int|
            r <= i < old(a).spec_nrows() && r <= j < old(a).spec_ncols()
                ==> !#[trigger] final(a)@[i][j],
        forall|i: int, j: int|
            0 <= i < old(a).spec_nrows() && 0 <= j < old(a).spec_ncols() ==> #[trigger] permuted_cols(
                permuted_rows(old(a)@, final(p)@),
                final(q)@,
            )[i][j] == mat_entry(
                lower_part(final(a)@, r as nat),
                upper_part(final(a)@, r as nat),
                i,
                j,
            ),
        r > 0 ==> permuted_cols(permuted_rows(old(a)@, final(p)@), final(q)@) == mat_mul(
            lower_part(final(a)@, r as nat),
            upper_part(final(a)@, r as nat),
        ),
{
    let ghost orig = a@;
    let ghost rows = a.nrows as nat;
    let ghost cols = a.ncols as nat;
    p.set_identity();
    q.set_identity();
    let mut r: usize = 0;
    let mut done = false;
    proof {
        assert(permuted_cols(permuted_rows(orig, p@), q@) =~~= orig);
        assert forall|i: int, j: int| 0 <= i < rows && 0 <= j < cols implies #[trigger] orig[i][j]
            == (remainder(orig, 0, i, j) != xor_sum(lu_terms(orig, i, j), 0)) by {}
    }
    while !done && r < a.nrows && r < a.ncols
        invariant
            a.wf(),
            a.nrows == rows,
            a.ncols == cols,
            orig == old(a)@,
            is_matrix(orig, rows, cols),
            p.wf(),
            q.wf(),
            p@.len() == rows,
            q@.len() == cols,
            r <= rows,
            r <= cols,
            factored(permuted_cols(permuted_rows(orig, p@), q@), a@, r as int, rows, cols),
            done ==> forall|i: int, j: int|
                r <= i < rows && r <= j < cols ==> !#[trigger] a@[i][j],
        decreases (if done { 0int } else { 1int }), rows - r,
    {
        match find_block_pivot(a, r) {
            None => {
                done = true;
            },
            Some((i, j)) => {
                let ghost b0 = permuted_cols(permuted_rows(orig, p@), q@);
                let ghost s0 = a@;
                let ghost p0 = p@;
                let ghost q0 = q@;
                a.swap_rows(r, i);
                p.swap(r, i);
                let ghost b1 = permuted_cols(permuted_rows(orig, p@), q@);
                let ghost s1 = a@;
                proof {
                    assert(is_matrix(b0, rows, cols));
                    lemma_factored_swap_rows(b0, s0, r as int, i as int, rows, cols);
                    assert(is_matrix(b1, rows, cols));
                    lemma_is_matrix_ext(b1, with_rows_swapped(b0, r as int, i as int), rows, cols);
                }
                a.swap_cols(r, j);
                q.swap(r, j);
                let ghost b2 = permuted_cols(permuted_rows(orig, p@), q@);
                let ghost s2 = a@;
                proof {
                    lemma_factored_swap_cols(b1, s1, r as int, j as int, rows, cols);
                    assert(is_matrix(b2, rows, cols));
                    lemma_is_matrix_ext(b2, with_cols_swapped(b1, r as int, j as int), rows, cols);
                    assert(s2[r as int][r as int]);
                    assert(a@ =~= eliminated(s2, r as int, r + 1));
                }
                let mut k: usize = r + 1;
                while k < a.nrows
                    invariant
                        r < k <= rows,
                        r < cols,
                        a.wf(),
                        a.nrows == rows,
                        a.ncols == cols,
                        is_matrix(s2, rows, cols),
                        a@ == eliminated(s2, r as int, k as int),
                    decreases rows - k,
                {
                    if mzd_read_bit(a, k, r) {
                        a.add_row_from(k, r, r + 1);
                    }
                    k += 1;
                    assert(a@ =~~= eliminated(s2, r as int, k as int));
                }
                proof {
                    lemma_factored_eliminate(b2, s2, r as int, rows, cols);
                }
                r += 1;
            },
        }
    }
    proof {
        let b = permuted_cols(permuted_rows(orig, p@), q@);
        assert(is_matrix(b, rows, cols));
        lemma_factored_final(b, a@, r as int, rows, cols);
        if r > 0 {
            let l = lower_part(a@, r as nat);
            let u = upper_part(a@, r as nat);
            assert(is_matrix(l, rows, r as nat));
            assert(is_matrix(u, r as nat, cols));
            lemma_mat_mul_shape(l, u, rows, r as nat, cols);
            lemma_is_matrix_ext(b, mat_mul(l, u), rows, cols);
        }
    }
    r
}

} // verus!
