//! Permutations of row or column indices, and their application to a matrix.
use crate::bits::row_wf;
use crate::gf2::{is_matrix, lemma_is_matrix_ext};
use crate::matrix::BinMatrix;
use vstd::prelude::*;

verus! {

/// Whether `p` maps `[0, p.len())` onto itself without taking a value twice.
pub open spec fn is_permutation(p: Seq<usize>) -> bool {
    &&& forall|i: int| 0 <= i < p.len() ==> (#[trigger] p[i]) < p.len()
    &&& forall|i: int, j: int|
        0 <= i < p.len() && 0 <= j < p.len() && i != j ==> (#[trigger] p[i]) != (#[trigger] p[j])
}

/// The matrix whose row `i` is row `p[i]` of `m`.
pub open spec fn permuted_rows(m: Seq<Seq<bool>>, p: Seq<usize>) -> Seq<Seq<bool>> {
    Seq::new(m.len(), |i: int| m[p[i] as int])
}

/// The matrix whose column `j` is column `p[j]` of `m`.
pub open spec fn permuted_cols(m: Seq<Seq<bool>>, p: Seq<usize>) -> Seq<Seq<bool>> {
    Seq::new(m.len(), |i: int| Seq::new(m[i].len(), |j: int| m[i][p[j] as int]))
}

/// A permutation of `[0, length)`, given by the image of each index.
#[derive(Debug)]
pub struct Mzp {
    pub(crate) values: Vec<usize>,
}

impl Mzp {
    /// The image of each index.
    pub open(crate) spec fn view(&self) -> Seq<usize> {
        self.values@
    }

    /// Whether the images form a permutation.
    pub open(crate) spec fn wf(&self) -> bool {
        is_permutation(self@)
    }

    /// The identity permutation of `[0, length)`.
    pub fn new(length: usize) -> (p: Mzp)
        ensures
            p.wf(),
            p@ == Seq::new(length as nat, |i: int| i as usize),
    {
        let mut values: Vec<usize> = Vec::new();
        let mut i: usize = 0;
        while i < length
            invariant
                i <= length,
                values@ == Seq::new(i as nat, |k: int| k as usize),
            decreases length - i,
        {
            values.push(i);
            i += 1;
            assert(values@ =~= Seq::new(i as nat, |k: int| k as usize));
        }
        Mzp { values }
    }

    /// Number of indices.
    pub fn len(&self) -> (n: usize)
        ensures
            n == self@.len(),
    {
        self.values.len()
    }

    /// The image of `i`.
    pub fn get(&self, i: usize) -> (v: usize)
        requires
            i < self@.len(),
        ensures
            v == self@[i as int],
    {
        self.values[i]
    }

    /// Exchanges the images of `i` and `j`.
    pub fn swap(&mut self, i: usize, j: usize)
        requires
            old(self).wf(),
            i < old(self)@.len(),
            j < old(self)@.len(),
        ensures
            final(self).wf(),
            final(self)@ == old(self)@.update(i as int, old(self)@[j as int]).update(
                j as int,
                old(self)@[i as int],
            ),
    {
        let x = self.values[i];
        let y = self.values[j];
        self.values[i] = y;
        self.values[j] = x;
    }

    /// Makes `self` the identity again.
    pub fn set_identity(&mut self)
        ensures
            final(self).wf(),
            final(self)@ == Seq::new(old(self)@.len(), |i: int| i as usize),
    {
        let n = self.values.len();
        let mut i: usize = 0;
        while i < n
            invariant
                i <= n,
                self.values@.len() == n,
                n == old(self)@.len(),
                forall|k: int| 0 <= k < i ==> self.values@[k] == k,
            decreases n - i,
        {
            self.values[i] = i;
            i += 1;
        }
        assert(self@ =~= Seq::new(old(self)@.len(), |i: int| i as usize));
    }
}

impl Clone for Mzp {
    fn clone(&self) -> (p: Mzp)
        ensures
            p@ == self@,
    {
        let mut values: Vec<usize> = Vec::new();
        let mut i: usize = 0;
        while i < self.values.len()
            invariant
                i <= self.values@.len(),
                values@ == self.values@.take(i as int),
            decreases self.values@.len() - i,
        {
            values.push(self.values[i]);
            i += 1;
            assert(values@ =~= self.values@.take(i as int));
        }
        assert(values@ =~= self.values@);
        Mzp { values }
    }
}

fn copy_words(src: &Vec<u64>) -> (r: Vec<u64>)
    ensures
        r@ == src@,
{
    let mut r: Vec<u64> = Vec::new();
    let mut c: usize = 0;
    while c < src.len()
        invariant
            c <= src@.len(),
            r@ == src@.take(c as int),
        decreases src@.len() - c,
    {
        r.push(src[c]);
        c += 1;
        assert(r@ =~= src@.take(c as int));
    }
    assert(r@ =~= src@);
    r
}

/// Applies `p` to the rows of `a`: row `i` becomes what row `p[i]` was.
pub fn mzd_apply_p_left(a: &mut BinMatrix, p: &Mzp)
    requires
        old(a).wf(),
        p.wf(),
        p@.len() == old(a).spec_nrows(),
    ensures
        final(a).wf(),
        final(a).spec_nrows() == old(a).spec_nrows(),
        final(a).spec_ncols() == old(a).spec_ncols(),
        final(a)@ == permuted_rows(old(a)@, p@),
{
    let mut data: Vec<Vec<u64>> = Vec::new();
    let mut i: usize = 0;
    while i < a.nrows
        invariant
            i <= a.nrows,
            a.wf(),
            p.wf(),
            p@.len() == a.nrows,
            data@.len() == i,
            forall|k: int| 0 <= k < i ==> (#[trigger] data@[k])@ == a.rows[p@[k] as int]@,
        decreases a.nrows - i,
    {
        let src = p.get(i);
        let row = copy_words(&a.rows[src]);
        data.push(row);
        i += 1;
    }
    let ghost before = *a;
    a.rows = data;
    proof {
        assert forall|k: int| 0 <= k < a.nrows implies row_wf(
            (#[trigger] a.rows[k])@,
            a.ncols as nat,
        ) by {
            assert(row_wf(before.rows[p@[k] as int]@, a.ncols as nat));
        }
        assert(a@ =~= permuted_rows(before@, p@));
    }
}

/// Applies the inverse of `p` to the rows of `a`: what was row `i` becomes
/// row `p[i]`.
pub fn mzd_apply_p_left_trans(a: &mut BinMatrix, p: &Mzp)
    requires
        old(a).wf(),
        p.wf(),
        p@.len() == old(a).spec_nrows(),
    ensures
        final(a).wf(),
        final(a).spec_nrows() == old(a).spec_nrows(),
        final(a).spec_ncols() == old(a).spec_ncols(),
        permuted_rows(final(a)@, p@) == old(a)@,
{
    let mut data: Vec<Vec<u64>> = Vec::new();
    let mut i: usize = 0;
    while i < a.nrows
        invariant
            i <= a.nrows,
            a.wf(),
            data@.len() == i,
            forall|k: int| 0 <= k < i ==> (#[trigger] data@[k])@ == a.rows[k]@,
        decreases a.nrows - i,
    {
        let row = copy_words(&a.rows[i]);
        data.push(row);
        i += 1;
    }
    let mut j: usize = 0;
    while j < a.nrows
        invariant
            j <= a.nrows,
            a.wf(),
            p.wf(),
            p@.len() == a.nrows,
            data@.len() == a.nrows,
            forall|k: int| 0 <= k < a.nrows ==> row_wf((#[trigger] data@[k])@, a.ncols as nat),
            forall|k: int| 0 <= k < j ==> (#[trigger] data@[p@[k] as int])@ == a.rows[k]@,
        decreases a.nrows - j,
    {
        let dst = p.get(j);
        let row = copy_words(&a.rows[j]);
        assert(row_wf(a.rows[j as int]@, a.ncols as nat));
        data[dst] = row;
        j += 1;
    }
    let ghost before = *a;
    a.rows = data;
    proof {
        assert(permuted_rows(a@, p@) =~= before@);
    }
}

/// Applies `p` to the columns of `a`: column `j` becomes what column `p[j]`
/// was.
pub fn mzd_apply_p_right(a: &mut BinMatrix, p: &Mzp)
    requires
        old(a).wf(),
        p.wf(),
        p@.len() == old(a).spec_ncols(),
    ensures
        final(a).wf(),
        final(a).spec_nrows() == old(a).spec_nrows(),
        final(a).spec_ncols() == old(a).spec_ncols(),
        final(a)@ == permuted_cols(old(a)@, p@),
{
    let ghost before = a@;
    let ghost rows = a.nrows as nat;
    let ghost cols = a.ncols as nat;
    let mut t = a.transposed();
    mzd_apply_p_left(&mut t, p);
    let back = t.transposed();
    proof {
        assert(is_matrix(permuted_cols(before, p@), rows, cols));
        lemma_is_matrix_ext(back@, permuted_cols(before, p@), rows, cols);
    }
    *a = back;
}

/// Applies the inverse of `p` to the columns of `a`: what was column `j`
/// becomes column `p[j]`.
pub fn mzd_apply_p_right_trans(a: &mut BinMatrix, p: &Mzp)
    requires
        old(a).wf(),
        p.wf(),
        p@.len() == old(a).spec_ncols(),
    ensures
        final(a).wf(),
        final(a).spec_nrows() == old(a).spec_nrows(),
        final(a).spec_ncols() == old(a).spec_ncols(),
        permuted_cols(final(a)@, p@) == old(a)@,
{
    let ghost before = a@;
    let ghost rows = a.nrows as nat;
    let ghost cols = a.ncols as nat;
    let mut t = a.transposed();
    let ghost tb = t@;
    mzd_apply_p_left_trans(&mut t, p);
    let back = t.transposed();
    proof {
        assert(is_matrix(permuted_cols(back@, p@), rows, cols));
        assert forall|i: int, j: int| 0 <= i < rows && 0 <= j < cols implies permuted_cols(
            back@,
            p@,
        )[i][j] == before[i][j] by {
            assert(permuted_rows(t@, p@)[j] == tb[j]);
        }
        lemma_is_matrix_ext(permuted_cols(back@, p@), before, rows, cols);
    }
    *a = back;
}

} // verus!
