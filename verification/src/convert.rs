//! Vectors as matrices of one row or one column, and back; products of a
//! matrix and a vector.
use crate::bits::{count_true, row_bits};
use crate::gf2::{
    column_matrix, is_matrix, lemma_is_matrix_ext, lemma_mat_mul_shape,
    lemma_transpose_row_matrix, mat_mul, mat_vec, row_matrix, vec_mat, vector_of,
};
use crate::matrix::{mzd_read_bit, mzd_write_bit, BinMatrix};
use crate::multiply::mzd_mul_naive;
use crate::vector::BinVector;
use crate::window::{filled, lemma_filled_start, lemma_filled_step};
use vstd::prelude::*;

verus! {

/// The matrix whose row `i` is the vector `rows[i]`.
pub open spec fn rows_matrix(rows: Seq<BinVector>) -> Seq<Seq<bool>> {
    Seq::new(rows.len(), |i: int| rows[i]@)
}

impl BinMatrix {
    /// The matrix whose rows are the vectors `rows`, which have one length.
    pub fn new(rows: Vec<BinVector>) -> (m: BinMatrix)
        requires
            rows@.len() > 0,
            rows@[0]@.len() > 0,
            forall|i: int| 0 <= i < rows@.len() ==> (#[trigger] rows@[i])@.len() == rows@[0]@.len(),
        ensures
            m.wf(),
            m.spec_nrows() == rows@.len(),
            m.spec_ncols() == rows@[0]@.len(),
            m@ == rows_matrix(rows@),
    {
        let h: usize = rows.len();
        let w: usize = rows[0].len();
        let mut m = BinMatrix::zero(h, w);
        let ghost init = m@;
        let ghost target = rows_matrix(rows@);
        proof {
            lemma_filled_start(init, target, 0, 0, w as int, h as nat, w as nat);
        }
        let mut r: usize = 0;
        while r < h
            invariant
                r <= h,
                m.wf(),
                m.nrows == h,
                m.ncols == w,
                h == rows@.len(),
                forall|i: int| 0 <= i < rows@.len() ==> (#[trigger] rows@[i])@.len() == w,
                is_matrix(init, h as nat, w as nat),
                target == rows_matrix(rows@),
                m@ == filled(init, target, 0, 0, w as int, r as int, 0),
            decreases h - r,
        {
            let mut c: usize = 0;
            while c < w
                invariant
                    c <= w,
                    r < h,
                    m.wf(),
                    m.nrows == h,
                    m.ncols == w,
                    h == rows@.len(),
                    forall|i: int| 0 <= i < rows@.len() ==> (#[trigger] rows@[i])@.len() == w,
                    is_matrix(init, h as nat, w as nat),
                    target == rows_matrix(rows@),
                    c < w ==> m@ == filled(init, target, 0, 0, w as int, r as int, c as int),
                    c == w ==> m@ == filled(init, target, 0, 0, w as int, r + 1, 0),
                decreases w - c,
            {
                assert(rows@[r as int]@.len() == w);
                let bit = rows[r].get(c) == Some(true);
                proof {
                    lemma_filled_step(
                        init,
                        target,
                        0,
                        0,
                        w as int,
                        r as int,
                        c as int,
                        h as nat,
                        w as nat,
                    );
                }
                mzd_write_bit(&mut m, r, c, bit);
                c += 1;
            }
            r += 1;
        }
        proof {
            assert(is_matrix(target, h as nat, w as nat));
            lemma_is_matrix_ext(m@, target, h as nat, w as nat);
        }
        m
    }

    /// The vector that a matrix of one row or of one column stands for.
    pub fn as_vector(&self) -> (v: BinVector)
        requires
            self.wf(),
            self.spec_nrows() == 1 || self.spec_ncols() == 1,
        ensures
            v@ == vector_of(self@),
    {
        if self.nrows != 1 {
            let mut bits = BinVector::with_capacity(self.nrows);
            let mut i: usize = 0;
            while i < self.nrows
                invariant
                    i <= self.nrows,
                    self.wf(),
                    self.ncols == 1,
                    bits@ == vector_of(self@).take(i as int),
                decreases self.nrows - i,
            {
                let bit = mzd_read_bit(self, i, 0);
                bits.push(bit);
                i += 1;
                assert(bits@ =~= vector_of(self@).take(i as int));
            }
            assert(bits@ =~= vector_of(self@));
            bits
        } else {
            let mut bits = BinVector::with_capacity(self.ncols);
            let mut j: usize = 0;
            while j < self.ncols
                invariant
                    j <= self.ncols,
                    self.wf(),
                    self.nrows == 1,
                    bits@ == vector_of(self@).take(j as int),
                decreases self.ncols - j,
            {
                let bit = mzd_read_bit(self, 0, j);
                bits.push(bit);
                j += 1;
                assert(bits@ =~= vector_of(self@).take(j as int));
            }
            assert(bits@ =~= vector_of(self@));
            bits
        }
    }

    /// The number of bits that are set in a matrix of one row or of one
    /// column.
    pub fn count_ones(&self) -> (n: u32)
        requires
            self.wf(),
            self.spec_nrows() == 1 || self.spec_ncols() == 1,
            self.spec_nrows() <= u32::MAX,
            self.spec_ncols() <= u32::MAX,
        ensures
            n == count_true(vector_of(self@)),
    {
        let v = self.as_vector();
        v.count_ones()
    }

    /// The product of `self` and the column vector whose bits are packed in
    /// `other`, lowest bit of the first word first; a matrix of one column.
    pub fn mul_slice(&self, other: &[u64]) -> (m: BinMatrix)
        requires
            self.wf(),
            self.spec_ncols() <= other@.len() * 64,
        ensures
            m.wf(),
            m.spec_nrows() == self.spec_nrows(),
            m.spec_ncols() == 1,
            m@ == mat_mul(self@, column_matrix(row_bits(other@, self.spec_ncols()))),
    {
        let mut words: Vec<u64> = Vec::new();
        let mut c: usize = 0;
        while c < other.len()
            invariant
                c <= other@.len(),
                words@ == other@.take(c as int),
            decreases other@.len() - c,
        {
            words.push(other[c]);
            c += 1;
            assert(words@ =~= other@.take(c as int));
        }
        assert(words@ =~= other@);
        let mut packed: Vec<Vec<u64>> = Vec::new();
        packed.push(words);
        let row = BinMatrix::from_slices(packed.as_slice(), self.ncols);
        let column = row.transposed();
        proof {
            assert(row@ =~= row_matrix(row_bits(other@, self.ncols as nat)));
            lemma_transpose_row_matrix(row_bits(other@, self.ncols as nat));
        }
        mzd_mul_naive(self, &column)
    }

    /// The product of `self` and the column vector `other`.
    pub fn mul_vector(&self, other: &BinVector) -> (v: BinVector)
        requires
            self.wf(),
            self.spec_ncols() == other@.len(),
        ensures
            v@ == mat_vec(self@, other@),
    {
        let column = other.as_column_matrix();
        let product = self.mul_matrix(&column);
        proof {
            lemma_mat_mul_shape(self@, column@, self.nrows as nat, self.ncols as nat, 1);
            assert(vector_of(product@) =~= mat_vec(self@, other@));
        }
        product.as_vector()
    }
}

impl BinVector {
    /// The matrix with `self` as its only row.
    pub fn as_matrix(&self) -> (m: BinMatrix)
        requires
            self@.len() > 0,
        ensures
            m.wf(),
            m.spec_nrows() == 1,
            m.spec_ncols() == self@.len(),
            m@ == row_matrix(self@),
    {
        let mut rows: Vec<BinVector> = Vec::new();
        rows.push(self.clone());
        let m = BinMatrix::new(rows);
        assert(m@ =~= row_matrix(self@));
        m
    }

    /// The matrix with `self` as its only column.
    pub fn as_column_matrix(&self) -> (m: BinMatrix)
        requires
            self@.len() > 0,
        ensures
            m.wf(),
            m.spec_nrows() == self@.len(),
            m.spec_ncols() == 1,
            m@ == column_matrix(self@),
    {
        let row = self.as_matrix();
        proof {
            lemma_transpose_row_matrix(self@);
        }
        row.transposed()
    }

    /// The product of the row vector `self` and `other`.
    pub fn mul_matrix(&self, other: &BinMatrix) -> (v: BinVector)
        requires
            other.wf(),
            self@.len() == other.spec_nrows(),
        ensures
            v@ == vec_mat(self@, other@),
    {
        let row = self.as_matrix();
        let product = row.mul_matrix(other);
        proof {
            lemma_mat_mul_shape(
                row@,
                other@,
                1,
                other.nrows as nat,
                other.ncols as nat,
            );
            assert(vector_of(product@) =~= vec_mat(self@, other@));
        }
        product.as_vector()
    }
}

} // verus!
