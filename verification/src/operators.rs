//! The operators `+` and `*` on matrices and vectors.
//!
//! Each operator hands its operands to the method of the same meaning; what
//! the method asks of them is the operator's `add_req` or `mul_req`.
use crate::bits::count_true;
use crate::gf2::{mat_add, mat_mul, mat_vec, row_add, vec_mat};
use crate::matrix::BinMatrix;
use crate::vector::{row_and, BinVector};
use vstd::prelude::*;
use vstd::std_specs::ops::{AddSpecImpl, MulSpecImpl};

verus! {

impl<'a> std::ops::Mul<&'a BinMatrix> for &'a BinMatrix {
    type Output = BinMatrix;

    /// The product of two matrices.
    fn mul(self, other: &'a BinMatrix) -> (c: BinMatrix)
        ensures
            c.wf(),
            c.spec_nrows() == self.spec_nrows(),
            c.spec_ncols() == other.spec_ncols(),
            c@ == mat_mul(self@, other@),
    {
        self.mul_matrix(other)
    }
}

impl<'a> MulSpecImpl<&'a BinMatrix> for &'a BinMatrix {
    open spec fn obeys_mul_spec() -> bool {
        false
    }

    open spec fn mul_req(self, other: &'a BinMatrix) -> bool {
        self.wf() && other.wf() && self.spec_ncols() == other.spec_nrows()
    }

    open spec fn mul_spec(self, other: &'a BinMatrix) -> BinMatrix {
        arbitrary()
    }
}

impl std::ops::Mul<BinMatrix> for BinMatrix {
    type Output = BinMatrix;

    /// The product of two matrices.
    fn mul(self, other: BinMatrix) -> (c: BinMatrix)
        ensures
            c.wf(),
            c.spec_nrows() == self.spec_nrows(),
            c.spec_ncols() == other.spec_ncols(),
            c@ == mat_mul(self@, other@),
    {
        self.mul_matrix(&other)
    }
}

impl MulSpecImpl<BinMatrix> for BinMatrix {
    open spec fn obeys_mul_spec() -> bool {
        false
    }

    open spec fn mul_req(self, other: BinMatrix) -> bool {
        self.wf() && other.wf() && self.spec_ncols() == other.spec_nrows()
    }

    open spec fn mul_spec(self, other: BinMatrix) -> BinMatrix {
        arbitrary()
    }
}

impl<'a> std::ops::Add<&'a BinMatrix> for &'a BinMatrix {
    type Output = BinMatrix;

    /// The sum of two matrices.
    fn add(self, other: &'a BinMatrix) -> (c: BinMatrix)
        ensures
            c.wf(),
            c.spec_nrows() == self.spec_nrows(),
            c.spec_ncols() == self.spec_ncols(),
            c@ == mat_add(self@, other@),
    {
        BinMatrix::add(self, other)
    }
}

impl<'a> AddSpecImpl<&'a BinMatrix> for &'a BinMatrix {
    open spec fn obeys_add_spec() -> bool {
        false
    }

    open spec fn add_req(self, other: &'a BinMatrix) -> bool {
        self.wf() && other.wf() && self.spec_nrows() == other.spec_nrows() && self.spec_ncols()
            == other.spec_ncols()
    }

    open spec fn add_spec(self, other: &'a BinMatrix) -> BinMatrix {
        arbitrary()
    }
}

impl std::ops::Add<BinMatrix> for BinMatrix {
    type Output = BinMatrix;

    /// The sum of two matrices.
    fn add(self, other: BinMatrix) -> (c: BinMatrix)
        ensures
            c.wf(),
            c.spec_nrows() == self.spec_nrows(),
            c.spec_ncols() == self.spec_ncols(),
            c@ == mat_add(self@, other@),
    {
        let mut sum = self;
        sum.add_assign(&other);
        sum
    }
}

impl AddSpecImpl<BinMatrix> for BinMatrix {
    open spec fn obeys_add_spec() -> bool {
        false
    }

    open spec fn add_req(self, other: BinMatrix) -> bool {
        self.wf() && other.wf() && self.spec_nrows() == other.spec_nrows() && self.spec_ncols()
            == other.spec_ncols()
    }

    open spec fn add_spec(self, other: BinMatrix) -> BinMatrix {
        arbitrary()
    }
}

impl<'a> std::ops::Mul<&'a BinVector> for &'a BinMatrix {
    type Output = BinVector;

    /// The product of a matrix and a column vector.
    fn mul(self, other: &'a BinVector) -> (v: BinVector)
        ensures
            v@ == mat_vec(self@, other@),
    {
        self.mul_vector(other)
    }
}

impl<'a> MulSpecImpl<&'a BinVector> for &'a BinMatrix {
    open spec fn obeys_mul_spec() -> bool {
        false
    }

    open spec fn mul_req(self, other: &'a BinVector) -> bool {
        self.wf() && self.spec_ncols() == other@.len()
    }

    open spec fn mul_spec(self, other: &'a BinVector) -> BinVector {
        arbitrary()
    }
}

impl std::ops::Mul<BinVector> for BinMatrix {
    type Output = BinVector;

    /// The product of a matrix and a column vector.
    fn mul(self, other: BinVector) -> (v: BinVector)
        ensures
            v@ == mat_vec(self@, other@),
    {
        self.mul_vector(&other)
    }
}

impl MulSpecImpl<BinVector> for BinMatrix {
    open spec fn obeys_mul_spec() -> bool {
        false
    }

    open spec fn mul_req(self, other: BinVector) -> bool {
        self.wf() && self.spec_ncols() == other@.len()
    }

    open spec fn mul_spec(self, other: BinVector) -> BinVector {
        arbitrary()
    }
}

impl<'a> std::ops::Mul<&'a BinMatrix> for &'a BinVector {
    type Output = BinVector;

    /// The product of a row vector and a matrix.
    fn mul(self, other: &'a BinMatrix) -> (v: BinVector)
        ensures
            v@ == vec_mat(self@, other@),
    {
        self.mul_matrix(other)
    }
}

impl<'a> MulSpecImpl<&'a BinMatrix> for &'a BinVector {
    open spec fn obeys_mul_spec() -> bool {
        false
    }

    open spec fn mul_req(self, other: &'a BinMatrix) -> bool {
        other.wf() && self@.len() == other.spec_nrows()
    }

    open spec fn mul_spec(self, other: &'a BinMatrix) -> BinVector {
        arbitrary()
    }
}

impl std::ops::Mul<BinMatrix> for BinVector {
    type Output = BinVector;

    /// The product of a row vector and a matrix.
    fn mul(self, other: BinMatrix) -> (v: BinVector)
        ensures
            v@ == vec_mat(self@, other@),
    {
        self.mul_matrix(&other)
    }
}

impl MulSpecImpl<BinMatrix> for BinVector {
    open spec fn obeys_mul_spec() -> bool {
        false
    }

    open spec fn mul_req(self, other: BinMatrix) -> bool {
        other.wf() && self@.len() == other.spec_nrows()
    }

    open spec fn mul_spec(self, other: BinMatrix) -> BinVector {
        arbitrary()
    }
}

impl<'a> std::ops::Add<&'a BinVector> for &'a BinVector {
    type Output = BinVector;

    /// The sum of two vectors.
    fn add(self, other: &'a BinVector) -> (v: BinVector)
        ensures
            v@ == row_add(self@, other@),
    {
        BinVector::add(self, other)
    }
}

impl<'a> AddSpecImpl<&'a BinVector> for &'a BinVector {
    open spec fn obeys_add_spec() -> bool {
        false
    }

    open spec fn add_req(self, other: &'a BinVector) -> bool {
        self@.len() == other@.len()
    }

    open spec fn add_spec(self, other: &'a BinVector) -> BinVector {
        arbitrary()
    }
}

impl std::ops::Add<BinVector> for BinVector {
    type Output = BinVector;

    /// The sum of two vectors.
    fn add(self, other: BinVector) -> (v: BinVector)
        ensures
            v@ == row_add(self@, other@),
    {
        BinVector::add(&self, &other)
    }
}

impl AddSpecImpl<BinVector> for BinVector {
    open spec fn obeys_add_spec() -> bool {
        false
    }

    open spec fn add_req(self, other: BinVector) -> bool {
        self@.len() == other@.len()
    }

    open spec fn add_spec(self, other: BinVector) -> BinVector {
        arbitrary()
    }
}

impl<'a> std::ops::Mul<&'a BinVector> for &'a BinVector {
    type Output = bool;

    /// The inner product of two vectors.
    fn mul(self, other: &'a BinVector) -> (b: bool)
        ensures
            b == (count_true(row_and(self@, other@)) % 2 == 1),
    {
        self.dot(other)
    }
}

impl<'a> MulSpecImpl<&'a BinVector> for &'a BinVector {
    open spec fn obeys_mul_spec() -> bool {
        true
    }

    open spec fn mul_req(self, other: &'a BinVector) -> bool {
        self@.len() == other@.len() && self@.len() <= u32::MAX
    }

    open spec fn mul_spec(self, other: &'a BinVector) -> bool {
        count_true(row_and(self@, other@)) % 2 == 1
    }
}

impl std::ops::Mul<BinVector> for BinVector {
    type Output = bool;

    /// The inner product of two vectors.
    fn mul(self, other: BinVector) -> (b: bool)
        ensures
            b == (count_true(row_and(self@, other@)) % 2 == 1),
    {
        self.dot(&other)
    }
}

impl MulSpecImpl<BinVector> for BinVector {
    open spec fn obeys_mul_spec() -> bool {
        true
    }

    open spec fn mul_req(self, other: BinVector) -> bool {
        self@.len() == other@.len() && self@.len() <= u32::MAX
    }

    open spec fn mul_spec(self, other: BinVector) -> bool {
        count_true(row_and(self@, other@)) % 2 == 1
    }
}

} // verus!
