//! Rectangular blocks of a matrix: extracting and overwriting a window, and
//! joining two matrices side by side or one above the other.
use crate::gf2::{augment, is_matrix, lemma_is_matrix_ext, submatrix, transpose, with_block};
use crate::matrix::{mzd_read_bit, mzd_write_bit, BinMatrix};
use crate::transpose::mzd_transpose;
use vstd::prelude::*;

verus! {

/// The matrix that agrees with `target` on the columns `[c0, c0 + w)` of the
/// rows `[r0, r0 + r)` and on the columns `[c0, c0 + c)` of row `r0 + r`,
/// and with `init` everywhere else.
pub open spec fn filled(
    init: Seq<Seq<bool>>,
    target: Seq<Seq<bool>>,
    r0: int,
    c0: int,
    w: int,
    r: int,
    c: int,
) -> Seq<Seq<bool>> {
    Seq::new(
        init.len(),
        |i: int|
            Seq::new(
                init[i].len(),
                |j: int|
                    if c0 <= j < c0 + w && (r0 <= i < r0 + r || (i == r0 + r && j < c0 + c)) {
                        target[i][j]
                    } else {
                        init[i][j]
                    },
            ),
    )
}

pub(crate) proof fn lemma_filled_start(
    init: Seq<Seq<bool>>,
    target: Seq<Seq<bool>>,
    r0: int,
    c0: int,
    w: int,
    rows: nat,
    cols: nat,
)
    requires
        is_matrix(init, rows, cols),
    ensures
        filled(init, target, r0, c0, w, 0, 0) == init,
{
    lemma_is_matrix_ext(filled(init, target, r0, c0, w, 0, 0), init, rows, cols);
}

pub(crate) proof fn lemma_filled_step(
    init: Seq<Seq<bool>>,
    target: Seq<Seq<bool>>,
    r0: int,
    c0: int,
    w: int,
    r: int,
    c: int,
    rows: nat,
    cols: nat,
)
    requires
        is_matrix(init, rows, cols),
        0 <= r0,
        0 <= c0,
        0 <= r,
        0 <= c < w,
        r0 + r < rows,
        c0 + w <= cols,
    ensures
        filled(init, target, r0, c0, w, r, c).update(
            r0 + r,
            filled(init, target, r0, c0, w, r, c)[r0 + r].update(c0 + c, target[r0 + r][c0 + c]),
        ) == filled(init, target, r0, c0, w, r, c + 1),
        c + 1 == w ==> filled(init, target, r0, c0, w, r, c + 1) == filled(
            init,
            target,
            r0,
            c0,
            w,
            r + 1,
            0,
        ),
{
    let before = filled(init, target, r0, c0, w, r, c);
    let after = before.update(r0 + r, before[r0 + r].update(c0 + c, target[r0 + r][c0 + c]));
    let next = filled(init, target, r0, c0, w, r, c + 1);
    assert(is_matrix(after, rows, cols));
    lemma_is_matrix_ext(after, next, rows, cols);
    if c + 1 == w {
        lemma_is_matrix_ext(next, filled(init, target, r0, c0, w, r + 1, 0), rows, cols);
    }
}

impl BinMatrix {
    /// Overwrites the block of `self` that starts at row `start_row`, column
    /// `start_col` with `other`.
    pub fn set_window(&mut self, start_row: usize, start_col: usize, other: &BinMatrix)
        requires
            old(self).wf(),
            other.wf(),
            start_row + other.spec_nrows() <= old(self).spec_nrows(),
            start_col + other.spec_ncols() <= old(self).spec_ncols(),
        ensures
            final(self).wf(),
            final(self).spec_nrows() == old(self).spec_nrows(),
            final(self).spec_ncols() == old(self).spec_ncols(),
            final(self)@ == with_block(old(self)@, start_row as int, start_col as int, other@),
    {
        let ghost init = self@;
        let ghost target = with_block(init, start_row as int, start_col as int, other@);
        let ghost r0 = start_row as int;
        let ghost c0 = start_col as int;
        let ghost w = other.ncols as int;
        let ghost rows = self.nrows as nat;
        let ghost cols = self.ncols as nat;
        proof {
            lemma_filled_start(init, target, r0, c0, w, rows, cols);
        }
        let mut r: usize = 0;
        while r < other.nrows
            invariant
                r <= other.nrows,
                self.wf(),
                other.wf(),
                self.nrows == rows,
                self.ncols == cols,
                r0 == start_row,
                c0 == start_col,
                w == other.ncols,
                r0 + other.nrows <= rows,
                c0 + w <= cols,
                is_matrix(init, rows, cols),
                target == with_block(init, r0, c0, other@),
                self@ == filled(init, target, r0, c0, w, r as int, 0),
            decreases other.nrows - r,
        {
            let mut c: usize = 0;
            while c < other.ncols
                invariant
                    c <= other.ncols,
                    r < other.nrows,
                    self.wf(),
                    other.wf(),
                    self.nrows == rows,
                    self.ncols == cols,
                    r0 == start_row,
                    c0 == start_col,
                    w == other.ncols,
                    r0 + other.nrows <= rows,
                    c0 + w <= cols,
                    is_matrix(init, rows, cols),
                    target == with_block(init, r0, c0, other@),
                    c < w ==> self@ == filled(init, target, r0, c0, w, r as int, c as int),
                    c == w ==> self@ == filled(init, target, r0, c0, w, r + 1, 0),
                decreases other.ncols - c,
            {
                let bit = mzd_read_bit(other, r, c);
                proof {
                    lemma_filled_step(init, target, r0, c0, w, r as int, c as int, rows, cols);
                }
                mzd_write_bit(self, start_row + r, start_col + c, bit);
                c += 1;
            }
            r += 1;
        }
        proof {
            lemma_is_matrix_ext(self@, target, rows, cols);
        }
    }

    /// The rows `[start_row, high_row)` and columns `[start_col, high_col)`
    /// of `self`, as a matrix of its own.
    pub fn get_window(
        &self,
        start_row: usize,
        start_col: usize,
        high_row: usize,
        high_col: usize,
    ) -> (m: BinMatrix)
        requires
            self.wf(),
            start_row < high_row <= self.spec_nrows(),
            start_col < high_col <= self.spec_ncols(),
        ensures
            m.wf(),
            m.spec_nrows() == high_row - start_row,
            m.spec_ncols() == high_col - start_col,
            m@ == submatrix(
                self@,
                start_row as int,
                start_col as int,
                high_row as int,
                high_col as int,
            ),
    {
        let h: usize = high_row - start_row;
        let w: usize = high_col - start_col;
        let mut m = BinMatrix::zero(h, w);
        let ghost init = m@;
        let ghost target = submatrix(
            self@,
            start_row as int,
            start_col as int,
            high_row as int,
            high_col as int,
        );
        proof {
            lemma_filled_start(init, target, 0, 0, w as int, h as nat, w as nat);
        }
        let mut r: usize = 0;
        while r < h
            invariant
                r <= h,
                self.wf(),
                m.wf(),
                m.nrows == h,
                m.ncols == w,
                h == high_row - start_row,
                w == high_col - start_col,
                high_row <= self.nrows,
                high_col <= self.ncols,
                is_matrix(init, h as nat, w as nat),
                target == submatrix(
                    self@,
                    start_row as int,
                    start_col as int,
                    high_row as int,
                    high_col as int,
                ),
                m@ == filled(init, target, 0, 0, w as int, r as int, 0),
            decreases h - r,
        {
            let mut c: usize = 0;
            while c < w
                invariant
                    c <= w,
                    r < h,
                    self.wf(),
                    m.wf(),
                    m.nrows == h,
                    m.ncols == w,
                    h == high_row - start_row,
                    w == high_col - start_col,
                    high_row <= self.nrows,
                    high_col <= self.ncols,
                    is_matrix(init, h as nat, w as nat),
                    target == submatrix(
                        self@,
                        start_row as int,
                        start_col as int,
                        high_row as int,
                        high_col as int,
                    ),
                    c < w ==> m@ == filled(init, target, 0, 0, w as int, r as int, c as int),
                    c == w ==> m@ == filled(init, target, 0, 0, w as int, r + 1, 0),
                decreases w - c,
            {
                let bit = mzd_read_bit(self, start_row + r, start_col + c);
                proof {
                    lemma_filled_step(
                        init,
                        target,
                        0,
                        0,
                        w as int,
                        r as int,
                        c as int,
                        h as nat,
                        w as nat,
                    );
                }
                mzd_write_bit(&mut m, r, c, bit);
                c += 1;
            }
            r += 1;
        }
        proof {
            lemma_is_matrix_ext(m@, target, h as nat, w as nat);
        }
        m
    }

    /// The transpose of `self`.
    pub fn transposed(&self) -> (m: BinMatrix)
        requires
            self.wf(),
        ensures
            m.wf(),
            m.spec_nrows() == self.spec_ncols(),
            m.spec_ncols() == self.spec_nrows(),
            m@ == transpose(self@),
    {
        mzd_transpose(self)
    }

    /// The transpose of `self`; an older name of `transposed`.
    pub fn transpose(&self) -> (m: BinMatrix)
        requires
            self.wf(),
        ensures
            m.wf(),
            m.spec_nrows() == self.spec_ncols(),
            m.spec_ncols() == self.spec_nrows(),
            m@ == transpose(self@),
    {
        self.transposed()
    }

    /// `self` and `other` side by side: `[A] [B] => [A B]`.
    pub fn augmented(&self, other: &BinMatrix) -> (m: BinMatrix)
        requires
            self.wf(),
            other.wf(),
            self.spec_nrows() == other.spec_nrows(),
            self.spec_ncols() + other.spec_ncols() <= usize::MAX,
        ensures
            m.wf(),
            m.spec_nrows() == self.spec_nrows(),
            m.spec_ncols() == self.spec_ncols() + other.spec_ncols(),
            m@ == augment(self@, other@),
    {
        let mut m = BinMatrix::zero(self.nrows, self.ncols + other.ncols);
        m.set_window(0, 0, self);
        m.set_window(0, self.ncols, other);
        proof {
            let rows = self.nrows as nat;
            let cols = (self.ncols + other.ncols) as nat;
            assert(is_matrix(augment(self@, other@), rows, cols));
            lemma_is_matrix_ext(m@, augment(self@, other@), rows, cols);
        }
        m
    }

    /// `self` on top of `other`.
    pub fn stacked(&self, other: &BinMatrix) -> (m: BinMatrix)
        requires
            self.wf(),
            other.wf(),
            self.spec_ncols() == other.spec_ncols(),
            self.spec_nrows() + other.spec_nrows() <= usize::MAX,
        ensures
            m.wf(),
            m.spec_nrows() == self.spec_nrows() + other.spec_nrows(),
            m.spec_ncols() == self.spec_ncols(),
            m@ == self@ + other@,
    {
        let mut m = BinMatrix::zero(self.nrows + other.nrows, self.ncols);
        m.set_window(0, 0, self);
        m.set_window(self.nrows, 0, other);
        proof {
            let rows = (self.nrows + other.nrows) as nat;
            let cols = self.ncols as nat;
            assert(is_matrix(self@ + other@, rows, cols));
            lemma_is_matrix_ext(m@, self@ + other@, rows, cols);
        }
        m
    }
}

} // verus!
