//! Matrices that own their words, and windows that read or write the words
//! of another matrix where they lie.
use crate::gf2::submatrix;
use crate::matrix::{mzd_read_bit, mzd_write_bit, BinMatrix};
use vstd::prelude::*;

verus! {

/// A rectangle of a matrix: the rows `[lowr, lowr + nrows)` and the columns
/// `[lowc, lowc + ncols)` of `parent`, none of them copied. The first column
/// is the first bit of a word.
#[derive(Debug)]
pub struct Window<'a> {
    pub(crate) parent: &'a BinMatrix,
    pub(crate) lowr: usize,
    pub(crate) lowc: usize,
    pub(crate) nrows: usize,
    pub(crate) ncols: usize,
}

impl<'a> Window<'a> {
    /// The window invariant.
    pub open(crate) spec fn wf(&self) -> bool {
        &&& self.parent.wf()
        &&& self.nrows > 0
        &&& self.ncols > 0
        &&& self.lowr + self.nrows <= self.parent.spec_nrows()
        &&& self.lowc + self.ncols <= self.parent.spec_ncols()
        &&& self.lowc % 64 == 0
    }

    /// The matrix that the window reads from.
    pub open(crate) spec fn spec_parent(&self) -> BinMatrix {
        *self.parent
    }

    /// The first row and the first column of the window in its parent.
    pub open(crate) spec fn spec_origin(&self) -> (nat, nat) {
        (self.lowr as nat, self.lowc as nat)
    }

    /// Number of rows, as a mathematical integer.
    pub open(crate) spec fn spec_nrows(&self) -> nat {
        self.nrows as nat
    }

    /// Number of columns, as a mathematical integer.
    pub open(crate) spec fn spec_ncols(&self) -> nat {
        self.ncols as nat
    }

    /// The matrix that is seen through the window.
    pub open(crate) spec fn view(&self) -> Seq<Seq<bool>> {
        submatrix(
            self.parent@,
            self.lowr as int,
            self.lowc as int,
            self.lowr + self.nrows,
            self.lowc + self.ncols,
        )
    }

    /// Number of rows.
    pub fn nrows(&self) -> (n: usize)
        ensures
            n == self.spec_nrows(),
    {
        self.nrows
    }

    /// Number of columns.
    pub fn ncols(&self) -> (n: usize)
        ensures
            n == self.spec_ncols(),
    {
        self.ncols
    }

    /// The bit in row `row`, column `col` of the window.
    pub fn bit(&self, row: usize, col: usize) -> (b: bool)
        requires
            self.wf(),
            row < self.spec_nrows(),
            col < self.spec_ncols(),
        ensures
            b == self@[row as int][col as int],
    {
        mzd_read_bit(self.parent, self.lowr + row, self.lowc + col)
    }

    /// A matrix of its own with the bits that are seen through the window.
    pub fn to_matrix(&self) -> (m: BinMatrix)
        requires
            self.wf(),
        ensures
            m.wf(),
            m.spec_nrows() == self.spec_nrows(),
            m.spec_ncols() == self.spec_ncols(),
            m@ == self@,
    {
        self.parent.get_window(
            self.lowr,
            self.lowc,
            self.lowr + self.nrows,
            self.lowc + self.ncols,
        )
    }
}

/// A rectangle of a matrix through which the matrix is read and written
/// where it lies: the rows `[lowr, lowr + nrows)` and the columns
/// `[lowc, lowc + ncols)` of `parent`. The first column is the first bit of
/// a word.
#[derive(Debug)]
pub struct WindowMut<'a> {
    /// The matrix that the window reads and writes.
    pub parent: &'a mut BinMatrix,
    /// The row of the parent that is row 0 of the window.
    pub lowr: usize,
    /// The column of the parent that is column 0 of the window.
    pub lowc: usize,
    /// Number of rows of the window.
    pub nrows: usize,
    /// Number of columns of the window.
    pub ncols: usize,
}

impl<'a> WindowMut<'a> {
    /// The window invariant.
    pub open spec fn wf(&self) -> bool {
        &&& self.parent.wf()
        &&& self.nrows > 0
        &&& self.ncols > 0
        &&& self.lowr + self.nrows <= self.parent.spec_nrows()
        &&& self.lowc + self.ncols <= self.parent.spec_ncols()
        &&& self.lowc % 64 == 0
    }

    /// The matrix that is seen through the window.
    pub open spec fn view(&self) -> Seq<Seq<bool>> {
        submatrix(
            self.parent@,
            self.lowr as int,
            self.lowc as int,
            self.lowr + self.nrows,
            self.lowc + self.ncols,
        )
    }

    /// The bit in row `row`, column `col` of the window.
    pub fn bit(&self, row: usize, col: usize) -> (b: bool)
        requires
            self.wf(),
            row < self.nrows,
            col < self.ncols,
        ensures
            b == self@[row as int][col as int],
    {
        mzd_read_bit(self.parent, self.lowr + row, self.lowc + col)
    }

    /// Writes `value` at row `row`, column `col` of the window, which is row
    /// `lowr + row`, column `lowc + col` of the parent; every other bit of
    /// the parent stays as it was.
    pub fn write_bit(&mut self, row: usize, col: usize, value: bool)
        requires
            old(self).wf(),
            row < old(self).nrows,
            col < old(self).ncols,
        ensures
            final(self).wf(),
            final(self).lowr == old(self).lowr,
            final(self).lowc == old(self).lowc,
            final(self).nrows == old(self).nrows,
            final(self).ncols == old(self).ncols,
            *final(final(self).parent) == *final(old(self).parent),
            final(self).parent@ == old(self).parent@.update(
                old(self).lowr + row,
                old(self).parent@[old(self).lowr + row].update(old(self).lowc + col, value),
            ),
            final(self)@ == old(self)@.update(
                row as int,
                old(self)@[row as int].update(col as int, value),
            ),
    {
        mzd_write_bit(self.parent, self.lowr + row, self.lowc + col, value);
        assert(self@ =~~= old(self)@.update(
            row as int,
            old(self)@[row as int].update(col as int, value),
        ));
    }

    /// A matrix of its own with the bits that are seen through the window.
    pub fn to_matrix(&self) -> (m: BinMatrix)
        requires
            self.wf(),
        ensures
            m.wf(),
            m.spec_nrows() == self.nrows,
            m.spec_ncols() == self.ncols,
            m@ == self@,
    {
        self.parent.get_window(
            self.lowr,
            self.lowc,
            self.lowr + self.nrows,
            self.lowc + self.ncols,
        )
    }
}

/// A window into `matrix` through which `matrix` is written: its rows
/// `[lowr, highr)` and its columns `[lowc, highc)`, where `lowc` is the first
/// bit of a word. What is written through the window is in `matrix` when
/// the window is given up.
pub fn mzd_init_window_mut<'a>(
    matrix: &'a mut BinMatrix,
    lowr: usize,
    lowc: usize,
    highr: usize,
    highc: usize,
) -> (w: WindowMut<'a>)
    requires
        old(matrix).wf(),
        lowr < highr <= old(matrix).spec_nrows(),
        lowc < highc <= old(matrix).spec_ncols(),
        lowc % 64 == 0,
    ensures
        w.wf(),
        *w.parent == *old(matrix),
        *final(w.parent) == *final(matrix),
        w.lowr == lowr,
        w.lowc == lowc,
        w.nrows == highr - lowr,
        w.ncols == highc - lowc,
{
    WindowMut { parent: matrix, lowr, lowc, nrows: highr - lowr, ncols: highc - lowc }
}

/// A matrix that owns its words, or a window into another.
#[derive(Debug)]
pub enum Mzd<'a> {
    /// A matrix with words of its own.
    Owned(BinMatrix),
    /// A window into the words of another matrix.
    Windowed(Window<'a>),
}

impl<'a> Mzd<'a> {
    /// The invariant of the matrix or of the window.
    pub open spec fn wf(&self) -> bool {
        match self {
            Mzd::Owned(m) => m.wf(),
            Mzd::Windowed(w) => w.wf(),
        }
    }

    /// The matrix that this value stands for.
    pub open spec fn view(&self) -> Seq<Seq<bool>> {
        match self {
            Mzd::Owned(m) => m@,
            Mzd::Windowed(w) => w@,
        }
    }

    /// The bit in row `row`, column `col`.
    pub fn bit(&self, row: usize, col: usize) -> (b: bool)
        requires
            self.wf(),
            row < self@.len(),
            col < self@[0].len(),
        ensures
            b == self@[row as int][col as int],
    {
        match self {
            Mzd::Owned(m) => mzd_read_bit(m, row, col),
            Mzd::Windowed(w) => w.bit(row, col),
        }
    }
}

/// A window into `matrix`: its rows `[lowr, highr)` and its columns
/// `[lowc, highc)`. Where `lowc` is the first bit of a word the window reads
/// the words of `matrix`; where it is not, the bits are copied into a matrix
/// of their own.
pub fn mzd_init_window<'a>(
    matrix: &'a BinMatrix,
    lowr: usize,
    lowc: usize,
    highr: usize,
    highc: usize,
) -> (w: Mzd<'a>)
    requires
        matrix.wf(),
        lowr < highr <= matrix.spec_nrows(),
        lowc < highc <= matrix.spec_ncols(),
    ensures
        w.wf(),
        w@ == submatrix(matrix@, lowr as int, lowc as int, highr as int, highc as int),
        w is Windowed <==> lowc % 64 == 0,
        w is Windowed ==> w->Windowed_0.spec_parent() == *matrix && w->Windowed_0.spec_origin() == (
            lowr as nat,
            lowc as nat,
        ),
{
    if lowc % 64 == 0 {
        Mzd::Windowed(
            Window { parent: matrix, lowr, lowc, nrows: highr - lowr, ncols: highc - lowc },
        )
    } else {
        Mzd::Owned(matrix.get_window(lowr, lowc, highr, highc))
    }
}

/// Whether `m` is a window into another matrix.
pub fn mzd_is_windowed(m: &Mzd) -> (b: bool)
    ensures
        b == (m is Windowed),
{
    match m {
        Mzd::Owned(_) => false,
        Mzd::Windowed(_) => true,
    }
}

/// Whether `m` owns the words that it reads.
pub fn mzd_owns_blocks(m: &Mzd) -> (b: bool)
    ensures
        b == (m is Owned),
{
    !mzd_is_windowed(m)
}

/// Gives a window up. The matrix that it read from stays as it is.
pub fn mzd_free_window(matrix: Mzd) {
    let _ = matrix;
}

impl BinMatrix {
    /// A matrix with words of its own that holds what `mzd` stands for.
    pub fn from_mzd(mzd: Mzd) -> (m: BinMatrix)
        requires
            mzd.wf(),
        ensures
            m.wf(),
            m@ == mzd@,
            mzd matches Mzd::Owned(own) ==> m == own,
    {
        match mzd {
            Mzd::Owned(own) => own,
            Mzd::Windowed(w) => w.to_matrix(),
        }
    }
}

} // verus!
