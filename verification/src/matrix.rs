//! The bit-packed matrix: storage, construction, bit access and the
//! operations that work row by row.
use crate::bits::{
    get_bit, lemma_bit_xor, lemma_bit_zero, lemma_tail_mask_bits, lemma_tail_mask_xor,
    lemma_words_equal, row_bits, row_wf, spec_tail_mask, spec_words_for, tail_mask, with_bit,
    word_bit, words_for,
};
use crate::gf2::{cols_of, identity_matrix, is_matrix, mat_add, row_add, zero_matrix, zero_row};
use crate::rowops::{
    with_cols_swapped, with_row_added, with_row_added_from, with_rows_swapped,
};
use vstd::std_specs::cmp::PartialEqSpecImpl;
use vstd::prelude::*;

verus! {

/// A dense matrix over GF(2) with at least one row and one column.
///
/// Each row is stored as `ceil(ncols / 64)` words; the bits of the last word
/// that stand for no column are zero.
#[derive(Debug)]
pub struct BinMatrix {
    pub(crate) nrows: usize,
    pub(crate) ncols: usize,
    pub(crate) rows: Vec<Vec<u64>>,
}

impl BinMatrix {
    /// The storage invariant.
    pub open(crate) spec fn wf(&self) -> bool {
        &&& self.nrows > 0
        &&& self.ncols > 0
        &&& self.rows.len() == self.nrows
        &&& forall|i: int|
            0 <= i < self.nrows ==> row_wf((#[trigger] self.rows[i])@, self.ncols as nat)
    }

    /// Number of rows, as a mathematical integer.
    pub open(crate) spec fn spec_nrows(&self) -> nat {
        self.nrows as nat
    }

    /// Number of columns, as a mathematical integer.
    pub open(crate) spec fn spec_ncols(&self) -> nat {
        self.ncols as nat
    }

    /// The matrix this value stands for: row `i`, column `j` is `self@[i][j]`.
    pub open(crate) spec fn view(&self) -> Seq<Seq<bool>> {
        Seq::new(self.nrows as nat, |i: int| row_bits(self.rows[i]@, self.ncols as nat))
    }

    /// A well-formed value stands for a matrix of its dimensions.
    pub proof fn lemma_view_shape(&self)
        requires
            self.wf(),
        ensures
            is_matrix(self@, self.spec_nrows(), self.spec_ncols()),
            self.spec_nrows() > 0,
            self.spec_ncols() > 0,
            cols_of(self@) == self.spec_ncols(),
    {
    }
}

/// A row of `width` zero words.
pub(crate) fn zero_words(width: usize) -> (r: Vec<u64>)
    ensures
        r@.len() == width,
        forall|c: int| 0 <= c < width ==> r@[c] == 0,
{
    let mut r: Vec<u64> = Vec::new();
    while r.len() < width
        invariant
            r@.len() <= width,
            forall|c: int| 0 <= c < r@.len() ==> r@[c] == 0,
        decreases width - r@.len(),
    {
        r.push(0);
    }
    r
}

/// A row of zero words is a well-formed row of zeros.
pub(crate) proof fn lemma_zero_row(words: Seq<u64>, ncols: nat)
    requires
        ncols > 0,
        words.len() == spec_words_for(ncols),
        forall|c: int| 0 <= c < words.len() ==> words[c] == 0,
    ensures
        row_wf(words, ncols),
        row_bits(words, ncols) == zero_row(ncols),
{
    let m = spec_tail_mask(ncols);
    assert(0u64 & m == 0u64) by (bit_vector);
    assert forall|j: int| 0 <= j < ncols implies row_bits(words, ncols)[j] == false by {
        lemma_bit_zero(j % 64);
    }
    assert(row_bits(words, ncols) =~= zero_row(ncols));
}

/// Writing one bit of a well-formed row keeps it well formed and changes
/// that column only.
pub(crate) proof fn lemma_row_write(old_w: Seq<u64>, nw: u64, ncols: nat, col: int, v: bool)
    requires
        row_wf(old_w, ncols),
        0 <= col < ncols,
        forall|b: int|
            #[trigger] word_bit(nw, b) == if b == col % 64 {
                v
            } else {
                word_bit(old_w[col / 64], b)
            },
    ensures
        row_wf(old_w.update(col / 64, nw), ncols),
        row_bits(old_w.update(col / 64, nw), ncols) == row_bits(old_w, ncols).update(col, v),
{
    let new_w = old_w.update(col / 64, nw);
    let last = old_w.len() - 1;
    let m = spec_tail_mask(ncols);
    if col / 64 == last {
        let ow = old_w[last];
        assert forall|b: int| 0 <= b < 64 implies word_bit(nw & m, b) == word_bit(nw, b) by {
            lemma_tail_mask_bits(nw, ncols, b);
            lemma_tail_mask_bits(ow, ncols, b);
        }
        lemma_words_equal(nw & m, nw);
    }
    assert(row_bits(new_w, ncols) =~= row_bits(old_w, ncols).update(col, v));
}

impl BinMatrix {
    /// The `rows` x `cols` matrix of zeros.
    pub fn zero(rows: usize, cols: usize) -> (m: BinMatrix)
        requires
            rows > 0,
            cols > 0,
        ensures
            m.wf(),
            m.spec_nrows() == rows,
            m.spec_ncols() == cols,
            m@ == zero_matrix(rows as nat, cols as nat),
    {
        let width = words_for(cols);
        let mut data: Vec<Vec<u64>> = Vec::new();
        while data.len() < rows
            invariant
                cols > 0,
                width == spec_words_for(cols as nat),
                data@.len() <= rows,
                forall|i: int|
                    0 <= i < data@.len() ==> row_wf((#[trigger] data@[i])@, cols as nat)
                        && row_bits(data@[i]@, cols as nat) == zero_row(cols as nat),
            decreases rows - data@.len(),
        {
            let row = zero_words(width);
            proof {
                lemma_zero_row(row@, cols as nat);
            }
            data.push(row);
        }
        let m = BinMatrix { nrows: rows, ncols: cols, rows: data };
        assert(m@ =~= zero_matrix(rows as nat, cols as nat));
        m
    }

    /// Number of rows.
    pub fn nrows(&self) -> (n: usize)
        ensures
            n == self.spec_nrows(),
    {
        self.nrows
    }

    /// Number of columns.
    pub fn ncols(&self) -> (n: usize)
        ensures
            n == self.spec_ncols(),
    {
        self.ncols
    }

    /// The bit in row `row`, column `col`.
    pub fn bit(&self, row: usize, col: usize) -> (b: bool)
        requires
            self.wf(),
            row < self.spec_nrows(),
            col < self.spec_ncols(),
        ensures
            b == self@[row as int][col as int],
    {
        mzd_read_bit(self, row, col)
    }
}

/// Reads the bit at row `row`, column `col` of `matrix`.
pub fn mzd_read_bit(matrix: &BinMatrix, row: usize, col: usize) -> (b: bool)
    requires
        matrix.wf(),
        row < matrix.spec_nrows(),
        col < matrix.spec_ncols(),
    ensures
        b == matrix@[row as int][col as int],
{
    assert(row_wf(matrix.rows[row as int]@, matrix.ncols as nat));
    get_bit(matrix.rows[row][col / 64], col % 64)
}

/// The words of row `row` of `matrix`: bit `b` of word `w` is column
/// `64 * w + b`.
pub fn mzd_row(matrix: &BinMatrix, row: usize) -> (words: &Vec<u64>)
    requires
        matrix.wf(),
        row < matrix.spec_nrows(),
    ensures
        row_wf(words@, matrix.spec_ncols()),
        row_bits(words@, matrix.spec_ncols()) == matrix@[row as int],
{
    assert(row_wf(matrix.rows[row as int]@, matrix.ncols as nat));
    &matrix.rows[row]
}

/// The words of the first row of `matrix`.
pub fn mzd_first_row(matrix: &BinMatrix) -> (words: &Vec<u64>)
    requires
        matrix.wf(),
    ensures
        row_wf(words@, matrix.spec_ncols()),
        row_bits(words@, matrix.spec_ncols()) == matrix@[0],
{
    mzd_row(matrix, 0)
}

/// Makes `a` the matrix with `value` modulo 2 on its diagonal and zeros
/// elsewhere: the identity for an odd `value`, zero for an even one.
pub fn mzd_set_ui(a: &mut BinMatrix, value: u32)
    requires
        old(a).wf(),
    ensures
        final(a).wf(),
        final(a).spec_nrows() == old(a).spec_nrows(),
        final(a).spec_ncols() == old(a).spec_ncols(),
        final(a)@ == Seq::new(
            old(a).spec_nrows(),
            |r: int| Seq::new(old(a).spec_ncols(), |c: int| r == c && value % 2 == 1),
        ),
{
    let rows = a.nrows;
    let cols = a.ncols;
    let diag = value % 2 == 1;
    let mut i: usize = 0;
    while i < rows
        invariant
            i <= rows,
            a.wf(),
            a.nrows == rows,
            a.ncols == cols,
            diag == (value % 2 == 1),
            forall|r: int|
                0 <= r < i ==> #[trigger] a@[r] == Seq::new(cols as nat, |c: int| r == c && diag),
        decreases rows - i,
    {
        a.clear_row(i);
        if diag && i < cols {
            mzd_write_bit(a, i, i, true);
        }
        assert(a@[i as int] =~= Seq::new(cols as nat, |c: int| i == c && diag));
        i += 1;
    }
    assert(a@ =~= Seq::new(
        rows as nat,
        |r: int| Seq::new(cols as nat, |c: int| r == c && value % 2 == 1),
    ));
}

/// Writes `value` at row `row`, column `col` of `matrix`; every other bit
/// stays as it was.
pub fn mzd_write_bit(matrix: &mut BinMatrix, row: usize, col: usize, value: bool)
    requires
        old(matrix).wf(),
        row < old(matrix).spec_nrows(),
        col < old(matrix).spec_ncols(),
    ensures
        final(matrix).wf(),
        final(matrix).spec_nrows() == old(matrix).spec_nrows(),
        final(matrix).spec_ncols() == old(matrix).spec_ncols(),
        final(matrix)@ == old(matrix)@.update(
            row as int,
            old(matrix)@[row as int].update(col as int, value),
        ),
{
    assert(row_wf(matrix.rows[row as int]@, matrix.ncols as nat));
    let ghost old_w = matrix.rows[row as int]@;
    let w = matrix.rows[row][col / 64];
    let nw = with_bit(w, col % 64, value);
    matrix.rows[row][col / 64] = nw;
    proof {
        lemma_row_write(old_w, nw, matrix.ncols as nat, col as int, value);
        assert(matrix.rows[row as int]@ =~= old_w.update(col as int / 64, nw));
        assert(final(matrix)@ =~= old(matrix)@.update(
            row as int,
            old(matrix)@[row as int].update(col as int, value),
        ));
    }
}

/// Two well-formed rows with the same bits are the same words.
pub(crate) proof fn lemma_row_ext(a: Seq<u64>, b: Seq<u64>, ncols: nat)
    requires
        ncols > 0,
        row_wf(a, ncols),
        row_wf(b, ncols),
        row_bits(a, ncols) == row_bits(b, ncols),
    ensures
        a == b,
{
    let m = spec_tail_mask(ncols);
    let last = a.len() - 1;
    assert forall|c: int| 0 <= c < a.len() implies a[c] == b[c] by {
        assert forall|k: int| 0 <= k < 64 implies word_bit(a[c], k) == word_bit(b[c], k) by {
            let j = c * 64 + k;
            if j < ncols {
                assert(j / 64 == c && j % 64 == k);
                assert(row_bits(a, ncols)[j] == word_bit(a[c], k));
                assert(row_bits(b, ncols)[j] == word_bit(b[c], k));
            } else {
                assert(last == (ncols - 1) / 64);
                assert(c == last);
                assert(ncols % 64 != 0 && k >= ncols % 64);
                lemma_tail_mask_bits(a[c], ncols, k);
                lemma_tail_mask_bits(b[c], ncols, k);
            }
        }
        lemma_words_equal(a[c], b[c]);
    }
    assert(a =~= b);
}

/// The word-wise exclusive or of two well-formed rows is their sum.
pub(crate) proof fn lemma_row_xor(a: Seq<u64>, b: Seq<u64>, r: Seq<u64>, ncols: nat)
    requires
        ncols > 0,
        row_wf(a, ncols),
        row_wf(b, ncols),
        r.len() == a.len(),
        forall|c: int| 0 <= c < a.len() ==> r[c] == a[c] ^ b[c],
    ensures
        row_wf(r, ncols),
        row_bits(r, ncols) == row_add(row_bits(a, ncols), row_bits(b, ncols)),
{
    let last = a.len() - 1;
    lemma_tail_mask_xor(a[last], b[last], spec_tail_mask(ncols));
    assert forall|j: int| 0 <= j < ncols implies row_bits(r, ncols)[j] == (row_bits(a, ncols)[j]
        != row_bits(b, ncols)[j]) by {
        lemma_bit_xor(a[j / 64], b[j / 64], j % 64);
    }
    assert(row_bits(r, ncols) =~= row_add(row_bits(a, ncols), row_bits(b, ncols)));
}

/// The bits of `w` from position `off` on.
pub open spec fn high_bits(w: u64, off: nat) -> u64 {
    if off % 64 == 0 {
        w
    } else {
        w ^ (w & spec_tail_mask(off))
    }
}

/// The word-wise exclusive or of a row with the part of another from
/// column `col0` on is their sum in those columns.
pub(crate) proof fn lemma_row_xor_from(
    a: Seq<u64>,
    b: Seq<u64>,
    r: Seq<u64>,
    ncols: nat,
    col0: int,
)
    requires
        ncols > 0,
        0 <= col0 <= ncols,
        row_wf(a, ncols),
        row_wf(b, ncols),
        r.len() == a.len(),
        forall|c: int| 0 <= c < col0 / 64 && c < a.len() ==> r[c] == a[c],
        forall|c: int|
            col0 / 64 <= c < a.len() ==> r[c] == a[c] ^ high_bits(
                b[c],
                if c == col0 / 64 {
                    (col0 % 64) as nat
                } else {
                    0
                },
            ),
    ensures
        row_wf(r, ncols),
        row_bits(r, ncols) == Seq::new(
            ncols,
            |j: int|
                if j >= col0 {
                    row_bits(a, ncols)[j] != row_bits(b, ncols)[j]
                } else {
                    row_bits(a, ncols)[j]
                },
        ),
{
    let w0 = col0 / 64;
    let off = col0 % 64;
    let last = a.len() - 1;
    let m = spec_tail_mask(ncols);
    // what is added to each word, bit by bit
    assert forall|c: int, k: int| w0 <= c < a.len() && 0 <= k < 64 implies #[trigger] word_bit(
        r[c],
        k,
    ) == (word_bit(a[c], k) != (word_bit(b[c], k) && c * 64 + k >= col0)) by {
        let x = high_bits(b[c], if c == w0 { off as nat } else { 0 });
        lemma_bit_xor(a[c], x, k);
        if c == w0 && off != 0 {
            lemma_bit_xor(b[c], b[c] & spec_tail_mask(off as nat), k);
            lemma_tail_mask_bits(b[c], off as nat, k);
        }
    }
    assert forall|j: int| 0 <= j < ncols implies row_bits(r, ncols)[j] == if j >= col0 {
        row_bits(a, ncols)[j] != row_bits(b, ncols)[j]
    } else {
        row_bits(a, ncols)[j]
    } by {
        let c = j / 64;
        let k = j % 64;
        if c >= w0 {
            assert(word_bit(r[c], k) == (word_bit(a[c], k) != (word_bit(b[c], k) && c * 64 + k
                >= col0)));
        }
    }
    if last >= w0 {
        assert forall|k: int| 0 <= k < 64 implies word_bit(r[last] & m, k) == word_bit(
            r[last],
            k,
        ) by {
            lemma_tail_mask_bits(r[last], ncols, k);
            lemma_tail_mask_bits(a[last], ncols, k);
            lemma_tail_mask_bits(b[last], ncols, k);
            assert(word_bit(r[last], k) == (word_bit(a[last], k) != (word_bit(b[last], k) && last
                * 64 + k >= col0)));
        }
        lemma_words_equal(r[last] & m, r[last]);
    }
    assert(row_bits(r, ncols) =~= Seq::new(
        ncols,
        |j: int|
            if j >= col0 {
                row_bits(a, ncols)[j] != row_bits(b, ncols)[j]
            } else {
                row_bits(a, ncols)[j]
            },
    ));
}

/// Cutting the last word of a row at the last column gives a well-formed
/// row with the same bits.
pub(crate) proof fn lemma_row_masked(src: Seq<u64>, r: Seq<u64>, ncols: nat)
    requires
        ncols > 0,
        src.len() >= spec_words_for(ncols),
        r.len() == spec_words_for(ncols),
        forall|c: int| 0 <= c < r.len() - 1 ==> r[c] == src[c],
        r[r.len() - 1] == src[r.len() - 1] & spec_tail_mask(ncols),
    ensures
        row_wf(r, ncols),
        row_bits(r, ncols) == row_bits(src, ncols),
{
    let last = r.len() - 1;
    let m = spec_tail_mask(ncols);
    let w = src[last];
    assert((w & m) & m == w & m) by (bit_vector);
    assert forall|j: int| 0 <= j < ncols implies row_bits(r, ncols)[j] == row_bits(src, ncols)[j] by {
        if j / 64 == last {
            lemma_tail_mask_bits(w, ncols, j % 64);
        }
    }
    assert(row_bits(r, ncols) =~= row_bits(src, ncols));
}

impl BinMatrix {
    /// The words of every row.
    pub open(crate) spec fn storage(&self) -> Seq<Seq<u64>> {
        Seq::new(self.rows.len() as nat, |i: int| self.rows[i]@)
    }

    /// Whether two values have the same dimensions and hold the same words.
    pub open(crate) spec fn same_words(&self, other: &BinMatrix) -> bool {
        &&& self.nrows == other.nrows
        &&& self.ncols == other.ncols
        &&& self.storage() == other.storage()
    }

    /// Two well-formed values hold the same words exactly when they stand
    /// for the same matrix.
    pub proof fn lemma_eq_spec(&self, other: &BinMatrix)
        requires
            self.wf(),
            other.wf(),
        ensures
            self.same_words(other) <==> self@ == other@,
    {
        if self@ == other@ {
            assert(self@.len() == other@.len());
            assert(self@[0].len() == other@[0].len());
            assert forall|i: int| 0 <= i < self.nrows implies self.rows[i]@ == other.rows[i]@ by {
                assert(self@[i] == other@[i]);
                lemma_row_ext(self.rows[i]@, other.rows[i]@, self.ncols as nat);
            }
            assert(self.storage() =~= other.storage());
        }
        if self.same_words(other) {
            assert forall|i: int| 0 <= i < self.nrows implies self@[i] == other@[i] by {
                assert(self.storage()[i] == other.storage()[i]);
            }
            assert(self@ =~= other@);
        }
    }

    /// The `n` x `n` identity matrix.
    pub fn identity(rows: usize) -> (m: BinMatrix)
        requires
            rows > 0,
        ensures
            m.wf(),
            m.spec_nrows() == rows,
            m.spec_ncols() == rows,
            m@ == identity_matrix(rows as nat),
    {
        let mut m = BinMatrix::zero(rows, rows);
        let mut i: usize = 0;
        assert(m@ =~~= Seq::new(
            rows as nat,
            |r: int| Seq::new(rows as nat, |c: int| r == c && r < i),
        ));
        while i < rows
            invariant
                i <= rows,
                m.wf(),
                m.nrows == rows,
                m.ncols == rows,
                m@ == Seq::new(rows as nat, |r: int| Seq::new(rows as nat, |c: int| r == c && r < i)),
            decreases rows - i,
        {
            mzd_write_bit(&mut m, i, i, true);
            i += 1;
            assert(m@ =~~= Seq::new(
                rows as nat,
                |r: int| Seq::new(rows as nat, |c: int| r == c && r < i),
            ));
        }
        assert(m@ =~~= identity_matrix(rows as nat));
        m
    }

    /// The matrix whose row `i` holds the first `rowlen` bits packed in
    /// `rows[i]`, lowest bit of the first word first.
    pub fn from_slices(rows: &[Vec<u64>], rowlen: usize) -> (m: BinMatrix)
        requires
            rows@.len() > 0,
            rowlen > 0,
            forall|i: int| 0 <= i < rows@.len() ==> (#[trigger] rows@[i])@.len() * 64 >= rowlen,
        ensures
            m.wf(),
            m.spec_nrows() == rows@.len(),
            m.spec_ncols() == rowlen,
            m@ == Seq::new(rows@.len(), |i: int| row_bits(rows@[i]@, rowlen as nat)),
    {
        let width = words_for(rowlen);
        let mask = tail_mask(rowlen);
        let mut data: Vec<Vec<u64>> = Vec::new();
        let mut i: usize = 0;
        while i < rows.len()
            invariant
                i <= rows@.len(),
                rowlen > 0,
                width == spec_words_for(rowlen as nat),
                mask == spec_tail_mask(rowlen as nat),
                data@.len() == i,
                forall|k: int| 0 <= k < rows@.len() ==> (#[trigger] rows@[k])@.len() * 64 >= rowlen,
                forall|k: int|
                    0 <= k < i ==> row_wf((#[trigger] data@[k])@, rowlen as nat) && row_bits(
                        data@[k]@,
                        rowlen as nat,
                    ) == row_bits(rows@[k]@, rowlen as nat),
            decreases rows@.len() - i,
        {
            let src = &rows[i];
            assert(rows@[i as int]@.len() * 64 >= rowlen);
            let mut row: Vec<u64> = Vec::new();
            let mut c: usize = 0;
            while c < width
                invariant
                    c <= width,
                    width <= src@.len(),
                    width > 0,
                    row@.len() == c,
                    forall|k: int| 0 <= k < c && k < width - 1 ==> row@[k] == src@[k],
                    c == width ==> row@[width - 1] == src@[width - 1] & mask,
                decreases width - c,
            {
                let w = src[c];
                if c + 1 == width {
                    row.push(w & mask);
                } else {
                    row.push(w);
                }
                c += 1;
            }
            proof {
                lemma_row_masked(src@, row@, rowlen as nat);
            }
            data.push(row);
            i += 1;
        }
        let m = BinMatrix { nrows: rows.len(), ncols: rowlen, rows: data };
        assert(m@ =~= Seq::new(rows@.len(), |i: int| row_bits(rows@[i]@, rowlen as nat)));
        m
    }

    /// The entry-wise sum of `self` and `other`.
    pub fn add(&self, other: &BinMatrix) -> (m: BinMatrix)
        requires
            self.wf(),
            other.wf(),
            self.spec_nrows() == other.spec_nrows(),
            self.spec_ncols() == other.spec_ncols(),
        ensures
            m.wf(),
            m.spec_nrows() == self.spec_nrows(),
            m.spec_ncols() == self.spec_ncols(),
            m@ == mat_add(self@, other@),
    {
        let mut m = self.clone();
        m.add_assign(other);
        m
    }

    /// Adds `other` to `self` in place.
    pub fn add_assign(&mut self, other: &BinMatrix)
        requires
            old(self).wf(),
            other.wf(),
            old(self).spec_nrows() == other.spec_nrows(),
            old(self).spec_ncols() == other.spec_ncols(),
        ensures
            final(self).wf(),
            final(self).spec_nrows() == old(self).spec_nrows(),
            final(self).spec_ncols() == old(self).spec_ncols(),
            final(self)@ == mat_add(old(self)@, other@),
    {
        let ghost orig = self@;
        let mut i: usize = 0;
        while i < self.nrows
            invariant
                i <= self.nrows,
                self.wf(),
                other.wf(),
                self.nrows == other.nrows,
                self.ncols == other.ncols,
                self.nrows == old(self).nrows,
                self.ncols == old(self).ncols,
                orig == old(self)@,
                forall|k: int| 0 <= k < i ==> #[trigger] self@[k] == row_add(orig[k], other@[k]),
                forall|k: int| i <= k < self.nrows ==> #[trigger] self@[k] == orig[k],
            decreases self.nrows - i,
        {
            self.row_xor_from(i, other, i);
            i += 1;
        }
        assert(self@ =~= mat_add(orig, other@));
    }

    /// Adds row `src_row` of `src` to row `dst` of `self`.
    pub fn row_xor_from(&mut self, dst: usize, src: &BinMatrix, src_row: usize)
        requires
            old(self).wf(),
            src.wf(),
            old(self).spec_ncols() == src.spec_ncols(),
            dst < old(self).spec_nrows(),
            src_row < src.spec_nrows(),
        ensures
            final(self).wf(),
            final(self).spec_nrows() == old(self).spec_nrows(),
            final(self).spec_ncols() == old(self).spec_ncols(),
            final(self)@ == old(self)@.update(
                dst as int,
                row_add(old(self)@[dst as int], src@[src_row as int]),
            ),
    {
        let ghost a = self.rows[dst as int]@;
        let ghost b = src.rows[src_row as int]@;
        assert(row_wf(a, self.ncols as nat));
        assert(row_wf(b, self.ncols as nat));
        let width = self.rows[dst].len();
        let mut c: usize = 0;
        while c < width
            invariant
                c <= width,
                width == a.len(),
                width == b.len(),
                b == src.rows[src_row as int]@,
                dst < self.rows.len(),
                src_row < src.rows.len(),
                self.nrows == old(self).nrows,
                self.ncols == old(self).ncols,
                self.rows.len() == old(self).rows.len(),
                self.rows[dst as int]@.len() == width,
                forall|k: int|
                    0 <= k < self.rows.len() && k != dst ==> self.rows[k] == old(self).rows[k],
                forall|k: int| 0 <= k < c ==> self.rows[dst as int]@[k] == a[k] ^ b[k],
                forall|k: int| c <= k < width ==> self.rows[dst as int]@[k] == a[k],
            decreases width - c,
        {
            let w = src.rows[src_row][c];
            let v = self.rows[dst][c];
            self.rows[dst][c] = v ^ w;
            c += 1;
        }
        proof {
            lemma_row_xor(a, b, self.rows[dst as int]@, self.ncols as nat);
            assert(final(self)@ =~= old(self)@.update(
                dst as int,
                row_add(old(self)@[dst as int], src@[src_row as int]),
            ));
        }
    }
}

impl BinMatrix {
    /// Adds row `src` of `self` to its row `dst`.
    pub fn add_row(&mut self, dst: usize, src: usize)
        requires
            old(self).wf(),
            dst < old(self).spec_nrows(),
            src < old(self).spec_nrows(),
            dst != src,
        ensures
            final(self).wf(),
            final(self).spec_nrows() == old(self).spec_nrows(),
            final(self).spec_ncols() == old(self).spec_ncols(),
            final(self)@ == with_row_added(old(self)@, dst as int, src as int),
    {
        let ghost a = self.rows[dst as int]@;
        let ghost b = self.rows[src as int]@;
        assert(row_wf(a, self.ncols as nat));
        assert(row_wf(b, self.ncols as nat));
        let width = self.rows[dst].len();
        let mut c: usize = 0;
        while c < width
            invariant
                c <= width,
                width == a.len(),
                width == b.len(),
                dst != src,
                dst < self.rows.len(),
                src < self.rows.len(),
                self.rows[src as int]@ == b,
                self.nrows == old(self).nrows,
                self.ncols == old(self).ncols,
                self.rows.len() == old(self).rows.len(),
                self.rows[dst as int]@.len() == width,
                forall|k: int|
                    0 <= k < self.rows.len() && k != dst ==> self.rows[k] == old(self).rows[k],
                forall|k: int| 0 <= k < c ==> self.rows[dst as int]@[k] == a[k] ^ b[k],
                forall|k: int| c <= k < width ==> self.rows[dst as int]@[k] == a[k],
            decreases width - c,
        {
            let w = self.rows[src][c];
            let v = self.rows[dst][c];
            self.rows[dst][c] = v ^ w;
            c += 1;
        }
        proof {
            lemma_row_xor(a, b, self.rows[dst as int]@, self.ncols as nat);
            assert(final(self)@ =~= with_row_added(old(self)@, dst as int, src as int));
        }
    }

    /// Overwrites row `dst` with row `src`.
    pub fn copy_row(&mut self, dst: usize, src: usize)
        requires
            old(self).wf(),
            dst < old(self).spec_nrows(),
            src < old(self).spec_nrows(),
        ensures
            final(self).wf(),
            final(self).spec_nrows() == old(self).spec_nrows(),
            final(self).spec_ncols() == old(self).spec_ncols(),
            final(self)@ == old(self)@.update(dst as int, old(self)@[src as int]),
    {
        if dst == src {
            assert(self@ =~= self@.update(dst as int, self@[src as int]));
            return ;
        }
        let ghost b = self.rows[src as int]@;
        assert(row_wf(self.rows[dst as int]@, self.ncols as nat));
        assert(row_wf(b, self.ncols as nat));
        let width = self.rows[dst].len();
        let mut c: usize = 0;
        while c < width
            invariant
                c <= width,
                width == b.len(),
                dst != src,
                dst < self.rows.len(),
                src < self.rows.len(),
                self.rows[src as int]@ == b,
                self.nrows == old(self).nrows,
                self.ncols == old(self).ncols,
                self.rows.len() == old(self).rows.len(),
                self.rows[dst as int]@.len() == width,
                forall|k: int|
                    0 <= k < self.rows.len() && k != dst ==> self.rows[k] == old(self).rows[k],
                forall|k: int| 0 <= k < c ==> self.rows[dst as int]@[k] == b[k],
            decreases width - c,
        {
            let w = self.rows[src][c];
            self.rows[dst][c] = w;
            c += 1;
        }
        proof {
            assert(self.rows[dst as int]@ =~= b);
            assert(final(self)@ =~= old(self)@.update(dst as int, old(self)@[src as int]));
        }
    }

    /// Sets every bit of row `row` to zero.
    pub fn clear_row(&mut self, row: usize)
        requires
            old(self).wf(),
            row < old(self).spec_nrows(),
        ensures
            final(self).wf(),
            final(self).spec_nrows() == old(self).spec_nrows(),
            final(self).spec_ncols() == old(self).spec_ncols(),
            final(self)@ == old(self)@.update(row as int, zero_row(old(self).spec_ncols())),
    {
        assert(row_wf(self.rows[row as int]@, self.ncols as nat));
        let width = self.rows[row].len();
        let mut c: usize = 0;
        while c < width
            invariant
                c <= width,
                row < self.rows.len(),
                self.nrows == old(self).nrows,
                self.ncols == old(self).ncols,
                self.rows.len() == old(self).rows.len(),
                self.rows[row as int]@.len() == width,
                forall|k: int|
                    0 <= k < self.rows.len() && k != row ==> self.rows[k] == old(self).rows[k],
                forall|k: int| 0 <= k < c ==> self.rows[row as int]@[k] == 0,
            decreases width - c,
        {
            self.rows[row][c] = 0;
            c += 1;
        }
        proof {
            lemma_zero_row(self.rows[row as int]@, self.ncols as nat);
            assert(final(self)@ =~= old(self)@.update(
                row as int,
                zero_row(old(self).spec_ncols()),
            ));
        }
    }

    /// Adds row `src` to row `dst` in the columns from `col0` on.
    pub fn add_row_from(&mut self, dst: usize, src: usize, col0: usize)
        requires
            old(self).wf(),
            dst < old(self).spec_nrows(),
            src < old(self).spec_nrows(),
            dst != src,
            col0 <= old(self).spec_ncols(),
        ensures
            final(self).wf(),
            final(self).spec_nrows() == old(self).spec_nrows(),
            final(self).spec_ncols() == old(self).spec_ncols(),
            final(self)@ == with_row_added_from(old(self)@, dst as int, src as int, col0 as int),
    {
        let ghost a = self.rows[dst as int]@;
        let ghost b = self.rows[src as int]@;
        assert(row_wf(a, self.ncols as nat));
        assert(row_wf(b, self.ncols as nat));
        let width = self.rows[dst].len();
        let w0: usize = col0 / 64;
        let off: usize = col0 % 64;
        let mut c: usize = w0;
        while c < width
            invariant
                w0 <= c,
                c <= width || c == w0,
                w0 == col0 / 64,
                off == col0 % 64,
                width == a.len(),
                width == b.len(),
                dst != src,
                dst < self.rows.len(),
                src < self.rows.len(),
                self.rows[src as int]@ == b,
                self.nrows == old(self).nrows,
                self.ncols == old(self).ncols,
                self.rows.len() == old(self).rows.len(),
                self.rows[dst as int]@.len() == width,
                forall|k: int|
                    0 <= k < self.rows.len() && k != dst ==> self.rows[k] == old(self).rows[k],
                forall|k: int| 0 <= k < w0 && k < width ==> self.rows[dst as int]@[k] == a[k],
                forall|k: int|
                    w0 <= k < c ==> self.rows[dst as int]@[k] == a[k] ^ high_bits(
                        b[k],
                        if k == w0 {
                            off as nat
                        } else {
                            0
                        },
                    ),
                forall|k: int| c <= k < width ==> self.rows[dst as int]@[k] == a[k],
            decreases width - c,
        {
            let w = self.rows[src][c];
            let x = if c == w0 && off != 0 {
                w ^ (w & tail_mask(off))
            } else {
                w
            };
            let v = self.rows[dst][c];
            self.rows[dst][c] = v ^ x;
            c += 1;
        }
        proof {
            lemma_row_xor_from(a, b, self.rows[dst as int]@, self.ncols as nat, col0 as int);
            assert(final(self)@ =~= with_row_added_from(
                old(self)@,
                dst as int,
                src as int,
                col0 as int,
            ));
        }
    }

    /// Exchanges columns `a` and `b`.
    pub fn swap_cols(&mut self, a: usize, b: usize)
        requires
            old(self).wf(),
            a < old(self).spec_ncols(),
            b < old(self).spec_ncols(),
        ensures
            final(self).wf(),
            final(self).spec_nrows() == old(self).spec_nrows(),
            final(self).spec_ncols() == old(self).spec_ncols(),
            final(self)@ == with_cols_swapped(old(self)@, a as int, b as int),
    {
        let ghost orig = self@;
        let mut i: usize = 0;
        while i < self.nrows
            invariant
                i <= self.nrows,
                self.wf(),
                self.nrows == old(self).nrows,
                self.ncols == old(self).ncols,
                a < self.ncols,
                b < self.ncols,
                orig == old(self)@,
                forall|k: int|
                    0 <= k < i ==> #[trigger] self@[k] == orig[k].update(
                        a as int,
                        orig[k][b as int],
                    ).update(b as int, orig[k][a as int]),
                forall|k: int| i <= k < self.nrows ==> #[trigger] self@[k] == orig[k],
            decreases self.nrows - i,
        {
            let x = mzd_read_bit(self, i, a);
            let y = mzd_read_bit(self, i, b);
            mzd_write_bit(self, i, a, y);
            mzd_write_bit(self, i, b, x);
            i += 1;
        }
        assert(self@ =~= with_cols_swapped(orig, a as int, b as int));
    }

    /// Exchanges rows `a` and `b`.
    pub fn swap_rows(&mut self, a: usize, b: usize)
        requires
            old(self).wf(),
            a < old(self).spec_nrows(),
            b < old(self).spec_nrows(),
        ensures
            final(self).wf(),
            final(self).spec_nrows() == old(self).spec_nrows(),
            final(self).spec_ncols() == old(self).spec_ncols(),
            final(self)@ == with_rows_swapped(old(self)@, a as int, b as int),
    {
        if a == b {
            assert(self@ =~= with_rows_swapped(self@, a as int, b as int));
            return ;
        }
        let ghost ra = self.rows[a as int]@;
        let ghost rb = self.rows[b as int]@;
        assert(row_wf(ra, self.ncols as nat));
        assert(row_wf(rb, self.ncols as nat));
        let width = self.rows[a].len();
        let mut c: usize = 0;
        while c < width
            invariant
                c <= width,
                width == ra.len(),
                width == rb.len(),
                a != b,
                a < self.rows.len(),
                b < self.rows.len(),
                self.nrows == old(self).nrows,
                self.ncols == old(self).ncols,
                self.rows.len() == old(self).rows.len(),
                self.rows[a as int]@.len() == width,
                self.rows[b as int]@.len() == width,
                forall|k: int|
                    0 <= k < self.rows.len() && k != a && k != b ==> self.rows[k] == old(
                        self,
                    ).rows[k],
                forall|k: int| 0 <= k < c ==> self.rows[a as int]@[k] == rb[k],
                forall|k: int| 0 <= k < c ==> self.rows[b as int]@[k] == ra[k],
                forall|k: int| c <= k < width ==> self.rows[a as int]@[k] == ra[k],
                forall|k: int| c <= k < width ==> self.rows[b as int]@[k] == rb[k],
            decreases width - c,
        {
            let x = self.rows[a][c];
            let y = self.rows[b][c];
            self.rows[a][c] = y;
            self.rows[b][c] = x;
            c += 1;
        }
        proof {
            assert(self.rows[a as int]@ =~= rb);
            assert(self.rows[b as int]@ =~= ra);
            assert(final(self)@ =~= with_rows_swapped(old(self)@, a as int, b as int));
        }
    }
}

impl Clone for BinMatrix {
    fn clone(&self) -> (m: BinMatrix)
        ensures
            m.same_words(self),
            self.wf() ==> m.wf() && m@ == self@,
    {
        let mut data: Vec<Vec<u64>> = Vec::new();
        let mut i: usize = 0;
        while i < self.rows.len()
            invariant
                i <= self.rows.len(),
                data@.len() == i,
                forall|k: int| 0 <= k < i ==> (#[trigger] data@[k])@ == self.rows[k]@,
            decreases self.rows.len() - i,
        {
            let src = &self.rows[i];
            let mut row: Vec<u64> = Vec::new();
            let mut c: usize = 0;
            while c < src.len()
                invariant
                    c <= src@.len(),
                    row@ == src@.take(c as int),
                decreases src@.len() - c,
            {
                row.push(src[c]);
                c += 1;
                assert(row@ =~= src@.take(c as int));
            }
            assert(row@ =~= src@);
            data.push(row);
            i += 1;
        }
        let m = BinMatrix { nrows: self.nrows, ncols: self.ncols, rows: data };
        proof {
            assert(m.storage() =~= self.storage());
            if self.wf() {
                assert forall|k: int| 0 <= k < m.nrows implies row_wf(
                    (#[trigger] m.rows[k])@,
                    m.ncols as nat,
                ) by {
                    assert(m.rows[k]@ == self.rows[k]@);
                    assert(row_wf(self.rows[k]@, self.ncols as nat));
                }
                assert(m@ =~= self@);
            }
        }
        m
    }
}

impl PartialEq for BinMatrix {
    fn eq(&self, other: &BinMatrix) -> (r: bool) {
        if self.nrows != other.nrows || self.ncols != other.ncols || self.rows.len()
            != other.rows.len() {
            assert(self.storage().len() != other.storage().len() || !self.same_words(other));
            return false;
        }
        let mut i: usize = 0;
        while i < self.rows.len()
            invariant
                i <= self.rows.len(),
                self.rows.len() == other.rows.len(),
                forall|k: int| 0 <= k < i ==> self.rows[k]@ == other.rows[k]@,
            decreases self.rows.len() - i,
        {
            let a = &self.rows[i];
            let b = &other.rows[i];
            if a.len() != b.len() {
                assert(self.storage()[i as int] != other.storage()[i as int]);
                return false;
            }
            let mut c: usize = 0;
            while c < a.len()
                invariant
                    c <= a@.len(),
                    a@.len() == b@.len(),
                    a@ == self.rows[i as int]@,
                    b@ == other.rows[i as int]@,
                    i < self.rows.len(),
                    self.rows.len() == other.rows.len(),
                    forall|k: int| 0 <= k < c ==> a@[k] == b@[k],
                decreases a@.len() - c,
            {
                if a[c] != b[c] {
                    assert(self.storage()[i as int] != other.storage()[i as int]);
                    return false;
                }
                c += 1;
            }
            assert(a@ =~= b@);
            i += 1;
        }
        assert(self.storage() =~= other.storage());
        true
    }
}

impl PartialEqSpecImpl for BinMatrix {
    open spec fn obeys_eq_spec() -> bool {
        true
    }

    open spec fn eq_spec(&self, other: &BinMatrix) -> bool {
        self.same_words(other)
    }
}

impl Eq for BinMatrix {

}

} // verus!
