//! Elimination by the Method of the Four Russians: pivots are found for a
//! strip of columns at a time, and the rows outside the strip are then
//! cleared with one lookup each in a table of all sums of the pivot rows.
use crate::bits::{get_bit, word_bit};
use crate::echelon::{echelon, has_rank, in_echelon_form};
use crate::gf2::{
    cols_of, is_matrix, lemma_xor_sum_ext, lemma_xor_sum_pick, lemma_xor_sum_zero, row_add,
    xor_sum,
};
use crate::graycode::{m4ri_build_code, m4ri_opt_k, MAX_KAY};
use crate::matrix::{mzd_read_bit, BinMatrix};
use crate::rowops::{
    lemma_row_equivalent_add, lemma_row_equivalent_refl, lemma_row_equivalent_swap,
    lemma_row_equivalent_trans, row_equivalent, with_row_added,
};
use crate::russian::{combo_row, combo_terms, mzd_make_table, read_bits};
use vstd::prelude::*;

verus! {

/// The products whose sum is what is added to entry `x` of `row` when its
/// strip is cleared: the pivot rows `r0 + t` for which `row` has a bit in
/// column `c + t`.
pub open spec fn reduce_terms(m: Seq<Seq<bool>>, row: Seq<bool>, r0: int, c: int, x: int) -> spec_fn(
    int,
) -> bool {
    |t: int| row[c + t] && m[r0 + t][x]
}

/// `row` with the pivot row `r0 + t` of `m` added for each `t < k` for which
/// `row` has a bit in column `c + t`.
pub open spec fn reduced(m: Seq<Seq<bool>>, row: Seq<bool>, r0: int, c: int, k: nat) -> Seq<bool> {
    Seq::new(row.len(), |x: int| row[x] != xor_sum(reduce_terms(m, row, r0, c, x), k))
}

/// Whether the `k` rows of `m` from `r0` on hold the identity in the `k`
/// columns from `c` on.
pub open spec fn strip_pivots(m: Seq<Seq<bool>>, r0: int, c: int, k: int) -> bool {
    forall|i: int, x: int|
        r0 <= i < r0 + k && c <= x < c + k ==> #[trigger] m[i][x] == (i - r0 == x - c)
}

/// Whether the rows of `m` from `r0` on are zero in the columns before `c`.
pub open spec fn zero_left(m: Seq<Seq<bool>>, r0: int, c: int) -> bool {
    forall|i: int, x: int| r0 <= i < m.len() && 0 <= x < c ==> !#[trigger] m[i][x]
}

/// Clearing with no pivot row changes nothing.
proof fn lemma_reduced_none(m: Seq<Seq<bool>>, row: Seq<bool>, r0: int, c: int)
    ensures
        reduced(m, row, r0, c, 0) == row,
{
    assert(reduced(m, row, r0, c, 0) =~= row);
}

/// Clearing with no pivot row changes no row.
proof fn lemma_reduced_none_all(m: Seq<Seq<bool>>, r0: int, c: int, rows: nat)
    requires
        m.len() == rows,
    ensures
        forall|i: int| 0 <= i < rows ==> #[trigger] reduced(m, m[i], r0, c, 0) == m[i],
{
    assert forall|i: int| 0 <= i < rows implies #[trigger] reduced(m, m[i], r0, c, 0) == m[i] by {
        lemma_reduced_none(m, m[i], r0, c);
    }
}

/// Clearing with one pivot row more adds that row where `row` has a bit in
/// its column.
proof fn lemma_reduced_step(m: Seq<Seq<bool>>, row: Seq<bool>, r0: int, c: int, k: nat)
    requires
        m[r0 + k].len() == row.len(),
    ensures
        reduced(m, row, r0, c, k + 1) == if row[c + k] {
            row_add(reduced(m, row, r0, c, k), m[r0 + k])
        } else {
            reduced(m, row, r0, c, k)
        },
{
    let lhs = reduced(m, row, r0, c, k + 1);
    let rhs = if row[c + k] {
        row_add(reduced(m, row, r0, c, k), m[r0 + k])
    } else {
        reduced(m, row, r0, c, k)
    };
    assert forall|x: int| 0 <= x < row.len() implies lhs[x] == rhs[x] by {
        let f = reduce_terms(m, row, r0, c, x);
        assert(xor_sum(f, k + 1) == (xor_sum(f, k) != f(k as int)));
    }
    assert(lhs =~= rhs);
}

/// Clearing with the pivot rows is adding the sum of the pivot rows that
/// the bits of `row` in the strip select.
proof fn lemma_reduced_is_combo(
    m: Seq<Seq<bool>>,
    row: Seq<bool>,
    r0: int,
    c: int,
    k: nat,
    v: u64,
)
    requires
        row.len() == cols_of(m),
        forall|t: int| 0 <= t < k ==> #[trigger] word_bit(v, t) == row[c + t],
    ensures
        reduced(m, row, r0, c, k) == row_add(row, combo_row(m, r0, k, v)),
{
    let lhs = reduced(m, row, r0, c, k);
    let rhs = row_add(row, combo_row(m, r0, k, v));
    assert forall|x: int| 0 <= x < row.len() implies lhs[x] == rhs[x] by {
        let f = reduce_terms(m, row, r0, c, x);
        let g = combo_terms(m, r0, v, x);
        assert forall|t: int| 0 <= t < k implies #[trigger] f(t) == g(t) by {
            assert(word_bit(v, t) == row[c + t]);
        }
        lemma_xor_sum_ext(f, g, k);
    }
    assert(lhs =~= rhs);
}

/// The sums of pivot rows depend on the pivot rows only.
proof fn lemma_combo_same_rows(
    m1: Seq<Seq<bool>>,
    m2: Seq<Seq<bool>>,
    r0: int,
    k: nat,
    v: u64,
)
    requires
        cols_of(m1) == cols_of(m2),
        forall|i: int| r0 <= i < r0 + k ==> #[trigger] m1[i] == m2[i],
    ensures
        combo_row(m1, r0, k, v) == combo_row(m2, r0, k, v),
{
    assert forall|x: int| 0 <= x < cols_of(m1) implies combo_row(m1, r0, k, v)[x] == combo_row(
        m2,
        r0,
        k,
        v,
    )[x] by {
        let f = combo_terms(m1, r0, v, x);
        let g = combo_terms(m2, r0, v, x);
        assert forall|t: int| 0 <= t < k implies #[trigger] f(t) == g(t) by {
            assert(m1[r0 + t] == m2[r0 + t]);
        }
        lemma_xor_sum_ext(f, g, k);
    }
    assert(combo_row(m1, r0, k, v) =~= combo_row(m2, r0, k, v));
}

/// A cleared row has no bit in the pivot columns, and keeps its bits in the
/// columns in which the pivot rows are zero.
proof fn lemma_reduced_clears(
    m: Seq<Seq<bool>>,
    row: Seq<bool>,
    r0: int,
    c: int,
    k: nat,
    rows: nat,
    cols: nat,
)
    requires
        is_matrix(m, rows, cols),
        row.len() == cols,
        0 <= r0,
        r0 + k <= rows,
        0 <= c,
        c + k <= cols,
        strip_pivots(m, r0, c, k as int),
    ensures
        forall|x: int| c <= x < c + k ==> !#[trigger] reduced(m, row, r0, c, k)[x],
        forall|x: int|
            0 <= x < cols && (forall|t: int| 0 <= t < k ==> !(#[trigger] m[r0 + t])[x])
                ==> #[trigger] reduced(m, row, r0, c, k)[x] == row[x],
{
    assert forall|x: int| c <= x < c + k implies !#[trigger] reduced(m, row, r0, c, k)[x] by {
        let f = reduce_terms(m, row, r0, c, x);
        assert forall|t: int| 0 <= t < k && t != x - c implies !#[trigger] f(t) by {
            assert(m[r0 + t][x] == (r0 + t - r0 == x - c));
        }
        lemma_xor_sum_pick(f, k, x - c);
        assert(m[r0 + (x - c)][x] == (r0 + (x - c) - r0 == x - c));
    }
    assert forall|x: int|
        0 <= x < cols && (forall|t: int| 0 <= t < k ==> !(#[trigger] m[r0 + t])[x])
            implies #[trigger] reduced(m, row, r0, c, k)[x] == row[x] by {
        let f = reduce_terms(m, row, r0, c, x);
        assert forall|t: int| 0 <= t < k implies !#[trigger] f(t) by {
            assert(!m[r0 + t][x]);
        }
        lemma_xor_sum_zero(f, k);
    }
}

/// Clearing a row outside the strip keeps a matrix row-equivalent to where
/// it came from.
proof fn lemma_row_equivalent_reduce(
    orig: Seq<Seq<bool>>,
    m: Seq<Seq<bool>>,
    i: int,
    r0: int,
    c: int,
    k: nat,
    rows: nat,
    cols: nat,
)
    requires
        is_matrix(orig, rows, cols),
        is_matrix(m, rows, cols),
        row_equivalent(orig, m),
        0 <= i < rows,
        0 <= r0,
        r0 + k <= rows,
        i < r0 || i >= r0 + k,
    ensures
        row_equivalent(orig, m.update(i, reduced(m, m[i], r0, c, k))),
    decreases k,
{
    if k == 0 {
        lemma_reduced_none(m, m[i], r0, c);
        assert(m.update(i, m[i]) =~= m);
    } else {
        let k1 = (k - 1) as nat;
        lemma_row_equivalent_reduce(orig, m, i, r0, c, k1, rows, cols);
        let before = m.update(i, reduced(m, m[i], r0, c, k1));
        lemma_reduced_step(m, m[i], r0, c, k1);
        if m[i][c + k1] {
            assert(is_matrix(before, rows, cols));
            lemma_row_equivalent_add(orig, before, rows, cols, i, r0 + k1);
            assert(with_row_added(before, i, r0 + k1) =~= m.update(
                i,
                reduced(m, m[i], r0, c, k),
            ));
        }
    }
}

/// `m` with the rows from `start` up to `end` cleared.
pub open spec fn processed(
    m: Seq<Seq<bool>>,
    start: int,
    end: int,
    r0: int,
    c: int,
    k: nat,
) -> Seq<Seq<bool>> {
    Seq::new(
        m.len(),
        |i: int|
            if start <= i < end {
                reduced(m, m[i], r0, c, k)
            } else {
                m[i]
            },
    )
}

/// What a row is cleared to depends on the row and on the pivot rows only.
proof fn lemma_reduced_same_rows(
    m1: Seq<Seq<bool>>,
    m2: Seq<Seq<bool>>,
    row: Seq<bool>,
    r0: int,
    c: int,
    k: nat,
)
    requires
        forall|i: int| r0 <= i < r0 + k ==> #[trigger] m1[i] == m2[i],
    ensures
        reduced(m1, row, r0, c, k) == reduced(m2, row, r0, c, k),
{
    assert forall|x: int| 0 <= x < row.len() implies reduced(m1, row, r0, c, k)[x] == reduced(
        m2,
        row,
        r0,
        c,
        k,
    )[x] by {
        let f = reduce_terms(m1, row, r0, c, x);
        let g = reduce_terms(m2, row, r0, c, x);
        assert forall|t: int| 0 <= t < k implies #[trigger] f(t) == g(t) by {
            assert(m1[r0 + t] == m2[r0 + t]);
        }
        lemma_xor_sum_ext(f, g, k);
    }
    assert(reduced(m1, row, r0, c, k) =~= reduced(m2, row, r0, c, k));
}

/// Clearing rows outside the strip keeps a matrix row-equivalent to where
/// it came from.
proof fn lemma_row_equivalent_processed(
    orig: Seq<Seq<bool>>,
    m: Seq<Seq<bool>>,
    start: int,
    end: int,
    r0: int,
    c: int,
    k: nat,
    rows: nat,
    cols: nat,
)
    requires
        is_matrix(orig, rows, cols),
        is_matrix(m, rows, cols),
        row_equivalent(orig, m),
        0 <= start,
        end <= rows,
        0 <= r0,
        r0 + k <= rows,
        end <= r0 || start >= r0 + k,
    ensures
        row_equivalent(orig, processed(m, start, end, r0, c, k)),
    decreases end - start,
{
    if end <= start {
        assert(processed(m, start, end, r0, c, k) =~= m);
    } else {
        lemma_row_equivalent_processed(orig, m, start, end - 1, r0, c, k, rows, cols);
        let before = processed(m, start, end - 1, r0, c, k);
        assert(is_matrix(before, rows, cols));
        lemma_row_equivalent_reduce(orig, before, end - 1, r0, c, k, rows, cols);
        lemma_reduced_same_rows(before, m, m[end - 1], r0, c, k);
        assert(before.update(end - 1, reduced(before, before[end - 1], r0, c, k))
            =~= processed(m, start, end, r0, c, k));
    }
}

/// Clears row `i`: adds the pivot row `r0 + t` for each `t < k` for which
/// the row has a bit in column `c + t`.
fn reduce_row(a: &mut BinMatrix, i: usize, r0: usize, c: usize, k: usize)
    requires
        old(a).wf(),
        i < old(a).spec_nrows(),
        r0 + k <= old(a).spec_nrows(),
        c + k <= old(a).spec_ncols(),
        k <= MAX_KAY,
        i < r0 || i >= r0 + k,
    ensures
        final(a).wf(),
        final(a).spec_nrows() == old(a).spec_nrows(),
        final(a).spec_ncols() == old(a).spec_ncols(),
        final(a)@ == old(a)@.update(
            i as int,
            reduced(old(a)@, old(a)@[i as int], r0 as int, c as int, k as nat),
        ),
{
    let ghost orig = a@;
    proof {
        lemma_reduced_none(orig, orig[i as int], r0 as int, c as int);
        assert(a@ =~= orig.update(i as int, orig[i as int]));
    }
    if k == 0 {
        return ;
    }
    let v = read_bits(a, i, c, k);
    let mut t: usize = 0;
    while t < k
        invariant
            t <= k,
            k <= MAX_KAY,
            a.wf(),
            a.nrows == old(a).nrows,
            a.ncols == old(a).ncols,
            orig == old(a)@,
            i < a.nrows,
            r0 + k <= a.nrows,
            i < r0 || i >= r0 + k,
            forall|s: int| 0 <= s < k ==> #[trigger] word_bit(v as u64, s) == orig[i as int][c + s],
            a@ == orig.update(i as int, reduced(orig, orig[i as int], r0 as int, c as int, t as nat)),
        decreases k - t,
    {
        proof {
            lemma_reduced_step(orig, orig[i as int], r0 as int, c as int, t as nat);
            assert(word_bit(v as u64, t as int) == orig[i as int][c + t]);
        }
        if get_bit(v as u64, t) {
            a.add_row(i, r0 + t);
        }
        t += 1;
        assert(a@ =~= orig.update(
            i as int,
            reduced(orig, orig[i as int], r0 as int, c as int, t as nat),
        ));
    }
}

/// Clears the rows from `startrow` up to `endrow`: each gets the row of
/// `table` that its bits in the columns `[c, c + k)` name.
pub fn mzd_process_rows(
    a: &mut BinMatrix,
    startrow: usize,
    endrow: usize,
    r0: usize,
    c: usize,
    k: usize,
    table: &BinMatrix,
)
    requires
        old(a).wf(),
        table.wf(),
        startrow <= endrow <= old(a).spec_nrows(),
        r0 + k <= old(a).spec_nrows(),
        c + k <= old(a).spec_ncols(),
        1 <= k <= MAX_KAY,
        endrow <= r0 || startrow >= r0 + k,
        table.spec_nrows() == (1u64 << (k as u64)),
        table.spec_ncols() == old(a).spec_ncols(),
        forall|v: int|
            0 <= v < table.spec_nrows() ==> #[trigger] table@[v] == combo_row(
                old(a)@,
                r0 as int,
                k as nat,
                v as u64,
            ),
    ensures
        final(a).wf(),
        final(a).spec_nrows() == old(a).spec_nrows(),
        final(a).spec_ncols() == old(a).spec_ncols(),
        final(a)@ == processed(
            old(a)@,
            startrow as int,
            endrow as int,
            r0 as int,
            c as int,
            k as nat,
        ),
{
    let ghost orig = a@;
    let mut i: usize = startrow;
    assert(a@ =~= processed(orig, startrow as int, i as int, r0 as int, c as int, k as nat));
    while i < endrow
        invariant
            startrow <= i <= endrow,
            endrow <= a.nrows,
            a.wf(),
            table.wf(),
            a.nrows == old(a).nrows,
            a.ncols == old(a).ncols,
            orig == old(a)@,
            c + k <= a.ncols,
            1 <= k <= MAX_KAY,
            table.nrows == (1u64 << (k as u64)),
            table.ncols == a.ncols,
            forall|v: int|
                0 <= v < table.nrows ==> #[trigger] table@[v] == combo_row(
                    orig,
                    r0 as int,
                    k as nat,
                    v as u64,
                ),
            a@ == processed(orig, startrow as int, i as int, r0 as int, c as int, k as nat),
        decreases endrow - i,
    {
        let v = read_bits(a, i, c, k);
        proof {
            assert(a@[i as int] == orig[i as int]);
            assert(table@[v as int] == combo_row(orig, r0 as int, k as nat, v as u64));
            lemma_reduced_is_combo(orig, orig[i as int], r0 as int, c as int, k as nat, v as u64);
        }
        a.row_xor_from(i, table, v);
        i += 1;
        assert(a@ =~= processed(orig, startrow as int, i as int, r0 as int, c as int, k as nat));
    }
}

/// Whether the rows of `m` from `from` up to `upto` are zero in the columns
/// from `c` up to `c2`.
pub open spec fn zero_block(m: Seq<Seq<bool>>, from: int, upto: int, c: int, c2: int) -> bool {
    forall|i: int, x: int| from <= i < upto && c <= x < c2 ==> !#[trigger] m[i][x]
}

/// Looks for a pivot in column `c + kbar` among the rows below the `kbar`
/// pivot rows, clearing each row that it looks at with the pivot rows
/// first. A row that it returns has its first bit in that column.
fn find_strip_pivot(a: &mut BinMatrix, r0: usize, c: usize, kbar: usize) -> (p: Option<usize>)
    requires
        old(a).wf(),
        r0 + kbar <= old(a).spec_nrows(),
        c + kbar < old(a).spec_ncols(),
        kbar <= MAX_KAY,
        strip_pivots(old(a)@, r0 as int, c as int, kbar as int),
        zero_left(old(a)@, r0 as int, c as int),
    ensures
        final(a).wf(),
        final(a).spec_nrows() == old(a).spec_nrows(),
        final(a).spec_ncols() == old(a).spec_ncols(),
        row_equivalent(old(a)@, final(a)@),
        strip_pivots(final(a)@, r0 as int, c as int, kbar as int),
        zero_left(final(a)@, r0 as int, c as int),
        forall|i: int| 0 <= i < r0 + kbar ==> #[trigger] final(a)@[i] == old(a)@[i],
        match p {
            Some(i) => r0 + kbar <= i < old(a).spec_nrows() && final(a)@[i as int][c + kbar]
                && zero_block(final(a)@, i as int, i + 1, c as int, c + kbar),
            None => zero_block(
                final(a)@,
                r0 + kbar,
                old(a).spec_nrows() as int,
                c as int,
                c + kbar + 1,
            ),
        },
{
    let ghost orig = a@;
    let ghost rows = a.nrows as nat;
    let ghost cols = a.ncols as nat;
    proof {
        lemma_row_equivalent_refl(orig, rows, cols);
    }
    let mut i: usize = r0 + kbar;
    while i < a.nrows
        invariant
            r0 + kbar <= i <= a.nrows,
            c + kbar < a.ncols,
            kbar <= MAX_KAY,
            a.wf(),
            a.nrows == rows,
            a.ncols == cols,
            orig == old(a)@,
            is_matrix(orig, rows, cols),
            row_equivalent(orig, a@),
            strip_pivots(a@, r0 as int, c as int, kbar as int),
            zero_left(a@, r0 as int, c as int),
            forall|x: int| 0 <= x < r0 + kbar ==> #[trigger] a@[x] == orig[x],
            zero_block(a@, r0 + kbar, i as int, c as int, c + kbar + 1),
        decreases a.nrows - i,
    {
        let ghost before = a@;
        proof {
            lemma_row_equivalent_reduce(
                orig,
                before,
                i as int,
                r0 as int,
                c as int,
                kbar as nat,
                rows,
                cols,
            );
            lemma_reduced_clears(
                before,
                before[i as int],
                r0 as int,
                c as int,
                kbar as nat,
                rows,
                cols,
            );
            assert forall|x: int| 0 <= x < c implies #[trigger] reduced(
                before,
                before[i as int],
                r0 as int,
                c as int,
                kbar as nat,
            )[x] == before[i as int][x] by {
                assert forall|t: int| 0 <= t < kbar implies !(#[trigger] before[r0 + t])[x] by {}
            }
        }
        reduce_row(a, i, r0, c, kbar);
        if mzd_read_bit(a, i, c + kbar) {
            return Some(i);
        }
        i += 1;
    }
    None
}

/// Makes row `p` the next pivot row of the strip, and clears its pivot
/// column in the pivot rows before it.
fn install_pivot(a: &mut BinMatrix, r0: usize, c: usize, kbar: usize, p: usize)
    requires
        old(a).wf(),
        r0 + kbar <= p < old(a).spec_nrows(),
        c + kbar < old(a).spec_ncols(),
        strip_pivots(old(a)@, r0 as int, c as int, kbar as int),
        zero_left(old(a)@, r0 as int, c as int),
        old(a)@[p as int][c + kbar],
        zero_block(old(a)@, p as int, p + 1, c as int, c + kbar),
    ensures
        final(a).wf(),
        final(a).spec_nrows() == old(a).spec_nrows(),
        final(a).spec_ncols() == old(a).spec_ncols(),
        row_equivalent(old(a)@, final(a)@),
        strip_pivots(final(a)@, r0 as int, c as int, kbar + 1),
        zero_left(final(a)@, r0 as int, c as int),
        forall|i: int| 0 <= i < r0 ==> #[trigger] final(a)@[i] == old(a)@[i],
{
    let ghost orig = a@;
    let ghost rows = a.nrows as nat;
    let ghost cols = a.ncols as nat;
    proof {
        lemma_row_equivalent_refl(orig, rows, cols);
        lemma_row_equivalent_swap(orig, orig, rows, cols, r0 + kbar, p as int);
    }
    a.swap_rows(r0 + kbar, p);
    let ghost pivot = a@[r0 + kbar];
    let mut s: usize = 0;
    while s < kbar
        invariant
            s <= kbar,
            r0 + kbar < rows,
            c + kbar < cols,
            a.wf(),
            a.nrows == rows,
            a.ncols == cols,
            orig == old(a)@,
            is_matrix(orig, rows, cols),
            row_equivalent(orig, a@),
            strip_pivots(a@, r0 as int, c as int, kbar as int),
            zero_left(a@, r0 as int, c as int),
            forall|i: int| 0 <= i < r0 ==> #[trigger] a@[i] == orig[i],
            a@[r0 + kbar] == pivot,
            pivot.len() == cols,
            pivot[c + kbar],
            forall|x: int| 0 <= x < c + kbar ==> !#[trigger] pivot[x],
            forall|i: int| r0 <= i < r0 + s ==> !(#[trigger] a@[i])[c + kbar],
        decreases kbar - s,
    {
        if mzd_read_bit(a, r0 + s, c + kbar) {
            proof {
                lemma_row_equivalent_add(orig, a@, rows, cols, r0 + s, r0 + kbar);
            }
            a.add_row(r0 + s, r0 + kbar);
        }
        s += 1;
    }
    proof {
        assert forall|i: int, x: int| r0 <= i < r0 + kbar + 1 && c <= x < c + kbar + 1 implies #[trigger] a@[i][x]
            == (i - r0 == x - c) by {
            if i < r0 + kbar {
                if x == c + kbar {
                    assert(!a@[i][c + kbar]);
                }
            } else {
                assert(a@[i] == pivot);
                if x < c + kbar {
                    assert(!pivot[x]);
                }
            }
        }
    }
}

/// Finds pivots in the columns from `c` on, one column after the other, in
/// the rows from `r0` on, until a column has none or `kk` are found. It
/// returns how many it found, and whether it stopped at a column without a
/// pivot; the pivot rows then hold the identity in the pivot columns.
fn gauss_strip(a: &mut BinMatrix, r0: usize, c: usize, kk: usize) -> (res: (usize, bool))
    requires
        old(a).wf(),
        r0 + kk <= old(a).spec_nrows(),
        c + kk <= old(a).spec_ncols(),
        1 <= kk <= MAX_KAY,
        zero_left(old(a)@, r0 as int, c as int),
    ensures
        final(a).wf(),
        final(a).spec_nrows() == old(a).spec_nrows(),
        final(a).spec_ncols() == old(a).spec_ncols(),
        row_equivalent(old(a)@, final(a)@),
        res.0 <= kk,
        res.1 ==> res.0 < kk,
        !res.1 ==> res.0 == kk,
        strip_pivots(final(a)@, r0 as int, c as int, res.0 as int),
        zero_left(final(a)@, r0 as int, c as int),
        forall|i: int| 0 <= i < r0 ==> #[trigger] final(a)@[i] == old(a)@[i],
        res.1 ==> zero_block(
            final(a)@,
            r0 + res.0,
            old(a).spec_nrows() as int,
            c as int,
            c + res.0 + 1,
        ),
{
    let ghost orig = a@;
    let ghost rows = a.nrows as nat;
    let ghost cols = a.ncols as nat;
    proof {
        lemma_row_equivalent_refl(orig, rows, cols);
    }
    let mut kbar: usize = 0;
    while kbar < kk
        invariant
            kbar <= kk,
            kk <= MAX_KAY,
            r0 + kk <= rows,
            c + kk <= cols,
            a.wf(),
            a.nrows == rows,
            a.ncols == cols,
            orig == old(a)@,
            is_matrix(orig, rows, cols),
            row_equivalent(orig, a@),
            strip_pivots(a@, r0 as int, c as int, kbar as int),
            zero_left(a@, r0 as int, c as int),
            forall|i: int| 0 <= i < r0 ==> #[trigger] a@[i] == orig[i],
        decreases kk - kbar,
    {
        let ghost before = a@;
        match find_strip_pivot(a, r0, c, kbar) {
            None => {
                proof {
                    lemma_row_equivalent_trans(orig, before, a@, rows, cols);
                }
                return (kbar, true);
            },
            Some(p) => {
                let ghost found = a@;
                install_pivot(a, r0, c, kbar, p);
                proof {
                    lemma_row_equivalent_trans(orig, before, found, rows, cols);
                    lemma_row_equivalent_trans(orig, found, a@, rows, cols);
                }
                kbar += 1;
            },
        }
    }
    (kbar, false)
}

/// Clearing a row changes nothing to the left of the strip, where the pivot
/// rows are zero.
proof fn lemma_reduced_keeps_left(
    m: Seq<Seq<bool>>,
    row: Seq<bool>,
    r0: int,
    c: int,
    k: nat,
    rows: nat,
    cols: nat,
    x: int,
)
    requires
        is_matrix(m, rows, cols),
        row.len() == cols,
        0 <= r0,
        r0 + k <= rows,
        0 <= x < c,
        c + k <= cols,
        zero_left(m, r0, c),
    ensures
        reduced(m, row, r0, c, k)[x] == row[x],
{
    let f = reduce_terms(m, row, r0, c, x);
    assert forall|t: int| 0 <= t < k implies !#[trigger] f(t) by {
        assert(!m[r0 + t][x]);
    }
    lemma_xor_sum_zero(f, k);
}

/// After a strip, with the rows around it cleared, the echelon form reaches
/// over the columns of the strip.
proof fn lemma_strip_echelon(
    m0: Seq<Seq<bool>>,
    m1: Seq<Seq<bool>>,
    m3: Seq<Seq<bool>>,
    piv: Seq<usize>,
    c: usize,
    kbar: nat,
    free: bool,
    full: bool,
    rows: nat,
    cols: nat,
)
    requires
        is_matrix(m0, rows, cols),
        is_matrix(m1, rows, cols),
        is_matrix(m3, rows, cols),
        echelon(m0, piv, c as int, full),
        cols <= usize::MAX,
        piv.len() + kbar <= rows,
        c + kbar + (if free { 1int } else { 0int }) <= cols,
        forall|i: int| 0 <= i < piv.len() ==> #[trigger] m1[i] == m0[i],
        strip_pivots(m1, piv.len() as int, c as int, kbar as int),
        zero_left(m1, piv.len() as int, c as int),
        free ==> zero_block(m1, (piv.len() + kbar) as int, rows as int, c as int, c + kbar + 1),
        forall|i: int| piv.len() <= i < piv.len() + kbar ==> #[trigger] m3[i] == m1[i],
        forall|i: int|
            piv.len() + kbar <= i < rows ==> #[trigger] m3[i] == if free {
                m1[i]
            } else {
                reduced(m1, m1[i], piv.len() as int, c as int, kbar)
            },
        forall|i: int|
            0 <= i < piv.len() ==> #[trigger] m3[i] == if full {
                reduced(m1, m0[i], piv.len() as int, c as int, kbar)
            } else {
                m0[i]
            },
    ensures
        echelon(
            m3,
            piv + Seq::new(kbar, |t: int| (c + t) as usize),
            c + kbar + (if free { 1int } else { 0int }),
            full,
        ),
{
    let r0 = piv.len() as int;
    let piv2 = piv + Seq::new(kbar, |t: int| (c + t) as usize);
    let w = c + kbar + (if free { 1int } else { 0int });
    // the rows above the strip keep what they had to the left of the strip
    assert forall|i: int, x: int| 0 <= i < r0 && 0 <= x < c implies #[trigger] m3[i][x]
        == m0[i][x] by {
        if full {
            lemma_reduced_keeps_left(m1, m0[i], r0, c as int, kbar, rows, cols, x);
        }
    }
    // the rows below the strip are zero up to the end of the strip
    assert forall|i: int, x: int| r0 + kbar <= i < rows && 0 <= x < w implies !#[trigger] m3[i][x] by {
        if free {
            if x < c {
                assert(!m1[i][x]);
            } else {
                assert(!m1[i][x]);
            }
        } else {
            lemma_reduced_clears(m1, m1[i], r0, c as int, kbar, rows, cols);
            if x < c {
                assert(!m1[i][x]);
                lemma_reduced_keeps_left(m1, m1[i], r0, c as int, kbar, rows, cols, x);
            } else {
                assert(!reduced(m1, m1[i], r0, c as int, kbar)[x]);
            }
        }
    }
    assert forall|i: int| 0 <= i < piv2.len() implies (#[trigger] piv2[i]) < w
        && m3[i][piv2[i] as int] by {
        if i < r0 {
            assert(piv2[i] == piv[i]);
            assert(piv[i] < c && m0[i][piv[i] as int]);
            assert(m3[i][piv[i] as int] == m0[i][piv[i] as int]);
        } else {
            assert(piv2[i] == c + (i - r0));
            assert(m1[i][c + (i - r0)] == (i - r0 == c + (i - r0) - c));
        }
    }
    assert forall|i: int, x: int| 0 <= i < piv2.len() && 0 <= x < piv2[i] implies !#[trigger] m3[i][x] by {
        if i < r0 {
            assert(piv2[i] == piv[i]);
            assert(piv[i] < c);
            assert(!m0[i][x]);
            assert(m3[i][x] == m0[i][x]);
        } else {
            assert(piv2[i] == c + (i - r0));
            if x < c {
                assert(!m1[i][x]);
            } else {
                assert(m1[i][x] == (i - r0 == x - c));
            }
        }
    }
    assert forall|i: int, j: int| 0 <= i < j < piv2.len() implies (#[trigger] piv2[i]) < (
    #[trigger] piv2[j]) by {
        if i < r0 {
            assert(piv2[i] == piv[i]);
            assert(piv[i] < c);
            if j < r0 {
                assert(piv2[j] == piv[j]);
            } else {
                assert(piv2[j] == c + (j - r0));
            }
        } else {
            assert(piv2[i] == c + (i - r0));
            assert(piv2[j] == c + (j - r0));
        }
    }
    if full {
        assert forall|i: int, k: int| 0 <= i < piv2.len() && 0 <= k < i implies !#[trigger] m3[k][piv2[i] as int] by {
            if i < r0 {
                assert(piv2[i] == piv[i]);
                assert(piv[i] < c);
                assert(!m0[k][piv[i] as int]);
                assert(m3[k][piv[i] as int] == m0[k][piv[i] as int]);
            } else {
                assert(piv2[i] == c + (i - r0));
                if k < r0 {
                    lemma_reduced_clears(m1, m0[k], r0, c as int, kbar, rows, cols);
                    assert(!reduced(m1, m0[k], r0, c as int, kbar)[c + (i - r0)]);
                } else {
                    assert(m1[k][c + (i - r0)] == (k - r0 == c + (i - r0) - c));
                }
            }
        }
    }
}

/// Brings the first `max_col` columns of `m` to row echelon form, as
/// `eliminate` does, with tables for `k` pivots at a time; `k == 0` asks
/// for the width that suits the sizes.
pub fn eliminate_m4ri(m: &mut BinMatrix, full: bool, max_col: usize, k: usize) -> (pivots: Vec<
    usize,
>)
    requires
        old(m).wf(),
        max_col <= old(m).spec_ncols(),
        k <= MAX_KAY,
    ensures
        final(m).wf(),
        final(m).spec_nrows() == old(m).spec_nrows(),
        final(m).spec_ncols() == old(m).spec_ncols(),
        row_equivalent(old(m)@, final(m)@),
        echelon(final(m)@, pivots@, max_col as int, full),
        pivots@.len() <= max_col,
{
    let ghost orig = m@;
    let ghost rows = m.nrows as nat;
    let ghost cols = m.ncols as nat;
    let width: usize = if k == 0 {
        m4ri_opt_k(m.nrows, m.ncols, 0)
    } else {
        k
    };
    let mut pivots: Vec<usize> = Vec::new();
    let mut c: usize = 0;
    proof {
        lemma_row_equivalent_refl(orig, rows, cols);
    }
    while c < max_col && pivots.len() < m.nrows
        invariant
            c <= max_col,
            max_col <= cols,
            1 <= width <= MAX_KAY,
            m.wf(),
            m.nrows == rows,
            m.ncols == cols,
            orig == old(m)@,
            is_matrix(orig, rows, cols),
            row_equivalent(orig, m@),
            echelon(m@, pivots@, c as int, full),
            pivots@.len() <= c,
        decreases max_col - c,
    {
        let r0 = pivots.len();
        let mut kk: usize = width;
        if max_col - c < kk {
            kk = max_col - c;
        }
        if m.nrows - r0 < kk {
            kk = m.nrows - r0;
        }
        let ghost m0 = m@;
        let ghost piv0 = pivots@;
        let (kbar, free) = gauss_strip(m, r0, c, kk);
        let ghost m1 = m@;
        proof {
            lemma_row_equivalent_trans(orig, m0, m1, rows, cols);
            lemma_reduced_none_all(m1, r0 as int, c as int, rows);
        }
        if kbar > 0 {
            let code = m4ri_build_code(kbar);
            let table = mzd_make_table(m, r0, kbar, &code);
            if !free {
                mzd_process_rows(m, r0 + kbar, m.nrows, r0, c, kbar, &table);
                proof {
                    lemma_row_equivalent_processed(
                        orig,
                        m1,
                        r0 + kbar,
                        rows as int,
                        r0 as int,
                        c as int,
                        kbar as nat,
                        rows,
                        cols,
                    );
                }
            }
            let ghost m2 = m@;
            if full {
                proof {
                    assert forall|v: int| 0 <= v < table.spec_nrows() implies #[trigger] table@[v]
                        == combo_row(m2, r0 as int, kbar as nat, v as u64) by {
                        lemma_combo_same_rows(m1, m2, r0 as int, kbar as nat, v as u64);
                    }
                    lemma_row_equivalent_processed(
                        orig,
                        m2,
                        0,
                        r0 as int,
                        r0 as int,
                        c as int,
                        kbar as nat,
                        rows,
                        cols,
                    );
                }
                mzd_process_rows(m, 0, r0, r0, c, kbar, &table);
                proof {
                    assert forall|i: int| 0 <= i < r0 implies #[trigger] m@[i] == reduced(
                        m1,
                        m0[i],
                        r0 as int,
                        c as int,
                        kbar as nat,
                    ) by {
                        lemma_reduced_same_rows(m2, m1, m2[i], r0 as int, c as int, kbar as nat);
                    }
                }
            }
            let mut t: usize = 0;
            while t < kbar
                invariant
                    t <= kbar,
                    c + kbar <= usize::MAX,
                    pivots@ == piv0 + Seq::new(t as nat, |s: int| (c + s) as usize),
                decreases kbar - t,
            {
                pivots.push(c + t);
                t += 1;
                assert(pivots@ =~= piv0 + Seq::new(t as nat, |s: int| (c + s) as usize));
            }
        }
        proof {
            assert(pivots@ =~= piv0 + Seq::new(kbar as nat, |s: int| (c + s) as usize));
            lemma_strip_echelon(m0, m1, m@, piv0, c, kbar as nat, free, full, rows, cols);
        }
        c = c + kbar;
        if free {
            c = c + 1;
        }
    }
    proof {
        if c < max_col {
            assert(echelon(m@, pivots@, max_col as int, full));
        }
    }
    pivots
}

/// Brings `a` to row echelon form in place by the Method of the Four
/// Russians, reduced where `full` is set, and returns the number of pivots.
/// Tables are made for `k` pivots at a time; `k == 0` asks for the width
/// that suits the sizes.
pub fn mzd_echelonize_m4ri(a: &mut BinMatrix, full: bool, k: usize) -> (r: usize)
    requires
        old(a).wf(),
        k <= MAX_KAY,
    ensures
        final(a).wf(),
        final(a).spec_nrows() == old(a).spec_nrows(),
        final(a).spec_ncols() == old(a).spec_ncols(),
        row_equivalent(old(a)@, final(a)@),
        in_echelon_form(final(a)@, r as nat, full),
        has_rank(old(a)@, r as nat),
        r <= old(a).spec_nrows(),
        r <= old(a).spec_ncols(),
{
    let ncols = a.ncols;
    let pivots = eliminate_m4ri(a, full, ncols, k);
    proof {
        assert(echelon(a@, pivots@, cols_of(a@) as int, full));
        assert(echelon(a@, pivots@, cols_of(a@) as int, false));
        assert(in_echelon_form(a@, pivots@.len(), false));
    }
    pivots.len()
}

} // verus!
