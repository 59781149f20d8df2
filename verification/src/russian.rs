//! Multiplication by the Method of the Four Russians: for each group of `k`
//! rows of the right factor, a table of all their sums, built along a Gray
//! code so that each entry costs one row addition, and one table lookup for
//! each row of the left factor.
use crate::bits::{
    lemma_bit_single, lemma_bit_xor, lemma_bit_zero, lemma_small_from_bits, with_bit, word_bit,
};
use crate::gf2::{
    cols_of, entry_terms, lemma_add_zero, lemma_mat_mul_shape, lemma_partial_row_zero,
    lemma_xor_sum_ext, lemma_xor_sum_split, lemma_xor_sum_toggle, lemma_xor_sum_zero, mat_add,
    mat_mul, partial_row, row_add, shifted, xor_sum, zero_row,
};
use crate::graycode::{
    gray, gray_rank, lemma_gray_bijective, lemma_gray_bounded, m4ri_build_code, m4ri_opt_k,
    two_pow, Code, MAX_KAY,
};
use crate::matrix::{mzd_read_bit, BinMatrix};
use vstd::prelude::*;

verus! {

/// The products whose sum is entry `j` of the sum of the rows `r0 + t` of
/// `b` for which bit `t` of `v` is set.
pub open spec fn combo_terms(b: Seq<Seq<bool>>, r0: int, v: u64, j: int) -> spec_fn(int) -> bool {
    |t: int| word_bit(v, t) && b[r0 + t][j]
}

/// The sum of the rows `r0 + t` of `b`, `t < k`, for which bit `t` of `v`
/// is set.
pub open spec fn combo_row(b: Seq<Seq<bool>>, r0: int, k: nat, v: u64) -> Seq<bool> {
    Seq::new(cols_of(b), |j: int| xor_sum(combo_terms(b, r0, v, j), k))
}

/// The sum of no rows is zero.
proof fn lemma_combo_zero(b: Seq<Seq<bool>>, r0: int, k: nat)
    ensures
        combo_row(b, r0, k, 0) == zero_row(cols_of(b)),
{
    assert forall|j: int| 0 <= j < cols_of(b) implies combo_row(b, r0, k, 0)[j] == false by {
        let f = combo_terms(b, r0, 0, j);
        assert forall|t: int| 0 <= t < k implies !#[trigger] f(t) by {
            lemma_bit_zero(t);
        }
        lemma_xor_sum_zero(f, k);
    }
    assert(combo_row(b, r0, k, 0) =~= zero_row(cols_of(b)));
}

/// Changing bit `p` of the selection adds row `r0 + p`.
proof fn lemma_combo_toggle(b: Seq<Seq<bool>>, r0: int, k: nat, v: u64, p: int)
    requires
        0 <= p < k,
        k <= 64,
        b[r0 + p].len() == cols_of(b),
    ensures
        combo_row(b, r0, k, v ^ (1u64 << (p as u64))) == row_add(
            combo_row(b, r0, k, v),
            b[r0 + p],
        ),
{
    let v2 = v ^ (1u64 << (p as u64));
    let lhs = combo_row(b, r0, k, v2);
    let rhs = row_add(combo_row(b, r0, k, v), b[r0 + p]);
    assert forall|j: int| 0 <= j < cols_of(b) implies lhs[j] == rhs[j] by {
        let f = combo_terms(b, r0, v, j);
        let h = combo_terms(b, r0, v2, j);
        assert forall|t: int| 0 <= t < k && t != p implies #[trigger] h(t) == f(t) by {
            lemma_bit_xor(v, 1u64 << (p as u64), t);
            lemma_bit_single(p, t);
        }
        lemma_bit_xor(v, 1u64 << (p as u64), p);
        lemma_bit_single(p, p);
        lemma_xor_sum_toggle(f, h, k, p, b[r0 + p][j]);
    }
    assert(lhs =~= rhs);
}

/// Adding the table entry for the bits of row `i` of `a` in the columns
/// `[r0, r0 + k)` takes the partial product from `r0` rows of `b` to
/// `r0 + k`.
proof fn lemma_combo_extends(
    a: Seq<Seq<bool>>,
    b: Seq<Seq<bool>>,
    i: int,
    r0: nat,
    k: nat,
    v: u64,
    base: Seq<bool>,
)
    requires
        base.len() == cols_of(b),
        forall|t: int| 0 <= t < k ==> #[trigger] word_bit(v, t) == a[i][r0 + t],
    ensures
        row_add(row_add(base, partial_row(a, b, i, r0)), combo_row(b, r0 as int, k, v)) == row_add(
            base,
            partial_row(a, b, i, r0 + k),
        ),
{
    let lhs = row_add(row_add(base, partial_row(a, b, i, r0)), combo_row(b, r0 as int, k, v));
    let rhs = row_add(base, partial_row(a, b, i, r0 + k));
    assert forall|j: int| 0 <= j < cols_of(b) implies lhs[j] == rhs[j] by {
        let f = entry_terms(a, b, i, j);
        lemma_xor_sum_split(f, r0, k);
        let g = shifted(f, r0 as int);
        let h = combo_terms(b, r0 as int, v, j);
        assert forall|t: int| 0 <= t < k implies #[trigger] h(t) == g(t) by {
            assert(word_bit(v, t) == a[i][r0 + t]);
        }
        lemma_xor_sum_ext(h, g, k);
    }
    assert(lhs =~= rhs);
}

/// The bits of row `row` of `a` in the columns `[col0, col0 + k)`, as a
/// number: the bit of column `col0 + t` has the value `2^t`.
pub fn read_bits(a: &BinMatrix, row: usize, col0: usize, k: usize) -> (v: usize)
    requires
        a.wf(),
        row < a.spec_nrows(),
        col0 + k <= a.spec_ncols(),
        1 <= k <= MAX_KAY,
    ensures
        forall|t: int| 0 <= t < k ==> #[trigger] word_bit(v as u64, t) == a@[row as int][col0 + t],
        v < (1u64 << (k as u64)),
{
    let mut v: u64 = 0;
    let mut t: usize = 0;
    proof {
        assert forall|s: int| 0 <= s < 64 implies !#[trigger] word_bit(v, s) by {
            lemma_bit_zero(s);
        }
    }
    while t < k
        invariant
            t <= k,
            k <= MAX_KAY,
            a.wf(),
            row < a.nrows,
            col0 + k <= a.ncols,
            forall|s: int| 0 <= s < t ==> #[trigger] word_bit(v, s) == a@[row as int][col0 + s],
            forall|s: int| t <= s < 64 ==> !#[trigger] word_bit(v, s),
        decreases k - t,
    {
        let bit = mzd_read_bit(a, row, col0 + t);
        v = with_bit(v, t, bit);
        t += 1;
    }
    proof {
        lemma_small_from_bits(v, k as int);
        let s = k as u64;
        assert((1u64 << s) <= 65536) by (bit_vector)
            requires
                s <= 16,
        ;
    }
    v as usize
}

/// The table of all sums of the rows `r0`, .., `r0 + k - 1` of `m`: row `v`
/// of the table is the sum of the rows `r0 + t` for which bit `t` of `v` is
/// set. Each entry comes from the one before it in `code` by one addition.
pub fn mzd_make_table(m: &BinMatrix, r0: usize, k: usize, code: &Code) -> (table: BinMatrix)
    requires
        m.wf(),
        code.wf(),
        code.spec_k() == k,
        r0 + k <= m.spec_nrows(),
    ensures
        table.wf(),
        table.spec_nrows() == (1u64 << (k as u64)),
        table.spec_ncols() == m.spec_ncols(),
        forall|v: int|
            0 <= v < table.spec_nrows() ==> #[trigger] table@[v] == combo_row(
                m@,
                r0 as int,
                k as nat,
                v as u64,
            ),
{
    let n = two_pow(k);
    let mut table = BinMatrix::zero(n, m.ncols);
    proof {
        lemma_combo_zero(m@, r0 as int, k as nat);
        assert(gray(0) == 0) by (bit_vector);
    }
    let mut i: usize = 1;
    while i < n
        invariant
            1 <= i <= n,
            n == (1u64 << (k as u64)),
            m.wf(),
            code.wf(),
            code.k == k,
            r0 + k <= m.nrows,
            table.wf(),
            table.nrows == n,
            table.ncols == m.ncols,
            forall|x: int|
                0 <= x < i ==> #[trigger] table@[gray(x as u64) as int] == combo_row(
                    m@,
                    r0 as int,
                    k as nat,
                    gray(x as u64),
                ),
        decreases n - i,
    {
        let cur = code.ord(i);
        let prev = code.ord(i - 1);
        let p = code.inc(i);
        proof {
            assert(code.ord@[i as int] as u64 == gray(i as u64));
            assert(code.ord@[i - 1] as u64 == gray((i - 1) as u64));
            assert(code.inc@[i as int] < k);
            lemma_gray_bounded(i as u64, k as u64);
            lemma_gray_bounded((i - 1) as u64, k as u64);
            lemma_combo_toggle(m@, r0 as int, k as nat, gray((i - 1) as u64), p as int);
        }
        let ghost before = table@;
        table.copy_row(cur, prev);
        table.row_xor_from(cur, m, r0 + p);
        proof {
            assert forall|x: int| 0 <= x < i + 1 implies #[trigger] table@[gray(x as u64) as int]
                == combo_row(m@, r0 as int, k as nat, gray(x as u64)) by {
                if x < i && gray(x as u64) != gray(i as u64) {
                    lemma_gray_bounded(x as u64, k as u64);
                    assert(table@[gray(x as u64) as int] == before[gray(x as u64) as int]);
                }
            }
        }
        i += 1;
    }
    proof {
        assert forall|v: int| 0 <= v < n implies #[trigger] table@[v] == combo_row(
            m@,
            r0 as int,
            k as nat,
            v as u64,
        ) by {
            lemma_gray_bijective(v as u64);
            lemma_gray_bounded(v as u64, k as u64);
            let x = gray_rank(v as u64) as int;
            assert(table@[gray(x as u64) as int] == combo_row(
                m@,
                r0 as int,
                k as nat,
                gray(x as u64),
            ));
        }
    }
    table
}

/// Adds `a * b` to `c` by the Method of the Four Russians with tables for
/// `k` rows at a time; `k == 0` asks for the width that suits the sizes.
pub fn mzd_addmul_m4rm(c: &mut BinMatrix, a: &BinMatrix, b: &BinMatrix, k: usize)
    requires
        old(c).wf(),
        a.wf(),
        b.wf(),
        a.spec_ncols() == b.spec_nrows(),
        old(c).spec_nrows() == a.spec_nrows(),
        old(c).spec_ncols() == b.spec_ncols(),
        k <= MAX_KAY,
    ensures
        final(c).wf(),
        final(c).spec_nrows() == old(c).spec_nrows(),
        final(c).spec_ncols() == old(c).spec_ncols(),
        final(c)@ == mat_add(old(c)@, mat_mul(a@, b@)),
{
    let ghost orig = c@;
    let ghost prod = mat_mul(a@, b@);
    let width: usize = if k == 0 {
        m4ri_opt_k(a.nrows, a.ncols, b.ncols)
    } else {
        k
    };
    let mut code = m4ri_build_code(width);
    let mut r0: usize = 0;
    proof {
        assert forall|r: int| 0 <= r < a.nrows implies #[trigger] c@[r] == row_add(
            orig[r],
            partial_row(a@, b@, r, 0),
        ) by {
            lemma_partial_row_zero(a@, b@, r, orig[r]);
        }
    }
    while r0 < b.nrows
        invariant
            r0 <= b.nrows,
            1 <= width <= MAX_KAY,
            code.wf(),
            c.wf(),
            a.wf(),
            b.wf(),
            a.ncols == b.nrows,
            c.nrows == a.nrows,
            c.ncols == b.ncols,
            c.nrows == old(c).nrows,
            c.ncols == old(c).ncols,
            orig == old(c)@,
            forall|r: int|
                0 <= r < a.nrows ==> #[trigger] c@[r] == row_add(
                    orig[r],
                    partial_row(a@, b@, r, r0 as nat),
                ),
        decreases b.nrows - r0,
    {
        let kk: usize = if b.nrows - r0 < width {
            b.nrows - r0
        } else {
            width
        };
        if code.k() != kk {
            code = m4ri_build_code(kk);
        }
        let table = mzd_make_table(b, r0, kk, &code);
        let mut i: usize = 0;
        while i < a.nrows
            invariant
                i <= a.nrows,
                1 <= kk <= MAX_KAY,
                r0 + kk <= b.nrows,
                c.wf(),
                a.wf(),
                b.wf(),
                table.wf(),
                table.nrows == (1u64 << (kk as u64)),
                table.ncols == b.ncols,
                a.ncols == b.nrows,
                c.nrows == a.nrows,
                c.ncols == b.ncols,
                c.nrows == old(c).nrows,
                c.ncols == old(c).ncols,
                orig == old(c)@,
                forall|v: int|
                    0 <= v < table.nrows ==> #[trigger] table@[v] == combo_row(
                        b@,
                        r0 as int,
                        kk as nat,
                        v as u64,
                    ),
                forall|r: int|
                    0 <= r < i ==> #[trigger] c@[r] == row_add(
                        orig[r],
                        partial_row(a@, b@, r, (r0 + kk) as nat),
                    ),
                forall|r: int|
                    i <= r < a.nrows ==> #[trigger] c@[r] == row_add(
                        orig[r],
                        partial_row(a@, b@, r, r0 as nat),
                    ),
            decreases a.nrows - i,
        {
            let v = read_bits(a, i, r0, kk);
            proof {
                assert(table@[v as int] == combo_row(b@, r0 as int, kk as nat, v as u64));
                lemma_combo_extends(
                    a@,
                    b@,
                    i as int,
                    r0 as nat,
                    kk as nat,
                    v as u64,
                    orig[i as int],
                );
            }
            c.row_xor_from(i, &table, v);
            i += 1;
        }
        r0 += kk;
    }
    proof {
        assert forall|r: int| 0 <= r < a.nrows implies c@[r] == mat_add(orig, prod)[r] by {
            assert(partial_row(a@, b@, r, b.nrows as nat) =~= prod[r]);
        }
        assert(c@ =~= mat_add(orig, prod));
    }
}

/// The product `a * b` by the Method of the Four Russians with tables for
/// `k` rows at a time; `k == 0` asks for the width that suits the sizes.
pub fn mzd_mul_m4rm(a: &BinMatrix, b: &BinMatrix, k: usize) -> (c: BinMatrix)
    requires
        a.wf(),
        b.wf(),
        a.spec_ncols() == b.spec_nrows(),
        k <= MAX_KAY,
    ensures
        c.wf(),
        c.spec_nrows() == a.spec_nrows(),
        c.spec_ncols() == b.spec_ncols(),
        c@ == mat_mul(a@, b@),
{
    let mut c = BinMatrix::zero(a.nrows, b.ncols);
    mzd_addmul_m4rm(&mut c, a, b, k);
    proof {
        lemma_mat_mul_shape(a@, b@, a.nrows as nat, a.ncols as nat, b.ncols as nat);
        lemma_add_zero(mat_mul(a@, b@), a.nrows as nat, b.ncols as nat);
    }
    c
}

} // verus!
