//! Matrix multiplication over GF(2).
use crate::gf2::{
    lemma_add_zero, lemma_mat_mul_shape, lemma_partial_row_step, lemma_partial_row_zero, mat_add,
    mat_mul, partial_row, row_add,
};
use crate::matrix::{mzd_read_bit, BinMatrix};
use crate::russian::mzd_mul_m4rm;
use crate::strassen::mzd_mul;
use vstd::prelude::*;

verus! {

/// Adds `a * b` to `c`, row by row: row `i` of `c` gets every row `k` of `b`
/// for which `a[i][k]` is set.
pub fn mzd_addmul_naive(c: &mut BinMatrix, a: &BinMatrix, b: &BinMatrix)
    requires
        old(c).wf(),
        a.wf(),
        b.wf(),
        a.spec_ncols() == b.spec_nrows(),
        old(c).spec_nrows() == a.spec_nrows(),
        old(c).spec_ncols() == b.spec_ncols(),
    ensures
        final(c).wf(),
        final(c).spec_nrows() == old(c).spec_nrows(),
        final(c).spec_ncols() == old(c).spec_ncols(),
        final(c)@ == mat_add(old(c)@, mat_mul(a@, b@)),
{
    let ghost orig = c@;
    let ghost prod = mat_mul(a@, b@);
    let mut i: usize = 0;
    while i < a.nrows
        invariant
            i <= a.nrows,
            c.wf(),
            a.wf(),
            b.wf(),
            a.ncols == b.nrows,
            c.nrows == a.nrows,
            c.ncols == b.ncols,
            c.nrows == old(c).nrows,
            c.ncols == old(c).ncols,
            orig == old(c)@,
            prod == mat_mul(a@, b@),
            forall|r: int| 0 <= r < i ==> #[trigger] c@[r] == row_add(orig[r], prod[r]),
            forall|r: int| i <= r < a.nrows ==> #[trigger] c@[r] == orig[r],
        decreases a.nrows - i,
    {
        proof {
            lemma_partial_row_zero(a@, b@, i as int, orig[i as int]);
        }
        let mut k: usize = 0;
        while k < b.nrows
            invariant
                k <= b.nrows,
                i < a.nrows,
                c.wf(),
                a.wf(),
                b.wf(),
                a.ncols == b.nrows,
                c.nrows == a.nrows,
                c.ncols == b.ncols,
                c.nrows == old(c).nrows,
                c.ncols == old(c).ncols,
                orig == old(c)@,
                prod == mat_mul(a@, b@),
                forall|r: int| 0 <= r < i ==> #[trigger] c@[r] == row_add(orig[r], prod[r]),
                forall|r: int| i < r < a.nrows ==> #[trigger] c@[r] == orig[r],
                c@[i as int] == row_add(orig[i as int], partial_row(a@, b@, i as int, k as nat)),
            decreases b.nrows - k,
        {
            proof {
                lemma_partial_row_step(a@, b@, i as int, k as int, orig[i as int]);
            }
            if mzd_read_bit(a, i, k) {
                c.row_xor_from(i, b, k);
            }
            k += 1;
        }
        assert(partial_row(a@, b@, i as int, b.nrows as nat) =~= prod[i as int]);
        i += 1;
    }
    assert(c@ =~= mat_add(orig, prod));
}

/// The product `a * b` by the schoolbook method.
pub fn mzd_mul_naive(a: &BinMatrix, b: &BinMatrix) -> (c: BinMatrix)
    requires
        a.wf(),
        b.wf(),
        a.spec_ncols() == b.spec_nrows(),
    ensures
        c.wf(),
        c.spec_nrows() == a.spec_nrows(),
        c.spec_ncols() == b.spec_ncols(),
        c@ == mat_mul(a@, b@),
{
    let mut c = BinMatrix::zero(a.nrows, b.ncols);
    mzd_addmul_naive(&mut c, a, b);
    proof {
        lemma_mat_mul_shape(a@, b@, a.nrows as nat, a.ncols as nat, b.ncols as nat);
        lemma_add_zero(mat_mul(a@, b@), a.nrows as nat, b.ncols as nat);
    }
    c
}

/// How a product is computed. Every strategy gives the same matrix.
#[derive(Clone, Copy, Debug, PartialEq, Eq)]
pub enum MulStrategy {
    /// Row by row, one row addition for each set bit.
    Naive,
    /// Method of the Four Russians: tables of all sums of a few rows.
    M4rm,
    /// Strassen-Winograd: seven products of half the size.
    Strassen,
}

/// The strategies agree bit for bit: two matrices that hold the product of
/// the same factors, by whichever strategy each was computed, hold the same
/// words.
pub proof fn lemma_strategies_agree(
    a: Seq<Seq<bool>>,
    b: Seq<Seq<bool>>,
    first: &BinMatrix,
    second: &BinMatrix,
)
    requires
        first.wf(),
        second.wf(),
        first@ == mat_mul(a, b),
        second@ == mat_mul(a, b),
    ensures
        first.same_words(second),
{
    first.lemma_eq_spec(second);
}

/// Why a choice of strategy is refused.
#[derive(Clone, Copy, Debug, PartialEq, Eq)]
pub enum ConfigError {
    /// More than one strategy was asked for.
    SeveralStrategies,
}

impl MulStrategy {
    /// The strategy that three switches ask for: the one that is set, and
    /// Strassen-Winograd where none is. More than one is an error.
    pub fn from_flags(naive: bool, m4rm: bool, strassen: bool) -> (res: Result<
        MulStrategy,
        ConfigError,
    >)
        ensures
            res is Err <==> (naive && m4rm) || (naive && strassen) || (m4rm && strassen),
            res == Ok::<MulStrategy, ConfigError>(MulStrategy::Naive) <==> naive && !m4rm
                && !strassen,
            res == Ok::<MulStrategy, ConfigError>(MulStrategy::M4rm) <==> !naive && m4rm
                && !strassen,
            res == Ok::<MulStrategy, ConfigError>(MulStrategy::Strassen) <==> !naive && !m4rm,
            res is Err ==> res == Err::<MulStrategy, ConfigError>(ConfigError::SeveralStrategies),
    {
        if (naive && m4rm) || (naive && strassen) || (m4rm && strassen) {
            Err(ConfigError::SeveralStrategies)
        } else if naive {
            Ok(MulStrategy::Naive)
        } else if m4rm {
            Ok(MulStrategy::M4rm)
        } else {
            Ok(MulStrategy::Strassen)
        }
    }
}

impl Default for MulStrategy {
    /// Strassen-Winograd.
    fn default() -> (s: MulStrategy)
        ensures
            s == MulStrategy::Strassen,
    {
        MulStrategy::Strassen
    }
}

impl BinMatrix {
    /// The product `self * other`, computed by `strategy`.
    pub fn mul_with(&self, other: &BinMatrix, strategy: MulStrategy) -> (c: BinMatrix)
        requires
            self.wf(),
            other.wf(),
            self.spec_ncols() == other.spec_nrows(),
        ensures
            c.wf(),
            c.spec_nrows() == self.spec_nrows(),
            c.spec_ncols() == other.spec_ncols(),
            c@ == mat_mul(self@, other@),
    {
        match strategy {
            MulStrategy::Naive => mzd_mul_naive(self, other),
            MulStrategy::M4rm => mzd_mul_m4rm(self, other, 0),
            MulStrategy::Strassen => mzd_mul(self, other, 0),
        }
    }

    /// The product `self * other`.
    pub fn mul_matrix(&self, other: &BinMatrix) -> (c: BinMatrix)
        requires
            self.wf(),
            other.wf(),
            self.spec_ncols() == other.spec_nrows(),
        ensures
            c.wf(),
            c.spec_nrows() == self.spec_nrows(),
            c.spec_ncols() == other.spec_ncols(),
            c@ == mat_mul(self@, other@),
    {
        self.mul_with(other, MulStrategy::Strassen)
    }
}

} // verus!
