//! Linear maps as straight-line programs of row additions.
use crate::gf2::{row_add, zero_row};
use crate::matrix::BinMatrix;
use vstd::prelude::*;

verus! {

/// Where an operation takes the row that it adds.
#[derive(Clone, Copy, Debug, PartialEq, Eq)]
pub enum Srctyp {
    /// Add from target matrix
    SourceTarget,
    /// Add from source matrix
    SourceSource,
}

/// One operation: `out[target] ^= srctyp[source]`.
#[derive(Clone, Copy, Debug)]
pub struct DjbOp {
    pub target: usize,
    pub source: usize,
    pub srctyp: Srctyp,
}

/// A linear map from `ncols` input rows to `nrows` output rows, written as
/// a queue of operations. The operation pushed last runs first.
#[derive(Debug)]
pub struct Djb {
    pub(crate) nrows: usize,
    pub(crate) ncols: usize,
    pub(crate) ops: Vec<DjbOp>,
}

/// Whether `op` names a row of the output and a row of where it reads.
pub open spec fn op_wf(op: DjbOp, nrows: nat, ncols: nat) -> bool {
    &&& op.target < nrows
    &&& match op.srctyp {
        Srctyp::SourceTarget => op.source < nrows,
        Srctyp::SourceSource => op.source < ncols,
    }
}

/// The output after one operation.
pub open spec fn apply_op(op: DjbOp, w: Seq<Seq<bool>>, v: Seq<Seq<bool>>) -> Seq<Seq<bool>> {
    match op.srctyp {
        Srctyp::SourceTarget => w.update(
            op.target as int,
            row_add(w[op.target as int], w[op.source as int]),
        ),
        Srctyp::SourceSource => w.update(
            op.target as int,
            row_add(w[op.target as int], v[op.source as int]),
        ),
    }
}

/// The output after the operations `ops[n - 1]`, .., `ops[upto]`, in this
/// order, on the output `w` and the input `v`.
pub open spec fn apply_ops(
    ops: Seq<DjbOp>,
    upto: int,
    n: int,
    w: Seq<Seq<bool>>,
    v: Seq<Seq<bool>>,
) -> Seq<Seq<bool>>
    decreases n - upto,
{
    if n <= upto {
        w
    } else {
        apply_op(ops[upto], apply_ops(ops, upto + 1, n, w, v), v)
    }
}

impl Djb {
    /// The queue of operations, first pushed first.
    pub open(crate) spec fn view(&self) -> Seq<DjbOp> {
        self.ops@
    }

    /// Number of output rows, as a mathematical integer.
    pub open(crate) spec fn spec_nrows(&self) -> nat {
        self.nrows as nat
    }

    /// Number of input rows, as a mathematical integer.
    pub open(crate) spec fn spec_ncols(&self) -> nat {
        self.ncols as nat
    }

    /// Whether every operation names rows that exist.
    pub open(crate) spec fn wf(&self) -> bool {
        forall|i: int| 0 <= i < self@.len() ==> op_wf(#[trigger] self@[i], self.nrows as nat, self.ncols as nat)
    }

    /// The empty map from `ncols` input rows to `nrows` output rows.
    pub fn new(nrows: usize, ncols: usize) -> (z: Djb)
        ensures
            z.wf(),
            z@ == Seq::<DjbOp>::empty(),
            z.spec_nrows() == nrows,
            z.spec_ncols() == ncols,
    {
        Djb { nrows, ncols, ops: Vec::new() }
    }

    /// Appends the operation `out[target] ^= srctyp[source]` to the queue.
    pub fn push_back(&mut self, target: usize, source: usize, srctyp: Srctyp)
        requires
            old(self).wf(),
            op_wf(
                (DjbOp { target, source, srctyp }),
                old(self).spec_nrows(),
                old(self).spec_ncols(),
            ),
        ensures
            final(self).wf(),
            final(self).spec_nrows() == old(self).spec_nrows(),
            final(self).spec_ncols() == old(self).spec_ncols(),
            final(self)@ == old(self)@.push((DjbOp { target, source, srctyp })),
    {
        self.ops.push(DjbOp { target, source, srctyp });
        proof {
            assert forall|i: int| 0 <= i < self@.len() implies op_wf(
                #[trigger] self@[i],
                self.nrows as nat,
                self.ncols as nat,
            ) by {
                if i < old(self)@.len() {
                    assert(self@[i] == old(self)@[i]);
                }
            }
        }
    }

    /// Number of operations in the queue.
    pub fn len(&self) -> (n: usize)
        ensures
            n == self@.len(),
    {
        self.ops.len()
    }

    /// Runs the queue, last operation first, on the output `w` and the
    /// input `v`.
    pub fn apply_mzd(&self, w: &mut BinMatrix, v: &BinMatrix)
        requires
            self.wf(),
            old(w).wf(),
            v.wf(),
            old(w).spec_nrows() == self.spec_nrows(),
            v.spec_nrows() == self.spec_ncols(),
            old(w).spec_ncols() == v.spec_ncols(),
        ensures
            final(w).wf(),
            final(w).spec_nrows() == old(w).spec_nrows(),
            final(w).spec_ncols() == old(w).spec_ncols(),
            final(w)@ == apply_ops(self@, 0, self@.len() as int, old(w)@, v@),
    {
        let n = self.ops.len();
        let mut i: usize = n;
        while i > 0
            invariant
                i <= n,
                n == self@.len(),
                self.wf(),
                w.wf(),
                v.wf(),
                w.nrows == self.nrows,
                v.nrows == self.ncols,
                w.ncols == v.ncols,
                w.nrows == old(w).nrows,
                w.ncols == old(w).ncols,
                w@ == apply_ops(self@, i as int, n as int, old(w)@, v@),
            decreases i,
        {
            i -= 1;
            let op = self.ops[i];
            assert(op_wf(self@[i as int], self.nrows as nat, self.ncols as nat));
            match op.srctyp {
                Srctyp::SourceSource => {
                    w.row_xor_from(op.target, v, op.source);
                },
                Srctyp::SourceTarget => {
                    if op.target != op.source {
                        w.add_row(op.target, op.source);
                    } else {
                        proof {
                            let row = w@[op.target as int];
                            assert(row_add(row, row) =~= zero_row(w.ncols as nat));
                        }
                        w.clear_row(op.target);
                    }
                },
            }
        }
    }
}

} // verus!
