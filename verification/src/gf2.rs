//! Matrices over GF(2) as mathematical objects.
//!
//! A matrix is a sequence of rows, a row a sequence of bits. Addition is
//! exclusive or (written `!=` on `bool`), multiplication is conjunction.
use vstd::prelude::*;

verus! {

/// Whether `m` has `rows` rows of `cols` entries each.
pub open spec fn is_matrix(m: Seq<Seq<bool>>, rows: nat, cols: nat) -> bool {
    &&& m.len() == rows
    &&& forall|i: int| 0 <= i < rows ==> (#[trigger] m[i]).len() == cols
}

/// Number of columns of a matrix with at least one row.
pub open spec fn cols_of(m: Seq<Seq<bool>>) -> nat {
    if m.len() == 0 {
        0
    } else {
        m[0].len()
    }
}

/// The all-zero row of `n` entries.
pub open spec fn zero_row(n: nat) -> Seq<bool> {
    Seq::new(n, |j: int| false)
}

/// The `rows` x `cols` matrix of zeros.
pub open spec fn zero_matrix(rows: nat, cols: nat) -> Seq<Seq<bool>> {
    Seq::new(rows, |i: int| zero_row(cols))
}

/// The `n` x `n` identity.
pub open spec fn identity_matrix(n: nat) -> Seq<Seq<bool>> {
    Seq::new(n, |i: int| Seq::new(n, |j: int| i == j))
}

/// Entry-wise sum of two rows.
pub open spec fn row_add(a: Seq<bool>, b: Seq<bool>) -> Seq<bool> {
    Seq::new(a.len(), |j: int| a[j] != b[j])
}

/// Entry-wise sum of two matrices of one shape.
pub open spec fn mat_add(a: Seq<Seq<bool>>, b: Seq<Seq<bool>>) -> Seq<Seq<bool>> {
    Seq::new(a.len(), |i: int| row_add(a[i], b[i]))
}

/// The transpose: entry `(j, i)` of the result is entry `(i, j)` of `a`.
pub open spec fn transpose(a: Seq<Seq<bool>>) -> Seq<Seq<bool>> {
    Seq::new(cols_of(a), |j: int| Seq::new(a.len(), |i: int| a[i][j]))
}

/// Sum over GF(2) of `f(0), .., f(n - 1)`.
pub open spec fn xor_sum(f: spec_fn(int) -> bool, n: nat) -> bool
    decreases n,
{
    if n == 0 {
        false
    } else {
        xor_sum(f, (n - 1) as nat) != f(n - 1)
    }
}

/// The products whose sum is entry `(i, j)` of `a * b`.
pub open spec fn entry_terms(a: Seq<Seq<bool>>, b: Seq<Seq<bool>>, i: int, j: int) -> spec_fn(
    int,
) -> bool {
    |k: int| a[i][k] && b[k][j]
}

/// Entry `(i, j)` of `a * b`, the sum taken over the first `n` rows of `b`.
pub open spec fn partial_entry(a: Seq<Seq<bool>>, b: Seq<Seq<bool>>, i: int, j: int, n: nat) -> bool {
    xor_sum(entry_terms(a, b, i, j), n)
}

/// Entry `(i, j)` of `a * b`.
pub open spec fn mat_entry(a: Seq<Seq<bool>>, b: Seq<Seq<bool>>, i: int, j: int) -> bool {
    partial_entry(a, b, i, j, b.len())
}

/// Row `i` of `a * b`, the sums taken over the first `n` rows of `b`.
pub open spec fn partial_row(a: Seq<Seq<bool>>, b: Seq<Seq<bool>>, i: int, n: nat) -> Seq<bool> {
    Seq::new(cols_of(b), |j: int| partial_entry(a, b, i, j, n))
}

/// The product `a * b`.
pub open spec fn mat_mul(a: Seq<Seq<bool>>, b: Seq<Seq<bool>>) -> Seq<Seq<bool>> {
    Seq::new(a.len(), |i: int| Seq::new(cols_of(b), |j: int| mat_entry(a, b, i, j)))
}

/// The row vector `v` times `a`.
pub open spec fn vec_mat(v: Seq<bool>, a: Seq<Seq<bool>>) -> Seq<bool> {
    Seq::new(cols_of(a), |j: int| mat_entry(seq![v], a, 0, j))
}

/// `a` times the column vector `v`.
pub open spec fn mat_vec(a: Seq<Seq<bool>>, v: Seq<bool>) -> Seq<bool> {
    Seq::new(a.len(), |i: int| mat_entry(a, column_matrix(v), i, 0))
}

/// The vector that a matrix of one row or of one column stands for.
pub open spec fn vector_of(m: Seq<Seq<bool>>) -> Seq<bool> {
    if m.len() == 1 {
        m[0]
    } else {
        Seq::new(m.len(), |i: int| m[i][0])
    }
}

/// The matrix with `v` as its only row.
pub open spec fn row_matrix(v: Seq<bool>) -> Seq<Seq<bool>> {
    seq![v]
}

/// The matrix with `v` as its only column.
pub open spec fn column_matrix(v: Seq<bool>) -> Seq<Seq<bool>> {
    Seq::new(v.len(), |i: int| seq![v[i]])
}

/// `a` and `b` side by side.
pub open spec fn augment(a: Seq<Seq<bool>>, b: Seq<Seq<bool>>) -> Seq<Seq<bool>> {
    Seq::new(a.len(), |i: int| a[i] + b[i])
}

/// The rows `[r0, r1)` and columns `[c0, c1)` of `a`.
pub open spec fn submatrix(a: Seq<Seq<bool>>, r0: int, c0: int, r1: int, c1: int) -> Seq<Seq<bool>> {
    Seq::new((r1 - r0) as nat, |i: int| Seq::new((c1 - c0) as nat, |j: int| a[r0 + i][c0 + j]))
}

/// `a` with the block `b` written at row `r0`, column `c0`.
pub open spec fn with_block(a: Seq<Seq<bool>>, r0: int, c0: int, b: Seq<Seq<bool>>) -> Seq<
    Seq<bool>,
> {
    Seq::new(
        a.len(),
        |i: int|
            Seq::new(
                a[i].len(),
                |j: int|
                    if r0 <= i < r0 + b.len() && c0 <= j < c0 + cols_of(b) {
                        b[i - r0][j - c0]
                    } else {
                        a[i][j]
                    },
            ),
    )
}

/// Two matrices of one shape with the same entries are the same matrix.
pub proof fn lemma_is_matrix_ext(a: Seq<Seq<bool>>, b: Seq<Seq<bool>>, rows: nat, cols: nat)
    requires
        is_matrix(a, rows, cols),
        is_matrix(b, rows, cols),
        forall|i: int, j: int| 0 <= i < rows && 0 <= j < cols ==> a[i][j] == b[i][j],
    ensures
        a == b,
{
    assert forall|i: int| 0 <= i < rows implies a[i] == b[i] by {
        assert(a[i].len() == cols);
        assert(b[i].len() == cols);
        assert(a[i] =~= b[i]);
    }
    assert(a =~= b);
}

/// Sums of functions that agree on `[0, n)` agree.
pub proof fn lemma_xor_sum_ext(f: spec_fn(int) -> bool, g: spec_fn(int) -> bool, n: nat)
    requires
        forall|k: int| 0 <= k < n ==> #[trigger] f(k) == g(k),
    ensures
        xor_sum(f, n) == xor_sum(g, n),
    decreases n,
{
    if n > 0 {
        lemma_xor_sum_ext(f, g, (n - 1) as nat);
    }
}

/// A sum of zeros is zero.
pub proof fn lemma_xor_sum_zero(f: spec_fn(int) -> bool, n: nat)
    requires
        forall|k: int| 0 <= k < n ==> !#[trigger] f(k),
    ensures
        !xor_sum(f, n),
    decreases n,
{
    if n > 0 {
        lemma_xor_sum_zero(f, (n - 1) as nat);
    }
}

/// A sum with at most one nonzero term is that term.
pub proof fn lemma_xor_sum_pick(f: spec_fn(int) -> bool, n: nat, p: int)
    requires
        0 <= p < n,
        forall|k: int| 0 <= k < n && k != p ==> !#[trigger] f(k),
    ensures
        xor_sum(f, n) == f(p),
    decreases n,
{
    if n - 1 == p {
        lemma_xor_sum_zero(f, (n - 1) as nat);
    } else {
        lemma_xor_sum_pick(f, (n - 1) as nat, p);
    }
}

/// The sum of term-wise sums is the sum of the sums.
pub proof fn lemma_xor_sum_add(
    f: spec_fn(int) -> bool,
    g: spec_fn(int) -> bool,
    h: spec_fn(int) -> bool,
    n: nat,
)
    requires
        forall|k: int| 0 <= k < n ==> #[trigger] h(k) == (f(k) != g(k)),
    ensures
        xor_sum(h, n) == (xor_sum(f, n) != xor_sum(g, n)),
    decreases n,
{
    if n > 0 {
        lemma_xor_sum_add(f, g, h, (n - 1) as nat);
    }
}

/// A common factor can be taken out of a sum.
pub proof fn lemma_xor_sum_scale(c: bool, f: spec_fn(int) -> bool, h: spec_fn(int) -> bool, n: nat)
    requires
        forall|k: int| 0 <= k < n ==> #[trigger] h(k) == (c && f(k)),
    ensures
        xor_sum(h, n) == (c && xor_sum(f, n)),
    decreases n,
{
    if n > 0 {
        lemma_xor_sum_scale(c, f, h, (n - 1) as nat);
    }
}

/// The inner sum of a double sum, over the second index.
pub open spec fn inner_over_second(f: spec_fn(int, int) -> bool, n: nat) -> spec_fn(int) -> bool {
    |k: int| xor_sum(|l: int| f(k, l), n)
}

/// The inner sum of a double sum, over the first index.
pub open spec fn inner_over_first(f: spec_fn(int, int) -> bool, m: nat) -> spec_fn(int) -> bool {
    |l: int| xor_sum(|k: int| f(k, l), m)
}

/// A double sum may be taken in either order.
pub proof fn lemma_xor_sum_swap(f: spec_fn(int, int) -> bool, m: nat, n: nat)
    ensures
        xor_sum(inner_over_second(f, n), m) == xor_sum(inner_over_first(f, m), n),
    decreases m,
{
    if m == 0 {
        lemma_xor_sum_zero(inner_over_first(f, 0), n);
    } else {
        let m1 = (m - 1) as nat;
        lemma_xor_sum_swap(f, m1, n);
        let last = |l: int| f(m - 1, l);
        let whole = inner_over_first(f, m);
        let before = inner_over_first(f, m1);
        assert forall|l: int| 0 <= l < n implies #[trigger] whole(l) == (before(l) != last(l)) by {
            let col = |k: int| f(k, l);
            assert(xor_sum(col, m) == (xor_sum(col, m1) != col(m - 1)));
        }
        lemma_xor_sum_add(before, last, whole, n);
        assert(inner_over_second(f, n)(m - 1) == xor_sum(last, n)) by {
            lemma_xor_sum_ext(|l: int| f(m - 1, l), last, n);
        }
    }
}

/// The product of an `m` x `n` and an `n` x `p` matrix has `m` rows and `p`
/// columns, and its entries are the sums that `mat_entry` names.
pub proof fn lemma_mat_mul_shape(a: Seq<Seq<bool>>, b: Seq<Seq<bool>>, m: nat, n: nat, p: nat)
    requires
        is_matrix(a, m, n),
        is_matrix(b, n, p),
    ensures
        is_matrix(mat_mul(a, b), m, if n == 0 { 0 } else { p }),
        forall|i: int, j: int|
            0 <= i < m && 0 <= j < cols_of(b) ==> mat_mul(a, b)[i][j] == mat_entry(a, b, i, j),
{
}

/// Multiplication is associative: `(a * b) * c == a * (b * c)`.
pub proof fn lemma_mul_associative(
    a: Seq<Seq<bool>>,
    b: Seq<Seq<bool>>,
    c: Seq<Seq<bool>>,
    m: nat,
    n: nat,
    p: nat,
    q: nat,
)
    requires
        is_matrix(a, m, n),
        is_matrix(b, n, p),
        is_matrix(c, p, q),
        n > 0,
        p > 0,
    ensures
        mat_mul(mat_mul(a, b), c) == mat_mul(a, mat_mul(b, c)),
{
    let ab = mat_mul(a, b);
    let bc = mat_mul(b, c);
    lemma_mat_mul_shape(a, b, m, n, p);
    lemma_mat_mul_shape(b, c, n, p, q);
    lemma_mat_mul_shape(ab, c, m, p, q);
    lemma_mat_mul_shape(a, bc, m, n, q);
    assert forall|i: int, j: int| 0 <= i < m && 0 <= j < q implies mat_mul(ab, c)[i][j] == mat_mul(
        a,
        bc,
    )[i][j] by {
        let f = |k: int, l: int| a[i][l] && b[l][k] && c[k][j];
        // the left side, term by term
        let left = entry_terms(ab, c, i, j);
        let right = entry_terms(a, bc, i, j);
        assert forall|k: int| 0 <= k < p implies #[trigger] left(k) == inner_over_second(f, n)(k) by {
            lemma_xor_sum_scale(c[k][j], entry_terms(a, b, i, k), |l: int| f(k, l), n);
        }
        lemma_xor_sum_ext(left, inner_over_second(f, n), p);
        // the right side, term by term
        assert forall|l: int| 0 <= l < n implies #[trigger] right(l) == inner_over_first(f, p)(l) by {
            lemma_xor_sum_scale(a[i][l], entry_terms(b, c, l, j), |k: int| f(k, l), p);
        }
        lemma_xor_sum_ext(right, inner_over_first(f, p), n);
        lemma_xor_sum_swap(f, p, n);
    }
    lemma_is_matrix_ext(mat_mul(ab, c), mat_mul(a, bc), m, q);
}

/// Multiplication distributes over addition from the left:
/// `a * (b + c) == a * b + a * c`.
pub proof fn lemma_mul_distributive(
    a: Seq<Seq<bool>>,
    b: Seq<Seq<bool>>,
    c: Seq<Seq<bool>>,
    m: nat,
    n: nat,
    p: nat,
)
    requires
        is_matrix(a, m, n),
        is_matrix(b, n, p),
        is_matrix(c, n, p),
        n > 0,
    ensures
        mat_mul(a, mat_add(b, c)) == mat_add(mat_mul(a, b), mat_mul(a, c)),
{
    let s = mat_add(b, c);
    assert(is_matrix(s, n, p));
    lemma_mat_mul_shape(a, s, m, n, p);
    lemma_mat_mul_shape(a, b, m, n, p);
    lemma_mat_mul_shape(a, c, m, n, p);
    let rhs = mat_add(mat_mul(a, b), mat_mul(a, c));
    assert(is_matrix(rhs, m, p));
    assert forall|i: int, j: int| 0 <= i < m && 0 <= j < p implies mat_mul(a, s)[i][j]
        == rhs[i][j] by {
        lemma_xor_sum_add(
            entry_terms(a, b, i, j),
            entry_terms(a, c, i, j),
            entry_terms(a, s, i, j),
            n,
        );
    }
    lemma_is_matrix_ext(mat_mul(a, s), rhs, m, p);
}

/// Multiplication distributes over addition from the right:
/// `(a + b) * c == a * c + b * c`.
pub proof fn lemma_mul_distributive_right(
    a: Seq<Seq<bool>>,
    b: Seq<Seq<bool>>,
    c: Seq<Seq<bool>>,
    m: nat,
    n: nat,
    p: nat,
)
    requires
        is_matrix(a, m, n),
        is_matrix(b, m, n),
        is_matrix(c, n, p),
        n > 0,
    ensures
        mat_mul(mat_add(a, b), c) == mat_add(mat_mul(a, c), mat_mul(b, c)),
{
    let s = mat_add(a, b);
    assert(is_matrix(s, m, n));
    lemma_mat_mul_shape(s, c, m, n, p);
    lemma_mat_mul_shape(a, c, m, n, p);
    lemma_mat_mul_shape(b, c, m, n, p);
    let rhs = mat_add(mat_mul(a, c), mat_mul(b, c));
    assert(is_matrix(rhs, m, p));
    assert forall|i: int, j: int| 0 <= i < m && 0 <= j < p implies mat_mul(s, c)[i][j]
        == rhs[i][j] by {
        lemma_xor_sum_add(
            entry_terms(a, c, i, j),
            entry_terms(b, c, i, j),
            entry_terms(s, c, i, j),
            n,
        );
    }
    lemma_is_matrix_ext(mat_mul(s, c), rhs, m, p);
}

/// Transposing twice gives the matrix back.
pub proof fn lemma_transpose_involution(a: Seq<Seq<bool>>, m: nat, n: nat)
    requires
        is_matrix(a, m, n),
        m > 0,
        n > 0,
    ensures
        is_matrix(transpose(a), n, m),
        transpose(transpose(a)) == a,
{
    let t = transpose(a);
    assert(is_matrix(t, n, m));
    assert(is_matrix(transpose(t), m, n));
    lemma_is_matrix_ext(transpose(t), a, m, n);
}

/// The identity is neutral on the left: `identity(m) * a == a`.
pub proof fn lemma_identity_left(a: Seq<Seq<bool>>, m: nat, n: nat)
    requires
        is_matrix(a, m, n),
        m > 0,
    ensures
        mat_mul(identity_matrix(m), a) == a,
{
    let id = identity_matrix(m);
    assert(is_matrix(id, m, m));
    lemma_mat_mul_shape(id, a, m, m, n);
    assert forall|i: int, j: int| 0 <= i < m && 0 <= j < n implies mat_mul(id, a)[i][j]
        == a[i][j] by {
        lemma_xor_sum_pick(entry_terms(id, a, i, j), m, i);
    }
    lemma_is_matrix_ext(mat_mul(id, a), a, m, n);
}

/// The identity is neutral on the right: `a * identity(n) == a`.
pub proof fn lemma_identity_right(a: Seq<Seq<bool>>, m: nat, n: nat)
    requires
        is_matrix(a, m, n),
        n > 0,
    ensures
        mat_mul(a, identity_matrix(n)) == a,
{
    let id = identity_matrix(n);
    assert(is_matrix(id, n, n));
    lemma_mat_mul_shape(a, id, m, n, n);
    assert forall|i: int, j: int| 0 <= i < m && 0 <= j < n implies mat_mul(a, id)[i][j]
        == a[i][j] by {
        lemma_xor_sum_pick(entry_terms(a, id, i, j), n, j);
    }
    lemma_is_matrix_ext(mat_mul(a, id), a, m, n);
}

/// Taking one more row of `b` into account adds that row to row `i` of
/// the product where `a[i][k]` is set, and nothing where it is not.
pub proof fn lemma_partial_row_step(
    a: Seq<Seq<bool>>,
    b: Seq<Seq<bool>>,
    i: int,
    k: int,
    base: Seq<bool>,
)
    requires
        0 <= k < b.len(),
        forall|r: int| 0 <= r < b.len() ==> (#[trigger] b[r]).len() == cols_of(b),
        base.len() == cols_of(b),
    ensures
        row_add(base, partial_row(a, b, i, (k + 1) as nat)) == if a[i][k] {
            row_add(row_add(base, partial_row(a, b, i, k as nat)), b[k])
        } else {
            row_add(base, partial_row(a, b, i, k as nat))
        },
{
    let lhs = row_add(base, partial_row(a, b, i, (k + 1) as nat));
    let cur = row_add(base, partial_row(a, b, i, k as nat));
    let rhs = if a[i][k] {
        row_add(cur, b[k])
    } else {
        cur
    };
    assert forall|j: int| 0 <= j < cols_of(b) implies lhs[j] == rhs[j] by {
        assert(partial_entry(a, b, i, j, (k + 1) as nat) == (partial_entry(a, b, i, j, k as nat)
            != entry_terms(a, b, i, j)(k)));
    }
    assert(lhs =~= rhs);
}

/// Adding nothing changes nothing.
pub proof fn lemma_partial_row_zero(a: Seq<Seq<bool>>, b: Seq<Seq<bool>>, i: int, base: Seq<bool>)
    requires
        base.len() == cols_of(b),
    ensures
        row_add(base, partial_row(a, b, i, 0)) == base,
{
    assert(row_add(base, partial_row(a, b, i, 0)) =~= base);
}

/// The terms of a sum from term `n` on.
pub open spec fn shifted(f: spec_fn(int) -> bool, n: int) -> spec_fn(int) -> bool {
    |t: int| f(n + t)
}

/// A sum of `n + k` terms is the sum of the first `n` and of the `k` after
/// them.
pub proof fn lemma_xor_sum_split(f: spec_fn(int) -> bool, n: nat, k: nat)
    ensures
        xor_sum(f, n + k) == (xor_sum(f, n) != xor_sum(shifted(f, n as int), k)),
    decreases k,
{
    if k > 0 {
        lemma_xor_sum_split(f, n, (k - 1) as nat);
        assert(xor_sum(f, n + k) == (xor_sum(f, (n + k - 1) as nat) != f(n + k - 1)));
    }
}

/// Changing one term by `d` changes the sum by `d`.
pub proof fn lemma_xor_sum_toggle(
    f: spec_fn(int) -> bool,
    h: spec_fn(int) -> bool,
    n: nat,
    p: int,
    d: bool,
)
    requires
        0 <= p < n,
        forall|t: int| 0 <= t < n && t != p ==> #[trigger] h(t) == f(t),
        h(p) == (f(p) != d),
    ensures
        xor_sum(h, n) == (xor_sum(f, n) != d),
    decreases n,
{
    if n - 1 == p {
        lemma_xor_sum_ext(h, f, (n - 1) as nat);
    } else {
        lemma_xor_sum_toggle(f, h, (n - 1) as nat, p, d);
    }
}

/// Adding the zero matrix changes nothing.
pub proof fn lemma_add_zero(a: Seq<Seq<bool>>, rows: nat, cols: nat)
    requires
        is_matrix(a, rows, cols),
    ensures
        mat_add(zero_matrix(rows, cols), a) == a,
        mat_add(a, zero_matrix(rows, cols)) == a,
{
    lemma_is_matrix_ext(mat_add(zero_matrix(rows, cols), a), a, rows, cols);
    lemma_is_matrix_ext(mat_add(a, zero_matrix(rows, cols)), a, rows, cols);
}

/// A vector made a row matrix and read back is the vector again.
pub proof fn lemma_round_trip_row(v: Seq<bool>)
    ensures
        vector_of(row_matrix(v)) == v,
{
}

/// A vector made a column matrix and read back is the vector again.
pub proof fn lemma_round_trip_column(v: Seq<bool>)
    ensures
        vector_of(column_matrix(v)) == v,
{
    assert(vector_of(column_matrix(v)) =~= v);
}

/// The transpose of a row matrix is the column matrix of the same vector.
pub proof fn lemma_transpose_row_matrix(v: Seq<bool>)
    ensures
        transpose(row_matrix(v)) == column_matrix(v),
{
    assert(transpose(row_matrix(v)) =~~= column_matrix(v));
}

} // verus!
