//! Reduction of dense 0/1 matrices over the two-element field: Gaussian
//! elimination to a diagonal form, and rank/nullity extraction.
//!
//! Matrices are `nalgebra` dynamic matrices, declared opaquely; their
//! contents are named by `mat_entries`/`mat_width`, and every elementary step
//! of the reduction is recorded against those names, so the result is
//! provably reachable from the input by row/column swaps and additions
//! modulo two.

use vstd::prelude::*;

verus! {

/// A dense dynamic matrix of machine integers, backed by `nalgebra`.
/// Declaring `nalgebra`'s own matrix type is refused by the verifier (its
/// storage parameter carries trait bounds it cannot import), so the matrix is
/// held opaquely and spoken of only through `mat_entries` and `mat_width`.
#[verifier::external_body]
pub struct Matrix {
    inner: nalgebra::DMatrix<i32>,
}

/// The rows of a matrix, as a sequence of sequences of integers.
pub uninterp spec fn mat_entries(m: Matrix) -> Seq<Seq<int>>;

/// The column count of a matrix (also defined when it has no rows).
pub uninterp spec fn mat_width(m: Matrix) -> int;

/// Every row has exactly `w` entries.
pub open spec fn rect_of(e: Seq<Seq<int>>, w: int) -> bool {
    w >= 0 && forall|i: int| 0 <= i < e.len() ==> (#[trigger] e[i]).len() == w
}

/// Every entry is 0 or 1.
pub open spec fn gf2_of(e: Seq<Seq<int>>) -> bool {
    forall|i: int, j: int|
        0 <= i < e.len() && 0 <= j < e[i].len() ==> (#[trigger] e[i][j]) == 0 || e[i][j] == 1
}

/// Addition modulo two.
pub open spec fn xor2(a: int, b: int) -> int {
    (a + b) % 2
}

/// An elementary operation on a matrix over the two-element field.
pub ghost enum MatOp {
    SwapRows { a: int, b: int },
    SwapCols { a: int, b: int },
    AddRow { src: int, dst: int },
    AddCol { src: int, dst: int },
}

/// Entry-wise addition modulo two of `s` into `r`.
pub open spec fn row_xor_seq(r: Seq<int>, s: Seq<int>) -> Seq<int> {
    Seq::new(r.len(), |j: int| xor2(r[j], s[j]))
}

/// Whether an elementary operation addresses the matrix within bounds.
pub open spec fn op_valid(e: Seq<Seq<int>>, op: MatOp) -> bool {
    match op {
        MatOp::SwapRows { a, b } => 0 <= a < e.len() && 0 <= b < e.len(),
        MatOp::SwapCols { a, b } => 0 <= a && 0 <= b && forall|i: int|
            0 <= i < e.len() ==> a < (#[trigger] e[i]).len() && b < e[i].len(),
        MatOp::AddRow { src, dst } => 0 <= src < e.len() && 0 <= dst < e.len() && src != dst
            && e[src].len() == e[dst].len(),
        MatOp::AddCol { src, dst } => 0 <= src && 0 <= dst && src != dst && forall|i: int|
            0 <= i < e.len() ==> src < (#[trigger] e[i]).len() && dst < e[i].len(),
    }
}

/// The effect of an elementary operation; out-of-range operations leave the
/// matrix unchanged.
pub open spec fn apply_op(e: Seq<Seq<int>>, op: MatOp) -> Seq<Seq<int>> {
    if !op_valid(e, op) {
        e
    } else {
        match op {
            MatOp::SwapRows { a, b } => e.update(a, e[b]).update(b, e[a]),
            MatOp::SwapCols { a, b } => Seq::new(
                e.len(),
                |i: int| e[i].update(a, e[i][b]).update(b, e[i][a]),
            ),
            MatOp::AddRow { src, dst } => e.update(dst, row_xor_seq(e[dst], e[src])),
            MatOp::AddCol { src, dst } => Seq::new(
                e.len(),
                |i: int| e[i].update(dst, xor2(e[i][dst], e[i][src])),
            ),
        }
    }
}

/// The matrix obtained by applying `ops` from left to right.
pub open spec fn apply_ops(e: Seq<Seq<int>>, ops: Seq<MatOp>) -> Seq<Seq<int>>
    decreases ops.len(),
{
    if ops.len() == 0 {
        e
    } else {
        apply_ops(apply_op(e, ops[0]), ops.drop_first())
    }
}

/// `b` arises from `a` by a sequence of elementary operations modulo two;
/// such operations preserve the matrix's rank over the two-element field.
pub open spec fn gf2_reachable(a: Seq<Seq<int>>, b: Seq<Seq<int>>) -> bool {
    exists|ops: Seq<MatOp>| b == apply_ops(a, ops)
}

/// Appending one operation composes with `apply_ops`.
pub proof fn lemma_apply_ops_push(e: Seq<Seq<int>>, ops: Seq<MatOp>, op: MatOp)
    ensures
        apply_ops(e, ops.push(op)) == apply_op(apply_ops(e, ops), op),
    decreases ops.len(),
{
    if ops.len() == 0 {
        assert(ops.push(op)[0] == op);
        assert(ops.push(op).drop_first() =~= Seq::<MatOp>::empty());
        assert(apply_ops(e, ops.push(op)) == apply_ops(
            apply_op(e, op),
            Seq::<MatOp>::empty(),
        ));
        assert(apply_ops(apply_op(e, op), Seq::<MatOp>::empty()) == apply_op(e, op));
    } else {
        assert(ops.push(op)[0] == ops[0]);
        assert(ops.push(op).drop_first() =~= ops.drop_first().push(op));
        lemma_apply_ops_push(apply_op(e, ops[0]), ops.drop_first(), op);
    }
}

/// Reachability extends along one more elementary operation.
pub proof fn lemma_reach_step(a: Seq<Seq<int>>, b: Seq<Seq<int>>, op: MatOp)
    requires
        gf2_reachable(a, b),
    ensures
        gf2_reachable(a, apply_op(b, op)),
{
    let ops = choose|ops: Seq<MatOp>| b == apply_ops(a, ops);
    lemma_apply_ops_push(a, ops, op);
    assert(apply_op(b, op) == apply_ops(a, ops.push(op)));
}

/// Reachability is reflexive.
pub proof fn lemma_reach_refl(a: Seq<Seq<int>>)
    ensures
        gf2_reachable(a, a),
{
    assert(apply_ops(a, Seq::<MatOp>::empty()) == a);
}

/// Elementary operations keep the matrix rectangular and over {0, 1}.
pub proof fn lemma_apply_op_props(e: Seq<Seq<int>>, w: int, op: MatOp)
    requires
        rect_of(e, w),
        gf2_of(e),
    ensures
        apply_op(e, op).len() == e.len(),
        rect_of(apply_op(e, op), w),
        gf2_of(apply_op(e, op)),
{
    let r = apply_op(e, op);
    if op_valid(e, op) {
        match op {
            MatOp::SwapRows { a, b } => {},
            MatOp::SwapCols { a, b } => {},
            MatOp::AddRow { src, dst } => {
                assert forall|i: int, j: int|
                    0 <= i < r.len() && 0 <= j < r[i].len() implies (#[trigger] r[i][j]) == 0
                    || r[i][j] == 1 by {
                    if i == dst {
                        assert(r[i][j] == xor2(e[dst][j], e[src][j]));
                    }
                }
            },
            MatOp::AddCol { src, dst } => {},
        }
    }
}

/// Relies on `nalgebra::DMatrix::from_element`: a matrix of the given shape
/// with every entry equal to `v`.
#[verifier::external_body]
pub(crate) fn mat_from_element(nrows: usize, ncols: usize, v: i32) -> (r: Matrix)
    ensures
        mat_entries(r).len() == nrows,
        mat_width(r) == ncols,
        rect_of(mat_entries(r), ncols as int),
        forall|i: int, j: int|
            0 <= i < nrows && 0 <= j < ncols ==> (#[trigger] mat_entries(r)[i][j]) == v as int,
{
    Matrix { inner: nalgebra::DMatrix::from_element(nrows, ncols, v) }
}

/// Relies on `nalgebra::Matrix::nrows`.
#[verifier::external_body]
fn mat_nrows(m: &Matrix) -> (r: usize)
    ensures
        r == mat_entries(*m).len(),
{
    m.inner.nrows()
}

/// Relies on `nalgebra::Matrix::ncols`.
#[verifier::external_body]
fn mat_ncols(m: &Matrix) -> (r: usize)
    ensures
        r == mat_width(*m),
{
    m.inner.ncols()
}

/// Relies on indexing a `nalgebra` matrix by `(row, column)`; panics are
/// excluded by the bounds preconditions.
#[verifier::external_body]
fn mat_get(m: &Matrix, i: usize, j: usize) -> (r: i32)
    requires
        0 <= i < mat_entries(*m).len(),
        0 <= j < mat_width(*m),
        rect_of(mat_entries(*m), mat_width(*m)),
    ensures
        r as int == mat_entries(*m)[i as int][j as int],
{
    m.inner[(i, j)]
}

/// Relies on mutable indexing of a `nalgebra` matrix: writes one entry.
#[verifier::external_body]
pub(crate) fn mat_set(m: &mut Matrix, i: usize, j: usize, v: i32)
    requires
        0 <= i < mat_entries(*old(m)).len(),
        0 <= j < mat_width(*old(m)),
        rect_of(mat_entries(*old(m)), mat_width(*old(m))),
    ensures
        mat_entries(*final(m)) == mat_entries(*old(m)).update(
            i as int,
            mat_entries(*old(m))[i as int].update(j as int, v as int),
        ),
        mat_width(*final(m)) == mat_width(*old(m)),
{
    m.inner[(i, j)] = v;
}

/// Relies on `nalgebra::Matrix::swap_rows`.
#[verifier::external_body]
fn mat_swap_rows(m: &mut Matrix, a: usize, b: usize)
    requires
        0 <= a < mat_entries(*old(m)).len(),
        0 <= b < mat_entries(*old(m)).len(),
    ensures
        mat_entries(*final(m)) == apply_op(
            mat_entries(*old(m)),
            MatOp::SwapRows { a: a as int, b: b as int },
        ),
        mat_width(*final(m)) == mat_width(*old(m)),
{
    m.inner.swap_rows(a, b);
}

/// Relies on `nalgebra::Matrix::swap_columns`.
#[verifier::external_body]
fn mat_swap_columns(m: &mut Matrix, a: usize, b: usize)
    requires
        0 <= a < mat_width(*old(m)),
        0 <= b < mat_width(*old(m)),
        rect_of(mat_entries(*old(m)), mat_width(*old(m))),
    ensures
        mat_entries(*final(m)) == apply_op(
            mat_entries(*old(m)),
            MatOp::SwapCols { a: a as int, b: b as int },
        ),
        mat_width(*final(m)) == mat_width(*old(m)),
{
    m.inner.swap_columns(a, b);
}


/// Adds row `src` into row `dst` modulo two, one entry at a time.
fn mat_row_xor(m: &mut Matrix, src: usize, dst: usize)
    requires
        rect_of(mat_entries(*old(m)), mat_width(*old(m))),
        gf2_of(mat_entries(*old(m))),
        0 <= src < mat_entries(*old(m)).len(),
        0 <= dst < mat_entries(*old(m)).len(),
        src != dst,
    ensures
        mat_entries(*final(m)) == apply_op(
            mat_entries(*old(m)),
            MatOp::AddRow { src: src as int, dst: dst as int },
        ),
        mat_width(*final(m)) == mat_width(*old(m)),
{
    let ghost e0 = mat_entries(*m);
    let ghost w0 = mat_width(*m);
    let w = mat_ncols(m);
    let mut j: usize = 0;
    while j < w
        invariant
            0 <= j <= w,
            w == w0,
            mat_width(*m) == w0,
            rect_of(e0, w0),
            gf2_of(e0),
            0 <= src < e0.len(),
            0 <= dst < e0.len(),
            src != dst,
            mat_entries(*m).len() == e0.len(),
            forall|i: int| 0 <= i < e0.len() && i != dst ==> #[trigger] mat_entries(*m)[i] == e0[i],
            mat_entries(*m)[dst as int].len() == w0,
            forall|jj: int|
                0 <= jj < j ==> #[trigger] mat_entries(*m)[dst as int][jj] == xor2(
                    e0[dst as int][jj],
                    e0[src as int][jj],
                ),
            forall|jj: int|
                j <= jj < w0 ==> #[trigger] mat_entries(*m)[dst as int][jj] == e0[dst as int][jj],
        decreases w - j,
    {
        proof {
            assert(rect_of(mat_entries(*m), w0)) by {
                assert forall|i: int|
                    0 <= i < mat_entries(*m).len() implies (#[trigger] mat_entries(*m)[i]).len()
                    == w0 by {
                    if i != dst {
                        assert(mat_entries(*m)[i] == e0[i]);
                    }
                }
            }
            assert(mat_entries(*m)[src as int] == e0[src as int]);
            assert(e0[dst as int][j as int] == 0 || e0[dst as int][j as int] == 1);
            assert(e0[src as int][j as int] == 0 || e0[src as int][j as int] == 1);
        }
        let a = mat_get(m, dst, j);
        let b = mat_get(m, src, j);
        let ghost before = mat_entries(*m);
        mat_set(m, dst, j, (a + b) % 2);
        proof {
            assert(mat_entries(*m) == before.update(
                dst as int,
                before[dst as int].update(j as int, ((a + b) % 2) as int),
            ));
            assert(((a + b) % 2) as int == xor2(e0[dst as int][j as int], e0[src as int][j as int]));
        }
        j = j + 1;
    }
    proof {
        let op = MatOp::AddRow { src: src as int, dst: dst as int };
        assert(op_valid(e0, op));
        assert(mat_entries(*m)[dst as int] =~= row_xor_seq(e0[dst as int], e0[src as int]));
        assert(mat_entries(*m) =~= apply_op(e0, op));
    }
}

/// Adds column `src` into column `dst` modulo two, one entry at a time.
fn mat_col_xor(m: &mut Matrix, src: usize, dst: usize)
    requires
        rect_of(mat_entries(*old(m)), mat_width(*old(m))),
        gf2_of(mat_entries(*old(m))),
        0 <= src < mat_width(*old(m)),
        0 <= dst < mat_width(*old(m)),
        src != dst,
    ensures
        mat_entries(*final(m)) == apply_op(
            mat_entries(*old(m)),
            MatOp::AddCol { src: src as int, dst: dst as int },
        ),
        mat_width(*final(m)) == mat_width(*old(m)),
{
    let ghost e0 = mat_entries(*m);
    let ghost w0 = mat_width(*m);
    let n = mat_nrows(m);
    let mut i: usize = 0;
    while i < n
        invariant
            0 <= i <= n,
            n == e0.len(),
            mat_width(*m) == w0,
            rect_of(e0, w0),
            gf2_of(e0),
            0 <= src < w0,
            0 <= dst < w0,
            src != dst,
            mat_entries(*m).len() == e0.len(),
            forall|ii: int| i <= ii < e0.len() ==> #[trigger] mat_entries(*m)[ii] == e0[ii],
            forall|ii: int|
                0 <= ii < i ==> #[trigger] mat_entries(*m)[ii] == e0[ii].update(
                    dst as int,
                    xor2(e0[ii][dst as int], e0[ii][src as int]),
                ),
        decreases n - i,
    {
        proof {
            assert(rect_of(mat_entries(*m), w0)) by {
                assert forall|ii: int|
                    0 <= ii < mat_entries(*m).len() implies (#[trigger] mat_entries(*m)[ii]).len()
                    == w0 by {
                    if ii < i {
                        assert(mat_entries(*m)[ii] == e0[ii].update(
                            dst as int,
                            xor2(e0[ii][dst as int], e0[ii][src as int]),
                        ));
                    }
                }
            }
            assert(mat_entries(*m)[i as int] == e0[i as int]);
            assert(e0[i as int][dst as int] == 0 || e0[i as int][dst as int] == 1);
            assert(e0[i as int][src as int] == 0 || e0[i as int][src as int] == 1);
        }
        let a = mat_get(m, i, dst);
        let b = mat_get(m, i, src);
        let ghost before = mat_entries(*m);
        mat_set(m, i, dst, (a + b) % 2);
        proof {
            assert(mat_entries(*m) == before.update(
                i as int,
                before[i as int].update(dst as int, ((a + b) % 2) as int),
            ));
            assert(((a + b) % 2) as int == xor2(e0[i as int][dst as int], e0[i as int][src as int]));
        }
        i = i + 1;
    }
    proof {
        let op = MatOp::AddCol { src: src as int, dst: dst as int };
        assert(op_valid(e0, op));
        let r = apply_op(e0, op);
        assert(r.len() == mat_entries(*m).len());
        assert forall|ii: int| 0 <= ii < r.len() implies mat_entries(*m)[ii] == r[ii] by {
            assert(r[ii] == e0[ii].update(dst as int, xor2(e0[ii][dst as int], e0[ii][src as int])));
        }
        assert(mat_entries(*m) =~= r);
    }
}

/// Searches rows and columns at or beyond `x` for an entry equal to one.
fn find_pivot(m: &Matrix, x: usize) -> (r: Option<(usize, usize)>)
    requires
        rect_of(mat_entries(*m), mat_width(*m)),
    ensures
        match r {
            Some(p) => x <= p.0 < mat_entries(*m).len() && x <= p.1 < mat_width(*m) && mat_entries(
                *m,
            )[p.0 as int][p.1 as int] == 1,
            None => forall|i: int, j: int|
                x <= i < mat_entries(*m).len() && x <= j < mat_width(*m) ==> #[trigger] mat_entries(
                    *m,
                )[i][j] != 1,
        },
{
    let nr = mat_nrows(m);
    let nc = mat_ncols(m);
    let mut i: usize = x;
    while i < nr
        invariant
            x <= i <= nr || (nr < x && i == x),
            nr == mat_entries(*m).len(),
            nc == mat_width(*m),
            rect_of(mat_entries(*m), mat_width(*m)),
            forall|i2: int, j2: int|
                x <= i2 < i && x <= j2 < nc ==> #[trigger] mat_entries(*m)[i2][j2] != 1,
        decreases nr - i,
    {
        let mut j: usize = x;
        while j < nc
            invariant
                x <= j <= nc || (nc < x && j == x),
                x <= i < nr,
                nr == mat_entries(*m).len(),
                nc == mat_width(*m),
                rect_of(mat_entries(*m), mat_width(*m)),
                forall|j2: int| x <= j2 < j ==> #[trigger] mat_entries(*m)[i as int][j2] != 1,
            decreases nc - j,
        {
            if mat_get(m, i, j) == 1 {
                return Some((i, j));
            }
            j = j + 1;
        }
        i = i + 1;
    }
    None
}


/// Clears column `x` below the pivot by adding the pivot row into every row
/// below that has a one in column `x`.
fn clear_column(m: &mut Matrix, x: usize)
    requires
        rect_of(mat_entries(*old(m)), mat_width(*old(m))),
        gf2_of(mat_entries(*old(m))),
        0 <= x < mat_entries(*old(m)).len(),
        0 <= x < mat_width(*old(m)),
        mat_entries(*old(m))[x as int][x as int] == 1,
    ensures
        mat_width(*final(m)) == mat_width(*old(m)),
        mat_entries(*final(m)).len() == mat_entries(*old(m)).len(),
        rect_of(mat_entries(*final(m)), mat_width(*old(m))),
        gf2_of(mat_entries(*final(m))),
        gf2_reachable(mat_entries(*old(m)), mat_entries(*final(m))),
        forall|i: int| 0 <= i <= x ==> #[trigger] mat_entries(*final(m))[i] == mat_entries(
            *old(m),
        )[i],
        forall|i: int|
            x < i < mat_entries(*old(m)).len() ==> #[trigger] mat_entries(*final(m))[i][x as int]
                == 0,
        forall|i: int, j: int|
            x < i < mat_entries(*old(m)).len() && 0 <= j < mat_width(*old(m)) && mat_entries(
                *old(m),
            )[i][j] == 0 && mat_entries(*old(m))[x as int][j] == 0 ==> #[trigger] mat_entries(
                *final(m),
            )[i][j] == 0,
{
    let ghost e0 = mat_entries(*m);
    let ghost w0 = mat_width(*m);
    let nr = mat_nrows(m);
    let mut i: usize = x + 1;
    proof {
        lemma_reach_refl(e0);
    }
    while i < nr
        invariant
            x < i <= nr || (nr < x + 1 && i == x + 1),
            nr == e0.len(),
            0 <= x < e0.len(),
            0 <= x < w0,
            rect_of(e0, w0),
            gf2_of(e0),
            e0[x as int][x as int] == 1,
            mat_width(*m) == w0,
            mat_entries(*m).len() == e0.len(),
            rect_of(mat_entries(*m), w0),
            gf2_of(mat_entries(*m)),
            gf2_reachable(e0, mat_entries(*m)),
            forall|i2: int| 0 <= i2 <= x ==> #[trigger] mat_entries(*m)[i2] == e0[i2],
            forall|i2: int| i <= i2 < e0.len() ==> #[trigger] mat_entries(*m)[i2] == e0[i2],
            forall|i2: int| x < i2 < i ==> #[trigger] mat_entries(*m)[i2][x as int] == 0,
            forall|i2: int, j: int|
                x < i2 < i && 0 <= j < w0 && e0[i2][j] == 0 && e0[x as int][j] == 0
                    ==> #[trigger] mat_entries(*m)[i2][j] == 0,
        decreases nr - i,
    {
        let ghost before = mat_entries(*m);
        if mat_get(m, i, x) == 1 {
            mat_row_xor(m, x, i);
            proof {
                let op = MatOp::AddRow { src: x as int, dst: i as int };
                lemma_apply_op_props(before, w0, op);
                lemma_reach_step(e0, before, op);
                assert(mat_entries(*m)[i as int] == row_xor_seq(before[i as int], before[x as int]));
                assert(mat_entries(*m)[i as int][x as int] == xor2(
                    before[i as int][x as int],
                    before[x as int][x as int],
                ));
                assert forall|i2: int, j: int|
                    x < i2 < i + 1 && 0 <= j < w0 && e0[i2][j] == 0 && e0[x as int][j] == 0
                        implies #[trigger] mat_entries(*m)[i2][j] == 0 by {
                    if i2 == i {
                        assert(mat_entries(*m)[i2][j] == xor2(before[i2][j], before[x as int][j]));
                        assert(before[i2] == e0[i2]);
                        assert(before[x as int] == e0[x as int]);
                    }
                }
            }
        } else {
            proof {
                assert(mat_entries(*m)[i as int][x as int] == 0) by {
                    assert(mat_entries(*m)[i as int] == e0[i as int]);
                    assert(e0[i as int][x as int] == 0 || e0[i as int][x as int] == 1);
                }
            }
        }
        i = i + 1;
    }
}

/// Clears row `x` to the right of the pivot by adding the pivot column into
/// every later column that has a one in row `x`.  Requires column `x` to be
/// already cleared below the pivot; rows whose entry in column `x` is zero
/// are left unchanged.
fn clear_row(m: &mut Matrix, x: usize)
    requires
        rect_of(mat_entries(*old(m)), mat_width(*old(m))),
        gf2_of(mat_entries(*old(m))),
        0 <= x < mat_entries(*old(m)).len(),
        0 <= x < mat_width(*old(m)),
        mat_entries(*old(m))[x as int][x as int] == 1,
    ensures
        mat_width(*final(m)) == mat_width(*old(m)),
        mat_entries(*final(m)).len() == mat_entries(*old(m)).len(),
        rect_of(mat_entries(*final(m)), mat_width(*old(m))),
        gf2_of(mat_entries(*final(m))),
        gf2_reachable(mat_entries(*old(m)), mat_entries(*final(m))),
        forall|i: int|
            0 <= i < mat_entries(*old(m)).len() && mat_entries(*old(m))[i][x as int] == 0
                ==> #[trigger] mat_entries(*final(m))[i] == mat_entries(*old(m))[i],
        forall|i: int, j: int|
            0 <= i < mat_entries(*old(m)).len() && 0 <= j <= x ==> #[trigger] mat_entries(
                *final(m),
            )[i][j] == mat_entries(*old(m))[i][j],
        forall|j: int| x < j < mat_width(*old(m)) ==> #[trigger] mat_entries(*final(m))[x as int][j]
            == 0,
{
    let ghost e0 = mat_entries(*m);
    let ghost w0 = mat_width(*m);
    let nc = mat_ncols(m);
    let mut j: usize = x + 1;
    proof {
        lemma_reach_refl(e0);
    }
    while j < nc
        invariant
            x < j <= nc || (nc < x + 1 && j == x + 1),
            nc == w0,
            0 <= x < e0.len(),
            0 <= x < w0,
            rect_of(e0, w0),
            gf2_of(e0),
            e0[x as int][x as int] == 1,
            mat_width(*m) == w0,
            mat_entries(*m).len() == e0.len(),
            rect_of(mat_entries(*m), w0),
            gf2_of(mat_entries(*m)),
            gf2_reachable(e0, mat_entries(*m)),
            forall|i: int|
                0 <= i < e0.len() && e0[i][x as int] == 0 ==> #[trigger] mat_entries(*m)[i]
                    == e0[i],
            forall|i: int, j2: int|
                0 <= i < e0.len() && 0 <= j2 <= x ==> #[trigger] mat_entries(*m)[i][j2]
                    == e0[i][j2],
            forall|i: int, j2: int|
                0 <= i < e0.len() && j <= j2 < w0 ==> #[trigger] mat_entries(*m)[i][j2]
                    == e0[i][j2],
            forall|j2: int| x < j2 < j ==> #[trigger] mat_entries(*m)[x as int][j2] == 0,
        decreases nc - j,
    {
        let ghost before = mat_entries(*m);
        if mat_get(m, x, j) == 1 {
            mat_col_xor(m, x, j);
            proof {
                let op = MatOp::AddCol { src: x as int, dst: j as int };
                lemma_apply_op_props(before, w0, op);
                lemma_reach_step(e0, before, op);
                assert forall|i: int|
                    0 <= i < e0.len() && e0[i][x as int] == 0 implies #[trigger] mat_entries(
                    *m,
                )[i] == e0[i] by {
                    assert(before[i] == e0[i]);
                    assert(mat_entries(*m)[i] == before[i].update(
                        j as int,
                        xor2(before[i][j as int], before[i][x as int]),
                    ));
                    assert(before[i][x as int] == 0);
                    assert(xor2(before[i][j as int], 0) == before[i][j as int]) by {
                        assert(before[i][j as int] == 0 || before[i][j as int] == 1);
                    }
                    assert(mat_entries(*m)[i] =~= e0[i]);
                }
                assert forall|i: int, j2: int|
                    0 <= i < e0.len() && 0 <= j2 <= x implies #[trigger] mat_entries(*m)[i][j2]
                    == e0[i][j2] by {
                    assert(mat_entries(*m)[i] == before[i].update(
                        j as int,
                        xor2(before[i][j as int], before[i][x as int]),
                    ));
                }
                assert(mat_entries(*m)[x as int][j as int] == xor2(
                    before[x as int][j as int],
                    before[x as int][x as int],
                ));
                assert(before[x as int][x as int] == e0[x as int][x as int]);
            }
        } else {
            proof {
                let jj = j as int;
                assert(mat_entries(*m)[x as int][jj] == 0) by {
                    assert(mat_entries(*m)[x as int][jj] == 0 || mat_entries(*m)[x as int][jj]
                        == 1);
                }
            }
        }
        j = j + 1;
    }
}


/// The matrix is diagonal with exactly `rk` leading ones: ones at the first
/// `rk` diagonal positions and zeroes everywhere else.
pub open spec fn diag_of(e: Seq<Seq<int>>, w: int, rk: int) -> bool {
    0 <= rk <= e.len() && rk <= w && (forall|i: int| 0 <= i < rk ==> e[i][i] == 1) && (forall|
        i: int,
        j: int,
    |
        0 <= i < e.len() && 0 <= j < w && !(i == j && i < rk) ==> #[trigger] e[i][j] == 0)
}

/// The matrix is diagonal with some number of leading ones.
pub open spec fn diagonal_form(e: Seq<Seq<int>>, w: int) -> bool {
    exists|rk: int| diag_of(e, w, rk)
}

/// The length of the run of nonzero diagonal entries starting at position `i`.
pub open spec fn diag_run(e: Seq<Seq<int>>, w: int, i: int) -> int
    decreases e.len() - i when 0 <= i
{
    if i < e.len() && i < w && e[i][i] != 0 {
        1 + diag_run(e, w, i + 1)
    } else {
        0
    }
}

/// The leading diagonal run, counted from the top-left corner: the rank of a
/// reduced matrix.
pub open spec fn spec_rank(e: Seq<Seq<int>>, w: int) -> int {
    diag_run(e, w, 0)
}

/// The diagonal run never exceeds the number of rows past its start.
pub proof fn lemma_diag_run_bounds(e: Seq<Seq<int>>, w: int, i: int)
    requires
        0 <= i,
    ensures
        0 <= diag_run(e, w, i) <= e.len() - i || diag_run(e, w, i) == 0,
        i + diag_run(e, w, i) <= e.len() || diag_run(e, w, i) == 0,
    decreases e.len() - i,
{
    if i < e.len() && i < w && e[i][i] != 0 {
        lemma_diag_run_bounds(e, w, i + 1);
    }
}

/// Row and column reduction of a 0/1 matrix over the two-element field: for
/// each pivot position, a remaining one is swapped onto the diagonal, then
/// cleared from its column and row.  The result is a diagonal matrix of the
/// same shape, reachable from the input by elementary operations (so it has
/// the same rank over the two-element field).
pub fn gaussian_elimination(matrix: Matrix) -> (r: Matrix)
    requires
        rect_of(mat_entries(matrix), mat_width(matrix)),
        gf2_of(mat_entries(matrix)),
    ensures
        mat_entries(r).len() == mat_entries(matrix).len(),
        mat_width(r) == mat_width(matrix),
        rect_of(mat_entries(r), mat_width(r)),
        gf2_of(mat_entries(r)),
        diagonal_form(mat_entries(r), mat_width(r)),
        gf2_reachable(mat_entries(matrix), mat_entries(r)),
{
    let mut m = matrix;
    let ghost orig = mat_entries(m);
    let ghost w0 = mat_width(m);
    let nr = mat_nrows(&m);
    let nc = mat_ncols(&m);
    let mut x: usize = 0;
    proof {
        lemma_reach_refl(orig);
    }
    while x < nr && x < nc
        invariant
            0 <= x <= nr,
            0 <= x <= nc,
            orig == mat_entries(matrix),
            w0 == mat_width(matrix),
            nr == orig.len(),
            nc == w0,
            rect_of(orig, w0),
            gf2_of(orig),
            mat_entries(m).len() == nr,
            mat_width(m) == w0,
            rect_of(mat_entries(m), w0),
            gf2_of(mat_entries(m)),
            gf2_reachable(orig, mat_entries(m)),
            forall|i: int| 0 <= i < x ==> #[trigger] mat_entries(m)[i][i] == 1,
            forall|i: int, j: int|
                0 <= j < x && 0 <= i < nr && i != j ==> #[trigger] mat_entries(m)[i][j] == 0,
            forall|i: int, j: int|
                0 <= i < x && 0 <= j < w0 && j != i ==> #[trigger] mat_entries(m)[i][j] == 0,
        decreases nr - x,
    {
        let pivot = find_pivot(&m, x);
        match pivot {
            None => {
                proof {
                    assert forall|i: int, j: int|
                        0 <= i < mat_entries(m).len() && 0 <= j < w0 && !(i == j && i < x)
                            implies #[trigger] mat_entries(m)[i][j] == 0 by {
                        if j < x {
                        } else if i < x {
                        } else {
                            assert(mat_entries(m)[i][j] != 1);
                            assert(mat_entries(m)[i][j] == 0 || mat_entries(m)[i][j] == 1);
                        }
                    }
                    assert(diag_of(mat_entries(m), w0, x as int));
                }
                return m;
            },
            Some(p) => {
                let (pi, pj) = p;
                let ghost e1 = mat_entries(m);
                mat_swap_rows(&mut m, x, pi);
                proof {
                    let op = MatOp::SwapRows { a: x as int, b: pi as int };
                    lemma_apply_op_props(e1, w0, op);
                    lemma_reach_step(orig, e1, op);
                    assert(op_valid(e1, op));
                    assert(mat_entries(m)[x as int][pj as int] == 1);
                    assert forall|i: int, j: int|
                        0 <= j < x && 0 <= i < nr && i != j implies #[trigger] mat_entries(m)[i][j]
                        == 0 by {
                        if i == x as int {
                            assert(mat_entries(m)[i][j] == e1[pi as int][j]);
                        } else if i == pi as int {
                            assert(mat_entries(m)[i][j] == e1[x as int][j]);
                        } else {
                            assert(mat_entries(m)[i][j] == e1[i][j]);
                        }
                    }
                    assert forall|i: int, j: int|
                        0 <= i < x && 0 <= j < w0 && j != i implies #[trigger] mat_entries(m)[i][j]
                        == 0 by {
                        assert(mat_entries(m)[i] == e1[i]);
                    }
                    assert forall|i: int| 0 <= i < x implies #[trigger] mat_entries(m)[i][i]
                        == 1 by {
                        assert(mat_entries(m)[i] == e1[i]);
                    }
                }
                let ghost e2 = mat_entries(m);
                mat_swap_columns(&mut m, x, pj);
                proof {
                    let op = MatOp::SwapCols { a: x as int, b: pj as int };
                    lemma_apply_op_props(e2, w0, op);
                    lemma_reach_step(orig, e2, op);
                    assert(op_valid(e2, op));
                    assert(mat_entries(m)[x as int][x as int] == e2[x as int][pj as int]);
                    assert forall|i: int, j: int|
                        0 <= j < x && 0 <= i < nr && i != j implies #[trigger] mat_entries(m)[i][j]
                        == 0 by {
                        assert(mat_entries(m)[i] == e2[i].update(x as int, e2[i][pj as int]).update(
                            pj as int,
                            e2[i][x as int],
                        ));
                        assert(j != x as int && (j != pj as int || pj < x));
                        if j == pj as int {
                            assert(mat_entries(m)[i][j] == e2[i][x as int]);
                            assert(i != x as int || pj as int == x as int);
                        }
                    }
                    assert forall|i: int, j: int|
                        0 <= i < x && 0 <= j < w0 && j != i implies #[trigger] mat_entries(m)[i][j]
                        == 0 by {
                        assert(mat_entries(m)[i] == e2[i].update(x as int, e2[i][pj as int]).update(
                            pj as int,
                            e2[i][x as int],
                        ));
                    }
                    assert forall|i: int| 0 <= i < x implies #[trigger] mat_entries(m)[i][i]
                        == 1 by {
                        assert(mat_entries(m)[i] == e2[i].update(x as int, e2[i][pj as int]).update(
                            pj as int,
                            e2[i][x as int],
                        ));
                        assert(i != x as int && i != pj as int);
                    }
                }
                let ghost e3 = mat_entries(m);
                clear_column(&mut m, x);
                proof {
                    let ops3 = choose|ops: Seq<MatOp>| mat_entries(m) == apply_ops(e3, ops);
                    lemma_reach_trans(orig, e3, mat_entries(m));
                    assert forall|i: int, j: int|
                        0 <= j < x && 0 <= i < nr && i != j implies #[trigger] mat_entries(m)[i][j]
                        == 0 by {
                        if i <= x {
                            assert(mat_entries(m)[i] == e3[i]);
                        } else {
                            assert(e3[i][j] == 0 && e3[x as int][j] == 0);
                        }
                    }
                    assert forall|i: int, j: int|
                        0 <= i < x && 0 <= j < w0 && j != i implies #[trigger] mat_entries(m)[i][j]
                        == 0 by {
                        assert(mat_entries(m)[i] == e3[i]);
                    }
                    assert forall|i: int| 0 <= i <= x implies #[trigger] mat_entries(m)[i][i]
                        == 1 by {
                        assert(mat_entries(m)[i] == e3[i]);
                    }
                }
                let ghost e4 = mat_entries(m);
                clear_row(&mut m, x);
                proof {
                    lemma_reach_trans(orig, e4, mat_entries(m));
                    assert forall|i: int, j: int|
                        0 <= j < x + 1 && 0 <= i < nr && i != j implies #[trigger] mat_entries(
                        m,
                    )[i][j] == 0 by {
                        assert(mat_entries(m)[i][j] == e4[i][j]);
                        if j < x {
                        } else {
                            assert(j == x as int);
                            if i < x {
                            } else {
                                assert(i > x);
                                assert(e4[i][x as int] == 0);
                            }
                        }
                    }
                    assert forall|i: int, j: int|
                        0 <= i < x + 1 && 0 <= j < w0 && j != i implies #[trigger] mat_entries(
                        m,
                    )[i][j] == 0 by {
                        if i < x {
                            assert(e4[i][x as int] == 0);
                            assert(mat_entries(m)[i] == e4[i]);
                        } else {
                            assert(i == x as int);
                            if j < x {
                                assert(mat_entries(m)[i][j] == e4[i][j]);
                            }
                        }
                    }
                    assert forall|i: int| 0 <= i < x + 1 implies #[trigger] mat_entries(m)[i][i]
                        == 1 by {
                        assert(mat_entries(m)[i][i] == e4[i][i]);
                    }
                }
                x = x + 1;
            },
        }
    }
    proof {
        assert(x == nr || x == nc);
        assert forall|i: int, j: int|
            0 <= i < mat_entries(m).len() && 0 <= j < w0 && !(i == j && i < x)
                implies #[trigger] mat_entries(m)[i][j] == 0 by {}
        assert(diag_of(mat_entries(m), w0, x as int));
    }
    m
}

/// Reachability composes.
pub proof fn lemma_reach_trans(a: Seq<Seq<int>>, b: Seq<Seq<int>>, c: Seq<Seq<int>>)
    requires
        gf2_reachable(a, b),
        gf2_reachable(b, c),
    ensures
        gf2_reachable(a, c),
{
    let ops1 = choose|ops: Seq<MatOp>| b == apply_ops(a, ops);
    let ops2 = choose|ops: Seq<MatOp>| c == apply_ops(b, ops);
    lemma_apply_ops_concat(a, ops1, ops2);
    assert(c == apply_ops(a, ops1 + ops2));
}

/// `apply_ops` splits over concatenation.
pub proof fn lemma_apply_ops_concat(e: Seq<Seq<int>>, ops1: Seq<MatOp>, ops2: Seq<MatOp>)
    ensures
        apply_ops(e, ops1 + ops2) == apply_ops(apply_ops(e, ops1), ops2),
    decreases ops1.len(),
{
    if ops1.len() == 0 {
        assert(ops1 + ops2 =~= ops2);
    } else {
        assert((ops1 + ops2)[0] == ops1[0]);
        assert((ops1 + ops2).drop_first() =~= ops1.drop_first() + ops2);
        lemma_apply_ops_concat(apply_op(e, ops1[0]), ops1.drop_first(), ops2);
    }
}

/// Counts the run of nonzero leading diagonal entries of a reduced matrix.
pub fn rank_smith_normal_matrix(m: &Matrix) -> (r: i32)
    requires
        rect_of(mat_entries(*m), mat_width(*m)),
        mat_entries(*m).len() <= i32::MAX as int,
    ensures
        r as int == spec_rank(mat_entries(*m), mat_width(*m)),
        0 <= r as int <= mat_entries(*m).len(),
{
    let nr = mat_nrows(m);
    let nc = mat_ncols(m);
    let mut i: usize = 0;
    while i < nr && i < nc
        invariant
            0 <= i <= nr,
            nr == mat_entries(*m).len(),
            nc == mat_width(*m),
            rect_of(mat_entries(*m), mat_width(*m)),
            nr <= i32::MAX as int,
            spec_rank(mat_entries(*m), mat_width(*m)) == i + diag_run(
                mat_entries(*m),
                mat_width(*m),
                i as int,
            ),
            forall|i2: int| 0 <= i2 < i ==> #[trigger] mat_entries(*m)[i2][i2] != 0,
        decreases nr - i,
    {
        if mat_get(m, i, i) == 0 {
            proof {
                lemma_diag_run_bounds(mat_entries(*m), mat_width(*m), i as int);
            }
            return i as i32;
        }
        proof {
            lemma_run_prefix(mat_entries(*m), mat_width(*m), i as int);
        }
        i = i + 1;
    }
    proof {
        lemma_diag_run_bounds(mat_entries(*m), mat_width(*m), i as int);
    }
    i as i32
}

/// One more nonzero diagonal entry extends the counted prefix.
proof fn lemma_run_prefix(e: Seq<Seq<int>>, w: int, i: int)
    requires
        0 <= i < e.len(),
        i < w,
        e[i][i] != 0,
    ensures
        diag_run(e, w, i) == 1 + diag_run(e, w, i + 1),
{
}

/// `rows - rank` of a reduced matrix.
pub fn row_nullity_smith_normal_matrix(m: &Matrix) -> (r: i32)
    requires
        rect_of(mat_entries(*m), mat_width(*m)),
        mat_entries(*m).len() <= i32::MAX as int,
    ensures
        r as int == mat_entries(*m).len() - spec_rank(mat_entries(*m), mat_width(*m)),
        0 <= r as int <= mat_entries(*m).len(),
{
    let nr = mat_nrows(m);
    let rank = rank_smith_normal_matrix(m);
    (nr as i32) - rank
}

/// `columns - rank` of a reduced matrix.
pub fn columns_nullity(m: &Matrix) -> (r: i32)
    requires
        rect_of(mat_entries(*m), mat_width(*m)),
        mat_entries(*m).len() <= i32::MAX as int,
        mat_width(*m) <= i32::MAX as int,
    ensures
        r as int == mat_width(*m) - spec_rank(mat_entries(*m), mat_width(*m)),
{
    let nc = mat_ncols(m);
    let rank = rank_smith_normal_matrix(m);
    proof {
        lemma_run_width_bound(mat_entries(*m), mat_width(*m), 0);
    }
    (nc as i32) - rank
}

/// The diagonal run is also bounded by the width.
proof fn lemma_run_width_bound(e: Seq<Seq<int>>, w: int, i: int)
    requires
        0 <= i,
    ensures
        diag_run(e, w, i) <= w - i || diag_run(e, w, i) == 0,
    decreases e.len() - i,
{
    if i < e.len() && i < w && e[i][i] != 0 {
        lemma_run_width_bound(e, w, i + 1);
    }
}

/// Reduces the matrix and counts the leading diagonal run: its rank over the
/// two-element field.
pub fn rank(matrix: Matrix) -> (r: usize)
    requires
        rect_of(mat_entries(matrix), mat_width(matrix)),
        gf2_of(mat_entries(matrix)),
        mat_entries(matrix).len() <= i32::MAX as int,
    ensures
        exists|d: Seq<Seq<int>>|
            gf2_reachable(mat_entries(matrix), d) && diagonal_form(d, mat_width(matrix)) && r as int
                == spec_rank(d, mat_width(matrix)),
{
    let reduced = gaussian_elimination(matrix);
    let k = rank_smith_normal_matrix(&reduced);
    proof {
        assert(gf2_reachable(mat_entries(matrix), mat_entries(reduced)) && diagonal_form(
            mat_entries(reduced),
            mat_width(matrix),
        ) && k as int == spec_rank(mat_entries(reduced), mat_width(matrix)));
    }
    k as usize
}

/// Reduces the matrix and returns `rows - rank`.
pub fn row_nullity(matrix: Matrix) -> (r: usize)
    requires
        rect_of(mat_entries(matrix), mat_width(matrix)),
        gf2_of(mat_entries(matrix)),
        mat_entries(matrix).len() <= i32::MAX as int,
    ensures
        exists|d: Seq<Seq<int>>|
            gf2_reachable(mat_entries(matrix), d) && diagonal_form(d, mat_width(matrix)) && r as int
                == mat_entries(matrix).len() - spec_rank(d, mat_width(matrix)),
{
    let ghost e = mat_entries(matrix);
    let nr = mat_nrows(&matrix);
    let reduced = gaussian_elimination(matrix);
    let k = rank_smith_normal_matrix(&reduced);
    proof {
        assert(gf2_reachable(e, mat_entries(reduced)) && diagonal_form(
            mat_entries(reduced),
            mat_width(reduced),
        ) && (nr - k as usize) as int == e.len() - spec_rank(mat_entries(reduced), mat_width(reduced)));
    }
    nr - (k as usize)
}

} // verus!
