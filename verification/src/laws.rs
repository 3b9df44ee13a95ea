//! Laws of the matrix operations.
//!
//! Rounded arithmetic is not the arithmetic of the real numbers: a sum of
//! three terms depends on the order of addition, and zero times an infinity
//! is not zero. Each law therefore names what it needs of the scalars
//! involved, and holds of every matrix whose entries meet it.

use crate::decomposition::{
    eliminate_from, lower_after_step, lu_of, plu_of, search_from, swapped_rows, upper_after_step,
};
use crate::matrix::{dot, identity_cells, is_grid, product_cells, sum_cells, Matrix};
use crate::scalar::{fp_product, fp_quotient, fp_sum, is_zero, ONE, ZERO};
use vstd::prelude::*;

verus! {

/// Whether the scalar sum of each pair of matching entries is the same in
/// either order.
pub open spec fn sums_commute(a: Seq<Seq<u64>>, b: Seq<Seq<u64>>) -> bool {
    forall|i: int, j: int|
        0 <= i < a.len() && 0 <= j < a[i].len() ==> fp_sum(#[trigger] a[i][j], b[i][j]) == fp_sum(
            b[i][j],
            a[i][j],
        )
}

/// Whether the scalar sum of each triple of matching entries is the same
/// under either bracketing.
pub open spec fn sums_associate(a: Seq<Seq<u64>>, b: Seq<Seq<u64>>, c: Seq<Seq<u64>>) -> bool {
    forall|i: int, j: int|
        0 <= i < a.len() && 0 <= j < a[i].len() ==> fp_sum(
            fp_sum(#[trigger] a[i][j], b[i][j]),
            c[i][j],
        ) == fp_sum(a[i][j], fp_sum(b[i][j], c[i][j]))
}

/// Whether zero and one act on the entries of `m` as they do on real
/// numbers: a zero multiple of an entry adds nothing to zero or to an entry
/// of the same column, and one times an entry, added to zero, is that entry.
pub open spec fn units_act_exactly(m: Seq<Seq<u64>>) -> bool {
    forall|i: int, t: int, j: int|
        #![trigger m[i][j], m[t][j]]
        0 <= i < m.len() && 0 <= t < m.len() && 0 <= j < m[i].len() ==> {
            &&& fp_sum(ZERO, fp_product(ZERO, m[t][j])) == ZERO
            &&& fp_sum(ZERO, fp_product(ONE, m[i][j])) == m[i][j]
            &&& fp_sum(m[i][j], fp_product(ZERO, m[t][j])) == m[i][j]
        }
}

/// Whether `row` has `ONE` at index `s` and `ZERO` at every other index
/// below `n`.
pub open spec fn is_unit_row(row: Seq<u64>, s: int, n: nat) -> bool {
    &&& row.len() == n
    &&& forall|k: int| 0 <= k < n ==> #[trigger] row[k] == if k == s { ONE } else { ZERO }
}

/// Matrix addition is commutative wherever the scalar additions it makes
/// are: `a + b` and `b + a` have the same entries.
pub proof fn lemma_add_commutative(a: Matrix, b: Matrix)
    requires
        a.wf(),
        b.wf(),
        a.spec_rows() == b.spec_rows(),
        a.spec_cols() == b.spec_cols(),
        sums_commute(a@, b@),
    ensures
        sum_cells(a@, b@) == sum_cells(b@, a@),
{
    let x = sum_cells(a@, b@);
    let y = sum_cells(b@, a@);
    assert forall|i: int| 0 <= i < x.len() implies x[i] == y[i] by {
        assert(a@[i].len() == b@[i].len());
        assert forall|j: int| 0 <= j < x[i].len() implies x[i][j] == y[i][j] by {
            assert(fp_sum(a@[i][j], b@[i][j]) == fp_sum(b@[i][j], a@[i][j]));
        }
        assert(x[i] =~= y[i]);
    }
    assert(x =~= y);
}

/// Matrix addition is associative wherever the scalar additions it makes
/// are: `(a + b) + c` and `a + (b + c)` have the same entries.
pub proof fn lemma_add_associative(a: Matrix, b: Matrix, c: Matrix)
    requires
        a.wf(),
        b.wf(),
        c.wf(),
        a.spec_rows() == b.spec_rows(),
        a.spec_cols() == b.spec_cols(),
        a.spec_rows() == c.spec_rows(),
        a.spec_cols() == c.spec_cols(),
        sums_associate(a@, b@, c@),
    ensures
        sum_cells(sum_cells(a@, b@), c@) == sum_cells(a@, sum_cells(b@, c@)),
{
    let x = sum_cells(sum_cells(a@, b@), c@);
    let y = sum_cells(a@, sum_cells(b@, c@));
    assert forall|i: int| 0 <= i < x.len() implies x[i] == y[i] by {
        assert(a@[i].len() == b@[i].len());
        assert forall|j: int| 0 <= j < x[i].len() implies x[i][j] == y[i][j] by {
            assert(fp_sum(fp_sum(a@[i][j], b@[i][j]), c@[i][j]) == fp_sum(
                a@[i][j],
                fp_sum(b@[i][j], c@[i][j]),
            ));
        }
        assert(x[i] =~= y[i]);
    }
    assert(x =~= y);
}

/// The product of a unit row with column `j` of `m` picks the entry of the
/// row that the one stands for: before the one the partial sum is zero,
/// from it on the partial sum is the entry.
pub proof fn lemma_unit_row_dot(row: Seq<u64>, m: Seq<Seq<u64>>, cols: nat, s: int, j: int, t: nat)
    requires
        is_grid(m, m.len(), cols),
        units_act_exactly(m),
        is_unit_row(row, s, m.len()),
        0 <= s < m.len(),
        0 <= j < cols,
        t <= m.len(),
    ensures
        dot(row, m, j, t) == if t <= s {
            ZERO
        } else {
            m[s][j]
        },
    decreases t,
{
    if t > 0 {
        let k = t - 1;
        lemma_unit_row_dot(row, m, cols, s, j, k as nat);
        assert(m[k].len() == cols);
        assert(m[s].len() == cols);
        let x = m[s][j];
        let y = m[k][j];
        assert(fp_sum(ZERO, fp_product(ZERO, y)) == ZERO);
        assert(fp_sum(ZERO, fp_product(ONE, x)) == x);
        assert(fp_sum(x, fp_product(ZERO, y)) == x);
    }
}

/// The identity law: the `n` by `n` identity times a matrix of `n` rows is
/// that matrix, wherever zero and one act exactly on its entries.
pub proof fn lemma_identity_product(m: Matrix)
    requires
        m.wf(),
        units_act_exactly(m@),
    ensures
        product_cells(identity_cells(m.spec_rows() as nat), m@, m.spec_cols() as nat) == m@,
{
    let n = m.spec_rows() as nat;
    let cols = m.spec_cols() as nat;
    let id = identity_cells(n);
    let p = product_cells(id, m@, cols);
    assert forall|i: int| 0 <= i < n implies p[i] == m@[i] by {
        assert(m@[i].len() == cols);
        assert(is_unit_row(id[i], i, n));
        assert forall|j: int| 0 <= j < cols implies p[i][j] == m@[i][j] by {
            lemma_unit_row_dot(id[i], m@, cols, i, j, n);
        }
        assert(p[i] =~= m@[i]);
    }
    assert(p =~= m@);
}

/// The identity with two rows exchanged, times a matrix, is the matrix
/// with the same two rows exchanged, wherever zero and one act exactly on
/// its entries.
pub proof fn lemma_swap_product(m: Matrix, a: int, b: int)
    requires
        m.wf(),
        units_act_exactly(m@),
        0 <= a < m.spec_rows(),
        0 <= b < m.spec_rows(),
    ensures
        product_cells(
            swapped_rows(identity_cells(m.spec_rows() as nat), a, b),
            m@,
            m.spec_cols() as nat,
        ) == swapped_rows(m@, a, b),
{
    let n = m.spec_rows() as nat;
    let cols = m.spec_cols() as nat;
    let perm = swapped_rows(identity_cells(n), a, b);
    let p = product_cells(perm, m@, cols);
    let q = swapped_rows(m@, a, b);
    assert forall|i: int| 0 <= i < n implies p[i] == q[i] by {
        let s = if i == a {
            b
        } else if i == b {
            a
        } else {
            i
        };
        assert(q[i] == m@[s]);
        assert(perm[i] == identity_cells(n)[s]);
        assert(m@[s].len() == cols);
        assert(is_unit_row(perm[i], s, n));
        assert forall|j: int| 0 <= j < cols implies p[i][j] == q[i][j] by {
            lemma_unit_row_dot(perm[i], m@, cols, s, j, n);
        }
        assert(p[i] =~= q[i]);
    }
    assert(p =~= q);
}

/// Whether every entry of `lower` above the diagonal is zero, and the
/// diagonal entries of its first `r` rows are not.
pub open spec fn is_lower_triangular(lower: Seq<Seq<u64>>, r: nat) -> bool {
    &&& forall|i: int, j: int| 0 <= i < j < lower.len() ==> #[trigger] lower[i][j] == ZERO
    &&& forall|i: int| 0 <= i < r ==> !is_zero(#[trigger] lower[i][i])
}

/// Elimination keeps the shape of both factors and keeps the lower factor
/// triangular; each step puts a pivot that is not zero on its diagonal.
pub proof fn lemma_elimination_keeps_triangle(lower: Seq<Seq<u64>>, upper: Seq<Seq<u64>>, r: nat)
    requires
        is_grid(lower, upper.len(), upper.len()),
        is_grid(upper, upper.len(), upper.len()),
        is_lower_triangular(lower, r),
        r <= upper.len(),
    ensures
        match eliminate_from(lower, upper, r) {
            Some((l, u)) => {
                &&& is_grid(l, upper.len(), upper.len())
                &&& is_grid(u, upper.len(), upper.len())
                &&& is_lower_triangular(l, upper.len())
            },
            None => true,
        },
    decreases upper.len() - r,
{
    let n = upper.len();
    if r < n && !is_zero(upper[r as int][r as int]) {
        let l1 = lower_after_step(lower, upper, r as int);
        let u1 = upper_after_step(upper, r as int);
        lemma_step_keeps_grid(lower, upper, r);
        assert forall|i: int, j: int| 0 <= i < j < n implies #[trigger] l1[i][j] == ZERO by {
            assert(lower[i].len() == n);
            assert(lower[i][j] == ZERO);
        }
        assert forall|i: int| 0 <= i < r + 1 implies !is_zero(#[trigger] l1[i][i]) by {
            assert(lower[i].len() == n);
            if i < r {
                assert(!is_zero(lower[i][i]));
            }
        }
        lemma_elimination_keeps_triangle(l1, u1, r + 1);
    }
}

/// The lower factor of an LU decomposition is lower triangular with no zero
/// on its diagonal, and both factors have the shape of the matrix.
pub proof fn lemma_lower_factor_triangular(m: Matrix)
    requires
        m.wf(),
        lu_of(m@, m.spec_rows() as nat, m.spec_cols() as nat) is Some,
    ensures
        ({
            let n = m.spec_rows() as nat;
            let (lower, upper) = lu_of(m@, n, n)->Some_0;
            &&& m.spec_cols() == n
            &&& is_grid(lower, n, n)
            &&& is_grid(upper, n, n)
            &&& is_lower_triangular(lower, n)
        }),
{
    let n = m.spec_rows() as nat;
    lemma_elimination_keeps_triangle(identity_cells(n), m@, 0);
}

/// One step of elimination keeps the shape of both factors.
pub proof fn lemma_step_keeps_grid(lower: Seq<Seq<u64>>, upper: Seq<Seq<u64>>, r: nat)
    requires
        is_grid(lower, upper.len(), upper.len()),
        is_grid(upper, upper.len(), upper.len()),
        r < upper.len(),
    ensures
        is_grid(lower_after_step(lower, upper, r as int), upper.len(), upper.len()),
        is_grid(upper_after_step(upper, r as int), upper.len(), upper.len()),
{
    let n = upper.len();
    let l1 = lower_after_step(lower, upper, r as int);
    let u1 = upper_after_step(upper, r as int);
    assert forall|i: int| 0 <= i < n implies (#[trigger] l1[i]).len() == n by {
        assert(lower[i].len() == n);
    }
    assert forall|i: int| 0 <= i < n implies (#[trigger] u1[i]).len() == n by {
        assert(upper[i].len() == n);
        assert(upper[r as int].len() == n);
    }
}

/// Rows above the pivot row are finished: elimination from row `r` on
/// leaves the rows before `r` of both factors as they are.
pub proof fn lemma_finished_rows_stay(lower: Seq<Seq<u64>>, upper: Seq<Seq<u64>>, r: nat)
    requires
        lower.len() == upper.len(),
        r <= upper.len(),
    ensures
        match eliminate_from(lower, upper, r) {
            Some((l, u)) => {
                &&& l.len() == upper.len()
                &&& u.len() == upper.len()
                &&& forall|i: int| 0 <= i < r ==> #[trigger] l[i] == lower[i]
                &&& forall|i: int| 0 <= i < r ==> #[trigger] u[i] == upper[i]
            },
            None => true,
        },
    decreases upper.len() - r,
{
    if r < upper.len() && !is_zero(upper[r as int][r as int]) {
        let l1 = lower_after_step(lower, upper, r as int);
        let u1 = upper_after_step(upper, r as int);
        lemma_finished_rows_stay(l1, u1, r + 1);
        match eliminate_from(l1, u1, r + 1) {
            Some((l, u)) => {
                assert forall|i: int| 0 <= i < r implies #[trigger] l[i] == lower[i] by {
                    assert(l[i] == l1[i]);
                }
                assert forall|i: int| 0 <= i < r implies #[trigger] u[i] == upper[i] by {
                    assert(u[i] == u1[i]);
                }
            },
            None => {},
        }
    }
}

/// Whether each of the first `r` diagonal entries of `upper` is the pivot,
/// as `lower` holds it on its diagonal, divided by itself.
pub open spec fn has_unit_diagonal(lower: Seq<Seq<u64>>, upper: Seq<Seq<u64>>, r: nat) -> bool {
    forall|i: int|
        0 <= i < r ==> (#[trigger] upper[i])[i] == fp_quotient(lower[i][i], lower[i][i])
}

/// Elimination keeps what it has put on the diagonal of the upper factor.
pub proof fn lemma_elimination_keeps_diagonal(lower: Seq<Seq<u64>>, upper: Seq<Seq<u64>>, r: nat)
    requires
        is_grid(lower, upper.len(), upper.len()),
        is_grid(upper, upper.len(), upper.len()),
        has_unit_diagonal(lower, upper, r),
        r <= upper.len(),
    ensures
        match eliminate_from(lower, upper, r) {
            Some((l, u)) => has_unit_diagonal(l, u, upper.len()),
            None => true,
        },
    decreases upper.len() - r,
{
    let n = upper.len();
    if r < n && !is_zero(upper[r as int][r as int]) {
        let l1 = lower_after_step(lower, upper, r as int);
        let u1 = upper_after_step(upper, r as int);
        lemma_step_keeps_grid(lower, upper, r);
        assert forall|i: int| 0 <= i < r + 1 implies (#[trigger] u1[i])[i] == fp_quotient(
            l1[i][i],
            l1[i][i],
        ) by {
            assert(lower[i].len() == n);
            assert(upper[i].len() == n);
            if i < r {
                assert(upper[i][i] == fp_quotient(lower[i][i], lower[i][i]));
            }
        }
        lemma_elimination_keeps_diagonal(l1, u1, r + 1);
    }
}

/// Each diagonal entry of the upper factor of an LU decomposition is the
/// pivot of its row, which the lower factor holds on its diagonal, divided
/// by itself.
pub proof fn lemma_upper_factor_diagonal(m: Matrix)
    requires
        m.wf(),
        lu_of(m@, m.spec_rows() as nat, m.spec_cols() as nat) is Some,
    ensures
        ({
            let n = m.spec_rows() as nat;
            let (lower, upper) = lu_of(m@, n, n)->Some_0;
            &&& m.spec_cols() == n
            &&& has_unit_diagonal(lower, upper, n)
        }),
{
    let n = m.spec_rows() as nat;
    lemma_elimination_keeps_diagonal(identity_cells(n), m@, 0);
}

/// Whether a zero divided by `p` is a zero.
pub open spec fn keeps_zero(p: u64) -> bool {
    forall|z: u64| is_zero(z) ==> is_zero(#[trigger] fp_quotient(z, p))
}

/// Whether every entry of `upper` below the diagonal and in one of the
/// first `r` columns is a zero.
pub open spec fn is_upper_triangular(upper: Seq<Seq<u64>>, r: nat) -> bool {
    forall|i: int, j: int|
        0 <= j < i < upper.len() && j < r ==> is_zero(#[trigger] upper[i][j])
}

/// Elimination clears the upper factor below the diagonal column by
/// column, provided that every pivot divides a zero to a zero.
pub proof fn lemma_elimination_clears_columns(
    lower: Seq<Seq<u64>>,
    upper: Seq<Seq<u64>>,
    r: nat,
)
    requires
        is_grid(lower, upper.len(), upper.len()),
        is_grid(upper, upper.len(), upper.len()),
        is_upper_triangular(upper, r),
        r <= upper.len(),
        eliminate_from(lower, upper, r) matches Some((l, u)) ==> forall|i: int|
            r <= i < upper.len() ==> keeps_zero(#[trigger] l[i][i]),
    ensures
        match eliminate_from(lower, upper, r) {
            Some((l, u)) => is_upper_triangular(u, upper.len()),
            None => true,
        },
    decreases upper.len() - r,
{
    let n = upper.len();
    if r < n && !is_zero(upper[r as int][r as int]) {
        let l1 = lower_after_step(lower, upper, r as int);
        let u1 = upper_after_step(upper, r as int);
        let pivot = upper[r as int][r as int];
        lemma_step_keeps_grid(lower, upper, r);
        match eliminate_from(l1, u1, r + 1) {
            Some((l, u)) => {
                lemma_finished_rows_stay(l1, u1, r + 1);
                assert(lower[r as int].len() == n);
                assert(l[r as int] == l1[r as int]);
                assert(l[r as int][r as int] == pivot);
                assert(keeps_zero(pivot));
                assert forall|i: int, j: int| 0 <= j < i < n && j < r + 1 implies is_zero(
                    #[trigger] u1[i][j],
                ) by {
                    assert(upper[i].len() == n);
                    assert(upper[r as int].len() == n);
                    if i < r {
                        assert(is_zero(upper[i][j]));
                    } else if i == r {
                        assert(is_zero(upper[i][j]));
                        assert(u1[i][j] == fp_quotient(upper[i][j], pivot));
                    } else if is_zero(upper[i][r as int]) {
                        if j < r {
                            assert(is_zero(upper[i][j]));
                        }
                    } else {
                        assert(u1[i][j] == ZERO);
                    }
                }
                lemma_elimination_clears_columns(l1, u1, r + 1);
            },
            None => {},
        }
    }
}

/// The upper factor of an LU decomposition is upper triangular, provided
/// that every pivot, which the lower factor holds on its diagonal, divides
/// a zero to a zero.
pub proof fn lemma_upper_factor_triangular(m: Matrix)
    requires
        m.wf(),
        lu_of(m@, m.spec_rows() as nat, m.spec_cols() as nat) matches Some((lower, upper))
            && forall|i: int| 0 <= i < m.spec_rows() ==> keeps_zero(#[trigger] lower[i][i]),
    ensures
        ({
            let n = m.spec_rows() as nat;
            let (lower, upper) = lu_of(m@, n, n)->Some_0;
            &&& m.spec_cols() == n
            &&& is_upper_triangular(upper, n)
        }),
{
    let n = m.spec_rows() as nat;
    lemma_elimination_clears_columns(identity_cells(n), m@, 0);
}

/// Whether the pair `(a, b)` comes before the pair `(i, j)` in
/// lexicographic order.
pub open spec fn comes_before(a: int, b: int, i: int, j: int) -> bool {
    a < i || (a == i && b < j)
}

/// Whether exchanging rows `a` and `b` lets the table decompose.
pub open spec fn swap_decomposes(cells: Seq<Seq<u64>>, n: nat, a: int, b: int) -> bool {
    lu_of(swapped_rows(cells, a, b), n, n) is Some
}

/// Whether `(a, b)` is the first pair from `(i, j)` on, in lexicographic
/// order of the pairs `a < b < n`, whose exchange lets the table decompose.
pub open spec fn is_first_success(cells: Seq<Seq<u64>>, n: nat, i: int, j: int, a: int, b: int) -> bool {
    &&& 0 <= a < b < n
    &&& !comes_before(a, b, i, j)
    &&& swap_decomposes(cells, n, a, b)
    &&& forall|c: int, d: int|
        0 <= c < d < n && !comes_before(c, d, i, j) && comes_before(c, d, a, b)
            ==> !#[trigger] swap_decomposes(cells, n, c, d)
}

/// First success wins: the search from `(i, j)` on returns the factors and
/// the permutation of the first pair whose exchange decomposes, and returns
/// `None` only if no pair from there on does.
pub proof fn lemma_search_first_success(cells: Seq<Seq<u64>>, n: nat, i: nat, j: nat)
    requires
        i < j,
    ensures
        match search_from(cells, n, i, j) {
            Some((lower, upper, permutation)) => exists|a: int, b: int|
                {
                    &&& #[trigger] is_first_success(cells, n, i as int, j as int, a, b)
                    &&& lu_of(swapped_rows(cells, a, b), n, n) == Some((lower, upper))
                    &&& permutation == swapped_rows(identity_cells(n), a, b)
                },
            None => forall|a: int, b: int|
                0 <= a < b < n && !comes_before(a, b, i as int, j as int)
                    ==> !#[trigger] swap_decomposes(cells, n, a, b),
        },
    decreases n - i, n - j,
{
    if i + 1 >= n {
    } else if j >= n {
        lemma_search_first_success(cells, n, i + 1, i + 2);
        match search_from(cells, n, i, j) {
            Some((lower, upper, permutation)) => {
                let (a, b) = choose|a: int, b: int|
                    {
                        &&& #[trigger] is_first_success(cells, n, i as int + 1, i as int + 2, a, b)
                        &&& lu_of(swapped_rows(cells, a, b), n, n) == Some((lower, upper))
                        &&& permutation == swapped_rows(identity_cells(n), a, b)
                    };
                assert(is_first_success(cells, n, i as int, j as int, a, b));
            },
            None => {},
        }
    } else {
        match lu_of(swapped_rows(cells, i as int, j as int), n, n) {
            Some((lower, upper)) => {
                assert(swap_decomposes(cells, n, i as int, j as int));
                assert(is_first_success(cells, n, i as int, j as int, i as int, j as int));
            },
            None => {
                lemma_search_first_success(cells, n, i, j + 1);
                assert(!swap_decomposes(cells, n, i as int, j as int));
                match search_from(cells, n, i, j) {
                    Some((lower, upper, permutation)) => {
                        let (a, b) = choose|a: int, b: int|
                            {
                                &&& #[trigger] is_first_success(cells, n, i as int, j as int + 1, a, b)
                                &&& lu_of(swapped_rows(cells, a, b), n, n) == Some((lower, upper))
                                &&& permutation == swapped_rows(identity_cells(n), a, b)
                            };
                        assert forall|c: int, d: int|
                            0 <= c < d < n && !comes_before(c, d, i as int, j as int)
                                && comes_before(c, d, a, b) implies !#[trigger] swap_decomposes(
                            cells,
                            n,
                            c,
                            d,
                        ) by {
                            if c == i && d == j {
                            } else {
                                assert(!comes_before(c, d, i as int, j as int + 1));
                            }
                        }
                        assert(is_first_success(cells, n, i as int, j as int, a, b));
                    },
                    None => {
                        assert forall|a: int, b: int|
                            0 <= a < b < n && !comes_before(
                                a,
                                b,
                                i as int,
                                j as int,
                            ) implies !#[trigger] swap_decomposes(cells, n, a, b) by {
                            if a == i && b == j {
                            } else {
                                assert(!comes_before(a, b, i as int, j as int + 1));
                            }
                        }
                    },
                }
            },
        }
    }
}

/// What a PLU decomposition returns: the factors of the matrix itself with
/// the identity, if the matrix decomposes; else the factors of the matrix
/// with the first pair of rows exchanged whose exchange decomposes, with the
/// identity so exchanged; `None` only if neither the matrix nor any single
/// exchange decomposes.
pub proof fn lemma_plu_first_success(m: Matrix)
    requires
        m.wf(),
        m.spec_rows() == m.spec_cols(),
    ensures
        ({
            let n = m.spec_rows() as nat;
            match plu_of(m@, n, n) {
                Some((lower, upper, permutation)) => {
                    ||| lu_of(m@, n, n) == Some((lower, upper)) && permutation == identity_cells(n)
                    ||| lu_of(m@, n, n) is None && exists|a: int, b: int|
                        {
                            &&& #[trigger] is_first_success(m@, n, 0, 1, a, b)
                            &&& lu_of(swapped_rows(m@, a, b), n, n) == Some((lower, upper))
                            &&& permutation == swapped_rows(identity_cells(n), a, b)
                        }
                },
                None => {
                    &&& lu_of(m@, n, n) is None
                    &&& forall|a: int, b: int|
                        0 <= a < b < n ==> !#[trigger] swap_decomposes(m@, n, a, b)
                },
            }
        }),
{
    let n = m.spec_rows() as nat;
    lemma_search_first_success(m@, n, 0, 1);
}

/// The factors that a PLU decomposition returns are the LU decomposition
/// of the permutation matrix times the matrix, wherever zero and one act
/// exactly on its entries.
pub proof fn lemma_plu_factors_permuted(m: Matrix)
    requires
        m.wf(),
        units_act_exactly(m@),
        plu_of(m@, m.spec_rows() as nat, m.spec_cols() as nat) is Some,
    ensures
        ({
            let n = m.spec_rows() as nat;
            let (lower, upper, permutation) = plu_of(m@, n, n)->Some_0;
            &&& m.spec_cols() == n
            &&& lu_of(product_cells(permutation, m@, n), n, n) == Some((lower, upper))
        }),
{
    let n = m.spec_rows() as nat;
    let (lower, upper, permutation) = plu_of(m@, n, n)->Some_0;
    lemma_plu_first_success(m);
    if lu_of(m@, n, n) is Some {
        lemma_identity_product(m);
    } else {
        let (a, b) = choose|a: int, b: int|
            {
                &&& #[trigger] is_first_success(m@, n, 0, 1, a, b)
                &&& lu_of(swapped_rows(m@, a, b), n, n) == Some((lower, upper))
                &&& permutation == swapped_rows(identity_cells(n), a, b)
            };
        lemma_swap_product(m, a, b);
    }
}

} // verus!
