//! LU decomposition by Gaussian elimination without pivoting, and PLU
//! decomposition by a search over single row swaps.

use crate::matrix::{cells_of, identity_cells, identity_rows, is_grid, Matrix};
use crate::scalar::{
    fp_difference, fp_div, fp_is_zero, fp_mul, fp_product, fp_quotient, fp_sub, is_zero, ZERO,
};
use itertools::Itertools;
use vstd::prelude::*;

verus! {

/// A row divided through by the pivot.
pub open spec fn normalized_row(row: Seq<u64>, pivot: u64) -> Seq<u64> {
    Seq::new(row.len(), |k: int| fp_quotient(row[k], pivot))
}

/// A row below the pivot after elimination with multiplier `m`: zero up to
/// and in column `r`, and `row[k] - m * pivot_row[k]` in each later column.
pub open spec fn eliminated_row(row: Seq<u64>, pivot_row: Seq<u64>, r: int, m: u64) -> Seq<u64> {
    Seq::new(
        row.len(),
        |k: int|
            if k <= r {
                ZERO
            } else {
                fp_difference(row[k], fp_product(m, pivot_row[k]))
            },
    )
}

/// The upper factor after the step on pivot row `r`.
///
/// Rows above `r` stay. Row `r` is divided by its pivot `upper[r][r]`. A row
/// below stays if its entry in column `r` is a zero, and is otherwise
/// eliminated against the normalized pivot row with that entry as multiplier.
pub open spec fn upper_after_step(upper: Seq<Seq<u64>>, r: int) -> Seq<Seq<u64>> {
    let pivot_row = normalized_row(upper[r], upper[r][r]);
    Seq::new(
        upper.len(),
        |i: int|
            if i < r {
                upper[i]
            } else if i == r {
                pivot_row
            } else if is_zero(upper[i][r]) {
                upper[i]
            } else {
                eliminated_row(upper[i], pivot_row, r, upper[i][r])
            },
    )
}

/// The lower factor after the step on pivot row `r`.
///
/// Column `r` receives the pivot on the diagonal and, below it, the
/// multiplier of each row that was eliminated. Nothing else changes.
pub open spec fn lower_after_step(lower: Seq<Seq<u64>>, upper: Seq<Seq<u64>>, r: int) -> Seq<
    Seq<u64>,
> {
    Seq::new(
        lower.len(),
        |i: int|
            if i == r || (i > r && !is_zero(upper[i][r])) {
                lower[i].update(r, upper[i][r])
            } else {
                lower[i]
            },
    )
}

/// Elimination from pivot row `r` on: `None` as soon as a pivot is a zero,
/// else the two factors after the last step.
pub open spec fn eliminate_from(lower: Seq<Seq<u64>>, upper: Seq<Seq<u64>>, r: nat) -> Option<
    (Seq<Seq<u64>>, Seq<Seq<u64>>),
>
    decreases upper.len() - r,
{
    if r >= upper.len() {
        Some((lower, upper))
    } else if is_zero(upper[r as int][r as int]) {
        None
    } else {
        eliminate_from(
            lower_after_step(lower, upper, r as int),
            upper_after_step(upper, r as int),
            r + 1,
        )
    }
}

/// The LU decomposition of a table of `rows` rows and `cols` columns, as
/// `(lower, upper)`: `None` unless the table is square and no pivot met
/// during elimination is a zero.
pub open spec fn lu_of(cells: Seq<Seq<u64>>, rows: nat, cols: nat) -> Option<
    (Seq<Seq<u64>>, Seq<Seq<u64>>),
> {
    if rows != cols {
        None
    } else {
        eliminate_from(identity_cells(rows), cells, 0)
    }
}

/// A copy of the rows.
fn copy_rows(src: &Vec<Vec<u64>>) -> (v: Vec<Vec<u64>>)
    ensures
        cells_of(v@) == cells_of(src@),
{
    let mut v: Vec<Vec<u64>> = Vec::new();
    let mut i: usize = 0;
    while i < src.len()
        invariant
            i <= src.len(),
            v@.len() == i,
            forall|a: int| 0 <= a < i ==> (#[trigger] v@[a])@ == src@[a]@,
        decreases src.len() - i,
    {
        let row = src[i].clone();
        assert(row@ =~= src@[i as int]@);
        v.push(row);
        i += 1;
    }
    assert(cells_of(v@) =~= cells_of(src@));
    v
}

/// The row divided through by the pivot.
fn normalize_row(row: &Vec<u64>, pivot: u64) -> (out: Vec<u64>)
    ensures
        out@ == normalized_row(row@, pivot),
{
    let mut out: Vec<u64> = Vec::new();
    let mut k: usize = 0;
    while k < row.len()
        invariant
            k <= row.len(),
            out@.len() == k,
            forall|a: int| 0 <= a < k ==> out@[a] == fp_quotient(row@[a], pivot),
        decreases row.len() - k,
    {
        out.push(fp_div(row[k], pivot));
        k += 1;
    }
    assert(out@ =~= normalized_row(row@, pivot));
    out
}

/// The row with column `r` eliminated against the pivot row.
fn eliminate_row(row: &Vec<u64>, pivot_row: &Vec<u64>, r: usize, m: u64) -> (out: Vec<u64>)
    requires
        row.len() == pivot_row.len(),
    ensures
        out@ == eliminated_row(row@, pivot_row@, r as int, m),
{
    let mut out: Vec<u64> = Vec::new();
    let mut k: usize = 0;
    while k < row.len()
        invariant
            k <= row.len(),
            row.len() == pivot_row.len(),
            out@.len() == k,
            forall|a: int| 0 <= a < k ==> out@[a] == eliminated_row(row@, pivot_row@, r as int, m)[a],
        decreases row.len() - k,
    {
        if k <= r {
            out.push(ZERO);
        } else {
            out.push(fp_sub(row[k], fp_mul(m, pivot_row[k])));
        }
        k += 1;
    }
    assert(out@ =~= eliminated_row(row@, pivot_row@, r as int, m));
    out
}

impl Matrix {
    /// Factors the matrix into a lower and an upper triangular matrix by
    /// Gaussian elimination without pivoting.
    ///
    /// Returns `None` if the matrix is not square or a pivot is a zero.
    pub fn lu_decompose(&self) -> (res: Option<(Matrix, Matrix)>)
        requires
            self.wf(),
        ensures
            match res {
                Some((lower, upper)) => {
                    &&& lu_of(self@, self.spec_rows() as nat, self.spec_cols() as nat) == Some(
                        (lower@, upper@),
                    )
                    &&& lower.wf()
                    &&& upper.wf()
                    &&& lower.spec_rows() == self.spec_rows()
                    &&& lower.spec_cols() == self.spec_cols()
                    &&& upper.spec_rows() == self.spec_rows()
                    &&& upper.spec_cols() == self.spec_cols()
                },
                None => lu_of(self@, self.spec_rows() as nat, self.spec_cols() as nat) is None,
            },
    {
        let n = self.rows();
        if n != self.cols() {
            return None;
        }
        let mut upper = copy_rows(self.contents());
        let mut lower = identity_rows(n);
        let mut r: usize = 0;
        while r < n
            invariant
                r <= n,
                n == self.spec_rows(),
                n == self.spec_cols(),
                is_grid(cells_of(upper@), n as nat, n as nat),
                is_grid(cells_of(lower@), n as nat, n as nat),
                eliminate_from(cells_of(lower@), cells_of(upper@), r as nat) == eliminate_from(
                    identity_cells(n as nat),
                    self@,
                    0,
                ),
            decreases n - r,
        {
            let ghost u0 = cells_of(upper@);
            let ghost l0 = cells_of(lower@);
            assert(u0[r as int] == upper@[r as int]@);
            let pivot = upper[r][r];
            if fp_is_zero(pivot) {
                assert(eliminate_from(l0, u0, r as nat) is None);
                return None;
            }
            let pivot_row = normalize_row(&upper[r], pivot);
            assert(l0[r as int] == lower@[r as int]@);
            lower[r][r] = pivot;
            let mut below: usize = r + 1;
            while below < n
                invariant
                    r < below <= n,
                    upper@.len() == n,
                    lower@.len() == n,
                    is_grid(u0, n as nat, n as nat),
                    is_grid(l0, n as nat, n as nat),
                    pivot_row@ == normalized_row(u0[r as int], u0[r as int][r as int]),
                    forall|i: int|
                        0 <= i < n ==> (#[trigger] upper@[i])@ == (if r < i < below {
                            upper_after_step(u0, r as int)[i]
                        } else {
                            u0[i]
                        }),
                    forall|i: int|
                        0 <= i < n ==> (#[trigger] lower@[i])@ == (if i < below {
                            lower_after_step(l0, u0, r as int)[i]
                        } else {
                            l0[i]
                        }),
                decreases n - below,
            {
                assert(u0[below as int] == upper@[below as int]@);
                assert(l0[below as int] == lower@[below as int]@);
                let m = upper[below][r];
                if !fp_is_zero(m) {
                    let new_row = eliminate_row(&upper[below], &pivot_row, r, m);
                    upper.set(below, new_row);
                    lower[below][r] = m;
                }
                below += 1;
            }
            upper.set(r, pivot_row);
            assert(cells_of(upper@) =~= upper_after_step(u0, r as int));
            assert(cells_of(lower@) =~= lower_after_step(l0, u0, r as int));
            r += 1;
        }
        let lower = Matrix::from_parts(lower, n, n);
        let upper = Matrix::from_parts(upper, n, n);
        Some((lower, upper))
    }
}

/// The table with rows `i` and `j` exchanged.
pub open spec fn swapped_rows(cells: Seq<Seq<u64>>, i: int, j: int) -> Seq<Seq<u64>> {
    cells.update(j, cells[i]).update(i, cells[j])
}

/// The search over single row swaps, from the pair `(i, j)` on in ascending
/// lexicographic order of the pairs `i < j < n`.
///
/// Each pair is tried on the table as given, not on the outcome of an earlier
/// swap. The first pair whose swapped table decomposes gives the result: the
/// two factors of the swapped table, and the identity with the same two rows
/// exchanged.
pub open spec fn search_from(cells: Seq<Seq<u64>>, n: nat, i: nat, j: nat) -> Option<
    (Seq<Seq<u64>>, Seq<Seq<u64>>, Seq<Seq<u64>>),
>
    decreases n - i, n - j,
{
    if i + 1 >= n {
        None
    } else if j >= n {
        search_from(cells, n, i + 1, i + 2)
    } else {
        match lu_of(swapped_rows(cells, i as int, j as int), n, n) {
            Some((lower, upper)) => Some(
                (lower, upper, swapped_rows(identity_cells(n), i as int, j as int)),
            ),
            None => search_from(cells, n, i, j + 1),
        }
    }
}

/// The PLU decomposition of a table, as `(lower, upper, permutation)`.
///
/// A table that decomposes as it stands keeps the identity as permutation.
/// Otherwise the search over single row swaps decides.
pub open spec fn plu_of(cells: Seq<Seq<u64>>, rows: nat, cols: nat) -> Option<
    (Seq<Seq<u64>>, Seq<Seq<u64>>, Seq<Seq<u64>>),
> {
    if rows != cols {
        None
    } else {
        match lu_of(cells, rows, cols) {
            Some((lower, upper)) => Some((lower, upper, identity_cells(rows))),
            None => search_from(cells, cols, 0, 1),
        }
    }
}

/// The number of pairs `i < j < n`.
pub open spec fn pair_count(n: nat) -> nat {
    (n * (n - 1) / 2) as nat
}

/// Whether `pair` is `[i, j]` with `i < j < n`.
pub open spec fn is_row_pair(pair: Seq<usize>, n: nat) -> bool {
    pair.len() == 2 && pair[0] < pair[1] < n
}

/// Whether pair `a` comes before pair `b` in lexicographic order.
pub open spec fn pair_before(a: Seq<usize>, b: Seq<usize>) -> bool {
    a[0] < b[0] || (a[0] == b[0] && a[1] < b[1])
}

/// Whether `[i, j]` is among `pairs`.
pub open spec fn has_pair(pairs: Seq<Vec<usize>>, i: int, j: int) -> bool {
    exists|k: int| 0 <= k < pairs.len() && (#[trigger] pairs[k])@ == seq![i as usize, j as usize]
}

/// Whether `pairs` lists the pairs `i < j < n`, each once, in ascending
/// lexicographic order.
pub open spec fn lists_row_pairs(pairs: Seq<Vec<usize>>, n: nat) -> bool {
    &&& forall|k: int| 0 <= k < pairs.len() ==> is_row_pair((#[trigger] pairs[k])@, n)
    &&& forall|k: int, m: int|
        0 <= k < m < pairs.len() ==> pair_before((#[trigger] pairs[k])@, (#[trigger] pairs[m])@)
    &&& forall|i: int, j: int| 0 <= i < j < n ==> #[trigger] has_pair(pairs, i, j)
}

/// Calls `Itertools::combinations` of `itertools` on the range `0..n` with
/// length 2 and collects what it yields. Not proved: that every item is a
/// pair `[i, j]` with `i < j < n`, that the items come in strictly ascending
/// lexicographic order, and that no such pair is left out.
#[verifier::external_body]
fn row_pairs(n: usize) -> (pairs: Vec<Vec<usize>>)
    requires
        pair_count(n as nat) <= usize::MAX,
    ensures
        lists_row_pairs(pairs@, n as nat),
{
    (0..n).combinations(2).collect()
}

/// The list starts at `[0, 1]`, and is empty only if there is no pair.
proof fn lemma_first_pair(pairs: Seq<Vec<usize>>, n: nat)
    requires
        n <= usize::MAX,
        lists_row_pairs(pairs, n),
    ensures
        pairs.len() == 0 ==> n < 2,
        pairs.len() > 0 ==> pairs[0]@ == seq![0usize, 1usize],
{
    if n >= 2 {
        assert(has_pair(pairs, 0, 1));
        let m = choose|m: int| 0 <= m < pairs.len() && (#[trigger] pairs[m])@ == seq![0usize, 1usize];
        if m > 0 {
            assert(is_row_pair(pairs[0]@, n));
            assert(pair_before(pairs[0]@, pairs[m]@));
        }
    } else if pairs.len() > 0 {
        assert(is_row_pair(pairs[0]@, n));
    }
}

/// After `[i, j]` the list goes on with `[i, j + 1]`, or with
/// `[i + 1, i + 2]` when `j` is the last column, and ends after
/// `[n - 2, n - 1]`.
proof fn lemma_next_pair(pairs: Seq<Vec<usize>>, n: nat, k: int)
    requires
        n <= usize::MAX,
        lists_row_pairs(pairs, n),
        0 <= k < pairs.len(),
    ensures
        ({
            let i = pairs[k]@[0] as int;
            let j = pairs[k]@[1] as int;
            if k + 1 < pairs.len() {
                if j + 1 < n {
                    pairs[k + 1]@ == seq![i as usize, (j + 1) as usize]
                } else {
                    i + 2 < n && pairs[k + 1]@ == seq![(i + 1) as usize, (i + 2) as usize]
                }
            } else {
                j + 1 == n && i + 2 == n
            }
        }),
{
    let i = pairs[k]@[0] as int;
    let j = pairs[k]@[1] as int;
    assert(is_row_pair(pairs[k]@, n));
    let (a, b) = if j + 1 < n {
        (i, j + 1)
    } else {
        (i + 1, i + 2)
    };
    if b < n {
        assert(has_pair(pairs, a, b));
        let m = choose|m: int|
            0 <= m < pairs.len() && (#[trigger] pairs[m])@ == seq![a as usize, b as usize];
        assert(pairs[m]@[0] == a && pairs[m]@[1] == b);
        if m < k {
            assert(pair_before(pairs[m]@, pairs[k]@));
        }
        assert(m > k);
        if m > k + 1 {
            assert(is_row_pair(pairs[k + 1]@, n));
            assert(pair_before(pairs[k]@, pairs[k + 1]@));
            assert(pair_before(pairs[k + 1]@, pairs[m]@));
        }
        assert(m == k + 1);
    } else if k + 1 < pairs.len() {
        assert(is_row_pair(pairs[k + 1]@, n));
        assert(pair_before(pairs[k]@, pairs[k + 1]@));
    }
}

/// Exchanges rows `i` and `j`.
fn swap_rows(v: &mut Vec<Vec<u64>>, i: usize, j: usize)
    requires
        i < old(v)@.len(),
        j < old(v)@.len(),
    ensures
        cells_of(final(v)@) == swapped_rows(cells_of(old(v)@), i as int, j as int),
{
    let row = v[i].clone();
    let row2 = v[j].clone();
    assert(row@ =~= old(v)@[i as int]@);
    assert(row2@ =~= old(v)@[j as int]@);
    v.set(j, row);
    v.set(i, row2);
    assert(cells_of(v@) =~= swapped_rows(cells_of(old(v)@), i as int, j as int));
}

impl Matrix {
    /// Factors the matrix, or the matrix with two of its rows exchanged, into
    /// a lower and an upper triangular matrix, and returns them with the
    /// permutation matrix of the exchange.
    ///
    /// The matrix itself is tried first, then each pair of rows in ascending
    /// lexicographic order; the first that decomposes wins. Returns `None`
    /// if the matrix is not square or nothing tried decomposes.
    pub fn plu_decomposition(&self) -> (res: Option<(Matrix, Matrix, Matrix)>)
        requires
            self.wf(),
            self.spec_rows() == self.spec_cols() ==> pair_count(self.spec_cols() as nat)
                <= usize::MAX,
        ensures
            match res {
                Some((lower, upper, permutation)) => {
                    &&& plu_of(self@, self.spec_rows() as nat, self.spec_cols() as nat) == Some(
                        (lower@, upper@, permutation@),
                    )
                    &&& lower.wf()
                    &&& upper.wf()
                    &&& permutation.wf()
                    &&& lower.spec_rows() == self.spec_rows()
                    &&& lower.spec_cols() == self.spec_cols()
                    &&& upper.spec_rows() == self.spec_rows()
                    &&& upper.spec_cols() == self.spec_cols()
                    &&& permutation.spec_rows() == self.spec_rows()
                    &&& permutation.spec_cols() == self.spec_cols()
                },
                None => plu_of(self@, self.spec_rows() as nat, self.spec_cols() as nat) is None,
            },
    {
        let n = self.rows();
        if n != self.cols() {
            return None;
        }
        if let Some((lower, upper)) = self.lu_decompose() {
            return Some((lower, upper, Matrix::identity(n)));
        }
        let pairs = row_pairs(self.cols());
        proof {
            lemma_first_pair(pairs@, n as nat);
        }
        let mut k: usize = 0;
        while k < pairs.len()
            invariant
                k <= pairs@.len(),
                self.wf(),
                n == self.spec_rows(),
                n == self.spec_cols(),
                lists_row_pairs(pairs@, n as nat),
                lu_of(self@, n as nat, n as nat) is None,
                k < pairs@.len() ==> search_from(
                    self@,
                    n as nat,
                    pairs@[k as int]@[0] as nat,
                    pairs@[k as int]@[1] as nat,
                ) == search_from(self@, n as nat, 0, 1),
                k == pairs@.len() ==> search_from(self@, n as nat, 0, 1) is None,
            decreases pairs@.len() - k,
        {
            assert(is_row_pair(pairs@[k as int]@, n as nat));
            let i = pairs[k][0];
            let j = pairs[k][1];
            let mut permutation = identity_rows(n);
            swap_rows(&mut permutation, i, j);
            let mut swapped = copy_rows(self.contents());
            swap_rows(&mut swapped, i, j);
            let swapped = Matrix::from_parts(swapped, n, n);
            if let Some((lower, upper)) = swapped.lu_decompose() {
                let permutation = Matrix::from_parts(permutation, n, n);
                return Some((lower, upper, permutation));
            }
            proof {
                lemma_next_pair(pairs@, n as nat, k as int);
                let cells = self@;
                assert(search_from(cells, n as nat, i as nat, j as nat) == search_from(
                    cells,
                    n as nat,
                    i as nat,
                    (j + 1) as nat,
                ));
                if j + 1 == n {
                    assert(search_from(cells, n as nat, i as nat, n as nat) == search_from(
                        cells,
                        n as nat,
                        (i + 1) as nat,
                        (i + 2) as nat,
                    ));
                    if i + 2 == n {
                        assert(search_from(cells, n as nat, (i + 1) as nat, (i + 2) as nat) is None);
                    }
                }
            }
            k += 1;
        }
        None
    }
}

} // verus!
