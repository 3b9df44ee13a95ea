//! The matrix container and its arithmetic.

use crate::scalar::{fp_add, fp_div, fp_mul, fp_product, fp_quotient, fp_sum, ONE, ZERO};
use vstd::prelude::*;

verus! {

/// A rectangular table of real numbers, each held as a binary64 pattern.
///
/// The shape is fixed at construction; the view is the table row by row.
#[derive(Clone, Debug)]
pub struct Matrix {
    contents: Vec<Vec<u64>>,
    l: usize,
    w: usize,
}

/// Why a table of rows is not a matrix.
#[derive(Clone, Copy, Debug, PartialEq, Eq)]
pub enum ConstructionError {
    /// Two rows differ in length.
    RaggedInput,
}

/// An elementary row operation.
#[derive(Clone, Copy, Debug)]
pub enum ERO {
    /// Scale the row by the factor.
    Scale(usize, u64),
    /// Add to the first row the second row scaled by the factor.
    Add(usize, usize, u64),
    /// Switch the two rows.
    Switch(usize, usize),
}

/// The rows of a vector of vectors, each as a sequence.
pub open spec fn cells_of(v: Seq<Vec<u64>>) -> Seq<Seq<u64>> {
    Seq::new(v.len(), |i: int| v[i]@)
}

/// Whether `cells` is a table of `rows` rows, each of `cols` entries.
pub open spec fn is_grid(cells: Seq<Seq<u64>>, rows: nat, cols: nat) -> bool {
    &&& cells.len() == rows
    &&& forall|i: int| 0 <= i < rows ==> (#[trigger] cells[i]).len() == cols
}

/// The table of the `n` by `n` identity: one on the diagonal, zero elsewhere.
pub open spec fn identity_cells(n: nat) -> Seq<Seq<u64>> {
    Seq::new(n, |i: int| Seq::new(n, |j: int| if i == j { ONE } else { ZERO }))
}

/// The table of `rows` by `cols` zeros.
pub open spec fn blank_cells(rows: nat, cols: nat) -> Seq<Seq<u64>> {
    Seq::new(rows, |i: int| Seq::new(cols, |j: int| ZERO))
}

/// The length of the first row, or zero where there is no row.
pub open spec fn first_width(cells: Seq<Seq<u64>>) -> nat {
    if cells.len() == 0 {
        0
    } else {
        cells[0].len()
    }
}

/// The entrywise sum of two tables of one shape.
pub open spec fn sum_cells(a: Seq<Seq<u64>>, b: Seq<Seq<u64>>) -> Seq<Seq<u64>> {
    Seq::new(a.len(), |i: int| Seq::new(a[i].len(), |j: int| fp_sum(a[i][j], b[i][j])))
}

/// The table with every entry multiplied by `k`.
pub open spec fn scaled_cells(a: Seq<Seq<u64>>, k: u64) -> Seq<Seq<u64>> {
    Seq::new(a.len(), |i: int| Seq::new(a[i].len(), |j: int| fp_product(a[i][j], k)))
}

/// The sum of the first `t` terms `row[k] * b[k][j]`, added from zero in
/// ascending order of `k`.
pub open spec fn dot(row: Seq<u64>, b: Seq<Seq<u64>>, j: int, t: nat) -> u64
    decreases t,
{
    if t == 0 {
        ZERO
    } else {
        fp_sum(dot(row, b, j, (t - 1) as nat), fp_product(row[t - 1], b[t - 1][j]))
    }
}

/// The matrix product of `a` and a table `b` of `cols` columns: entry
/// `(i, j)` is the sum over `k` of `a[i][k] * b[k][j]`.
pub open spec fn product_cells(a: Seq<Seq<u64>>, b: Seq<Seq<u64>>, cols: nat) -> Seq<Seq<u64>> {
    Seq::new(a.len(), |i: int| Seq::new(cols, |j: int| dot(a[i], b, j, b.len())))
}

impl View for Matrix {
    type V = Seq<Seq<u64>>;

    closed spec fn view(&self) -> Seq<Seq<u64>> {
        cells_of(self.contents@)
    }
}

impl Matrix {
    /// The number of rows.
    pub closed spec fn spec_rows(&self) -> usize {
        self.l
    }

    /// The number of columns.
    pub closed spec fn spec_cols(&self) -> usize {
        self.w
    }

    /// Every row has exactly `spec_cols()` entries, and there are
    /// `spec_rows()` rows.
    pub open spec fn wf(&self) -> bool {
        is_grid(self@, self.spec_rows() as nat, self.spec_cols() as nat)
    }

    /// Makes a matrix from its rows.
    ///
    /// Fails if two rows differ in length. No rows at all give the matrix
    /// without rows or columns.
    pub fn new(inner: Vec<Vec<u64>>) -> (res: Result<Matrix, ConstructionError>)
        ensures
            match res {
                Ok(m) => {
                    &&& is_grid(cells_of(inner@), inner@.len(), first_width(cells_of(inner@)))
                    &&& m.wf()
                    &&& m@ == cells_of(inner@)
                    &&& m.spec_rows() == inner@.len()
                    &&& m.spec_cols() == first_width(cells_of(inner@))
                },
                Err(e) => {
                    &&& e == ConstructionError::RaggedInput
                    &&& !is_grid(cells_of(inner@), inner@.len(), first_width(cells_of(inner@)))
                },
            },
    {
        let l = inner.len();
        if l == 0 {
            return Ok(Matrix { contents: inner, l: 0, w: 0 });
        }
        let w = inner[0].len();
        let mut i: usize = 1;
        while i < l
            invariant
                1 <= i <= l,
                l == inner@.len(),
                w == inner@[0]@.len(),
                forall|a: int| 0 <= a < i ==> (#[trigger] cells_of(inner@)[a]).len() == w,
            decreases l - i,
        {
            if inner[i].len() != w {
                assert(cells_of(inner@)[i as int].len() != w);
                return Err(ConstructionError::RaggedInput);
            }
            i += 1;
        }
        Ok(Matrix { contents: inner, l, w })
    }

    /// Builds a matrix from rows already known to form a grid.
    pub(crate) fn from_parts(contents: Vec<Vec<u64>>, l: usize, w: usize) -> (m: Matrix)
        requires
            is_grid(cells_of(contents@), l as nat, w as nat),
        ensures
            m.wf(),
            m@ == cells_of(contents@),
            m.spec_rows() == l,
            m.spec_cols() == w,
    {
        Matrix { contents, l, w }
    }

    /// The rows as stored.
    pub(crate) fn contents(&self) -> (v: &Vec<Vec<u64>>)
        ensures
            cells_of(v@) == self@,
    {
        &self.contents
    }

    /// The number of rows.
    #[verifier::when_used_as_spec(spec_rows)]
    pub fn rows(&self) -> (n: usize)
        ensures
            n == self.spec_rows(),
    {
        self.l
    }

    /// The number of columns.
    #[verifier::when_used_as_spec(spec_cols)]
    pub fn cols(&self) -> (n: usize)
        ensures
            n == self.spec_cols(),
    {
        self.w
    }

    /// The entry in row `i`, column `j`.
    pub fn get(&self, i: usize, j: usize) -> (x: u64)
        requires
            self.wf(),
            i < self.spec_rows(),
            j < self.spec_cols(),
        ensures
            x == self@[i as int][j as int],
    {
        assert(self@[i as int] == self.contents@[i as int]@);
        self.contents[i][j]
    }

    /// The entrywise sum of two matrices of one shape.
    pub fn add(&self, rhs: &Matrix) -> (out: Matrix)
        requires
            self.wf(),
            rhs.wf(),
            self.spec_rows() == rhs.spec_rows(),
            self.spec_cols() == rhs.spec_cols(),
        ensures
            out.wf(),
            out.spec_rows() == self.spec_rows(),
            out.spec_cols() == self.spec_cols(),
            out@ == sum_cells(self@, rhs@),
    {
        let mut contents: Vec<Vec<u64>> = Vec::new();
        let mut i: usize = 0;
        while i < self.l
            invariant
                i <= self.l,
                self.wf(),
                rhs.wf(),
                self.spec_rows() == rhs.spec_rows(),
                self.spec_cols() == rhs.spec_cols(),
                contents@.len() == i,
                forall|a: int| 0 <= a < i ==> (#[trigger] contents@[a])@ == sum_cells(self@, rhs@)[a],
            decreases self.l - i,
        {
            assert(self@[i as int] == self.contents@[i as int]@);
            assert(rhs@[i as int] == rhs.contents@[i as int]@);
            let mut row: Vec<u64> = Vec::new();
            let mut j: usize = 0;
            while j < self.w
                invariant
                    j <= self.w,
                    i < self.l,
                    self.contents@.len() == self.l,
                    rhs.contents@.len() == self.l,
                    self.contents@[i as int]@.len() == self.w,
                    rhs.contents@[i as int]@.len() == self.w,
                    row@.len() == j,
                    forall|b: int|
                        0 <= b < j ==> row@[b] == fp_sum(
                            self.contents@[i as int]@[b],
                            rhs.contents@[i as int]@[b],
                        ),
                decreases self.w - j,
            {
                row.push(fp_add(self.contents[i][j], rhs.contents[i][j]));
                j += 1;
            }
            assert(row@ =~= sum_cells(self@, rhs@)[i as int]);
            contents.push(row);
            i += 1;
        }
        let out = Matrix { contents, l: self.l, w: self.w };
        assert(out@ =~= sum_cells(self@, rhs@));
        out
    }

    /// The matrix product. The left factor has as many columns as the right
    /// one has rows.
    pub fn multiply(&self, rhs: &Matrix) -> (out: Matrix)
        requires
            self.wf(),
            rhs.wf(),
            self.spec_cols() == rhs.spec_rows(),
        ensures
            out.wf(),
            out.spec_rows() == self.spec_rows(),
            out.spec_cols() == rhs.spec_cols(),
            out@ == product_cells(self@, rhs@, rhs.spec_cols() as nat),
    {
        let mut contents: Vec<Vec<u64>> = Vec::new();
        let mut i: usize = 0;
        while i < self.l
            invariant
                i <= self.l,
                self.wf(),
                rhs.wf(),
                self.spec_cols() == rhs.spec_rows(),
                contents@.len() == i,
                forall|a: int|
                    0 <= a < i ==> (#[trigger] contents@[a])@ == product_cells(
                        self@,
                        rhs@,
                        rhs.w as nat,
                    )[a],
            decreases self.l - i,
        {
            assert(self@[i as int] == self.contents@[i as int]@);
            let mut row: Vec<u64> = Vec::new();
            let mut j: usize = 0;
            while j < rhs.w
                invariant
                    j <= rhs.w,
                    i < self.l,
                    self.wf(),
                    rhs.wf(),
                    self.spec_cols() == rhs.spec_rows(),
                    row@.len() == j,
                    forall|b: int|
                        0 <= b < j ==> row@[b] == dot(self@[i as int], rhs@, b, rhs@.len()),
                decreases rhs.w - j,
            {
                let mut acc: u64 = ZERO;
                let mut t: usize = 0;
                while t < self.w
                    invariant
                        t <= self.w,
                        i < self.l,
                        j < rhs.w,
                        self.wf(),
                        rhs.wf(),
                        self.spec_cols() == rhs.spec_rows(),
                        acc == dot(self@[i as int], rhs@, j as int, t as nat),
                    decreases self.w - t,
                {
                    assert(self@[i as int] == self.contents@[i as int]@);
                    assert(rhs@[t as int] == rhs.contents@[t as int]@);
                    acc = fp_add(acc, fp_mul(self.contents[i][t], rhs.contents[t][j]));
                    t += 1;
                }
                row.push(acc);
                j += 1;
            }
            assert(row@ =~= product_cells(self@, rhs@, rhs.w as nat)[i as int]);
            contents.push(row);
            i += 1;
        }
        let out = Matrix { contents, l: self.l, w: rhs.w };
        assert(out@ =~= product_cells(self@, rhs@, rhs.w as nat));
        out
    }

    /// The matrix with every entry multiplied by `k`.
    pub fn scale(&self, k: u64) -> (out: Matrix)
        requires
            self.wf(),
        ensures
            out.wf(),
            out.spec_rows() == self.spec_rows(),
            out.spec_cols() == self.spec_cols(),
            out@ == scaled_cells(self@, k),
    {
        let mut contents: Vec<Vec<u64>> = Vec::new();
        let mut i: usize = 0;
        while i < self.l
            invariant
                i <= self.l,
                self.wf(),
                contents@.len() == i,
                forall|a: int| 0 <= a < i ==> (#[trigger] contents@[a])@ == scaled_cells(self@, k)[a],
            decreases self.l - i,
        {
            assert(self@[i as int] == self.contents@[i as int]@);
            let mut row: Vec<u64> = Vec::new();
            let mut j: usize = 0;
            while j < self.w
                invariant
                    j <= self.w,
                    i < self.l,
                    self.contents@.len() == self.l,
                    self.contents@[i as int]@.len() == self.w,
                    row@.len() == j,
                    forall|b: int|
                        0 <= b < j ==> row@[b] == fp_product(self.contents@[i as int]@[b], k),
                decreases self.w - j,
            {
                row.push(fp_mul(self.contents[i][j], k));
                j += 1;
            }
            assert(row@ =~= scaled_cells(self@, k)[i as int]);
            contents.push(row);
            i += 1;
        }
        let out = Matrix { contents, l: self.l, w: self.w };
        assert(out@ =~= scaled_cells(self@, k));
        out
    }

    /// The matrix with every entry multiplied by the reciprocal of `k`.
    ///
    /// A zero `k` is not special: the reciprocal is then an infinity.
    pub fn divide(&self, k: u64) -> (out: Matrix)
        requires
            self.wf(),
        ensures
            out.wf(),
            out.spec_rows() == self.spec_rows(),
            out.spec_cols() == self.spec_cols(),
            out@ == scaled_cells(self@, fp_quotient(ONE, k)),
    {
        self.scale(fp_div(ONE, k))
    }

    /// The `n` by `n` identity matrix.
    pub fn identity(n: usize) -> (m: Matrix)
        ensures
            m.wf(),
            m.spec_rows() == n,
            m.spec_cols() == n,
            m@ == identity_cells(n as nat),
    {
        let m = Matrix { contents: identity_rows(n), l: n, w: n };
        assert(m@ =~= identity_cells(n as nat));
        m
    }

    /// The `l` by `w` matrix of zeros.
    pub fn blank(l: usize, w: usize) -> (m: Matrix)
        ensures
            m.wf(),
            m.spec_rows() == l,
            m.spec_cols() == w,
            m@ == blank_cells(l as nat, w as nat),
    {
        let m = Matrix { contents: blank_rows(l, w), l, w };
        assert(m@ =~= blank_cells(l as nat, w as nat));
        m
    }
}

/// A row of `w` zeros.
pub(crate) fn zero_row(w: usize) -> (row: Vec<u64>)
    ensures
        row@ == Seq::new(w as nat, |j: int| ZERO),
{
    let mut row: Vec<u64> = Vec::new();
    let mut j: usize = 0;
    while j < w
        invariant
            j <= w,
            row@ == Seq::new(j as nat, |k: int| ZERO),
        decreases w - j,
    {
        row.push(ZERO);
        j += 1;
        assert(row@ =~= Seq::new(j as nat, |k: int| ZERO));
    }
    row
}

/// The rows of the `l` by `w` matrix of zeros.
pub(crate) fn blank_rows(l: usize, w: usize) -> (v: Vec<Vec<u64>>)
    ensures
        cells_of(v@) == blank_cells(l as nat, w as nat),
{
    let mut v: Vec<Vec<u64>> = Vec::new();
    let mut i: usize = 0;
    while i < l
        invariant
            i <= l,
            v@.len() == i,
            forall|a: int| 0 <= a < i ==> (#[trigger] v@[a])@ == blank_cells(l as nat, w as nat)[a],
        decreases l - i,
    {
        v.push(zero_row(w));
        i += 1;
    }
    assert(cells_of(v@) =~= blank_cells(l as nat, w as nat));
    v
}

/// The rows of the `n` by `n` identity matrix.
pub(crate) fn identity_rows(n: usize) -> (v: Vec<Vec<u64>>)
    ensures
        cells_of(v@) == identity_cells(n as nat),
{
    let mut v: Vec<Vec<u64>> = Vec::new();
    let mut i: usize = 0;
    while i < n
        invariant
            i <= n,
            v@.len() == i,
            forall|a: int| 0 <= a < i ==> (#[trigger] v@[a])@ == identity_cells(n as nat)[a],
        decreases n - i,
    {
        let mut row = zero_row(n);
        row.set(i, ONE);
        assert(row@ =~= identity_cells(n as nat)[i as int]);
        v.push(row);
        i += 1;
    }
    assert(cells_of(v@) =~= identity_cells(n as nat));
    v
}

} // verus!
