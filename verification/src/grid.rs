//! Dense rectangular storage for the state of a system: one row per
//! particle, one column per spatial axis.

use vstd::prelude::*;
use crate::number::Real;
use crate::vector::zero_vector;
use crate::vector::zeros;

verus! {

/// A dense matrix of numbers, kept in an `nalgebra::DMatrix`. The
/// verifier does not look inside: what the matrix holds is named by
/// `grid_rows`, and the methods below that call into `nalgebra` state what
/// they do to it without proof.
#[verifier::external_body]
pub struct Grid {
    cells: nalgebra::DMatrix<Real>,
}

/// The rows of the matrix that a grid holds, top to bottom, each row left
/// to right.
pub uninterp spec fn grid_rows(grid: Grid) -> Seq<Seq<Real>>;

/// Whether every row of `rows` has `cols` entries.
pub open spec fn rectangular(rows: Seq<Seq<Real>>, cols: nat) -> bool {
    forall|i: int| 0 <= i < rows.len() ==> (#[trigger] rows[i]).len() == cols
}

/// Whether the two tables have as many rows, and row by row as many
/// entries.
pub open spec fn same_shape(a: Seq<Seq<Real>>, b: Seq<Seq<Real>>) -> bool {
    &&& a.len() == b.len()
    &&& forall|i: int| 0 <= i < a.len() ==> (#[trigger] a[i]).len() == b[i].len()
}

/// The contents of a vector of rows.
pub open spec fn rows_view(rows: Seq<Vec<Real>>) -> Seq<Seq<Real>> {
    Seq::new(rows.len(), |i: int| rows[i]@)
}

/// The table `base + h · rate`, entry by entry.
pub open spec fn advanced(base: Seq<Seq<Real>>, h: Real, rate: Seq<Seq<Real>>) -> Seq<Seq<Real>> {
    Seq::new(
        base.len(),
        |i: int| Seq::new(base[i].len(), |k: int| base[i][k].spec_add(h.spec_mul(rate[i][k]))),
    )
}

/// The table of zeros with the shape of `table`.
pub open spec fn zeros_like(table: Seq<Seq<Real>>) -> Seq<Seq<Real>> {
    Seq::new(table.len(), |i: int| zeros(table[i].len()))
}

/// Advancing a table keeps its shape.
pub proof fn lemma_advanced_shape(base: Seq<Seq<Real>>, h: Real, rate: Seq<Seq<Real>>, d: nat)
    requires
        rectangular(base, d),
    ensures
        advanced(base, h, rate).len() == base.len(),
        rectangular(advanced(base, h, rate), d),
{
    assert forall|i: int| 0 <= i < advanced(base, h, rate).len() implies (#[trigger] advanced(
        base,
        h,
        rate,
    )[i]).len() == d by {
        assert(base[i].len() == d);
    }
}

impl View for Grid {
    type V = Seq<Seq<Real>>;

    open spec fn view(&self) -> Seq<Seq<Real>> {
        grid_rows(*self)
    }
}

impl Grid {
    /// `nalgebra::DMatrix::from_fn`: the matrix with `rows.len()` rows and
    /// `cols` columns whose entry `(i, j)` is `rows[i][j]`. The rows are in
    /// memory already, so the product of the two dimensions is the number
    /// of entries at hand and cannot overflow.
    #[verifier::external_body]
    pub(crate) fn from_rows(rows: &Vec<Vec<Real>>, cols: usize) -> (grid: Grid)
        requires
            rectangular(rows_view(rows@), cols as nat),
        ensures
            grid_rows(grid) == rows_view(rows@),
    {
        Grid { cells: nalgebra::DMatrix::from_fn(rows.len(), cols, |i, j| rows[i][j]) }
    }

    /// `nalgebra::Matrix::nrows`: the number of rows.
    #[verifier::external_body]
    pub(crate) fn nrows(&self) -> (n: usize)
        ensures
            n == grid_rows(*self).len(),
    {
        self.cells.nrows()
    }

    /// `nalgebra::Matrix::ncols`: the number of columns, which is the length
    /// of every row.
    #[verifier::external_body]
    pub(crate) fn ncols(&self) -> (n: usize)
        ensures
            rectangular(grid_rows(*self), n as nat),
    {
        self.cells.ncols()
    }

    /// Indexing of an `nalgebra::Matrix` by `(row, column)`: a copy of the
    /// entry there. The index must lie inside the matrix.
    #[verifier::external_body]
    pub(crate) fn get(&self, i: usize, j: usize) -> (value: Real)
        requires
            i < grid_rows(*self).len(),
            j < grid_rows(*self)[i as int].len(),
        ensures
            value == grid_rows(*self)[i as int][j as int],
    {
        self.cells[(i, j)]
    }

    /// Mutable indexing of an `nalgebra::Matrix` by `(row, column)`:
    /// overwrites the entry there and no other. The index must lie inside
    /// the matrix.
    #[verifier::external_body]
    pub(crate) fn set(&mut self, i: usize, j: usize, value: Real)
        requires
            i < grid_rows(*old(self)).len(),
            j < grid_rows(*old(self))[i as int].len(),
        ensures
            grid_rows(*final(self)) == grid_rows(*old(self)).update(
                i as int,
                grid_rows(*old(self))[i as int].update(j as int, value),
            ),
    {
        self.cells[(i, j)] = value;
    }

    /// `Clone` of an `nalgebra::DMatrix`: a matrix with the same entries.
    #[verifier::external_body]
    pub(crate) fn duplicate(&self) -> (copy: Grid)
        ensures
            grid_rows(copy) == grid_rows(*self),
    {
        Grid { cells: self.cells.clone() }
    }

    /// The grid whose rows are `rows`, where every row has `cols` entries;
    /// nothing where one has not.
    pub fn of_rows(rows: &Vec<Vec<Real>>, cols: usize) -> (grid: Option<Grid>)
        ensures
            grid.is_some() <==> rectangular(rows_view(rows@), cols as nat),
            grid.is_some() ==> grid.unwrap()@ == rows_view(rows@),
    {
        let mut i: usize = 0;
        while i < rows.len()
            invariant
                i <= rows.len(),
                rectangular(rows_view(rows@).take(i as int), cols as nat),
            decreases rows.len() - i,
        {
            if rows[i].len() != cols {
                assert(rows_view(rows@)[i as int].len() != cols);
                return None;
            }
            assert forall|k: int| 0 <= k < i + 1 implies (#[trigger] rows_view(rows@).take(
                i + 1,
            )[k]).len() == cols by {
                if k < i {
                    assert(rows_view(rows@).take(i as int)[k].len() == cols);
                }
            }
            i = i + 1;
        }
        assert(rows_view(rows@).take(rows.len() as int) =~= rows_view(rows@));
        Some(Grid::from_rows(rows, cols))
    }

    /// Whether the grid has `rows` rows of `cols` entries each.
    pub fn has_shape(&self, rows: usize, cols: usize) -> (b: bool)
        ensures
            b <==> self@.len() == rows && rectangular(self@, cols as nat),
    {
        if self.nrows() != rows {
            return false;
        }
        if rows == 0 {
            return true;
        }
        let width: usize = self.ncols();
        assert(self@[0].len() == width);
        width == cols
    }

    /// A copy of row `i`.
    pub fn row(&self, i: usize) -> (row: Vec<Real>)
        requires
            i < self@.len(),
        ensures
            row@ == self@[i as int],
    {
        let cols: usize = self.ncols();
        let mut row: Vec<Real> = Vec::new();
        let mut j: usize = 0;
        while j < cols
            invariant
                j <= cols,
                i < self@.len(),
                self@[i as int].len() == cols,
                row@ == self@[i as int].take(j as int),
            decreases cols - j,
        {
            row.push(self.get(i, j));
            j = j + 1;
            assert(row@ =~= self@[i as int].take(j as int));
        }
        assert(self@[i as int].take(cols as int) =~= self@[i as int]);
        row
    }

    /// The grid of zeros with `rows` rows and `cols` columns.
    pub fn zeros(rows: usize, cols: usize) -> (grid: Grid)
        ensures
            grid@ == Seq::new(rows as nat, |i: int| zeros(cols as nat)),
    {
        let mut table: Vec<Vec<Real>> = Vec::new();
        let mut i: usize = 0;
        while i < rows
            invariant
                i <= rows,
                table.len() == i,
                forall|k: int| 0 <= k < i ==> (#[trigger] table@[k])@ == zeros(cols as nat),
            decreases rows - i,
        {
            table.push(zero_vector(cols));
            i = i + 1;
        }
        assert forall|k: int| 0 <= k < rows implies (#[trigger] rows_view(table@)[k]).len()
            == cols by {
            assert(table@[k]@ == zeros(cols as nat));
        }
        let grid: Grid = Grid::from_rows(&table, cols);
        assert forall|i: int| 0 <= i < rows implies #[trigger] grid@[i] == zeros(cols as nat) by {
            assert(rows_view(table@)[i] == table@[i]@);
        }
        assert(grid@ =~= Seq::new(rows as nat, |i: int| zeros(cols as nat)));
        grid
    }

    /// The grid `base + h · rate`, entry by entry.
    pub fn advance(base: &Grid, h: Real, rate: &Grid) -> (grid: Grid)
        requires
            same_shape(base@, rate@),
        ensures
            grid@ == advanced(base@, h, rate@),
    {
        let mut grid: Grid = base.duplicate();
        let rows: usize = base.nrows();
        let cols: usize = base.ncols();
        let mut i: usize = 0;
        while i < rows
            invariant
                i <= rows,
                rows == base@.len(),
                same_shape(base@, rate@),
                rectangular(base@, cols as nat),
                grid@.len() == rows,
                forall|r: int| 0 <= r < i ==> #[trigger] grid@[r] == advanced(base@, h, rate@)[r],
                forall|r: int| i <= r < rows ==> #[trigger] grid@[r] == base@[r],
            decreases rows - i,
        {
            let mut k: usize = 0;
            assert(base@[i as int].len() == cols);
            assert(rate@[i as int].len() == cols);
            while k < cols
                invariant
                    k <= cols,
                    i < rows,
                    rows == base@.len(),
                    rate@.len() == base@.len(),
                    base@[i as int].len() == cols,
                    rate@[i as int].len() == cols,
                    grid@.len() == rows,
                    grid@[i as int].len() == cols,
                    forall|r: int|
                        0 <= r < i ==> #[trigger] grid@[r] == advanced(base@, h, rate@)[r],
                    forall|r: int| i < r < rows ==> #[trigger] grid@[r] == base@[r],
                    forall|c: int|
                        0 <= c < k ==> #[trigger] grid@[i as int][c] == base@[i as int][c].spec_add(
                            h.spec_mul(rate@[i as int][c]),
                        ),
                    forall|c: int|
                        k <= c < cols ==> #[trigger] grid@[i as int][c] == base@[i as int][c],
                decreases cols - k,
            {
                let value: Real = base.get(i, k).add(h.mul(rate.get(i, k)));
                grid.set(i, k, value);
                k = k + 1;
            }
            assert(grid@[i as int] =~= advanced(base@, h, rate@)[i as int]);
            i = i + 1;
        }
        assert(grid@ =~= advanced(base@, h, rate@));
        grid
    }
}

} // verus!
