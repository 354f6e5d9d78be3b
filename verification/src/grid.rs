//! Grids of values: one row per variable, one column per cell.

use vstd::prelude::*;

verus! {

/// A grid of binary64 words, held in an array of the `ndarray` crate.
#[verifier::external_body]
pub struct ValueGrid {
    cells: ndarray::Array2<u64>,
}

/// The rows of a grid.
pub uninterp spec fn grid_rows(grid: ValueGrid) -> Seq<Seq<u64>>;

/// The rows in a sequence of vectors.
pub open spec fn row_views(rows: Seq<Vec<u64>>) -> Seq<Seq<u64>> {
    Seq::new(rows.len(), |i: int| rows[i]@)
}

/// The rows with one value replaced.
pub open spec fn with_value(
    rows: Seq<Seq<u64>>,
    row: int,
    column: int,
    value: u64,
) -> Seq<Seq<u64>> {
    rows.update(row, rows[row].update(column, value))
}

/// Calls `Array2::from_shape_vec` of `ndarray`, with the shape `(rows, columns)`.
///
/// It is taken to cut `data` into rows of `columns` values each, and to fail unless `data`
/// holds `rows * columns` values; and not to fail where it does, if neither number is 0 or
/// both fit in an `isize`.
#[verifier::external_body]
fn shape_rows(rows: usize, columns: usize, data: Vec<u64>) -> (grid: Option<ValueGrid>)
    ensures
        grid matches Some(g) ==> {
            &&& rows * columns == data@.len()
            &&& grid_rows(g).len() == rows
            &&& forall|i: int|
                0 <= i < rows ==> #[trigger] grid_rows(g)[i] == data@.subrange(
                    i * columns,
                    i * columns + columns,
                )
        },
        rows * columns == data@.len() && ((rows > 0 && columns > 0) || (rows <= isize::MAX
            && columns <= isize::MAX)) ==> grid is Some,
{
    match ndarray::Array2::from_shape_vec((rows, columns), data) {
        Ok(cells) => Some(ValueGrid { cells }),
        Err(_) => None,
    }
}

/// Calls `dim` of an `ndarray` array.
///
/// It is taken to return how many rows there are, and how long each of them is.
#[verifier::external_body]
fn dimensions(grid: &ValueGrid) -> (r: (usize, usize))
    ensures
        r.0 == grid_rows(*grid).len(),
        forall|i: int| 0 <= i < r.0 ==> (#[trigger] grid_rows(*grid)[i]).len() == r.1,
{
    grid.cells.dim()
}

/// Indexes an `ndarray` array by `(row, column)`.
///
/// It is taken to return the value in that place.
#[verifier::external_body]
fn value_at(grid: &ValueGrid, row: usize, column: usize) -> (value: u64)
    requires
        row < grid_rows(*grid).len(),
        column < grid_rows(*grid)[row as int].len(),
    ensures
        value == grid_rows(*grid)[row as int][column as int],
{
    grid.cells[(row, column)]
}

/// Assigns to an `ndarray` array, indexed by `(row, column)`.
///
/// It is taken to replace the value in that place, and no other.
#[verifier::external_body]
fn put_value(grid: &mut ValueGrid, row: usize, column: usize, value: u64)
    requires
        row < grid_rows(*old(grid)).len(),
        column < grid_rows(*old(grid))[row as int].len(),
    ensures
        grid_rows(*final(grid)) == with_value(
            grid_rows(*old(grid)),
            row as int,
            column as int,
            value,
        ),
{
    grid.cells[(row, column)] = value;
}

/// Clones an `ndarray` array.
///
/// The clone is taken to hold the same rows.
#[verifier::external_body]
fn clone_cells(grid: &ValueGrid) -> (copy: ValueGrid)
    ensures
        grid_rows(copy) == grid_rows(*grid),
{
    ValueGrid { cells: grid.cells.clone() }
}

impl ValueGrid {
    /// The grid with the given rows. There is none where the rows differ in length, and
    /// always one where they do not, unless they are empty and too many for an `isize`.
    pub fn from_rows(rows: &[Vec<u64>]) -> (grid: Option<ValueGrid>)
        ensures
            grid matches Some(g) ==> grid_rows(g) == row_views(rows@),
            (exists|i: int, j: int|
                0 <= i < rows@.len() && 0 <= j < rows@.len() && (#[trigger] rows@[i])@.len() != (
                #[trigger] rows@[j])@.len()) ==> grid is None,
            (forall|i: int|
                0 <= i < rows@.len() ==> (#[trigger] rows@[i])@.len() == rows@[0]@.len()) && (
            rows@.len() <= isize::MAX || rows@[0]@.len() > 0) ==> grid is Some,
    {
        let columns: usize = if rows.len() == 0 {
            0
        } else {
            rows[0].len()
        };
        let mut data: Vec<u64> = Vec::new();
        let mut row: usize = 0;
        while row < rows.len()
            invariant
                row <= rows@.len(),
                rows@.len() > 0 ==> columns == rows@[0]@.len(),
                data@.len() == row * columns,
                forall|i: int| 0 <= i < row ==> (#[trigger] rows@[i])@.len() == columns,
                forall|i: int|
                    0 <= i < row ==> (#[trigger] rows@[i])@ == data@.subrange(
                        i * columns,
                        i * columns + columns,
                    ),
            decreases rows@.len() - row,
        {
            if rows[row].len() != columns {
                assert(rows@[row as int]@.len() != rows@[0]@.len());
                return None;
            }
            let ghost before = data@;
            extend(&mut data, &rows[row]);
            proof {
                assert(row * columns + columns == (row + 1) * columns) by (nonlinear_arith);
                assert forall|i: int| 0 <= i <= row implies (#[trigger] rows@[i])@
                    == data@.subrange(i * columns, i * columns + columns) by {
                    if i < row {
                        assert(i * columns + columns <= row * columns) by (nonlinear_arith)
                            requires
                                i < row,
                                0 <= columns,
                        ;
                        assert(0 <= i * columns) by (nonlinear_arith)
                            requires
                                0 <= i,
                                0 <= columns,
                        ;
                        assert(rows@[i]@ == before.subrange(i * columns, i * columns + columns));
                        assert(data@.subrange(i * columns, i * columns + columns)
                            =~= before.subrange(i * columns, i * columns + columns));
                    } else {
                        assert(data@.subrange(i * columns, i * columns + columns)
                            =~= rows@[row as int]@);
                    }
                }
            }
            row = row + 1;
        }
        let grid: Option<ValueGrid> = shape_rows(rows.len(), columns, data);
        proof {
            if grid is Some {
                let g = grid->0;
                assert forall|i: int| 0 <= i < rows@.len() implies #[trigger] grid_rows(g)[i]
                    == row_views(rows@)[i] by {
                    assert(rows@[i]@ == data@.subrange(i * columns, i * columns + columns));
                }
                assert(grid_rows(g) =~= row_views(rows@));
            }
        }
        grid
    }

    /// How many rows the grid has, and how long each of them is.
    pub fn dim(&self) -> (r: (usize, usize))
        ensures
            r.0 == grid_rows(*self).len(),
            forall|i: int| 0 <= i < r.0 ==> (#[trigger] grid_rows(*self)[i]).len() == r.1,
    {
        dimensions(self)
    }

    /// The value in a given row and column.
    pub fn at(&self, row: usize, column: usize) -> (value: u64)
        requires
            row < grid_rows(*self).len(),
            column < grid_rows(*self)[row as int].len(),
        ensures
            value == grid_rows(*self)[row as int][column as int],
    {
        value_at(self, row, column)
    }

    /// Replaces the value in a given row and column.
    pub fn put(&mut self, row: usize, column: usize, value: u64)
        requires
            row < grid_rows(*old(self)).len(),
            column < grid_rows(*old(self))[row as int].len(),
        ensures
            grid_rows(*final(self)) == with_value(
                grid_rows(*old(self)),
                row as int,
                column as int,
                value,
            ),
    {
        put_value(self, row, column, value)
    }

    /// A grid with the same values.
    pub fn to_owned(&self) -> (copy: ValueGrid)
        ensures
            grid_rows(copy) == grid_rows(*self),
    {
        clone_cells(self)
    }
}

/// Appends values to a vector.
pub fn extend(data: &mut Vec<u64>, more: &[u64])
    ensures
        final(data)@ == old(data)@ + more@,
{
    let ghost before = data@;
    let mut i: usize = 0;
    while i < more.len()
        invariant
            i <= more@.len(),
            data@ == before + more@.take(i as int),
        decreases more@.len() - i,
    {
        data.push(more[i]);
        i = i + 1;
        assert(data@ =~= before + more@.take(i as int));
    }
    assert(more@.take(i as int) =~= more@);
}

} // verus!
