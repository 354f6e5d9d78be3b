//! The training image: which of its cells are defined, and which cell is taken when an
//! event is matched nowhere.

use crate::arithmetic::{self, Arithmetic};
use crate::grid::{self, ValueGrid};
use crate::index;
use crate::word;
use vstd::prelude::*;

verus! {

/// Some cell of the image has no value.
pub open spec fn incomplete(rows: Seq<Seq<u64>>) -> bool {
    exists|v: int, c: int|
        0 <= v < rows.len() && 0 <= c < rows[v].len() && word::nan(#[trigger] rows[v][c])
}

/// Every variable has a value in the cell.
pub open spec fn complete_at(rows: Seq<Seq<u64>>, cell: int) -> bool {
    forall|v: int| 0 <= v < rows.len() ==> !word::nan(#[trigger] rows[v][cell])
}

/// The cells among the first `count` in which every variable has a value.
pub open spec fn complete_cells(rows: Seq<Seq<u64>>, count: int) -> Seq<usize>
    decreases count,
{
    if count <= 0 {
        Seq::empty()
    } else if complete_at(rows, count - 1) {
        complete_cells(rows, count - 1).push((count - 1) as usize)
    } else {
        complete_cells(rows, count - 1)
    }
}

/// The rows of an image of the given shape.
pub open spec fn pictures(rows: Seq<Seq<u64>>, shape: Seq<i64>) -> bool {
    &&& index::countable(shape)
    &&& forall|v: int| 0 <= v < rows.len() ==> (#[trigger] rows[v]).len() == index::size(shape)
}

/// `coords` are outcomes of a fraction of each size.
pub open spec fn takes_shares<N: Arithmetic>(
    n: N,
    u: Seq<u64>,
    shape: Seq<i64>,
    coords: Seq<i64>,
) -> bool {
    &&& coords.len() == shape.len()
    &&& forall|a: int|
        0 <= a < shape.len() ==> arithmetic::takes_share(n, u[a], shape[a], #[trigger] coords[a])
}

/// `cell` is an outcome of drawing a cell of an image by the numbers `u`: one of the complete
/// cells where the image is incomplete, and the one at the flat position of the coordinates that
/// the numbers come to otherwise.
pub open spec fn names<N: Arithmetic>(
    n: N,
    complete: Seq<usize>,
    has_gaps: bool,
    shape: Seq<i64>,
    u: Seq<u64>,
    cell: usize,
) -> bool {
    if has_gaps {
        exists|place: usize| #[trigger]
            arithmetic::takes_part(n, u[0], complete.len() as usize, place) && place
                < complete.len() && cell == complete[place as int]
    } else {
        exists|coords: Seq<i64>| #[trigger]
            takes_shares(n, u, shape, coords) && cell == index::dot(
                coords,
                index::strides_of(shape),
            ) as usize
    }
}

/// Whatever the numbers `u` come to, a cell can be drawn by them: they name a place among the
/// complete cells where the image is incomplete, and coordinates whose flat position can be
/// computed otherwise.
pub open spec fn nameable<N: Arithmetic>(
    n: N,
    complete: Seq<usize>,
    has_gaps: bool,
    shape: Seq<i64>,
    u: Seq<u64>,
) -> bool {
    if has_gaps {
        forall|place: usize| #[trigger]
            arithmetic::takes_part(n, u[0], complete.len() as usize, place) ==> place
                < complete.len()
    } else {
        forall|coords: Seq<i64>| #[trigger]
            takes_shares(n, u, shape, coords) ==> index::summable(coords, index::strides_of(shape))
    }
}

/// `cell` is an outcome of drawing a cell of the image with the given rows.
pub open spec fn draws<N: Arithmetic>(
    n: N,
    rows: Seq<Seq<u64>>,
    shape: Seq<i64>,
    u: Seq<u64>,
    cell: usize,
) -> bool {
    names(n, complete_cells(rows, index::size(shape)), incomplete(rows), shape, u, cell)
}

/// Whatever the numbers `u` come to, a cell of the image with the given rows can be drawn by
/// them.
pub open spec fn drawable<N: Arithmetic>(
    n: N,
    rows: Seq<Seq<u64>>,
    shape: Seq<i64>,
    u: Seq<u64>,
) -> bool {
    nameable(n, complete_cells(rows, index::size(shape)), incomplete(rows), shape, u)
}

/// What is drawn by the numbers `u` lies in the image.
pub open spec fn lands<N: Arithmetic>(
    n: N,
    rows: Seq<Seq<u64>>,
    shape: Seq<i64>,
    u: Seq<u64>,
) -> bool {
    forall|cell: usize| #[trigger] draws(n, rows, shape, u, cell) ==> cell < index::size(shape)
}

/// Tells whether some cell of the image has no value.
pub fn is_incomplete(ti: &ValueGrid) -> (r: bool)
    ensures
        r == incomplete(grid::grid_rows(*ti)),
{
    let ghost rows = grid::grid_rows(*ti);
    let (variables, cells) = ti.dim();
    let mut v: usize = 0;
    while v < variables
        invariant
            v <= variables,
            rows == grid::grid_rows(*ti),
            variables == rows.len(),
            forall|i: int| 0 <= i < variables ==> (#[trigger] rows[i]).len() == cells,
            forall|u: int, c: int|
                0 <= u < v && 0 <= c < cells ==> !word::nan(#[trigger] rows[u][c]),
        decreases variables - v,
    {
        let mut c: usize = 0;
        while c < cells
            invariant
                v < variables,
                c <= cells,
                rows == grid::grid_rows(*ti),
                variables == rows.len(),
                forall|i: int| 0 <= i < variables ==> (#[trigger] rows[i]).len() == cells,
                forall|d: int| 0 <= d < c ==> !word::nan(#[trigger] rows[v as int][d]),
            decreases cells - c,
        {
            assert(rows[v as int].len() == cells);
            if word::is_nan(ti.at(v, c)) {
                assert(word::nan(rows[v as int][c as int]));
                return true;
            }
            c = c + 1;
        }
        v = v + 1;
    }
    false
}

fn is_complete_at(ti: &ValueGrid, cell: usize) -> (r: bool)
    requires
        forall|v: int|
            0 <= v < grid::grid_rows(*ti).len() ==> cell < (#[trigger] grid::grid_rows(
                *ti,
            )[v]).len(),
    ensures
        r == complete_at(grid::grid_rows(*ti), cell as int),
{
    let ghost rows = grid::grid_rows(*ti);
    let (variables, _cells) = ti.dim();
    let mut v: usize = 0;
    while v < variables
        invariant
            v <= variables,
            rows == grid::grid_rows(*ti),
            variables == rows.len(),
            forall|i: int| 0 <= i < rows.len() ==> cell < (#[trigger] rows[i]).len(),
            forall|u: int| 0 <= u < v ==> !word::nan(#[trigger] rows[u][cell as int]),
        decreases variables - v,
    {
        assert(cell < rows[v as int].len());
        if word::is_nan(ti.at(v, cell)) {
            assert(word::nan(rows[v as int][cell as int]));
            return false;
        }
        v = v + 1;
    }
    true
}

/// The cells in which every variable has a value, in order.
pub fn jointly_defined(ti: &ValueGrid, ti_size: usize) -> (cells: Vec<usize>)
    requires
        forall|v: int|
            0 <= v < grid::grid_rows(*ti).len() ==> (#[trigger] grid::grid_rows(*ti)[v]).len()
                == ti_size,
    ensures
        cells@ == complete_cells(grid::grid_rows(*ti), ti_size as int),
{
    let mut cells: Vec<usize> = Vec::new();
    let mut c: usize = 0;
    while c < ti_size
        invariant
            c <= ti_size,
            forall|v: int|
                0 <= v < grid::grid_rows(*ti).len() ==> (#[trigger] grid::grid_rows(
                    *ti,
                )[v]).len() == ti_size,
            cells@ == complete_cells(grid::grid_rows(*ti), c as int),
        decreases ti_size - c,
    {
        if is_complete_at(ti, c) {
            cells.push(c);
        }
        c = c + 1;
    }
    cells
}

/// The cell to copy from when an event is matched nowhere, as the numbers `uniforms` name it.
pub fn fallback_flat<N: Arithmetic>(
    n: &N,
    uniforms: &[u64],
    ti_shape: &[i64],
    ti_strides: &[i64],
    finite_all: &[usize],
    ti_has_nan: bool,
) -> (flat: usize)
    requires
        uniforms@.len() == ti_shape@.len(),
        ti_has_nan ==> uniforms@.len() > 0,
        ti_strides@ == index::strides_of(ti_shape@),
        nameable(*n, finite_all@, ti_has_nan, ti_shape@, uniforms@),
    ensures
        names(*n, finite_all@, ti_has_nan, ti_shape@, uniforms@, flat),
{
    if ti_has_nan {
        let count: usize = finite_all.len();
        let place: usize = arithmetic::part_of(n, uniforms[0], count);
        assert(count == finite_all@.len() as usize);
        finite_all[place]
    } else {
        let mut coords: Vec<i64> = Vec::new();
        let mut axis: usize = 0;
        while axis < ti_shape.len()
            invariant
                axis <= ti_shape@.len(),
                uniforms@.len() == ti_shape@.len(),
                coords@.len() == axis,
                forall|a: int|
                    0 <= a < axis ==> arithmetic::takes_share(
                        *n,
                        uniforms@[a],
                        ti_shape@[a],
                        #[trigger] coords@[a],
                    ),
            decreases ti_shape@.len() - axis,
        {
            coords.push(arithmetic::share_of(n, uniforms[axis], ti_shape[axis]));
            axis = axis + 1;
        }
        assert(takes_shares(*n, uniforms@, ti_shape@, coords@));
        index::flat_index(&coords, ti_strides)
    }
}

/// The complete cells are cells of the image, and complete.
pub proof fn complete_cells_are_cells(rows: Seq<Seq<u64>>, count: int)
    requires
        0 <= count <= usize::MAX,
    ensures
        complete_cells(rows, count).len() <= count,
        forall|i: int|
            0 <= i < complete_cells(rows, count).len() ==> {
                let cell = #[trigger] complete_cells(rows, count)[i];
                cell < count && complete_at(rows, cell as int)
            },
    decreases count,
{
    if count > 0 {
        complete_cells_are_cells(rows, count - 1);
    }
}

/// A draw that lies in the image names a cell in which every variable has a value.
pub proof fn draws_name_complete_cells<N: Arithmetic>(
    n: N,
    rows: Seq<Seq<u64>>,
    shape: Seq<i64>,
    u: Seq<u64>,
    cell: usize,
)
    requires
        pictures(rows, shape),
        draws(n, rows, shape, u, cell),
        cell < index::size(shape),
    ensures
        complete_at(rows, cell as int),
{
    assert(index::extent(shape, 0) <= usize::MAX);
    complete_cells_are_cells(rows, index::size(shape));
    if !incomplete(rows) {
        assert forall|v: int| 0 <= v < rows.len() implies !word::nan(
            #[trigger] rows[v][cell as int],
        ) by {
            assert(rows[v].len() == index::size(shape));
        }
    }
}

/// Numbers that come to coordinates of cells draw cells of the image.
pub proof fn shares_of_the_shape_land<N: Arithmetic>(
    n: N,
    rows: Seq<Seq<u64>>,
    shape: Seq<i64>,
    u: Seq<u64>,
)
    requires
        pictures(rows, shape),
        !incomplete(rows),
        forall|coords: Seq<i64>| #[trigger]
            takes_shares(n, u, shape, coords) ==> index::inside(coords, shape),
    ensures
        drawable(n, rows, shape, u),
        lands(n, rows, shape, u),
{
    assert forall|coords: Seq<i64>| #[trigger] takes_shares(n, u, shape, coords) implies {
        &&& index::summable(coords, index::strides_of(shape))
        &&& 0 <= index::dot(coords, index::strides_of(shape)) < index::size(shape)
    } by {
        index::cells_have_positions(coords, shape);
    }
    assert(index::extent(shape, 0) <= usize::MAX);
}

/// Where the image is incomplete, what can be drawn lies in the image.
pub proof fn draws_among_complete_cells_land<N: Arithmetic>(
    n: N,
    rows: Seq<Seq<u64>>,
    shape: Seq<i64>,
    u: Seq<u64>,
)
    requires
        pictures(rows, shape),
        incomplete(rows),
    ensures
        lands(n, rows, shape, u),
{
    assert(index::extent(shape, 0) <= usize::MAX);
    index::sizes_are_not_negative(shape);
    complete_cells_are_cells(rows, index::size(shape));
}

} // verus!
