//! The inputs of a simulation, and the distance that its scans go by.

use crate::arithmetic::Arithmetic;
use crate::grid::{self, ValueGrid};
use crate::image;
use crate::index;
use crate::neighbors::{self, PathModel};
use vstd::prelude::*;

verus! {

/// A data event as a scan compares it with the training image: the events of the active
/// variables one after the other, and what the distance of each variable goes by.
pub struct ScanRequest {
    /// The variables whose events are not empty.
    pub active_rows: Vec<usize>,
    /// Where the event of each active variable begins, and where the last one ends.
    pub event_offsets: Vec<usize>,
    /// The values of the events.
    pub de_sim: Vec<u64>,
    /// The flat lags of the values.
    pub lag_flat: Vec<i64>,
    /// The weights of the values within their event.
    pub node_weights: Vec<u64>,
    /// The weights of the active variables.
    pub variable_weights: Vec<u64>,
    /// The kinds of distance: 0 for categories, 1 for continuous values, 2 for variations.
    pub metric_kinds: Vec<i64>,
    /// Whether a variable has cells without a value.
    pub has_nan: Vec<u8>,
    /// The ranges by which distances are divided.
    pub d_max: Vec<u64>,
    /// The exponents of the distances.
    pub p_norm: Vec<u64>,
    /// The variables that the node lacks.
    pub target_rows: Vec<usize>,
    /// Whether an anchor must have a value for each of these variables.
    pub check_centers: bool,
}

/// The distance between an event and an anchor of the training image.
///
/// Nothing is promised of a distance: it is known only by the relation [`measures`].
pub trait Metric {
    /// The distance of the anchor at flat position `base`, infinite where the anchor will
    /// not do.
    fn distance(&self, ti: &ValueGrid, request: &ScanRequest, base: i64) -> u64;
}

/// `d` is an outcome of the distance of an anchor.
pub open spec fn measures<M: Metric>(
    m: M,
    ti: ValueGrid,
    request: ScanRequest,
    base: i64,
    d: u64,
) -> bool {
    call_ensures(M::distance, (&m, &ti, &request, base), d)
}

/// The distance of the anchor at flat position `base`.
pub fn distance<M: Metric>(m: &M, ti: &ValueGrid, request: &ScanRequest, base: i64) -> (d: u64)
    ensures
        measures(*m, *ti, *request, base, d),
{
    m.distance(ti, request, base)
}

/// What a simulation starts from.
pub struct Setup<'a, N: Arithmetic, M: Metric> {
    /// The rounding operations.
    pub arithmetic: &'a N,
    /// The distance.
    pub metric: &'a M,
    /// The training image (TI), one row per variable.
    pub ti: &'a ValueGrid,
    /// The shape of the TI.
    pub ti_shape: &'a [i64],
    /// For each variable, the cells of the simulation grid (SG) whose values are given.
    pub conditioned: &'a [Vec<u8>],
    /// The shape of the SG.
    pub sim_shape: &'a [i64],
    /// The nodes to simulate, in order.
    pub path: &'a [Vec<i64>],
    /// For each node, the matrix that maps lags of the SG to lags of the TI; none at all
    /// where lags stay as they are.
    pub lag_matrices: &'a [Vec<Vec<u64>>],
    /// For each node, where in its window the scan starts, as a number from 0 to 1.
    pub u_start: &'a [u64],
    /// For each node, where in the TI the cell lies that is copied when its event is matched
    /// nowhere, as numbers from 0 to 1.
    pub u_fallback: &'a [Vec<u64>],
    /// The lags to look at, in order of preference.
    pub offsets: &'a [Vec<i64>],
    /// For each variable, how many cells a node looks at, at most.
    pub n_neighbors: &'a [i64],
    /// For each variable, how far a node looks; not finite for any distance.
    pub max_radius: &'a [u64],
    /// The weights of the variables.
    pub variable_weights: &'a [u64],
    /// The kinds of distance: 0 for categories, 1 for continuous values, 2 for variations.
    pub metric_kinds: &'a [i64],
    /// Whether a variable has cells without a value.
    pub has_nan: &'a [u8],
    /// The ranges by which distances are divided.
    pub d_max: &'a [u64],
    /// The exponents of the distances.
    pub p_norm: &'a [u64],
    /// The distance that ends a scan; at most zero where only an exact match does.
    pub threshold: u64,
    /// How much of the TI a scan looks at.
    pub scan_fraction: u64,
    /// How fast weights decay with distance.
    pub distance_power: u64,
    /// What the weight of a given value is multiplied by.
    pub cond_weight: u64,
    /// Whether partial events are what the caller asks for.
    pub partial_boundary: bool,
}

impl<'a, N: Arithmetic, M: Metric> Setup<'a, N, M> {
    /// The rows of the TI.
    pub open spec fn ti_rows(self) -> Seq<Seq<u64>> {
        grid::grid_rows(*self.ti)
    }

    /// How many variables there are.
    pub open spec fn variables(self) -> int {
        self.ti_rows().len() as int
    }

    /// The strides of the TI.
    pub open spec fn ti_strides(self) -> Seq<i64> {
        index::strides_of(self.ti_shape@)
    }

    /// The simulation path.
    pub open spec fn model(self) -> PathModel {
        neighbors::path_model(
            self.path,
            self.sim_shape,
            self.offsets,
            self.conditioned,
            self.n_neighbors,
        )
    }

    /// The sizes of both grids can be multiplied.
    pub open spec fn measurable(self) -> bool {
        index::measurable(self.ti_shape@) && index::measurable(self.sim_shape@)
    }

    /// Both grids can be counted.
    pub open spec fn countable(self) -> bool {
        index::countable(self.ti_shape@) && index::countable(self.sim_shape@)
    }

    /// The inputs match each other in size.
    pub open spec fn consistent(self, fields: Seq<Seq<u64>>) -> bool {
        &&& self.variables() > 0
        &&& forall|v: int|
            0 <= v < self.variables() ==> (#[trigger] self.ti_rows()[v]).len() == index::size(
                self.ti_shape@,
            )
        &&& self.holds(fields)
        &&& self.conditioned@.len() == self.variables()
        &&& forall|v: int|
            0 <= v < self.variables() ==> (#[trigger] self.conditioned@[v])@.len()
                == index::size(self.sim_shape@)
        &&& forall|i: int|
            0 <= i < self.path@.len() ==> (#[trigger] self.path@[i])@.len()
                == self.sim_shape@.len()
        &&& self.lag_matrices@.len() > 0 ==> self.lag_matrices@.len() == self.path@.len()
        &&& forall|i: int|
            0 <= i < self.lag_matrices@.len() ==> square(
                #[trigger] self.lag_matrices@[i],
                self.sim_shape@.len() as int,
            )
        &&& self.u_start@.len() == self.path@.len()
        &&& self.u_fallback@.len() == self.path@.len()
        &&& forall|i: int|
            0 <= i < self.u_fallback@.len() ==> (#[trigger] self.u_fallback@[i])@.len()
                == self.sim_shape@.len()
        &&& forall|k: int|
            0 <= k < self.offsets@.len() ==> (#[trigger] self.offsets@[k])@.len()
                == self.sim_shape@.len()
        &&& self.n_neighbors@.len() == self.variables()
        &&& self.max_radius@.len() == self.variables()
        &&& self.variable_weights@.len() == self.variables()
        &&& self.metric_kinds@.len() == self.variables()
        &&& self.has_nan@.len() == self.variables()
        &&& self.d_max@.len() == self.variables()
        &&& self.p_norm@.len() == self.variables()
    }

    /// There is a row per variable and a column per cell of the SG.
    pub open spec fn holds(self, fields: Seq<Seq<u64>>) -> bool {
        &&& fields.len() == self.variables()
        &&& forall|v: int|
            0 <= v < fields.len() ==> (#[trigger] fields[v]).len() == index::size(
                self.sim_shape@,
            )
    }

    /// Some cell of the TI has a value for every variable, or none lacks one.
    pub open spec fn resolvable(self) -> bool {
        image::incomplete(self.ti_rows()) ==> image::complete_cells(
            self.ti_rows(),
            index::size(self.ti_shape@),
        ).len() > 0
    }

    /// The inputs describe a simulation: both grids can be counted and have the same axes, the
    /// path runs through the SG, offsets can be squared, and the values looked at can be counted.
    pub open spec fn sensible(self) -> bool {
        &&& self.countable()
        &&& self.ti_shape@.len() == self.sim_shape@.len()
        &&& self.model().wf()
        &&& self.path@.len() * (self.variables() * (self.offsets@.len() + 1)) <= usize::MAX
        &&& self.variables() * (self.offsets@.len() + 1) <= usize::MAX
    }

    /// `cell` is an outcome of drawing the cell that a node falls back on.
    pub open spec fn draws(self, node: int, cell: usize) -> bool {
        image::draws(
            *self.arithmetic,
            self.ti_rows(),
            self.ti_shape@,
            self.u_fallback@[node]@,
            cell,
        )
    }

    /// Whatever its numbers come to, the cell that a node falls back on can be drawn.
    pub open spec fn drawable(self, node: int) -> bool {
        image::drawable(
            *self.arithmetic,
            self.ti_rows(),
            self.ti_shape@,
            self.u_fallback@[node]@,
        )
    }

    /// The cell that a node falls back on lies in the TI.
    pub open spec fn lands(self, node: int) -> bool {
        image::lands(
            *self.arithmetic,
            self.ti_rows(),
            self.ti_shape@,
            self.u_fallback@[node]@,
        )
    }
}

impl<'a, N: Arithmetic, M: Metric> Setup<'a, N, M> {
    /// Tells whether the inputs match each other and the initial fields in size.
    pub fn is_consistent(&self, initial_fields: &ValueGrid) -> (r: bool)
        requires
            self.measurable(),
        ensures
            r == self.consistent(grid::grid_rows(*initial_fields)),
    {
        let (variables, cells) = self.ti.dim();
        let (rows, columns) = initial_fields.dim();
        let axes: usize = self.sim_shape.len();
        let nodes: usize = self.path.len();
        let ti_size: i64 = index::cell_total(self.ti_shape);
        let sg_size: i64 = index::cell_total(self.sim_shape);
        if variables == 0 || cells as i128 != ti_size as i128 || rows != variables
            || columns as i128 != sg_size as i128 {
            proof {
                if variables > 0 {
                    assert(self.ti_rows()[0].len() == cells);
                    if rows == variables {
                        assert(grid::grid_rows(*initial_fields)[0].len() == columns);
                    }
                }
            }
            return false;
        }
        assert(self.holds(grid::grid_rows(*initial_fields)));
        if self.conditioned.len() != variables || !rows_have_length(self.conditioned, columns) {
            return false;
        }
        if !rows_have_length(self.path, axes) || !rows_have_length(self.offsets, axes) {
            return false;
        }
        if self.lag_matrices.len() > 0 && self.lag_matrices.len() != nodes {
            return false;
        }
        let mut i: usize = 0;
        while i < self.lag_matrices.len()
            invariant
                i <= self.lag_matrices@.len(),
                axes == self.sim_shape@.len(),
                forall|j: int|
                    0 <= j < i ==> square(#[trigger] self.lag_matrices@[j], axes as int),
            decreases self.lag_matrices@.len() - i,
        {
            if self.lag_matrices[i].len() != axes || !rows_have_length(
                &self.lag_matrices[i],
                axes,
            ) {
                assert(!square(self.lag_matrices@[i as int], axes as int));
                return false;
            }
            i = i + 1;
        }
        if self.u_start.len() != nodes || self.u_fallback.len() != nodes || !rows_have_length(
            self.u_fallback,
            axes,
        ) {
            return false;
        }
        self.n_neighbors.len() == variables && self.max_radius.len() == variables
            && self.variable_weights.len() == variables && self.metric_kinds.len() == variables
            && self.has_nan.len() == variables && self.d_max.len() == variables
            && self.p_norm.len() == variables
    }
}

/// Tells whether all rows have the given length.
pub fn rows_have_length<T>(rows: &[Vec<T>], length: usize) -> (r: bool)
    ensures
        r == forall|i: int| 0 <= i < rows@.len() ==> (#[trigger] rows@[i])@.len() == length,
{
    let mut i: usize = 0;
    while i < rows.len()
        invariant
            i <= rows@.len(),
            forall|j: int| 0 <= j < i ==> (#[trigger] rows@[j])@.len() == length,
        decreases rows@.len() - i,
    {
        if rows[i].len() != length {
            return false;
        }
        i = i + 1;
    }
    true
}

/// The matrix has as many rows and columns as there are axes.
pub open spec fn square(matrix: Vec<Vec<u64>>, axes: int) -> bool {
    &&& matrix@.len() == axes
    &&& forall|a: int| 0 <= a < matrix@.len() ==> (#[trigger] matrix@[a])@.len() == axes
}

} // verus!
