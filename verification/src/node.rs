//! The simulation of one node: its events, its search window, the scan, and the values
//! that the node receives.

use crate::arithmetic::Arithmetic;
use crate::event::{self, EventModel};
use crate::fitting;
use crate::gathering;
use crate::grid::{self, ValueGrid};
use crate::image;
use crate::index;
use crate::neighbors::CachedNode;
use crate::retrieval;
use crate::search;
use crate::setup::{Metric, Setup};
use crate::word;
use vstd::prelude::*;

verus! {

/// What the simulation of a node comes to.
pub struct NodeResult {
    /// The flat position of the node.
    pub flat: usize,
    /// The values that the node receives, each with its variable.
    pub values: Vec<(usize, u64)>,
    /// How many events were cut although partial events were not asked for.
    pub strict_fallback_count: usize,
    /// How many values of events shared a lag with an earlier one.
    pub collapsed_lag_count: usize,
}

/// The targets receive the values of one cell of the training image.
pub open spec fn copies(
    rows: Seq<Seq<u64>>,
    targets: Seq<usize>,
    source: int,
    values: Seq<(usize, u64)>,
) -> bool {
    &&& values.len() == targets.len()
    &&& forall|i: int|
        0 <= i < targets.len() ==> #[trigger] values[i] == (
            targets[i],
            rows[targets[i] as int][source],
        )
}

/// The node receives the values of the cell that it falls back on, which is drawn.
pub open spec fn falls_back<N: Arithmetic, M: Metric>(
    s: Setup<N, M>,
    node: int,
    targets: Seq<usize>,
    strict: int,
    r: NodeResult,
) -> bool {
    &&& exists|source: usize| #[trigger]
        s.draws(node, source) && copies(s.ti_rows(), targets, source as int, r.values@)
    &&& r.strict_fallback_count == strict
}

/// The node receives what its variables get from an anchor.
pub open spec fn receives<N: Arithmetic, M: Metric>(
    s: Setup<N, M>,
    events: Seq<EventModel>,
    targets: Seq<usize>,
    anchor: Seq<i64>,
    strict: int,
    r: NodeResult,
) -> bool {
    &&& r.values@.len() == targets.len()
    &&& forall|i: int|
        0 <= i < targets.len() ==> {
            &&& (#[trigger] r.values@[i]).0 == targets[i]
            &&& retrieval::retrieves(
                s,
                events,
                targets[i] as int,
                index::dot(anchor, s.ti_strides()),
                r.values@[i].1,
            )
        }
    &&& r.strict_fallback_count == strict
}

/// `r` is an outcome for a node with the given events: it receives what its scan finds, and
/// copies the cell that it falls back on where there is nothing to go by, where the events fit
/// nowhere together, or where the scan finds nothing.
pub open spec fn decides<N: Arithmetic, M: Metric>(
    s: Setup<N, M>,
    node: int,
    events: Seq<EventModel>,
    targets: Seq<usize>,
    r: NodeResult,
) -> bool {
    let count = events.len() as int;
    let unfit = fitting::first_unfit(events, s.ti_shape@, count);
    let kept = fitting::all_trimmed(events, s.ti_shape@);
    let strict = fitting::cuts(events, s.ti_shape@, s.partial_boundary, count);
    if fitting::all_empty(events) {
        falls_back(s, node, targets, 0, r)
    } else if unfit < count {
        falls_back(
            s,
            node,
            targets,
            fitting::cuts(events, s.ti_shape@, s.partial_boundary, unfit + 1),
            r,
        )
    } else if !fitting::overlap(kept, s.ti_shape@) {
        falls_back(s, node, targets, strict, r)
    } else {
        exists|found: Option<Seq<i64>>| #[trigger]
            search::scans_for(s, node, kept, targets, found) && match found {
                Some(anchor) => receives(s, kept, targets, anchor, strict, r),
                None => falls_back(s, node, targets, strict, r),
            }
    }
}

/// `r` is an outcome of the simulation of a node.
pub open spec fn node_outcome<N: Arithmetic, M: Metric>(
    s: Setup<N, M>,
    fields: Seq<Seq<u64>>,
    cached: CachedNode,
    node: int,
    r: NodeResult,
) -> bool {
    let flat = s.model().cell(node);
    &&& r.flat == flat
    &&& exists|events: Seq<EventModel>, shared: Seq<int>| #[trigger]
        gathering::has_events(s, fields, cached, node, events, shared) && decides(
            s,
            node,
            events,
            gathering::lacking(fields, flat, s.variables()),
            r,
        ) && r.collapsed_lag_count == gathering::total(shared, shared.len() as int)
}

/// A node with the given events may fall back: there is nothing to go by, the events fit nowhere
/// together, or the scan may find nothing.
pub open spec fn gives_up<N: Arithmetic, M: Metric>(
    s: Setup<N, M>,
    node: int,
    events: Seq<EventModel>,
    targets: Seq<usize>,
) -> bool {
    let count = events.len() as int;
    let kept = fitting::all_trimmed(events, s.ti_shape@);
    ||| fitting::all_empty(events)
    ||| fitting::first_unfit(events, s.ti_shape@, count) < count
    ||| !fitting::overlap(kept, s.ti_shape@)
    ||| search::scans_for(s, node, kept, targets, None)
}

/// A node may fall back when it is simulated from the given fields.
pub open spec fn may_fall_back<N: Arithmetic, M: Metric>(
    s: Setup<N, M>,
    fields: Seq<Seq<u64>>,
    cached: CachedNode,
    node: int,
) -> bool {
    exists|events: Seq<EventModel>, shared: Seq<int>| #[trigger]
        gathering::has_events(s, fields, cached, node, events, shared) && gives_up(
            s,
            node,
            events,
            gathering::lacking(fields, s.model().cell(node), s.variables()),
        )
}

/// If the node falls back, there is a cell for it to fall back on: the cell can be drawn, and
/// lies in the training image where the node lacks a value.
pub open spec fn secure<N: Arithmetic, M: Metric>(
    s: Setup<N, M>,
    fields: Seq<Seq<u64>>,
    cached: CachedNode,
    node: int,
) -> bool {
    may_fall_back(s, fields, cached, node) ==> {
        &&& s.drawable(node)
        &&& gathering::lacking(fields, s.model().cell(node), s.variables()).len() > 0 ==> s.lands(
            node,
        )
    }
}

/// The result of a node that copies the cell that it falls back on.
fn fallback_result<N: Arithmetic, M: Metric>(
    s: &Setup<N, M>,
    node: usize,
    node_flat: usize,
    targets: &Vec<usize>,
    ti_strides: &[i64],
    finite_all: &[usize],
    ti_has_nan: bool,
    strict_fallback_count: usize,
) -> (r: NodeResult)
    requires
        image::pictures(s.ti_rows(), s.ti_shape@),
        ti_strides@ == s.ti_strides(),
        finite_all@ == image::complete_cells(s.ti_rows(), index::size(s.ti_shape@)),
        ti_has_nan == image::incomplete(s.ti_rows()),
        node < s.u_fallback@.len(),
        s.u_fallback@[node as int]@.len() == s.ti_shape@.len(),
        ti_has_nan ==> s.ti_shape@.len() > 0,
        s.drawable(node as int),
        targets@.len() > 0 ==> s.lands(node as int),
        forall|i: int| 0 <= i < targets@.len() ==> #[trigger] targets@[i] < s.variables(),
    ensures
        falls_back(*s, node as int, targets@, strict_fallback_count as int, r),
        r.flat == node_flat,
        r.collapsed_lag_count == 0,
{
    let ghost rows = s.ti_rows();
    let source: usize = image::fallback_flat(
        s.arithmetic,
        &s.u_fallback[node],
        s.ti_shape,
        ti_strides,
        finite_all,
        ti_has_nan,
    );
    assert(s.draws(node as int, source));
    let mut values: Vec<(usize, u64)> = Vec::new();
    let mut i: usize = 0;
    while i < targets.len()
        invariant
            i <= targets@.len(),
            rows == s.ti_rows(),
            image::pictures(rows, s.ti_shape@),
            targets@.len() > 0 ==> source < index::size(s.ti_shape@),
            forall|i: int| 0 <= i < targets@.len() ==> #[trigger] targets@[i] < s.variables(),
            values@.len() == i,
            forall|j: int|
                0 <= j < i ==> #[trigger] values@[j] == (
                    targets@[j],
                    rows[targets@[j] as int][source as int],
                ),
        decreases targets@.len() - i,
    {
        let variable: usize = targets[i];
        assert(rows[variable as int].len() == index::size(s.ti_shape@));
        values.push((variable, s.ti.at(variable, source)));
        i = i + 1;
    }
    assert(copies(rows, targets@, source as int, values@));
    NodeResult { flat: node_flat, values, strict_fallback_count, collapsed_lag_count: 0 }
}

/// Simulates one node of the path.
///
/// The node gathers the known values around it, variable by variable, brings them into the
/// training image (TI), and cuts them down to what fits there. It scans the anchors at which
/// all of them fit, and receives a value for each variable that it lacks: the one at the
/// anchor found, or the one at the cell that it falls back on where there is nothing to go by,
/// nothing fits, or nothing is found.
pub fn simulate_node<N: Arithmetic, M: Metric>(
    s: &Setup<N, M>,
    node: usize,
    cached: &CachedNode,
    fields: &ValueGrid,
    finite_all: &[usize],
    ti_has_nan: bool,
) -> (r: NodeResult)
    requires
        gathering::ready(*s, grid::grid_rows(*fields), *cached, node as int),
        secure(*s, grid::grid_rows(*fields), *cached, node as int),
        finite_all@ == image::complete_cells(s.ti_rows(), index::size(s.ti_shape@)),
        ti_has_nan == image::incomplete(s.ti_rows()),
    ensures
        node_outcome(*s, grid::grid_rows(*fields), *cached, node as int, r),
{
    let ghost rows = grid::grid_rows(*fields);
    let ti_strides: Vec<i64> = index::c_strides(s.ti_shape);
    let sim_strides: Vec<i64> = index::c_strides(s.sim_shape);
    proof {
        assert(index::inside(s.model().path[node as int]@, s.sim_shape@));
        index::cells_have_positions(s.path@[node as int]@, s.sim_shape@);
        assert(index::extent(s.sim_shape@, 0) <= usize::MAX);
    }
    let node_flat: usize = index::flat_index(&s.path[node], &sim_strides);
    let targets: Vec<usize> = gathering::missing_variables(fields, node_flat);
    let (mut events, collapsed, Ghost(shared)) = gathering::events_at(
        s,
        fields,
        cached,
        node,
        node_flat,
    );
    let ghost gathered = gathering::event_views(events@);
    let ghost kept = fitting::all_trimmed(gathered, s.ti_shape@);
    proof {
        let variables = s.variables();
        let most = s.offsets@.len() as int;
        assert(variables <= variables * (most + 1)) by (nonlinear_arith)
            requires
                0 <= variables,
                0 <= most,
        ;
        gathering::lacking_variables_lack_values(rows, node_flat as int, variables);
        assert(s.u_fallback@[node as int]@.len() == s.sim_shape@.len());
        if ti_has_nan {
            gaps_take_axes(*s, rows);
        }
    }
    if fitting::are_all_empty(&events) {
        assert(gives_up(*s, node as int, gathered, targets@));
        let mut result: NodeResult = fallback_result(
            s,
            node,
            node_flat,
            &targets,
            &ti_strides,
            finite_all,
            ti_has_nan,
            0,
        );
        result.collapsed_lag_count = collapsed;
        assert(decides(*s, node as int, gathered, targets@, result));
        return result;
    }
    let (bounds, strict) = fitting::fit_events(s, &mut events);
    match bounds {
        None => {
            assert(gives_up(*s, node as int, gathered, targets@));
            let mut result: NodeResult = fallback_result(
                s,
                node,
                node_flat,
                &targets,
                &ti_strides,
                finite_all,
                ti_has_nan,
                strict,
            );
            result.collapsed_lag_count = collapsed;
            assert(decides(*s, node as int, gathered, targets@, result));
            result
        },
        Some((lo, win_shape)) => {
            proof {
                fitting::trimmed_events_are_shaped(gathered, s.ti_shape@);
                assert forall|v: int| 0 <= v < events@.len() implies gathering::shaped(
                    (#[trigger] events@[v])@,
                    s.ti_shape@,
                ) by {
                    assert(gathering::event_views(events@)[v] == kept[v]);
                }
            }
            let found: Option<Vec<i64>> = search::scan_window(
                s,
                node,
                &events,
                &targets,
                &lo,
                &win_shape,
                &ti_strides,
                ti_has_nan,
            );
            match found {
                None => {
                    assert(search::scans_for(*s, node as int, kept, targets@, None));
                    assert(gives_up(*s, node as int, gathered, targets@));
                    let mut result: NodeResult = fallback_result(
                        s,
                        node,
                        node_flat,
                        &targets,
                        &ti_strides,
                        finite_all,
                        ti_has_nan,
                        strict,
                    );
                    result.collapsed_lag_count = collapsed;
                    assert(decides(*s, node as int, gathered, targets@, result));
                    result
                },
                Some(anchor) => {
                    let values: Vec<(usize, u64)> = retrieval::retrieve_all(
                        s,
                        &events,
                        &targets,
                        &anchor,
                        &ti_strides,
                    );
                    let result = NodeResult {
                        flat: node_flat,
                        values,
                        strict_fallback_count: strict,
                        collapsed_lag_count: collapsed,
                    };
                    proof {
                        assert(search::scans_for(*s, node as int, kept, targets@, Some(anchor@)));
                        assert(receives(*s, kept, targets@, anchor@, strict as int, result));
                        assert(decides(*s, node as int, gathered, targets@, result));
                    }
                    result
                },
            }
        },
    }
}

/// A training image without axes has one cell, so that some cell is complete only where none
/// lacks a value.
proof fn gaps_take_axes<N: Arithmetic, M: Metric>(s: Setup<N, M>, fields: Seq<Seq<u64>>)
    requires
        s.consistent(fields),
        s.resolvable(),
        image::incomplete(s.ti_rows()),
    ensures
        s.ti_shape@.len() > 0,
{
    let rows = s.ti_rows();
    if s.ti_shape@.len() == 0 {
        assert(index::size(s.ti_shape@) == 1);
        let (v, c) = choose|v: int, c: int|
            0 <= v < rows.len() && 0 <= c < rows[v].len() && word::nan(#[trigger] rows[v][c]);
        assert(rows[v].len() == 1);
        assert(word::nan(rows[v][0]));
        image::complete_cells_are_cells(rows, 1);
        let cell = image::complete_cells(rows, 1)[0];
        assert(cell < 1 && image::complete_at(rows, cell as int));
    }
}

/// A node receives a value for each variable that it lacks, in order, and for no other.
pub proof fn nodes_receive_what_they_lack<N: Arithmetic, M: Metric>(
    s: Setup<N, M>,
    fields: Seq<Seq<u64>>,
    cached: CachedNode,
    node: int,
    r: NodeResult,
)
    requires
        node_outcome(s, fields, cached, node, r),
    ensures
        ({
            let targets = gathering::lacking(fields, s.model().cell(node), s.variables());
            &&& r.flat == s.model().cell(node)
            &&& r.values@.len() == targets.len()
            &&& forall|i: int|
                0 <= i < targets.len() ==> (#[trigger] r.values@[i]).0 == targets[i]
        }),
{
    let targets = gathering::lacking(fields, s.model().cell(node), s.variables());
    let (events, shared) = choose|events: Seq<EventModel>, shared: Seq<int>| #[trigger]
        gathering::has_events(s, fields, cached, node, events, shared) && decides(
            s,
            node,
            events,
            targets,
            r,
        ) && r.collapsed_lag_count == gathering::total(shared, shared.len() as int);
    decided_values_are_for_the_targets(s, node, events, targets, r);
}

proof fn decided_values_are_for_the_targets<N: Arithmetic, M: Metric>(
    s: Setup<N, M>,
    node: int,
    events: Seq<EventModel>,
    targets: Seq<usize>,
    r: NodeResult,
)
    requires
        decides(s, node, events, targets, r),
    ensures
        r.values@.len() == targets.len(),
        forall|i: int| 0 <= i < targets.len() ==> (#[trigger] r.values@[i]).0 == targets[i],
        r.strict_fallback_count <= events.len(),
{
    let count = events.len() as int;
    fitting::first_unfit_is_no_more(events, s.ti_shape@, count);
    let unfit = fitting::first_unfit(events, s.ti_shape@, count);
    fitting::cuts_are_no_more(events, s.ti_shape@, s.partial_boundary, count);
    fitting::cuts_are_no_more(events, s.ti_shape@, s.partial_boundary, unfit + 1);
}

/// The counts of a node are bounded by how many variables there are, and how many cells the
/// node can look at.
pub proof fn node_counts_are_bounded<N: Arithmetic, M: Metric>(
    s: Setup<N, M>,
    fields: Seq<Seq<u64>>,
    cached: CachedNode,
    node: int,
    r: NodeResult,
)
    requires
        node_outcome(s, fields, cached, node, r),
        gathering::usable(s, cached),
    ensures
        r.strict_fallback_count <= s.variables(),
        r.collapsed_lag_count <= s.variables() * (s.offsets@.len() + 1),
{
    let targets = gathering::lacking(fields, s.model().cell(node), s.variables());
    let (events, shared) = choose|events: Seq<EventModel>, shared: Seq<int>| #[trigger]
        gathering::has_events(s, fields, cached, node, events, shared) && decides(
            s,
            node,
            events,
            targets,
            r,
        ) && r.collapsed_lag_count == gathering::total(shared, shared.len() as int);
    decided_values_are_for_the_targets(s, node, events, targets, r);
    let most = (s.offsets@.len() + 1) as int;
    assert forall|v: int| 0 <= v < shared.len() implies #[trigger] shared[v] <= most by {
        assert(gathering::has_event(s, fields, cached, node, v, events[v], shared[v]));
        assert(gathering::usable_list(s, cached.by_variable@[v]@));
        if s.lag_matrices@.len() > 0 {
            let (raw, mapped) = choose|raw: EventModel, mapped: Seq<Seq<i64>>| #[trigger]
                gathering::maps_event(s, fields, cached, node, v, raw, mapped) && events[v]
                    == event::reduced(raw, mapped, s.ti_shape@) && shared[v] == event::collapsed(
                    mapped,
                );
            assert(raw.lags.len() <= most);
        }
    }
    gathering::totals_are_bounded(shared, most, shared.len() as int);
}

} // verus!
