//! What a node receives, and what becomes of it.

use crate::arithmetic::{self, Arithmetic};
use crate::event::EventModel;
use crate::exactness::{self, Reading};
use crate::fitting;
use crate::gathering;
use crate::grid::ValueGrid;
use crate::guarantees;
use crate::image;
use crate::index;
use crate::laws::scanning;
use crate::laws::windows;
use crate::mps_engine::{self, Progress};
use crate::neighbors::CachedNode;
use crate::node::{self, NodeResult};
use crate::retrieval;
use crate::search;
use crate::setup::{Metric, ScanRequest, Setup};
use crate::window;
use crate::word;
use vstd::prelude::*;

verus! {

/// Where the image is whole, a draw names the cell whose coordinates are the whole parts of the sizes
/// of the axes, by the numbers `u`.
pub proof fn draws_take_part_of_each_axis<N: Arithmetic>(
    n: N,
    r: Reading,
    rows: Seq<Seq<u64>>,
    shape: Seq<i64>,
    u: Seq<u64>,
    x: Seq<int>,
    coords: Seq<i64>,
    cell: usize,
)
    requires
        r.exact(n),
        image::pictures(rows, shape),
        !image::incomplete(rows),
        x.len() == shape.len(),
        coords.len() == shape.len(),
        forall|a: int|
            0 <= a < shape.len() ==> {
                &&& r.says(u[a], #[trigger] x[a])
                &&& 0 <= x[a] < r.scale
                &&& 0 < shape[a]
                &&& r.holds(shape[a] * r.scale)
                &&& r.holds(x[a] * shape[a])
                &&& coords[a] * r.scale <= x[a] * shape[a] < (coords[a] + 1) * r.scale
            },
        image::draws(n, rows, shape, u, cell),
    ensures
        index::inside(coords, shape),
        cell == index::dot(coords, index::strides_of(shape)),
        cell < index::size(shape),
{
    let drawn = choose|drawn: Seq<i64>| #[trigger]
        image::takes_shares(n, u, shape, drawn) && cell == index::dot(
            drawn,
            index::strides_of(shape),
        ) as usize;
    assert forall|a: int| 0 <= a < shape.len() implies #[trigger] drawn[a] == coords[a] && 0
        <= coords[a] < shape[a] by {
        assert(r.says(u[a], x[a]));
        scanning::shares_are_whole_parts(n, r, u[a], x[a], shape[a], drawn[a]);
        let c = coords[a] as int;
        let d = drawn[a] as int;
        let p = x[a] * shape[a];
        let s = r.scale;
        assert(c == d) by (nonlinear_arith)
            requires
                0 < s,
                c * s <= p < (c + 1) * s,
                d * s <= p < (d + 1) * s,
        ;
        let y = x[a];
        let k = shape[a] as int;
        assert(0 <= y * k < s * k) by (nonlinear_arith)
            requires
                0 <= y < s,
                0 < k,
        ;
        assert(0 <= c < k) by (nonlinear_arith)
            requires
                0 < s,
                c * s <= p < (c + 1) * s,
                0 <= p < s * k,
        ;
    }
    assert(drawn =~= coords);
    assert forall|a: int| 0 <= a < shape.len() implies 0 <= #[trigger] coords[a] < shape[a] by {
        assert(drawn[a] == coords[a]);
    }
    index::cells_have_positions(coords, shape);
    assert(index::extent(shape, 0) <= usize::MAX);
}

/// The complete cells come in order, and none is missing.
pub proof fn complete_cells_are_listed_in_order(rows: Seq<Seq<u64>>, count: int)
    requires
        0 <= count <= usize::MAX,
    ensures
        forall|i: int, j: int|
            0 <= i < j < image::complete_cells(rows, count).len() ==> #[trigger]
                image::complete_cells(rows, count)[i] < #[trigger] image::complete_cells(
                rows,
                count,
            )[j],
        forall|c: int|
            0 <= c < count ==> (#[trigger] image::complete_cells(rows, count).contains(c as usize)
                <==> forall|v: int| 0 <= v < rows.len() ==> !word::nan(#[trigger] rows[v][c])),
    decreases count,
{
    image::complete_cells_are_cells(rows, count);
    if count > 0 {
        complete_cells_are_listed_in_order(rows, count - 1);
        image::complete_cells_are_cells(rows, count - 1);
        let before = image::complete_cells(rows, count - 1);
        let all = image::complete_cells(rows, count);
        assert forall|c: int| 0 <= c < count implies (#[trigger] all.contains(c as usize)
            <==> forall|v: int| 0 <= v < rows.len() ==> !word::nan(#[trigger] rows[v][c])) by {
            if c < count - 1 {
                if before.contains(c as usize) {
                    let k = choose|k: int| 0 <= k < before.len() && before[k] == c as usize;
                    assert(all[k] == c as usize);
                }
                if all.contains(c as usize) {
                    let k = choose|k: int| 0 <= k < all.len() && all[k] == c as usize;
                    assert(before[k] == c as usize);
                }
            } else {
                if image::complete_at(rows, c) {
                    assert(all[before.len() as int] == c as usize);
                }
                if all.contains(c as usize) {
                    let k = choose|k: int| 0 <= k < all.len() && all[k] == c as usize;
                    if k < before.len() {
                        assert(before[k] < count - 1);
                    }
                }
            }
        }
    }
}

/// Where the image has gaps, a draw names one of the complete cells: the one in the place that is
/// the whole part of their number by the first of the numbers `u`.
pub proof fn draws_take_part_of_the_complete_cells<N: Arithmetic>(
    n: N,
    r: Reading,
    rows: Seq<Seq<u64>>,
    shape: Seq<i64>,
    u: Seq<u64>,
    x: int,
    place: int,
    cell: usize,
)
    requires
        r.exact(n),
        image::pictures(rows, shape),
        image::incomplete(rows),
        r.says(u[0], x),
        0 <= x < r.scale,
        r.holds(index::size(shape) * r.scale),
        r.holds(x * index::size(shape)),
        ({
            let count = image::complete_cells(rows, index::size(shape)).len() as int;
            place * r.scale <= x * count < (place + 1) * r.scale
        }),
        image::draws(n, rows, shape, u, cell),
    ensures
        0 <= place < image::complete_cells(rows, index::size(shape)).len(),
        cell == image::complete_cells(rows, index::size(shape))[place],
        forall|v: int| 0 <= v < rows.len() ==> !word::nan(#[trigger] rows[v][cell as int]),
{
    let size = index::size(shape);
    assert(index::extent(shape, 0) <= usize::MAX);
    index::sizes_are_not_negative(shape);
    let complete = image::complete_cells(rows, size);
    image::complete_cells_are_cells(rows, size);
    let count = complete.len() as int;
    let p = choose|p: usize| #[trigger]
        arithmetic::takes_part(n, u[0], complete.len() as usize, p) && p < complete.len() && cell
            == complete[p as int];
    let s = r.scale;
    assert(0 <= count * s <= size * s) by (nonlinear_arith)
        requires
            0 <= count <= size,
            0 < s,
    ;
    assert(0 <= x * count <= x * size) by (nonlinear_arith)
        requires
            0 <= count <= size,
            0 <= x,
    ;
    scanning::parts_are_whole_parts(n, r, u[0], x, complete.len() as usize, p);
    let q = p as int;
    assert(q == place) by (nonlinear_arith)
        requires
            0 < s,
            q * s <= x * count < (q + 1) * s,
            place * s <= x * count < (place + 1) * s,
    ;
    assert(image::complete_at(rows, cell as int));
}

/// A node falls back on its draw where it has no event, or where its events settle nowhere together:
/// all variables that it lacks receive the values of the one cell that was drawn for the node.
pub proof fn nodes_without_a_place_copy_their_draw<N: Arithmetic, M: Metric>(
    s: Setup<N, M>,
    node: int,
    events: Seq<EventModel>,
    targets: Seq<usize>,
    r: NodeResult,
) -> (source: usize)
    requires
        events.len() > 0,
        forall|v: int|
            0 <= v < events.len() ==> (#[trigger] events[v]).wf() && window::comparable(
                events[v].lags,
                events[v].lags.len() as int,
                s.ti_shape@,
            ),
        (forall|v: int| 0 <= v < events.len() ==> (#[trigger] events[v]).values.len() == 0) || (
        fitting::first_unfit(events, s.ti_shape@, events.len() as int) == events.len() && !exists|
            anchor: Seq<i64>,
        | #[trigger]
            windows::all_settle(
                fitting::all_trimmed(events, s.ti_shape@),
                s.ti_shape@,
                anchor,
            )),
        node::decides(s, node, events, targets, r),
    ensures
        image::draws(
            *s.arithmetic,
            s.ti_rows(),
            s.ti_shape@,
            s.u_fallback@[node]@,
            source,
        ),
        r.values@.len() == targets.len(),
        forall|i: int|
            0 <= i < targets.len() ==> #[trigger] r.values@[i] == (
                targets[i],
                s.ti_rows()[targets[i] as int][source as int],
            ),
{
    let kept = fitting::all_trimmed(events, s.ti_shape@);
    if !fitting::all_empty(events) {
        let count = events.len() as int;
        assert forall|v: int| 0 <= v < events.len() implies gathering::shaped(
            #[trigger] events[v],
            s.ti_shape@,
        ) by {}
        fitting::trimmed_events_are_shaped(events, s.ti_shape@);
        assert forall|v: int| 0 <= v < kept.len() implies window::comparable(
            (#[trigger] kept[v]).lags,
            kept[v].lags.len() as int,
            s.ti_shape@,
        ) by {
            assert(gathering::shaped(kept[v], s.ti_shape@));
        }
        windows::events_overlap_where_all_settle(kept, s.ti_shape@);
    }
    let source = choose|source: usize| #[trigger]
        s.draws(node, source) && node::copies(
            s.ti_rows(),
            targets,
            source as int,
            r.values@,
        );
    source
}

/// All variables that a node lacks receive their values from one cell of the training image, where
/// no variations are compared: values that belong together stay together.
pub proof fn values_of_a_node_come_from_one_cell<N: Arithmetic, M: Metric>(
    s: Setup<N, M>,
    fields: Seq<Seq<u64>>,
    cached: CachedNode,
    node: int,
    r: NodeResult,
) -> (cell: int)
    requires
        guarantees::only_copies(s),
        forall|v: int| 0 <= v < s.variables() ==> 0 <= #[trigger] s.metric_kinds@[v] <= 1,
        s.variables() <= usize::MAX,
        node::node_outcome(s, fields, cached, node, r),
    ensures
        forall|i: int|
            0 <= i < r.values@.len() ==> (#[trigger] r.values@[i]).1
                == s.ti_rows()[r.values@[i].0 as int][cell],
{
    let flat = s.model().cell(node);
    let targets = gathering::lacking(fields, flat, s.variables());
    gathering::lacking_variables_lack_values(fields, flat, s.variables());
    let (events, shared) = choose|events: Seq<EventModel>, shared: Seq<int>| #[trigger]
        gathering::has_events(s, fields, cached, node, events, shared) && node::decides(
            s,
            node,
            events,
            targets,
            r,
        ) && r.collapsed_lag_count == gathering::total(shared, shared.len() as int);
    let count = events.len() as int;
    let shape = s.ti_shape@;
    let kept = fitting::all_trimmed(events, shape);
    let strict = fitting::cuts(events, shape, s.partial_boundary, count);
    let fallen = r.strict_fallback_count as int;
    if node::falls_back(s, node, targets, fallen, r) {
        let source = choose|source: usize| #[trigger]
            s.draws(node, source) && node::copies(
                s.ti_rows(),
                targets,
                source as int,
                r.values@,
            );
        source as int
    } else {
        let found = choose|found: Option<Seq<i64>>| #[trigger]
            search::scans_for(s, node, kept, targets, found) && match found {
                Some(anchor) => node::receives(s, kept, targets, anchor, strict, r),
                None => node::falls_back(s, node, targets, strict, r),
            };
        let anchor = found->0;
        let base = index::dot(anchor, s.ti_strides());
        assert forall|i: int| 0 <= i < r.values@.len() implies (#[trigger] r.values@[i]).1
            == s.ti_rows()[r.values@[i].0 as int][base] by {
            assert(targets[i] < s.variables());
            assert(retrieval::retrieves(s, kept, targets[i] as int, base, r.values@[i].1));
            assert(s.metric_kinds@[targets[i] as int] != retrieval::VARIATION);
        }
        base
    }
}

/// The setups hold the same for a node: they differ at most in the numbers and matrices of other
/// nodes.
pub open spec fn same_for<N: Arithmetic, M: Metric>(
    s: Setup<N, M>,
    t: Setup<N, M>,
    node: int,
) -> bool {
    &&& t == (Setup {
        u_start: t.u_start,
        u_fallback: t.u_fallback,
        lag_matrices: t.lag_matrices,
        ..s
    })
    &&& t.u_start@[node] == s.u_start@[node]
    &&& t.u_fallback@[node]@ == s.u_fallback@[node]@
    &&& t.lag_matrices@.len() == s.lag_matrices@.len()
    &&& s.lag_matrices@.len() > 0 ==> t.lag_matrices@[node]@ == s.lag_matrices@[node]@
}

/// A node goes by its own numbers and its own matrix: those of other nodes do not matter.
pub proof fn nodes_go_by_their_own_numbers<N: Arithmetic, M: Metric>(
    s: Setup<N, M>,
    t: Setup<N, M>,
    fields: Seq<Seq<u64>>,
    cached: CachedNode,
    node: int,
    r: NodeResult,
)
    requires
        same_for(s, t, node),
        node::node_outcome(s, fields, cached, node, r),
    ensures
        node::node_outcome(t, fields, cached, node, r),
{
    let flat = s.model().cell(node);
    let targets = gathering::lacking(fields, flat, s.variables());
    let (events, shared) = choose|events: Seq<EventModel>, shared: Seq<int>| #[trigger]
        gathering::has_events(s, fields, cached, node, events, shared) && node::decides(
            s,
            node,
            events,
            targets,
            r,
        ) && r.collapsed_lag_count == gathering::total(shared, shared.len() as int);
    assert(t.model() == s.model());
    assert forall|v: int| 0 <= v < t.variables() implies gathering::has_event(
        t,
        fields,
        cached,
        node,
        v,
        #[trigger] events[v],
        shared[v],
    ) by {
        assert(gathering::has_event(s, fields, cached, node, v, events[v], shared[v]));
        if s.lag_matrices@.len() > 0 {
            let (raw, mapped) = choose|raw: EventModel, mapped: Seq<Seq<i64>>| #[trigger]
                gathering::maps_event(s, fields, cached, node, v, raw, mapped) && events[v]
                    == crate::event::reduced(raw, mapped, s.ti_shape@) && shared[v]
                    == crate::event::collapsed(mapped);
            assert(gathering::maps_event(t, fields, cached, node, v, raw, mapped));
        }
    }
    assert(gathering::has_events(t, fields, cached, node, events, shared));
    let count = events.len() as int;
    let shape = s.ti_shape@;
    let unfit = fitting::first_unfit(events, shape, count);
    let kept = fitting::all_trimmed(events, shape);
    let strict = fitting::cuts(events, shape, s.partial_boundary, count);
    let fallen = r.strict_fallback_count as int;
    if node::falls_back(s, node, targets, fallen, r) {
        let source = choose|source: usize| #[trigger]
            s.draws(node, source) && node::copies(
                s.ti_rows(),
                targets,
                source as int,
                r.values@,
            );
        assert(t.draws(node, source));
        assert(node::falls_back(t, node, targets, fallen, r));
    }
    if !fitting::all_empty(events) && unfit >= count && fitting::overlap(kept, shape) {
        let found = choose|found: Option<Seq<i64>>| #[trigger]
            search::scans_for(s, node, kept, targets, found) && match found {
                Some(anchor) => node::receives(s, kept, targets, anchor, strict, r),
                None => node::falls_back(s, node, targets, strict, r),
            };
        let (request, start, budget) = choose|
            request: ScanRequest,
            start: usize,
            budget: usize,
        | #[trigger]
            search::scans_with(s, node, kept, targets, request, start, budget, found);
        let chosen = search::active(kept, kept.len() as int);
        let parts = choose|parts: Seq<Seq<u64>>| #[trigger]
            search::weighs_all(s, kept, chosen, parts) && request.node_weights@ == search::joined(
                parts,
                parts.len() as int,
            );
        assert(search::weighs_all(t, kept, chosen, parts));
        assert(search::requests(t, kept, targets, request));
        assert(search::scans_with(t, node, kept, targets, request, start, budget, found));
        assert(search::scans_for(t, node, kept, targets, found));
        if found is Some {
            let anchor = found->0;
            let base = index::dot(anchor, s.ti_strides());
            assert forall|i: int| 0 <= i < targets.len() implies {
                &&& (#[trigger] r.values@[i]).0 == targets[i]
                &&& retrieval::retrieves(t, kept, targets[i] as int, base, r.values@[i].1)
            } by {
                assert(retrieval::retrieves(s, kept, targets[i] as int, base, r.values@[i].1));
            }
            assert(node::receives(t, kept, targets, anchor, strict, r));
        }
    }
    assert(node::decides(t, node, events, targets, r));
}

/// The result of a node is written where it belongs: each value to its variable, in the cell of the
/// node, and nothing else changes. The counts of the node are added.
pub proof fn results_are_written_where_they_belong(
    p: Progress,
    r: NodeResult,
    v: int,
    c: int,
)
    requires
        mps_engine::placed(p.fields, r),
        forall|i: int, j: int|
            0 <= i < j < r.values@.len() ==> (#[trigger] r.values@[i]).0 != (
            #[trigger] r.values@[j]).0,
        0 <= v < p.fields.len(),
        0 <= c < p.fields[v].len(),
    ensures
        forall|j: int|
            0 <= j < r.values@.len() && (#[trigger] r.values@[j]).0 == v && c == r.flat
                ==> mps_engine::after(p, r).fields[v][c] == r.values@[j].1,
        c != r.flat || (forall|j: int|
            0 <= j < r.values@.len() ==> (#[trigger] r.values@[j]).0 != v) ==> mps_engine::after(
            p,
            r,
        ).fields[v][c] == p.fields[v][c],
        mps_engine::after(p, r).strict == p.strict + r.strict_fallback_count,
        mps_engine::after(p, r).collapsed == p.collapsed + r.collapsed_lag_count,
{
    written_so_far(p.fields, r, r.values@.len() as int, v, c);
}

proof fn written_so_far(fields: Seq<Seq<u64>>, r: NodeResult, count: int, v: int, c: int)
    requires
        mps_engine::placed(fields, r),
        forall|i: int, j: int|
            0 <= i < j < r.values@.len() ==> (#[trigger] r.values@[i]).0 != (
            #[trigger] r.values@[j]).0,
        0 <= count <= r.values@.len(),
        0 <= v < fields.len(),
        0 <= c < fields[v].len(),
    ensures
        forall|j: int|
            0 <= j < count && (#[trigger] r.values@[j]).0 == v && c == r.flat
                ==> mps_engine::written(fields, r, count)[v][c] == r.values@[j].1,
        c != r.flat || (forall|j: int|
            0 <= j < count ==> (#[trigger] r.values@[j]).0 != v) ==> mps_engine::written(
            fields,
            r,
            count,
        )[v][c] == fields[v][c],
        mps_engine::same_size(mps_engine::written(fields, r, count), fields),
    decreases count,
{
    if count > 0 {
        written_so_far(fields, r, count - 1, v, c);
        let before = mps_engine::written(fields, r, count - 1);
        let row = r.values@[count - 1].0 as int;
        assert(row < fields.len() && r.flat < fields[row].len());
        assert(before[row].len() == fields[row].len());
        assert(before[v].len() == fields[v].len());
        assert forall|j: int|
            0 <= j < count && (#[trigger] r.values@[j]).0 == v && c
                == r.flat implies mps_engine::written(fields, r, count)[v][c] == r.values@[j].1 by {
            if j < count - 1 {
                assert(r.values@[j].0 != r.values@[count - 1].0);
            }
        }
        if forall|j: int| 0 <= j < count ==> (#[trigger] r.values@[j]).0 != v {
            assert(r.values@[count - 1].0 != v);
        }
    }
}

/// The cut events of the nodes of a level.
pub open spec fn cuts_of(results: Seq<NodeResult>) -> spec_fn(int) -> int {
    |i: int| results[i].strict_fallback_count as int
}

/// The collapsed lags of the nodes of a level.
pub open spec fn collapses_of(results: Seq<NodeResult>) -> spec_fn(int) -> int {
    |i: int| results[i].collapsed_lag_count as int
}

/// The counts of a level are the sums over its nodes.
pub proof fn counts_add_up_over_a_level(p: Progress, results: Seq<NodeResult>, count: int)
    ensures
        mps_engine::committed(p, results, count).strict == p.strict + exactness::series(
            cuts_of(results),
            count,
        ),
        mps_engine::committed(p, results, count).collapsed == p.collapsed + exactness::series(
            collapses_of(results),
            count,
        ),
    decreases count,
{
    if count > 0 {
        counts_add_up_over_a_level(p, results, count - 1);
    }
}

/// A simulation that breaks off tells of a cell of the path, and of a variable that lacks a value
/// there.
pub proof fn breaks_are_told_where_they_happen<N: Arithmetic, M: Metric>(
    s: Setup<N, M>,
    cache: Seq<CachedNode>,
    initial: Seq<Seq<u64>>,
    variable: usize,
    flat: usize,
)
    requires
        guarantees::underway(s, cache, initial),
        mps_engine::breaks_off(s, cache, initial, variable, flat),
    ensures
        variable < initial.len(),
        flat < initial[variable as int].len(),
        word::nan(initial[variable as int][flat as int]),
        exists|node: int|
            0 <= node < s.path@.len() && flat == index::dot(
                (#[trigger] s.path@[node])@,
                index::strides_of(s.sim_shape@),
            ),
{
    let (level, p, results) = choose|level: int, p: Progress, results: Seq<NodeResult>| #[trigger]
        mps_engine::breaks_at(s, cache, initial, level, p, results, variable, flat);
    let (i, j) = choose|i: int, j: int| #[trigger]
        mps_engine::first_nan(results, i, j) && results[i].values@[j].0 == variable
            && results[i].flat == flat;
    guarantees::sizes_are_kept(s, cache, initial, level, p);
    guarantees::long_paths_can_be_counted(s, cache, initial);
    guarantees::many_variables_can_be_counted(s);
    mps_engine::level_nodes_are_of_the_level(cache, level, cache.len() as int);
    let nodes = mps_engine::level_nodes(cache, level);
    let node = nodes[i] as int;
    assert(nodes[i] < cache.len());
    assert(node::node_outcome(s, p.fields, cache[node], node, results[i]));
    node::nodes_receive_what_they_lack(s, p.fields, cache[node], node, results[i]);
    let cell = s.model().cell(node);
    gathering::lacking_variables_lack_values(p.fields, cell, s.variables());
    let targets = gathering::lacking(p.fields, cell, s.variables());
    assert(targets[j] == variable);
    assert(word::nan(p.fields[targets[j] as int][cell]));
    assert(index::inside(s.model().path[node]@, s.sim_shape@));
    index::cells_have_positions(s.path@[node]@, s.sim_shape@);
    assert(initial[variable as int].len() == index::size(s.sim_shape@));
    assert(flat == index::dot(s.path@[node]@, index::strides_of(s.sim_shape@)));
    if !word::nan(initial[variable as int][flat as int]) {
        guarantees::known_values_are_kept(
            s,
            cache,
            initial,
            level,
            p,
            variable as int,
            flat as int,
        );
    }
}

/// The widest level has as many nodes as are told, and no level has more.
pub proof fn widths_are_those_of_the_widest_level(
    cache: Seq<CachedNode>,
    levels: int,
)
    requires
        0 <= levels,
    ensures
        forall|l: int|
            0 <= l < levels ==> (#[trigger] mps_engine::level_nodes(cache, l)).len()
                <= mps_engine::widest(cache, levels),
        levels == 0 ==> mps_engine::widest(cache, levels) == 0,
        levels > 0 ==> exists|l: int|
            0 <= l < levels && (#[trigger] mps_engine::level_nodes(cache, l)).len()
                == mps_engine::widest(cache, levels),
    decreases levels,
{
    if levels > 0 {
        widths_are_those_of_the_widest_level(cache, levels - 1);
        let before = mps_engine::widest(cache, levels - 1);
        let last = mps_engine::level_nodes(cache, levels - 1);
        if last.len() >= before {
            assert(mps_engine::level_nodes(cache, levels - 1).len() == mps_engine::widest(
                cache,
                levels,
            ));
        } else {
            let l = choose|l: int|
                0 <= l < levels - 1 && (#[trigger] mps_engine::level_nodes(cache, l)).len()
                    == before;
            assert(mps_engine::level_nodes(cache, l).len() == mps_engine::widest(cache, levels));
        }
    }
}

/// Inputs that do not match each other in size are refused: a simulation that does anything else has
/// as many entries in each of its inputs as its grids, its path and its variables ask for.
pub proof fn sizes_match_where_a_simulation_runs<N: Arithmetic, M: Metric>(
    s: Setup<N, M>,
    initial: Seq<Seq<u64>>,
    num_threads: usize,
    result: Result<mps_engine::SimulationOutput, String>,
)
    requires
        mps_engine::simulates(s, initial, num_threads, result),
        !(result matches Err(text) && text@ == crate::messages::shape_message()),
    ensures
        s.ti_rows().len() > 0,
        forall|v: int|
            0 <= v < s.ti_rows().len() ==> {
                &&& (#[trigger] s.ti_rows()[v]).len() == index::product(
                    s.ti_shape@,
                    s.ti_shape@.len() as int,
                )
                &&& initial[v].len() == index::product(s.sim_shape@, s.sim_shape@.len() as int)
                &&& s.conditioned@[v]@.len() == initial[v].len()
            },
        initial.len() == s.ti_rows().len(),
        s.conditioned@.len() == s.ti_rows().len(),
        forall|i: int|
            0 <= i < s.path@.len() ==> {
                &&& (#[trigger] s.path@[i])@.len() == s.sim_shape@.len()
                &&& s.u_fallback@[i]@.len() == s.sim_shape@.len()
                &&& s.lag_matrices@.len() > 0 ==> {
                    &&& s.lag_matrices@[i]@.len() == s.sim_shape@.len()
                    &&& forall|a: int|
                        0 <= a < s.sim_shape@.len() ==> (#[trigger] s.lag_matrices@[i]@[a])@.len()
                            == s.sim_shape@.len()
                }
            },
        s.lag_matrices@.len() == 0 || s.lag_matrices@.len() == s.path@.len(),
        s.u_start@.len() == s.path@.len(),
        s.u_fallback@.len() == s.path@.len(),
        forall|k: int|
            0 <= k < s.offsets@.len() ==> (#[trigger] s.offsets@[k])@.len() == s.sim_shape@.len(),
        s.n_neighbors@.len() == s.ti_rows().len(),
        s.max_radius@.len() == s.ti_rows().len(),
        s.variable_weights@.len() == s.ti_rows().len(),
        s.metric_kinds@.len() == s.ti_rows().len(),
        s.has_nan@.len() == s.ti_rows().len(),
        s.d_max@.len() == s.ti_rows().len(),
        s.p_norm@.len() == s.ti_rows().len(),
{
    guarantees::failures_are_told_exactly(s, initial, num_threads, result);
    index::products_make_up_the_size(s.ti_shape@, s.ti_shape@.len() as int);
    index::products_make_up_the_size(s.sim_shape@, s.sim_shape@.len() as int);
    assert forall|v: int| 0 <= v < s.ti_rows().len() implies {
        &&& (#[trigger] s.ti_rows()[v]).len() == index::product(
            s.ti_shape@,
            s.ti_shape@.len() as int,
        )
        &&& initial[v].len() == index::product(s.sim_shape@, s.sim_shape@.len() as int)
        &&& s.conditioned@[v]@.len() == initial[v].len()
    } by {
        assert(initial[v].len() == index::size(s.sim_shape@));
        assert(s.conditioned@[v]@.len() == index::size(s.sim_shape@));
    }
    assert forall|i: int| 0 <= i < s.path@.len() implies {
        &&& (#[trigger] s.path@[i])@.len() == s.sim_shape@.len()
        &&& s.u_fallback@[i]@.len() == s.sim_shape@.len()
        &&& s.lag_matrices@.len() > 0 ==> {
            &&& s.lag_matrices@[i]@.len() == s.sim_shape@.len()
            &&& forall|a: int|
                0 <= a < s.sim_shape@.len() ==> (#[trigger] s.lag_matrices@[i]@[a])@.len()
                    == s.sim_shape@.len()
        }
    } by {
        assert(s.u_fallback@[i]@.len() == s.sim_shape@.len());
        if s.lag_matrices@.len() > 0 {
            assert(crate::setup::square(s.lag_matrices@[i], s.sim_shape@.len() as int));
        }
    }
}

/// Nothing of the event fits into the image.
pub open spec fn hopeless(e: EventModel, shape: Seq<i64>) -> bool {
    e.lags.len() > 0 && forall|more: int|
        1 <= more <= e.lags.len() ==> !#[trigger] window::fits(e.lags, more, shape)
}

/// A node counts its events that do not fit as a whole, unless partial events are asked for; where
/// there is an event of which nothing fits, it counts no further than the first such event.
pub proof fn nodes_count_their_misfits<N: Arithmetic, M: Metric>(
    s: Setup<N, M>,
    node: int,
    events: Seq<EventModel>,
    targets: Seq<usize>,
    r: NodeResult,
    first: int,
)
    requires
        0 <= first <= events.len(),
        forall|v: int| 0 <= v < first ==> !hopeless(#[trigger] events[v], s.ti_shape@),
        first < events.len() ==> hopeless(events[first], s.ti_shape@),
        forall|v: int| 0 <= v < events.len() ==> (#[trigger] events[v]).wf(),
        node::decides(s, node, events, targets, r),
    ensures
        s.partial_boundary ==> r.strict_fallback_count == 0,
        !s.partial_boundary && first == events.len() ==> r.strict_fallback_count
            == exactness::series(windows::misfits(events, s.ti_shape@), events.len() as int),
        !s.partial_boundary && first < events.len() ==> r.strict_fallback_count
            == exactness::series(windows::misfits(events, s.ti_shape@), first + 1),
{
    let shape = s.ti_shape@;
    let count = events.len() as int;
    let unfit = fitting::first_unfit(events, shape, count);
    let kept = fitting::all_trimmed(events, shape);
    let strict = fitting::cuts(events, shape, s.partial_boundary, count);
    windows::the_first_unfit_event_is_the_first(events, shape, count);
    assert(unfit == first) by {
        if unfit < first {
            assert(hopeless(events[unfit], shape));
        }
        if first < unfit {
            window::kept_events_fit(events[first].lags, shape);
            assert(window::kept(events[first].lags, shape) is Some);
            let keep = window::kept(events[first].lags, shape)->0;
            kept_parts_are_not_empty(events[first].lags, shape);
            assert(window::fits(events[first].lags, keep, shape));
        }
    }
    windows::misfits_are_counted_unless_asked_for(events, shape, count);
    windows::misfits_are_counted_unless_asked_for(events, shape, first + 1);
    if fitting::all_empty(events) {
        assert forall|v: int| 0 <= v < count implies #[trigger] windows::misfits(events, shape)(v)
            == 0 by {
            assert(events[v].values.len() == 0 && events[v].wf());
        }
        exactness::lonely_series(windows::misfits(events, shape), count, -1);
        if first < count {
            assert(events[first].values.len() == 0 && events[first].wf());
        }
    } else if unfit >= count && fitting::overlap(kept, shape) {
        let found = choose|found: Option<Seq<i64>>| #[trigger]
            search::scans_for(s, node, kept, targets, found) && match found {
                Some(anchor) => node::receives(s, kept, targets, anchor, strict, r),
                None => node::falls_back(s, node, targets, strict, r),
            };
        assert(r.strict_fallback_count == strict);
    }
}

proof fn kept_parts_are_not_empty(lags: Seq<Seq<i64>>, shape: Seq<i64>)
    ensures
        lags.len() > 0 && window::kept(lags, shape) is Some ==> window::kept(lags, shape)->0 >= 1,
{
    window::kept_events_fit(lags, shape);
    if lags.len() > 0 && window::kept(lags, shape) is Some && window::kept(lags, shape)->0 < 1 {
        assert(!window::fits(lags, 1, shape));
        no_fit_no_part(lags, lags.len() - 1, shape);
    }
}

proof fn no_fit_no_part(lags: Seq<Seq<i64>>, count: int, shape: Seq<i64>)
    ensures
        window::largest_fit(lags, count, shape) is Some ==> window::largest_fit(
            lags,
            count,
            shape,
        )->0 >= 1,
    decreases count,
{
    if count >= 1 && !window::fits(lags, count, shape) {
        no_fit_no_part(lags, count - 1, shape);
    }
}

/// A node counts the lags that collapse over all of its variables: its count is the sum of those of
/// its variables.
pub proof fn collapsed_lags_add_up_over_variables<N: Arithmetic, M: Metric>(
    s: Setup<N, M>,
    fields: Seq<Seq<u64>>,
    cached: CachedNode,
    node: int,
    r: NodeResult,
) -> (counted: (Seq<EventModel>, spec_fn(int) -> int))
    requires
        node::node_outcome(s, fields, cached, node, r),
    ensures
        r.collapsed_lag_count == exactness::series(counted.1, s.variables()),
        forall|v: int|
            0 <= v < s.variables() ==> gathering::has_event(
                s,
                fields,
                cached,
                node,
                v,
                #[trigger] counted.0[v],
                (counted.1)(v),
            ),
{
    let flat = s.model().cell(node);
    let targets = gathering::lacking(fields, flat, s.variables());
    let (events, counts) = choose|events: Seq<EventModel>, counts: Seq<int>| #[trigger]
        gathering::has_events(s, fields, cached, node, events, counts) && node::decides(
            s,
            node,
            events,
            targets,
            r,
        ) && r.collapsed_lag_count == gathering::total(counts, counts.len() as int);
    let shared = |v: int| counts[v];
    totals_are_series(counts, shared, counts.len() as int);
    (events, shared)
}

proof fn totals_are_series(xs: Seq<int>, f: spec_fn(int) -> int, count: int)
    requires
        forall|i: int| 0 <= i < count ==> #[trigger] f(i) == xs[i],
    ensures
        gathering::total(xs, count) == exactness::series(f, count),
    decreases count,
{
    if count > 0 {
        totals_are_series(xs, f, count - 1);
        assert(f(count - 1) == xs[count - 1]);
    }
}

/// A long path uses as many threads as are asked for; a shorter one uses one.
pub proof fn long_paths_use_the_threads_asked_for<N: Arithmetic, M: Metric>(
    s: Setup<N, M>,
    initial: Seq<Seq<u64>>,
    num_threads: usize,
    output: mps_engine::SimulationOutput,
)
    requires
        mps_engine::simulates(s, initial, num_threads, Ok(output)),
    ensures
        s.path@.len() >= 512 && num_threads > 0 ==> output.used_threads == num_threads,
        s.path@.len() < 512 ==> output.used_threads == 1,
        num_threads == 0 ==> output.used_threads == 1,
{
}

/// A simulation goes by what it is given, each thing in its place.
pub proof fn setups_hold_what_they_are_given<'a, N: Arithmetic, M: Metric>(
    arithmetic: &'a N,
    metric: &'a M,
    ti: &'a ValueGrid,
    ti_shape: &'a [i64],
    conditioned: &'a [Vec<u8>],
    sim_shape: &'a [i64],
    path: &'a [Vec<i64>],
    lag_matrices: &'a [Vec<Vec<u64>>],
    u_start: &'a [u64],
    u_fallback: &'a [Vec<u64>],
    offsets: &'a [Vec<i64>],
    n_neighbors: &'a [i64],
    max_radius: &'a [u64],
    variable_weights: &'a [u64],
    metric_kinds: &'a [i64],
    has_nan: &'a [u8],
    d_max: &'a [u64],
    p_norm: &'a [u64],
    threshold: u64,
    scan_fraction: u64,
    distance_power: u64,
    cond_weight: u64,
    partial_boundary: bool,
)
    ensures
        ({
            let s = mps_engine::setup_of(
                arithmetic,
                metric,
                ti,
                ti_shape,
                conditioned,
                sim_shape,
                path,
                lag_matrices,
                u_start,
                u_fallback,
                offsets,
                n_neighbors,
                max_radius,
                variable_weights,
                metric_kinds,
                has_nan,
                d_max,
                p_norm,
                threshold,
                scan_fraction,
                distance_power,
                cond_weight,
                partial_boundary,
            );
            &&& s.arithmetic == arithmetic && s.metric == metric && s.ti == ti
            &&& s.ti_shape == ti_shape && s.sim_shape == sim_shape
            &&& s.conditioned == conditioned && s.path == path
            &&& s.lag_matrices == lag_matrices
            &&& s.u_start == u_start && s.u_fallback == u_fallback
            &&& s.offsets == offsets && s.n_neighbors == n_neighbors
            &&& s.max_radius == max_radius && s.variable_weights == variable_weights
            &&& s.metric_kinds == metric_kinds && s.has_nan == has_nan
            &&& s.d_max == d_max && s.p_norm == p_norm
            &&& s.threshold == threshold && s.scan_fraction == scan_fraction
            &&& s.distance_power == distance_power && s.cond_weight == cond_weight
            &&& s.partial_boundary == partial_boundary
            &&& s.model().path == path@ && s.model().shape == sim_shape@
            &&& s.model().offsets == offsets@ && s.model().conditioned == conditioned@
            &&& s.model().n_neighbors == n_neighbors@
        }),
{
}

} // verus!
