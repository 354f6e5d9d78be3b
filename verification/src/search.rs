//! The search for an anchor that matches the events of a node.

use crate::arithmetic::{self, Arithmetic};
use crate::event::{Event, EventModel};
use crate::fitting;
use crate::gathering;
use crate::grid::{self, ValueGrid};
use crate::image;
use crate::index;
use crate::scan::{self, Sweep};
use crate::setup::{self, Metric, ScanRequest, Setup};
use crate::weights;
use vstd::prelude::*;

verus! {

/// The variables among the first `count` whose events are not empty.
pub open spec fn active(events: Seq<EventModel>, count: int) -> Seq<usize>
    decreases count,
{
    if count <= 0 {
        Seq::empty()
    } else if events[count - 1].values.len() > 0 {
        active(events, count - 1).push((count - 1) as usize)
    } else {
        active(events, count - 1)
    }
}

/// The values of the first `count` chosen events, one event after the other.
pub open spec fn joined_values(
    events: Seq<EventModel>,
    chosen: Seq<usize>,
    count: int,
) -> Seq<u64>
    decreases count,
{
    if count <= 0 {
        Seq::empty()
    } else {
        joined_values(events, chosen, count - 1) + events[chosen[count - 1] as int].values
    }
}

/// The flat lags of an event.
pub open spec fn flat_lags(e: EventModel, strides: Seq<i64>) -> Seq<i64> {
    Seq::new(e.lags.len(), |i: int| index::dot(e.lags[i], strides) as i64)
}

/// The flat lags of the first `count` chosen events, one event after the other.
pub open spec fn joined_lags(
    events: Seq<EventModel>,
    chosen: Seq<usize>,
    strides: Seq<i64>,
    count: int,
) -> Seq<i64>
    decreases count,
{
    if count <= 0 {
        Seq::empty()
    } else {
        joined_lags(events, chosen, strides, count - 1) + flat_lags(
            events[chosen[count - 1] as int],
            strides,
        )
    }
}

/// The first `count` sequences, one after the other.
pub open spec fn joined(parts: Seq<Seq<u64>>, count: int) -> Seq<u64>
    decreases count,
{
    if count <= 0 {
        Seq::empty()
    } else {
        joined(parts, count - 1) + parts[count - 1]
    }
}

/// `parts` are outcomes of the weights of the chosen events.
pub open spec fn weighs_all<N: Arithmetic, M: Metric>(
    s: Setup<N, M>,
    events: Seq<EventModel>,
    chosen: Seq<usize>,
    parts: Seq<Seq<u64>>,
) -> bool {
    &&& parts.len() == chosen.len()
    &&& forall|i: int|
        0 <= i < parts.len() ==> weights::weighs(
            *s.arithmetic,
            events[chosen[i] as int].lag_norms,
            events[chosen[i] as int].conditioned,
            s.distance_power,
            s.cond_weight,
            #[trigger] parts[i],
        )
}

/// `request` is an outcome of putting events together for a scan.
pub open spec fn requests<N: Arithmetic, M: Metric>(
    s: Setup<N, M>,
    events: Seq<EventModel>,
    targets: Seq<usize>,
    request: ScanRequest,
) -> bool {
    let chosen = active(events, events.len() as int);
    &&& request.active_rows@ == chosen
    &&& request.event_offsets@.len() == chosen.len() + 1
    &&& forall|i: int|
        0 <= i <= chosen.len() ==> #[trigger] request.event_offsets@[i] == joined_values(
            events,
            chosen,
            i,
        ).len()
    &&& request.de_sim@ == joined_values(events, chosen, chosen.len() as int)
    &&& request.lag_flat@ == joined_lags(
        events,
        chosen,
        s.ti_strides(),
        chosen.len() as int,
    )
    &&& exists|parts: Seq<Seq<u64>>| #[trigger]
        weighs_all(s, events, chosen, parts) && request.node_weights@ == joined(
            parts,
            parts.len() as int,
        )
    &&& request.variable_weights@ == chosen_of(s.variable_weights@, chosen)
    &&& request.metric_kinds@ == chosen_of(s.metric_kinds@, chosen)
    &&& request.has_nan@ == chosen_of(s.has_nan@, chosen)
    &&& request.d_max@ == chosen_of(s.d_max@, chosen)
    &&& request.p_norm@ == chosen_of(s.p_norm@, chosen)
    &&& request.target_rows@ == targets
    &&& request.check_centers == image::incomplete(s.ti_rows())
}

/// The entries of the chosen variables.
pub open spec fn chosen_of<T>(all: Seq<T>, chosen: Seq<usize>) -> Seq<T> {
    Seq::new(chosen.len(), |i: int| all[chosen[i] as int])
}

/// How many candidates a scan looks at: as many as the budget allows and the window has,
/// and at least one.
pub open spec fn scan_length(budget: int, window_size: int) -> int {
    vstd::math::max(1, vstd::math::min(window_size, budget))
}

/// What the distance may be for an anchor at `base`.
pub open spec fn measure<M: Metric>(
    m: M,
    ti: ValueGrid,
    request: ScanRequest,
) -> spec_fn(int, u64) -> bool {
    |base: int, d: u64| setup::measures(m, ti, request, base as i64, d)
}

/// The scan that a node makes.
pub open spec fn node_sweep<N: Arithmetic, M: Metric>(
    s: Setup<N, M>,
    events: Seq<EventModel>,
    start: usize,
    budget: usize,
) -> Sweep {
    let shape = fitting::extents(events, s.ti_shape@);
    Sweep {
        lo: fitting::corner(events, s.ti_shape@),
        shape,
        start: start as int,
        max_scan: scan_length(budget as int, index::size(shape)),
        threshold: s.threshold,
        strides: s.ti_strides(),
    }
}

/// The scan of a node may be made with this request, start and budget, and end with
/// `found`.
pub open spec fn scans_with<N: Arithmetic, M: Metric>(
    s: Setup<N, M>,
    node: int,
    events: Seq<EventModel>,
    targets: Seq<usize>,
    request: ScanRequest,
    start: usize,
    budget: usize,
    found: Option<Seq<i64>>,
) -> bool {
    &&& requests(s, events, targets, request)
    &&& arithmetic::takes_part(
        *s.arithmetic,
        s.u_start@[node],
        index::size(fitting::extents(events, s.ti_shape@)) as usize,
        start,
    )
    &&& arithmetic::takes_part(
        *s.arithmetic,
        s.scan_fraction,
        index::size(s.ti_shape@) as usize,
        budget,
    )
    &&& node_sweep(s, events, start, budget).finds(measure(*s.metric, *s.ti, request), found)
}

/// `found` is an outcome of the scan of a node.
pub open spec fn scans_for<N: Arithmetic, M: Metric>(
    s: Setup<N, M>,
    node: int,
    events: Seq<EventModel>,
    targets: Seq<usize>,
    found: Option<Seq<i64>>,
) -> bool {
    exists|request: ScanRequest, start: usize, budget: usize| #[trigger]
        scans_with(s, node, events, targets, request, start, budget, found)
}

fn pick<T: Copy>(all: &[T], chosen: &Vec<usize>) -> (r: Vec<T>)
    requires
        forall|i: int| 0 <= i < chosen@.len() ==> #[trigger] chosen@[i] < all@.len(),
    ensures
        r@ == chosen_of(all@, chosen@),
{
    let mut r: Vec<T> = Vec::new();
    let mut i: usize = 0;
    while i < chosen.len()
        invariant
            i <= chosen@.len(),
            forall|i: int| 0 <= i < chosen@.len() ==> #[trigger] chosen@[i] < all@.len(),
            r@.len() == i,
            forall|j: int| 0 <= j < i ==> #[trigger] r@[j] == all@[chosen@[j] as int],
        decreases chosen@.len() - i,
    {
        r.push(all[chosen[i]]);
        i = i + 1;
    }
    assert(r@ =~= chosen_of(all@, chosen@));
    r
}

fn active_variables(events: &Vec<Event>) -> (chosen: Vec<usize>)
    ensures
        chosen@ == active(gathering::event_views(events@), events@.len() as int),
        forall|i: int| 0 <= i < chosen@.len() ==> #[trigger] chosen@[i] < events@.len(),
{
    let ghost views = gathering::event_views(events@);
    let mut chosen: Vec<usize> = Vec::new();
    let mut v: usize = 0;
    while v < events.len()
        invariant
            v <= events@.len(),
            views == gathering::event_views(events@),
            chosen@ == active(views, v as int),
            forall|i: int| 0 <= i < chosen@.len() ==> #[trigger] chosen@[i] < v,
        decreases events@.len() - v,
    {
        assert(views[v as int] == events@[v as int]@);
        if events[v].len() > 0 {
            chosen.push(v);
        }
        v = v + 1;
    }
    chosen
}

fn append_flat_lags(data: &mut Vec<i64>, event: &Event, shape: &[i64], strides: &[i64])
    requires
        index::countable(shape@),
        strides@ == index::strides_of(shape@),
        forall|i: int|
            0 <= i < event@.lags.len() ==> index::within(#[trigger] event@.lags[i], shape@),
    ensures
        final(data)@ == old(data)@ + flat_lags(event@, strides@),
{
    let ghost before = data@;
    let ghost all = flat_lags(event@, strides@);
    let mut i: usize = 0;
    while i < event.lags.len()
        invariant
            i <= event.lags@.len(),
            index::countable(shape@),
            strides@ == index::strides_of(shape@),
            forall|i: int|
                0 <= i < event@.lags.len() ==> index::within(#[trigger] event@.lags[i], shape@),
            all == flat_lags(event@, strides@),
            data@ == before + all.take(i as int),
        decreases event.lags@.len() - i,
    {
        proof {
            assert(event@.lags[i as int] == event.lags@[i as int]@);
            index::short_lags_have_flat_distances(event@.lags[i as int], shape@);
            assert(index::extent(shape@, 0) <= i64::MAX);
        }
        let flat: i64 = index::flat_lag(&event.lags[i], strides);
        data.push(flat);
        i = i + 1;
        assert(all[i - 1] == flat);
        assert(data@ =~= before + all.take(i as int));
    }
    assert(all.take(i as int) =~= all);
}

proof fn joined_stays(parts: Seq<Seq<u64>>, more: Seq<Seq<u64>>, count: int)
    requires
        forall|i: int| 0 <= i < count ==> #[trigger] parts[i] == more[i],
    ensures
        joined(parts, count) == joined(more, count),
    decreases count,
{
    if count > 0 {
        joined_stays(parts, more, count - 1);
        assert(parts[count - 1] == more[count - 1]);
    }
}

/// Puts the events together for a scan.
fn build_request<N: Arithmetic, M: Metric>(
    s: &Setup<N, M>,
    events: &Vec<Event>,
    targets: &Vec<usize>,
    ti_strides: &[i64],
    ti_has_nan: bool,
) -> (request: ScanRequest)
    requires
        index::countable(s.ti_shape@),
        ti_strides@ == s.ti_strides(),
        ti_has_nan == image::incomplete(s.ti_rows()),
        events@.len() == s.variables(),
        s.variable_weights@.len() == s.variables(),
        s.metric_kinds@.len() == s.variables(),
        s.has_nan@.len() == s.variables(),
        s.d_max@.len() == s.variables(),
        s.p_norm@.len() == s.variables(),
        forall|v: int|
            0 <= v < events@.len() ==> gathering::shaped((#[trigger] events@[v])@, s.ti_shape@),
        fitting::overlap(gathering::event_views(events@), s.ti_shape@),
    ensures
        requests(*s, gathering::event_views(events@), targets@, request),
{
    let ghost views = gathering::event_views(events@);
    let chosen: Vec<usize> = active_variables(events);
    let mut event_offsets: Vec<usize> = Vec::new();
    let mut de_sim: Vec<u64> = Vec::new();
    let mut lag_flat: Vec<i64> = Vec::new();
    let mut node_weights: Vec<u64> = Vec::new();
    let ghost mut parts: Seq<Seq<u64>> = Seq::empty();
    event_offsets.push(0);
    let mut k: usize = 0;
    while k < chosen.len()
        invariant
            k <= chosen@.len(),
            index::countable(s.ti_shape@),
            ti_strides@ == s.ti_strides(),
            views == gathering::event_views(events@),
            forall|v: int|
                0 <= v < events@.len() ==> gathering::shaped((#[trigger] events@[v])@, s.ti_shape@),
            fitting::overlap(views, s.ti_shape@),
            forall|i: int| 0 <= i < chosen@.len() ==> #[trigger] chosen@[i] < events@.len(),
            event_offsets@.len() == k + 1,
            forall|i: int|
                0 <= i <= k ==> #[trigger] event_offsets@[i] == joined_values(
                    views,
                    chosen@,
                    i,
                ).len(),
            de_sim@ == joined_values(views, chosen@, k as int),
            lag_flat@ == joined_lags(views, chosen@, s.ti_strides(), k as int),
            parts.len() == k,
            node_weights@ == joined(parts, k as int),
            forall|i: int|
                0 <= i < k ==> weights::weighs(
                    *s.arithmetic,
                    views[chosen@[i] as int].lag_norms,
                    views[chosen@[i] as int].conditioned,
                    s.distance_power,
                    s.cond_weight,
                    #[trigger] parts[i],
                ),
        decreases chosen@.len() - k,
    {
        let variable: usize = chosen[k];
        let event: &Event = &events[variable];
        proof {
            assert(views[variable as int] == event@);
            assert(gathering::shaped(events@[variable as int]@, s.ti_shape@));
            assert forall|i: int| 0 <= i < event@.lags.len() implies index::within(
                #[trigger] event@.lags[i],
                s.ti_shape@,
            ) by {
                fitting::overlapping_lags_are_short(views, s.ti_shape@, variable as int, i);
            }
        }
        grid::extend(&mut de_sim, &event.values);
        append_flat_lags(&mut lag_flat, event, s.ti_shape, ti_strides);
        let shares: Vec<u64> = weights::compute_node_weights(
            s.arithmetic,
            &event.lag_norms,
            &event.conditioned,
            s.distance_power,
            s.cond_weight,
        );
        grid::extend(&mut node_weights, &shares);
        event_offsets.push(de_sim.len());
        proof {
            joined_stays(parts, parts.push(shares@), k as int);
            parts = parts.push(shares@);
        }
        k = k + 1;
    }
    assert(weighs_all(*s, views, chosen@, parts));
    let target_rows: Vec<usize> = targets.clone();
    assert(target_rows@ =~= targets@);
    let variable_weights: Vec<u64> = pick(s.variable_weights, &chosen);
    let metric_kinds: Vec<i64> = pick(s.metric_kinds, &chosen);
    let has_nan: Vec<u8> = pick(s.has_nan, &chosen);
    let d_max: Vec<u64> = pick(s.d_max, &chosen);
    let p_norm: Vec<u64> = pick(s.p_norm, &chosen);
    ScanRequest {
        active_rows: chosen,
        event_offsets,
        de_sim,
        lag_flat,
        node_weights,
        variable_weights,
        metric_kinds,
        has_nan,
        d_max,
        p_norm,
        target_rows,
        check_centers: ti_has_nan,
    }
}

/// A common window can be scanned: it has an anchor, its anchors have flat positions, and all
/// of them lie in the window.
pub proof fn common_windows_can_be_scanned<N: Arithmetic, M: Metric>(
    s: Setup<N, M>,
    events: Seq<EventModel>,
    start: usize,
    budget: usize,
)
    requires
        index::countable(s.ti_shape@),
        fitting::overlap(events, s.ti_shape@),
        events.len() > 0,
    ensures
        node_sweep(s, events, start, budget).feasible(),
        0 < index::size(fitting::extents(events, s.ti_shape@)) <= index::size(s.ti_shape@),
        forall|anchor: Seq<i64>| #[trigger]
            node_sweep(s, events, start, budget).covers(anchor) ==> fitting::in_common_window(
                events,
                s.ti_shape@,
                anchor,
            ),
{
    let shape = s.ti_shape@;
    let sizes = fitting::extents(events, shape);
    let w = node_sweep(s, events, start, budget);
    let count = events.len() as int;
    assert forall|a: int| 0 <= a < shape.len() implies {
        &&& 0 < #[trigger] sizes[a] <= shape[a]
        &&& w.lo[a] == fitting::window_lo(events, a, count)
        &&& w.lo[a] + sizes[a] == fitting::window_hi(events, shape, a, count) + 1
        &&& w.lo[a] + sizes[a] <= i64::MAX
    } by {
        fitting::common_window_is_in_the_image(events, shape, a, count);
        assert(fitting::window_lo(events, a, count) <= fitting::window_hi(events, shape, a, count));
    }
    index::smaller_grids_are_countable(sizes, shape);
    index::positive_shapes_have_cells(sizes);
    assert forall|a: int| 0 <= a < w.shape.len() implies #[trigger] w.lo[a] + w.shape[a]
        <= i64::MAX by {
        assert(0 < sizes[a]);
    }
    assert forall|anchor: Seq<i64>| #[trigger] w.covers(anchor) implies fitting::in_common_window(
        events,
        shape,
        anchor,
    ) && index::summable(anchor, w.strides) && 0 <= w.base(anchor) <= i64::MAX && w.base(anchor)
        <= usize::MAX by {
        assert forall|a: int| 0 <= a < shape.len() implies fitting::window_lo(events, a, count)
            <= #[trigger] anchor[a] <= fitting::window_hi(events, shape, a, count) by {
            assert(0 < sizes[a]);
        }
        fitting::common_windows_admit_every_event(events, shape, anchor, 0);
        index::cells_have_positions(anchor, shape);
        assert(index::extent(shape, 0) <= i64::MAX);
    }
}

/// Scans the common window of the events.
pub(crate) fn scan_window<N: Arithmetic, M: Metric>(
    s: &Setup<N, M>,
    node: usize,
    events: &Vec<Event>,
    targets: &Vec<usize>,
    lo: &[i64],
    win_shape: &[i64],
    ti_strides: &[i64],
    ti_has_nan: bool,
) -> (found: Option<Vec<i64>>)
    requires
        index::countable(s.ti_shape@),
        ti_strides@ == s.ti_strides(),
        ti_has_nan == image::incomplete(s.ti_rows()),
        node < s.u_start@.len(),
        events@.len() == s.variables(),
        events@.len() > 0,
        s.variable_weights@.len() == s.variables(),
        s.metric_kinds@.len() == s.variables(),
        s.has_nan@.len() == s.variables(),
        s.d_max@.len() == s.variables(),
        s.p_norm@.len() == s.variables(),
        forall|v: int|
            0 <= v < events@.len() ==> gathering::shaped((#[trigger] events@[v])@, s.ti_shape@),
        fitting::overlap(gathering::event_views(events@), s.ti_shape@),
        lo@ == fitting::corner(gathering::event_views(events@), s.ti_shape@),
        win_shape@ == fitting::extents(gathering::event_views(events@), s.ti_shape@),
    ensures
        scans_for(
            *s,
            node as int,
            gathering::event_views(events@),
            targets@,
            scan::optional(found),
        ),
        found matches Some(anchor) ==> fitting::in_common_window(
            gathering::event_views(events@),
            s.ti_shape@,
            anchor@,
        ),
{
    let ghost views = gathering::event_views(events@);
    let request: ScanRequest = build_request(s, events, targets, ti_strides, ti_has_nan);
    proof {
        common_windows_can_be_scanned(*s, views, 0, 0);
    }
    let win_size: usize = index::cell_count(win_shape);
    let ti_size: usize = index::cell_count(s.ti_shape);
    let budget: usize = arithmetic::part_of(s.arithmetic, s.scan_fraction, ti_size);
    let start: usize = arithmetic::part_of(s.arithmetic, s.u_start[node], win_size);
    let most: usize = if win_size < budget {
        win_size
    } else {
        budget
    };
    let max_scan: usize = if most < 1 {
        1
    } else {
        most
    };
    let ghost w = node_sweep(*s, views, start, budget);
    proof {
        common_windows_can_be_scanned(*s, views, start, budget);
        assert(w == scan::sweep(lo, win_shape, start, max_scan, s.threshold, ti_strides));
    }
    let metric = s.metric;
    let ti = s.ti;
    let asked: &ScanRequest = &request;
    let distance_at = |base: i64| -> (d: u64)
        ensures
            setup::measures(*metric, *ti, *asked, base, d),
        { setup::distance(metric, ti, asked, base) };
    let found: Option<Vec<i64>> = scan::scan_node(
        lo,
        win_shape,
        start,
        max_scan,
        s.threshold,
        ti_strides,
        distance_at,
    );
    proof {
        let closure = scan::measured_by(distance_at);
        let asked_for = measure(*s.metric, *s.ti, request);
        assert forall|anchor: Seq<i64>, d: u64|
            #[trigger] w.covers(anchor) && closure(w.base(anchor), d) implies #[trigger] asked_for(
            w.base(anchor),
            d,
        ) by {}
        scan::scan_under_a_weaker_measure(w, closure, asked_for, scan::optional(found));
        assert(scans_with(
            *s,
            node as int,
            views,
            targets@,
            request,
            start,
            budget,
            scan::optional(found),
        ));
        if found is Some {
            scan::found_anchors_are_in_the_window(w, asked_for, found->0@);
        }
    }
    found
}

} // verus!
