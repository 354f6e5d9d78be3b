//! What a scan of a window finds, and what it goes by.

use crate::arithmetic::{self, Arithmetic};
use crate::distance;
use crate::event::EventModel;
use crate::exactness::Reading;
use crate::fitting;
use crate::index;
use crate::laws::distances;
use crate::laws::windows;
use crate::scan::{self, Sweep};
use crate::search;
use crate::setup::{Metric, ScanRequest, Setup};
use crate::weights;
use crate::window;
use crate::word;
use vstd::prelude::*;

verus! {

/// The place of an anchor in the window, in row-major order.
pub open spec fn position(w: Sweep, anchor: Seq<i64>) -> int {
    index::dot(
        Seq::new(w.lo.len(), |a: int| (anchor[a] - w.lo[a]) as i64),
        index::strides_of(w.shape),
    )
}

/// How many anchors come before this one: the scan begins at place `start`, goes on in row-major
/// order, and wraps round at the end of the window.
pub open spec fn turn(w: Sweep, anchor: Seq<i64>) -> int {
    (position(w, anchor) - w.start) % index::size(w.shape)
}

/// The anchor lies in the window.
pub open spec fn in_window(w: Sweep, anchor: Seq<i64>) -> bool {
    &&& anchor.len() == w.lo.len()
    &&& forall|a: int|
        0 <= a < w.lo.len() ==> w.lo[a] <= #[trigger] anchor[a] && anchor[a] - w.lo[a] < w.shape[a]
}

/// The distance is good enough to end a scan: zero, where the threshold is zero or less, and below
/// the threshold otherwise.
pub open spec fn good_enough(threshold: u64, d: u64) -> bool {
    if word::below(threshold, word::ZERO) || word::same(threshold, word::ZERO) {
        word::same(d, word::ZERO)
    } else {
        word::below(d, threshold)
    }
}

proof fn acceptance_is_as_said(threshold: u64, d: u64)
    ensures
        scan::accepted(threshold, d) == good_enough(threshold, d),
{
}

proof fn anchors_come_at_their_turn(w: Sweep, anchor: Seq<i64>)
    requires
        w.feasible(),
        0 < index::size(w.shape),
        in_window(w, anchor),
    ensures
        w.covers(anchor),
        0 <= turn(w, anchor) < index::size(w.shape),
        w.visited(turn(w, anchor)) == anchor,
{
    let size = index::size(w.shape);
    let away = Seq::new(w.lo.len(), |a: int| (anchor[a] - w.lo[a]) as i64);
    assert forall|a: int| 0 <= a < w.shape.len() implies 0 <= #[trigger] away[a]
        < w.shape[a] by {
        assert(w.lo[a] <= anchor[a] && anchor[a] - w.lo[a] < w.shape[a]);
    }
    assert(index::inside(away, w.shape));
    let pos = index::dot(away, index::strides_of(w.shape));
    index::cells_have_positions(away, w.shape);
    index::position_determines_cell(away, w.shape);
    let k = (pos - w.start) % size;
    assert((w.start + k) % size == pos) by {
        vstd::arithmetic::div_mod::lemma_add_mod_noop(w.start, pos - w.start, size);
        vstd::arithmetic::div_mod::lemma_add_mod_noop(w.start, k, size);
        vstd::arithmetic::div_mod::lemma_mod_twice(pos - w.start, size);
        vstd::arithmetic::div_mod::lemma_small_mod(pos as nat, size as nat);
    }
    assert forall|a: int| 0 <= a < w.lo.len() implies index::shifted(w.lo, away)[a]
        == #[trigger] anchor[a] by {
        assert(w.lo[a] <= anchor[a] && anchor[a] - w.lo[a] < w.shape[a]);
        assert(0 <= away[a] < w.shape[a]);
    }
    assert(w.visited(k) =~= anchor);
}

proof fn visits_come_in_turn(w: Sweep, k: int)
    requires
        w.feasible(),
        0 <= k < w.max_scan,
        k < index::size(w.shape),
    ensures
        in_window(w, w.visited(k)),
        turn(w, w.visited(k)) == k,
{
    let size = index::size(w.shape);
    let anchor = w.visited(k);
    scan::visited_anchors_are_in_the_window(w, k);
    assert forall|a: int| 0 <= a < w.lo.len() implies w.lo[a] <= #[trigger] anchor[a] && anchor[a]
        - w.lo[a] < w.shape[a] by {}
    anchors_come_at_their_turn(w, anchor);
    let t = turn(w, anchor);
    let p = (w.start + k) % size;
    let q = (w.start + t) % size;
    let x = index::coords_of(p, w.shape);
    let y = index::coords_of(q, w.shape);
    index::positions_have_cells(p, w.shape);
    index::positions_have_cells(q, w.shape);
    assert forall|a: int| 0 <= a < w.shape.len() implies #[trigger] x[a] == y[a] by {
        assert(w.visited(k)[a] == w.visited(t)[a]);
        assert(0 <= x[a] < w.shape[a] && 0 <= y[a] < w.shape[a]);
        assert(w.lo[a] + w.shape[a] <= i64::MAX);
        assert(index::shifted(w.lo, x)[a] == (w.lo[a] + x[a]) as i64);
        assert(index::shifted(w.lo, y)[a] == (w.lo[a] + y[a]) as i64);
    }
    assert(x =~= y);
    assert(p == q);
    turns_are_distinct(w.start, k, t, size);
}

proof fn turns_are_distinct(start: int, k: int, t: int, size: int)
    requires
        0 < size,
        0 <= k < size,
        0 <= t < size,
        (start + k) % size == (start + t) % size,
    ensures
        k == t,
{
    vstd::arithmetic::div_mod::lemma_fundamental_div_mod(start + k, size);
    vstd::arithmetic::div_mod::lemma_fundamental_div_mod(start + t, size);
    let a = (start + k) / size;
    let b = (start + t) / size;
    assert(k - t == size * (a - b)) by (nonlinear_arith)
        requires
            start + k == size * a + (start + k) % size,
            start + t == size * b + (start + t) % size,
            (start + k) % size == (start + t) % size,
    ;
    assert(a == b) by (nonlinear_arith)
        requires
            0 < size,
            -size < k - t < size,
            k - t == size * (a - b),
    ;
    assert(size * 0 == 0);
}

/// The anchor is among those that the scan may look at.
pub open spec fn considered(w: Sweep, anchor: Seq<i64>) -> bool {
    in_window(w, anchor) && turn(w, anchor) < w.max_scan
}

/// A scan finds the first anchor that is good enough, in the order of the scan; where none of those
/// that it may look at is, it finds the first of those at the least distance. Here `at(base)` is the
/// distance of the anchor at flat position `base`.
pub proof fn scans_find_the_first_that_is_good_enough_or_the_best(
    w: Sweep,
    measure: spec_fn(int, u64) -> bool,
    at: spec_fn(int) -> u64,
    found: Seq<i64>,
)
    requires
        w.feasible(),
        w.max_scan <= index::size(w.shape),
        forall|base: int, d: u64| #[trigger] measure(base, d) ==> d == at(base),
        w.finds(measure, Some(found)),
    ensures
        considered(w, found),
        forall|anchor: Seq<i64>| #[trigger]
            considered(w, anchor) && turn(w, anchor) < turn(w, found) ==> !good_enough(
                w.threshold,
                at(index::dot(anchor, w.strides)),
            ),
        good_enough(w.threshold, at(index::dot(found, w.strides))) || forall|anchor: Seq<i64>|
            #[trigger] considered(w, anchor) ==> {
                &&& !good_enough(w.threshold, at(index::dot(anchor, w.strides)))
                &&& !word::below(
                    at(index::dot(anchor, w.strides)),
                    at(index::dot(found, w.strides)),
                )
                &&& turn(w, anchor) < turn(w, found) ==> !word::same(
                    at(index::dot(anchor, w.strides)),
                    at(index::dot(found, w.strides)),
                )
            },
        good_enough(w.threshold, at(index::dot(found, w.strides))) || word::below(
            at(index::dot(found, w.strides)),
            word::INFINITY,
        ),
{
    let (ds, choice) = choose|ds: Seq<u64>, choice: Option<int>| #[trigger]
        w.ends(measure, ds, choice, Some(found));
    let k = choice->0;
    assert(0 <= k < ds.len() <= w.max_scan);
    visits_come_in_turn(w, k);
    assert(measure(w.base(w.visited(k)), ds[k]));
    acceptance_is_as_said(w.threshold, ds[k]);
    assert forall|anchor: Seq<i64>| #[trigger] considered(w, anchor) && turn(w, anchor)
        < ds.len() implies {
        let t = turn(w, anchor);
        &&& 0 <= t
        &&& ds[t] == at(index::dot(anchor, w.strides))
        &&& scan::accepted(w.threshold, ds[t]) == good_enough(w.threshold, ds[t])
    } by {
        let t = turn(w, anchor);
        anchors_come_at_their_turn(w, anchor);
        assert(measure(w.base(w.visited(t)), ds[t]));
        acceptance_is_as_said(w.threshold, ds[t]);
    }
    assert forall|anchor: Seq<i64>| #[trigger] considered(w, anchor) && turn(w, anchor)
        < turn(w, found) implies !good_enough(w.threshold, at(index::dot(anchor, w.strides))) by {
        let t = turn(w, anchor);
        assert(!scan::accepted(w.threshold, ds[t]));
    }
    if !good_enough(w.threshold, ds[k]) {
        if ds.len() < w.max_scan {
            assert(scan::accepted(w.threshold, ds[ds.len() - 1]));
            assert(!scan::accepted(w.threshold, ds[ds.len() - 1]));
        }
        assert forall|anchor: Seq<i64>| #[trigger] considered(w, anchor) implies {
            &&& !good_enough(w.threshold, at(index::dot(anchor, w.strides)))
            &&& !word::below(at(index::dot(anchor, w.strides)), at(index::dot(found, w.strides)))
            &&& turn(w, anchor) < turn(w, found) ==> !word::same(
                at(index::dot(anchor, w.strides)),
                at(index::dot(found, w.strides)),
            )
        } by {
            let t = turn(w, anchor);
            assert(turn(w, anchor) < ds.len());
            anchors_come_at_their_turn(w, anchor);
            assert(!scan::accepted(w.threshold, ds[t]));
            assert(!word::below(ds[t], ds[k]));
        }
    }
}

/// A scan finds nothing only where none of the anchors that it may look at is good enough, or at a
/// distance below infinity.
pub proof fn scans_find_something_where_there_is_something(
    w: Sweep,
    measure: spec_fn(int, u64) -> bool,
    at: spec_fn(int) -> u64,
    anchor: Seq<i64>,
)
    requires
        w.feasible(),
        w.max_scan <= index::size(w.shape),
        forall|base: int, d: u64| #[trigger] measure(base, d) ==> d == at(base),
        0 < index::size(w.shape),
        w.finds(measure, None),
        considered(w, anchor),
    ensures
        !good_enough(w.threshold, at(index::dot(anchor, w.strides))),
        !word::below(at(index::dot(anchor, w.strides)), word::INFINITY),
{
    let (ds, choice) = choose|ds: Seq<u64>, choice: Option<int>| #[trigger]
        w.ends(measure, ds, choice, None);
    anchors_come_at_their_turn(w, anchor);
    let t = turn(w, anchor);
    if ds.len() < w.max_scan {
        assert(scan::accepted(w.threshold, ds[ds.len() - 1]));
        assert(!scan::accepted(w.threshold, ds[ds.len() - 1]));
    }
    assert(measure(w.base(w.visited(t)), ds[t]));
    assert(!scan::accepted(w.threshold, ds[t]));
    acceptance_is_as_said(w.threshold, ds[t]);
}

/// A scan for labels finds a match where there is one among the anchors that it may look at: an
/// anchor that is good enough, and none later than the match.
pub proof fn label_scans_find_matches<N: Arithmetic>(
    n: N,
    w: Sweep,
    de_sim: Seq<u64>,
    ti: Seq<u64>,
    lag_flat: Seq<i64>,
    node_weights: Seq<u64>,
    found: Option<Seq<i64>>,
    anchor: Seq<i64>,
)
    requires
        distances::zero_is_neutral(n),
        w.feasible(),
        w.max_scan <= index::size(w.shape),
        !word::nan(w.threshold),
        lag_flat.len() == de_sim.len(),
        node_weights.len() == de_sim.len(),
        considered(w, anchor),
        forall|i: int|
            0 <= i < de_sim.len() ==> word::same(
                #[trigger] de_sim[i],
                ti[index::dot(anchor, w.strides) + lag_flat[i]],
            ),
        w.finds(
            scan::categorical_measure(n, de_sim, ti, lag_flat, node_weights),
            found,
        ),
    ensures
        found is Some,
        considered(w, found->0),
        turn(w, found->0) <= turn(w, anchor),
        exists|d: u64|
            good_enough(w.threshold, d) && #[trigger] distance::categorical_distance(
                n,
                de_sim,
                ti,
                index::dot(found->0, w.strides),
                lag_flat,
                node_weights,
                d,
            ),
{
    let measure = scan::categorical_measure(n, de_sim, ti, lag_flat, node_weights);
    let (ds, choice) = choose|ds: Seq<u64>, choice: Option<int>| #[trigger]
        w.ends(measure, ds, choice, found);
    assert(0 < index::size(w.shape)) by {
        let away = Seq::new(w.lo.len(), |a: int| (anchor[a] - w.lo[a]) as i64);
        assert forall|a: int| 0 <= a < w.shape.len() implies 0 <= #[trigger] away[a]
            < w.shape[a] by {
            assert(w.lo[a] <= anchor[a] && anchor[a] - w.lo[a] < w.shape[a]);
        }
        index::cells_have_positions(away, w.shape);
    }
    anchors_come_at_their_turn(w, anchor);
    let t = turn(w, anchor);
    if t < ds.len() {
        assert(measure(w.base(w.visited(t)), ds[t]));
        assert forall|i: int| 0 <= i < de_sim.len() implies !#[trigger] distances::differs(
            de_sim,
            ti,
            w.base(anchor),
            lag_flat,
            i,
        ) by {
            assert(word::same(de_sim[i], ti[w.base(anchor) + lag_flat[i]]));
        }
        distances::matches_are_at_distance_zero(
            n,
            de_sim,
            ti,
            w.base(anchor),
            lag_flat,
            node_weights,
            ds[t],
        );
        acceptance_is_as_said(w.threshold, ds[t]);
        assert(scan::accepted(w.threshold, ds[t]));
    } else {
        assert(scan::accepted(w.threshold, ds[ds.len() - 1]));
    }
    let k = choice->0;
    assert(choice is Some && k <= t);
    assert(scan::accepted(w.threshold, ds[k])) by {
        if t >= ds.len() {
            assert(scan::accepted(w.threshold, ds[ds.len() - 1]));
        }
    }
    visits_come_in_turn(w, k);
    assert(measure(w.base(w.visited(k)), ds[k]));
    acceptance_is_as_said(w.threshold, ds[k]);
}

/// A fraction of a count is taken without what is left over: where the operations are exact, `part`
/// is the whole part of the fraction times the count.
pub proof fn parts_are_whole_parts<N: Arithmetic>(
    n: N,
    r: Reading,
    fraction: u64,
    x: int,
    count: usize,
    part: usize,
)
    requires
        r.exact(n),
        r.says(fraction, x),
        0 <= x,
        r.holds(count * r.scale),
        r.holds(x * count),
        arithmetic::takes_part(n, fraction, count, part),
    ensures
        part * r.scale <= x * count < (part + 1) * r.scale,
{
    let (number, product) = choose|number: u64, product: u64|
        {
            &&& #[trigger] arithmetic::counts(n, count, number)
            &&& #[trigger] arithmetic::multiplies(n, fraction, number, product)
            &&& arithmetic::truncates(n, product, part)
        };
    let c = count as int;
    assert(r.says(number, c * r.scale));
    assert((x * c) * r.scale == x * (c * r.scale)) by (nonlinear_arith);
    assert(r.product(x, c * r.scale, x * c));
    assert(r.says(product, x * c));
    assert(0 <= x * c) by (nonlinear_arith)
        requires
            0 <= x,
            0 <= c,
    ;
}

/// The same of the size of an axis.
pub proof fn shares_are_whole_parts<N: Arithmetic>(
    n: N,
    r: Reading,
    fraction: u64,
    x: int,
    size: i64,
    share: i64,
)
    requires
        r.exact(n),
        r.says(fraction, x),
        0 <= x,
        0 <= size,
        r.holds(size * r.scale),
        r.holds(x * size),
        arithmetic::takes_share(n, fraction, size, share),
    ensures
        share * r.scale <= x * size < (share + 1) * r.scale,
{
    let (number, product) = choose|number: u64, product: u64|
        {
            &&& #[trigger] arithmetic::numbers(n, size, number)
            &&& #[trigger] arithmetic::multiplies(n, fraction, number, product)
            &&& arithmetic::cuts_to(n, product, share)
        };
    let c = size as int;
    assert(r.says(number, c * r.scale));
    assert((x * c) * r.scale == x * (c * r.scale)) by (nonlinear_arith);
    assert(r.product(x, c * r.scale, x * c));
    assert(r.says(product, x * c));
    assert(0 <= x * c) by (nonlinear_arith)
        requires
            0 <= x,
            0 <= c,
    ;
}

/// A node scans the anchors at which all of its events settle, and starts where its own number says:
/// at that part of the window. It looks at no more anchors than the given part of the whole image,
/// and at one at least.
pub proof fn nodes_scan_where_their_events_settle<N: Arithmetic, M: Metric>(
    s: Setup<N, M>,
    r: Reading,
    node: int,
    events: Seq<EventModel>,
    targets: Seq<usize>,
    request: ScanRequest,
    start: usize,
    budget: usize,
    found: Option<Seq<i64>>,
    begin: int,
    fraction: int,
)
    requires
        r.exact(*s.arithmetic),
        index::countable(s.ti_shape@),
        events.len() > 0,
        forall|v: int|
            0 <= v < events.len() ==> window::comparable(
                (#[trigger] events[v]).lags,
                events[v].lags.len() as int,
                s.ti_shape@,
            ),
        fitting::overlap(events, s.ti_shape@),
        r.says(s.u_start@[node], begin),
        0 <= begin,
        r.says(s.scan_fraction, fraction),
        0 <= fraction,
        r.holds(index::size(s.ti_shape@) * r.scale),
        r.holds(fraction * index::size(s.ti_shape@)),
        r.holds(begin * index::size(s.ti_shape@)),
        search::scans_with(s, node, events, targets, request, start, budget, found),
    ensures
        ({
            let w = search::node_sweep(s, events, start, budget);
            let cells = index::size(w.shape);
            let all = index::size(s.ti_shape@);
            &&& w.finds(search::measure(*s.metric, *s.ti, request), found)
            &&& forall|anchor: Seq<i64>| #[trigger]
                in_window(w, anchor) <==> windows::all_settle(events, s.ti_shape@, anchor)
            &&& w.start * r.scale <= begin * cells < (w.start + 1) * r.scale
            &&& 1 <= w.max_scan <= cells
            &&& w.max_scan > 1 ==> w.max_scan * r.scale <= fraction * all
            &&& w.max_scan < cells ==> (w.max_scan + 1) * r.scale > fraction * all
            &&& w.threshold == s.threshold
            &&& w.strides == index::strides_of(s.ti_shape@)
        }),
{
    let shape = s.ti_shape@;
    let w = search::node_sweep(s, events, start, budget);
    let cells = index::size(w.shape);
    let all = index::size(shape);
    search::common_windows_can_be_scanned(s, events, start, budget);
    assert(index::extent(shape, 0) <= usize::MAX);
    assert(0 <= cells * r.scale <= all * r.scale) by (nonlinear_arith)
        requires
            0 <= cells <= all,
            0 < r.scale,
    ;
    assert(0 <= begin * cells <= begin * all) by (nonlinear_arith)
        requires
            0 <= cells <= all,
            0 <= begin,
    ;
    parts_are_whole_parts(
        *s.arithmetic,
        r,
        s.u_start@[node],
        begin,
        cells as usize,
        start,
    );
    parts_are_whole_parts(
        *s.arithmetic,
        r,
        s.scan_fraction,
        fraction,
        all as usize,
        budget,
    );
    assert forall|anchor: Seq<i64>| #[trigger] in_window(w, anchor) <==> windows::all_settle(
        events,
        shape,
        anchor,
    ) by {
        windows::common_windows_hold_where_all_settle(events, shape, anchor);
        windows_are_common_windows(s, events, start, budget, anchor);
    }
    if w.max_scan > 1 {
        assert(w.max_scan <= budget);
        assert(w.max_scan * r.scale <= budget * r.scale) by (nonlinear_arith)
            requires
                w.max_scan <= budget,
                0 < r.scale,
        ;
    }
    if w.max_scan < cells {
        assert(budget <= w.max_scan);
        assert((w.max_scan + 1) * r.scale >= (budget + 1) * r.scale) by (nonlinear_arith)
            requires
                budget <= w.max_scan,
                0 < r.scale,
        ;
    }
}

proof fn windows_are_common_windows<N: Arithmetic, M: Metric>(
    s: Setup<N, M>,
    events: Seq<EventModel>,
    start: usize,
    budget: usize,
    anchor: Seq<i64>,
)
    requires
        index::countable(s.ti_shape@),
        events.len() > 0,
        fitting::overlap(events, s.ti_shape@),
    ensures
        in_window(search::node_sweep(s, events, start, budget), anchor)
            <==> fitting::in_common_window(events, s.ti_shape@, anchor),
{
    let shape = s.ti_shape@;
    let w = search::node_sweep(s, events, start, budget);
    let count = events.len() as int;
    assert forall|a: int| 0 <= a < shape.len() implies {
        &&& w.lo[a] == #[trigger] fitting::window_lo(events, a, count)
        &&& w.lo[a] + w.shape[a] == fitting::window_hi(events, shape, a, count) + 1
    } by {
        fitting::common_window_is_in_the_image(events, shape, a, count);
        assert(fitting::window_lo(events, a, count) <= fitting::window_hi(events, shape, a, count));
    }
    if in_window(w, anchor) {
        assert forall|a: int| 0 <= a < shape.len() implies fitting::window_lo(events, a, count)
            <= #[trigger] anchor[a] <= fitting::window_hi(events, shape, a, count) by {
            assert(w.lo[a] <= anchor[a] && anchor[a] - w.lo[a] < w.shape[a]);
        }
    }
    if fitting::in_common_window(events, shape, anchor) {
        assert forall|a: int| 0 <= a < w.lo.len() implies w.lo[a] <= #[trigger] anchor[a]
            && anchor[a] - w.lo[a] < w.shape[a] by {
            assert(fitting::window_lo(events, a, count) <= anchor[a]);
        }
    }
}

proof fn active_variables_are_those_with_events(events: Seq<EventModel>, count: int)
    requires
        0 <= count <= events.len(),
        count <= usize::MAX,
    ensures
        forall|v: int| 0 <= v <= usize::MAX ==> (#[trigger] search::active(events, count).contains(
            v as usize,
        ) <==> v < count && events[v].values.len() > 0),
        forall|i: int, j: int|
            0 <= i < j < search::active(events, count).len() ==> #[trigger] search::active(
                events,
                count,
            )[i] < #[trigger] search::active(events, count)[j],
        forall|i: int|
            0 <= i < search::active(events, count).len() ==> {
                let v = #[trigger] search::active(events, count)[i];
                v < count && events[v as int].values.len() > 0
            },
    decreases count,
{
    if count > 0 {
        active_variables_are_those_with_events(events, count - 1);
        let before = search::active(events, count - 1);
        let all = search::active(events, count);
        assert forall|v: int| 0 <= v <= usize::MAX implies (#[trigger] all.contains(v as usize)
            <==> v < count && events[v].values.len() > 0) by {
            if v == count - 1 && events[v].values.len() > 0 {
                assert(all[before.len() as int] == v);
            }
            if before.contains(v as usize) {
                let i = choose|i: int| 0 <= i < before.len() && before[i] == v as usize;
                assert(all[i] == v as usize);
            }
            if all.contains(v as usize) && v != count - 1 {
                let i = choose|i: int| 0 <= i < all.len() && all[i] == v as usize;
                assert(before[i] == v as usize);
            }
        }
    }
}

proof fn joined_parts<N: Arithmetic, M: Metric>(
    s: Setup<N, M>,
    events: Seq<EventModel>,
    chosen: Seq<usize>,
    parts: Seq<Seq<u64>>,
    k: int,
    count: int,
)
    requires
        0 <= k < count <= chosen.len(),
        parts.len() == chosen.len(),
        forall|i: int| 0 <= i < chosen.len() ==> events[(#[trigger] chosen[i]) as int].wf(),
        forall|i: int|
            0 <= i < chosen.len() ==> (#[trigger] parts[i]).len()
                == events[chosen[i] as int].values.len(),
    ensures
        ({
            let from = search::joined_values(events, chosen, k).len() as int;
            let to = search::joined_values(events, chosen, k + 1).len() as int;
            let e = events[chosen[k] as int];
            let strides = s.ti_strides();
            &&& to == from + e.values.len()
            &&& to <= search::joined_values(events, chosen, count).len()
            &&& search::joined_lags(events, chosen, strides, count).len()
                == search::joined_values(events, chosen, count).len()
            &&& search::joined(parts, count).len() == search::joined_values(
                events,
                chosen,
                count,
            ).len()
            &&& search::joined_values(events, chosen, count).subrange(from, to) == e.values
            &&& search::joined_lags(events, chosen, strides, count).subrange(from, to)
                == search::flat_lags(e, strides)
            &&& search::joined(parts, count).subrange(from, to) == parts[k]
        }),
    decreases count,
{
    let strides = s.ti_strides();
    let from = search::joined_values(events, chosen, k).len() as int;
    let to = search::joined_values(events, chosen, k + 1).len() as int;
    let e = events[chosen[k] as int];
    same_lengths(s, events, chosen, parts, count - 1);
    let last = events[chosen[count - 1] as int];
    assert(parts[count - 1].len() == last.values.len());
    assert(last.wf());
    if k < count - 1 {
        joined_parts(s, events, chosen, parts, k, count - 1);
        assert(search::joined_values(events, chosen, count).subrange(from, to)
            =~= search::joined_values(events, chosen, count - 1).subrange(from, to));
        assert(search::joined_lags(events, chosen, strides, count).subrange(from, to)
            =~= search::joined_lags(events, chosen, strides, count - 1).subrange(from, to));
        assert(search::joined(parts, count).subrange(from, to) =~= search::joined(
            parts,
            count - 1,
        ).subrange(from, to));
    } else {
        assert(search::joined_values(events, chosen, count).subrange(from, to) =~= e.values);
        assert(search::joined_lags(events, chosen, strides, count).subrange(from, to)
            =~= search::flat_lags(e, strides));
        assert(search::joined(parts, count).subrange(from, to) =~= parts[k]);
    }
}

proof fn same_lengths<N: Arithmetic, M: Metric>(
    s: Setup<N, M>,
    events: Seq<EventModel>,
    chosen: Seq<usize>,
    parts: Seq<Seq<u64>>,
    count: int,
)
    requires
        0 <= count <= chosen.len(),
        parts.len() == chosen.len(),
        forall|i: int| 0 <= i < chosen.len() ==> events[(#[trigger] chosen[i]) as int].wf(),
        forall|i: int|
            0 <= i < chosen.len() ==> (#[trigger] parts[i]).len()
                == events[chosen[i] as int].values.len(),
    ensures
        search::joined_lags(events, chosen, s.ti_strides(), count).len() == search::joined_values(
            events,
            chosen,
            count,
        ).len(),
        search::joined(parts, count).len() == search::joined_values(events, chosen, count).len(),
    decreases count,
{
    if count > 0 {
        same_lengths(s, events, chosen, parts, count - 1);
        assert(parts[count - 1].len() == events[chosen[count - 1] as int].values.len());
        assert(events[chosen[count - 1] as int].wf());
    }
}

/// A scan compares the events of the variables that have one, in order, each as it is: its values,
/// the flat lags to them, and their weights; and each variable by its own weight, kind, range and
/// exponent. Anchors must have a value for the variables that the node lacks where the image has
/// gaps.
pub proof fn scans_compare_each_event_as_it_is<N: Arithmetic, M: Metric>(
    s: Setup<N, M>,
    events: Seq<EventModel>,
    targets: Seq<usize>,
    request: ScanRequest,
    k: int,
)
    requires
        events.len() <= usize::MAX,
        forall|v: int| 0 <= v < events.len() ==> (#[trigger] events[v]).wf(),
        search::requests(s, events, targets, request),
        0 <= k < request.active_rows@.len(),
    ensures
        forall|v: int|
            0 <= v < events.len() && (#[trigger] events[v]).values.len() > 0
                ==> request.active_rows@.contains(v as usize),
        forall|i: int, j: int|
            0 <= i < j < request.active_rows@.len() ==> #[trigger] request.active_rows@[i]
                < #[trigger] request.active_rows@[j],
        request.event_offsets@[0] == 0,
        ({
            let v = request.active_rows@[k] as int;
            let from = request.event_offsets@[k] as int;
            let to = request.event_offsets@[k + 1] as int;
            &&& 0 <= v < events.len()
            &&& events[v].values.len() > 0
            &&& 0 <= from <= to <= request.de_sim@.len()
            &&& to <= request.lag_flat@.len()
            &&& to <= request.node_weights@.len()
            &&& request.de_sim@.subrange(from, to) == events[v].values
            &&& forall|i: int|
                0 <= i < events[v].lags.len() ==> #[trigger] request.lag_flat@[from + i]
                    == index::dot(
                    events[v].lags[i],
                    index::strides_of(s.ti_shape@),
                ) as i64
            &&& weights::weighs(
                *s.arithmetic,
                events[v].lag_norms,
                events[v].conditioned,
                s.distance_power,
                s.cond_weight,
                request.node_weights@.subrange(from, to),
            )
            &&& request.variable_weights@[k] == s.variable_weights@[v]
            &&& request.metric_kinds@[k] == s.metric_kinds@[v]
            &&& request.has_nan@[k] == s.has_nan@[v]
            &&& request.d_max@[k] == s.d_max@[v]
            &&& request.p_norm@[k] == s.p_norm@[v]
        }),
        request.target_rows@ == targets,
        request.check_centers <==> exists|v: int, c: int|
            0 <= v < s.ti_rows().len() && 0 <= c < s.ti_rows()[v].len() && word::nan(
                #[trigger] s.ti_rows()[v][c],
            ),
{
    let chosen = search::active(events, events.len() as int);
    let count = chosen.len() as int;
    active_variables_are_those_with_events(events, events.len() as int);
    assert forall|v: int| 0 <= v < events.len() && (#[trigger] events[v]).values.len()
        > 0 implies chosen.contains(v as usize) by {}
    let parts = choose|parts: Seq<Seq<u64>>| #[trigger]
        search::weighs_all(s, events, chosen, parts) && request.node_weights@ == search::joined(
            parts,
            parts.len() as int,
        );
    assert forall|i: int| 0 <= i < chosen.len() implies (#[trigger] parts[i]).len()
        == events[chosen[i] as int].values.len() && events[chosen[i] as int].wf() by {
        assert(chosen[i] < events.len());
        let e = events[chosen[i] as int];
        assert(weights::weighs(
            *s.arithmetic,
            e.lag_norms,
            e.conditioned,
            s.distance_power,
            s.cond_weight,
            parts[i],
        ));
    }
    assert forall|i: int| 0 <= i < chosen.len() implies events[(
    #[trigger] chosen[i]) as int].wf() by {
        assert(parts[i].len() == events[chosen[i] as int].values.len());
    }
    joined_parts(s, events, chosen, parts, k, count);
    let from = search::joined_values(events, chosen, k).len() as int;
    let to = search::joined_values(events, chosen, k + 1).len() as int;
    assert(request.event_offsets@[k] == from);
    assert(request.event_offsets@[k + 1] == to);
    assert(request.event_offsets@[0] == search::joined_values(events, chosen, 0).len());
    let e = events[chosen[k] as int];
    assert(chosen[k] < events.len());
    assert forall|i: int| 0 <= i < e.lags.len() implies #[trigger] request.lag_flat@[from + i]
        == index::dot(e.lags[i], index::strides_of(s.ti_shape@)) as i64 by {
        assert(request.lag_flat@.subrange(from, to)[i] == search::flat_lags(
            e,
            s.ti_strides(),
        )[i]);
    }
    assert(weights::weighs(
        *s.arithmetic,
        e.lag_norms,
        e.conditioned,
        s.distance_power,
        s.cond_weight,
        parts[k],
    ));
}

} // verus!
