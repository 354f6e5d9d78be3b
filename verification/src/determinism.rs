//! Where every rounding operation and every distance has one outcome, so has a simulation,
//! however many threads it runs on.

use crate::arithmetic::{self, Arithmetic};
use crate::distance;
use crate::event::{self, EventModel};
use crate::fitting;
use crate::gathering;
use crate::grid::{self, ValueGrid};
use crate::guarantees;
use crate::image;
use crate::index;
use crate::messages;
use crate::mps_engine::{self, Progress, SimulationOutput};
use crate::neighbors::{self, CachedNode, Neighbor, PathModel};
use crate::node::{self, NodeResult};
use crate::retrieval;
use crate::scan::{self, Sweep};
use crate::search;
use crate::setup::{self, Metric, ScanRequest, Setup};
use crate::weights;
use crate::word;
use vstd::prelude::*;

verus! {

// ---------------------------------------------------------------------------------------
// What holds the same
// ---------------------------------------------------------------------------------------

/// The cells are the same.
pub open spec fn same_list(a: Seq<Neighbor>, b: Seq<Neighbor>) -> bool {
    &&& a.len() == b.len()
    &&& forall|j: int|
        0 <= j < a.len() ==> (#[trigger] a[j]).flat == b[j].flat && a[j].lag@ == b[j].lag@
}

/// The nodes look at the same cells and have the same level.
pub open spec fn same_cached(a: CachedNode, b: CachedNode) -> bool {
    &&& a.level == b.level
    &&& a.by_variable@.len() == b.by_variable@.len()
    &&& forall|v: int|
        0 <= v < a.by_variable@.len() ==> same_list(
            (#[trigger] a.by_variable@[v])@,
            b.by_variable@[v]@,
        )
}

/// The caches are the same, node by node.
pub open spec fn same_cache(a: Seq<CachedNode>, b: Seq<CachedNode>) -> bool {
    &&& a.len() == b.len()
    &&& forall|i: int| 0 <= i < a.len() ==> same_cached(#[trigger] a[i], b[i])
}

/// The requests ask for the same.
pub open spec fn same_request(a: ScanRequest, b: ScanRequest) -> bool {
    &&& a.active_rows@ == b.active_rows@
    &&& a.event_offsets@ == b.event_offsets@
    &&& a.de_sim@ == b.de_sim@
    &&& a.lag_flat@ == b.lag_flat@
    &&& a.node_weights@ == b.node_weights@
    &&& a.variable_weights@ == b.variable_weights@
    &&& a.metric_kinds@ == b.metric_kinds@
    &&& a.has_nan@ == b.has_nan@
    &&& a.d_max@ == b.d_max@
    &&& a.p_norm@ == b.p_norm@
    &&& a.target_rows@ == b.target_rows@
    &&& a.check_centers == b.check_centers
}

/// The results are the same.
pub open spec fn same_result(a: NodeResult, b: NodeResult) -> bool {
    &&& a.flat == b.flat
    &&& a.values@ == b.values@
    &&& a.strict_fallback_count == b.strict_fallback_count
    &&& a.collapsed_lag_count == b.collapsed_lag_count
}

/// The results are the same, one by one.
pub open spec fn same_results(a: Seq<NodeResult>, b: Seq<NodeResult>) -> bool {
    &&& a.len() == b.len()
    &&& forall|i: int| 0 <= i < a.len() ==> same_result(#[trigger] a[i], b[i])
}

/// The distance of an anchor has at most one outcome, and goes by what the request asks for.
pub open spec fn functional_metric<M: Metric>(m: M, ti: ValueGrid) -> bool {
    forall|a: ScanRequest, b: ScanRequest, base: i64, d: u64, e: u64|
        #[trigger] setup::measures(m, ti, a, base, d) && #[trigger] setup::measures(
            m,
            ti,
            b,
            base,
            e,
        ) && same_request(a, b) ==> d == e
}

/// Every rounding operation and every distance has at most one outcome.
pub open spec fn determined<N: Arithmetic, M: Metric>(s: Setup<N, M>) -> bool {
    arithmetic::functional(*s.arithmetic) && functional_metric(*s.metric, *s.ti)
}

// ---------------------------------------------------------------------------------------
// What is computed with rounding
// ---------------------------------------------------------------------------------------

proof fn squares_agree<N: Arithmetic>(n: N, offset: Seq<i64>, d: u64, e: u64)
    requires
        arithmetic::functional(n),
        neighbors::squares(n, offset, d),
        neighbors::squares(n, offset, e),
    ensures
        d == e,
{
    let steps = neighbors::square_steps(n, offset);
    assert forall|i: int, p: u64, q: u64, t: u64|
        0 <= i < offset.len() && #[trigger] steps(i, p, q) && #[trigger] steps(i, p, t) implies q
        == t by {
        assert(neighbors::square_step(n, offset[i], p, q));
        assert(neighbors::square_step(n, offset[i], p, t));
    }
    arithmetic::accumulations_agree(steps, steps, offset.len() as int, d, e);
}

proof fn lengths_agree<N: Arithmetic>(n: N, lag: Seq<i64>, norm: u64, other: u64)
    requires
        arithmetic::functional(n),
        gathering::measures_lag(n, lag, norm),
        gathering::measures_lag(n, lag, other),
    ensures
        norm == other,
{
    let d = choose|d: u64| #[trigger]
        neighbors::squares(n, lag, d) && arithmetic::roots(n, d, norm);
    let e = choose|e: u64| #[trigger]
        neighbors::squares(n, lag, e) && arithmetic::roots(n, e, other);
    squares_agree(n, lag, d, e);
}

proof fn mapped_lags_agree<N: Arithmetic>(
    n: N,
    matrix: Seq<Vec<u64>>,
    lags: Seq<Seq<i64>>,
    mapped: Seq<Seq<i64>>,
    other: Seq<Seq<i64>>,
)
    requires
        arithmetic::functional(n),
        event::maps_lags(n, matrix, lags, mapped),
        event::maps_lags(n, matrix, lags, other),
    ensures
        mapped == other,
{
    assert forall|i: int| 0 <= i < lags.len() implies #[trigger] mapped[i] == other[i] by {
        assert(event::maps_lag(n, matrix, lags[i], mapped[i]));
        assert(event::maps_lag(n, matrix, lags[i], other[i]));
        assert forall|a: int| 0 <= a < lags[i].len() implies #[trigger] mapped[i][a]
            == other[i][a] by {
            assert(event::maps_component(n, matrix[a]@, lags[i], mapped[i][a]));
            assert(event::maps_component(n, matrix[a]@, lags[i], other[i][a]));
            mapped_components_agree(n, matrix[a]@, lags[i], mapped[i][a], other[i][a]);
        }
        assert(mapped[i] =~= other[i]);
    }
    assert(mapped =~= other);
}

proof fn mapped_components_agree<N: Arithmetic>(
    n: N,
    row: Seq<u64>,
    lag: Seq<i64>,
    component: i64,
    other: i64,
)
    requires
        arithmetic::functional(n),
        event::maps_component(n, row, lag, component),
        event::maps_component(n, row, lag, other),
    ensures
        component == other,
{
    let steps = event::mapping_steps(n, row, lag);
    let x = choose|total: u64|
        {
            &&& arithmetic::accumulates(steps, lag.len() as int, total)
            &&& #[trigger] arithmetic::rounds(n, total, component)
        };
    let y = choose|total: u64|
        {
            &&& arithmetic::accumulates(steps, lag.len() as int, total)
            &&& #[trigger] arithmetic::rounds(n, total, other)
        };
    assert forall|i: int, p: u64, q: u64, t: u64|
        0 <= i < lag.len() && #[trigger] steps(i, p, q) && #[trigger] steps(i, p, t) implies q
        == t by {
        assert(event::mapping_step(n, lag[i], row[i], p, q));
        assert(event::mapping_step(n, lag[i], row[i], p, t));
    }
    arithmetic::accumulations_agree(steps, steps, lag.len() as int, x, y);
}

proof fn raw_weights_agree<N: Arithmetic>(
    n: N,
    norm: u64,
    conditioned: bool,
    distance_power: u64,
    cond_weight: u64,
    weight: u64,
    other: u64,
)
    requires
        arithmetic::functional(n),
        weights::raw_weight(n, norm, conditioned, distance_power, cond_weight, weight),
        weights::raw_weight(n, norm, conditioned, distance_power, cond_weight, other),
    ensures
        weight == other,
{
    if conditioned {
        let x = choose|decayed: u64| #[trigger]
            weights::decays(n, norm, distance_power, decayed) && arithmetic::multiplies(
                n,
                decayed,
                cond_weight,
                weight,
            );
        let y = choose|decayed: u64| #[trigger]
            weights::decays(n, norm, distance_power, decayed) && arithmetic::multiplies(
                n,
                decayed,
                cond_weight,
                other,
            );
        assert(x == y);
    }
}

proof fn weights_agree<N: Arithmetic>(
    n: N,
    lag_norms: Seq<u64>,
    conditioned: Seq<bool>,
    distance_power: u64,
    cond_weight: u64,
    first: Seq<u64>,
    second: Seq<u64>,
)
    requires
        arithmetic::functional(n),
        weights::weighs(n, lag_norms, conditioned, distance_power, cond_weight, first),
        weights::weighs(n, lag_norms, conditioned, distance_power, cond_weight, second),
    ensures
        first == second,
{
    let (raw, total) = choose|raw: Seq<u64>, total: u64|
        {
            &&& weights::raw_weights(n, lag_norms, conditioned, distance_power, cond_weight, raw)
            &&& arithmetic::sums(n, raw, total)
            &&& #[trigger] weights::scales(n, raw, total, first)
        };
    let (other, sum) = choose|raw: Seq<u64>, total: u64|
        {
            &&& weights::raw_weights(n, lag_norms, conditioned, distance_power, cond_weight, raw)
            &&& arithmetic::sums(n, raw, total)
            &&& #[trigger] weights::scales(n, raw, total, second)
        };
    assert forall|i: int| 0 <= i < raw.len() implies #[trigger] raw[i] == other[i] by {
        raw_weights_agree(
            n,
            lag_norms[i],
            i < conditioned.len() && conditioned[i],
            distance_power,
            cond_weight,
            raw[i],
            other[i],
        );
    }
    assert(raw =~= other);
    arithmetic::sums_agree(n, raw, total, sum);
    scaled_weights_agree(n, raw, total, first, second);
}

proof fn scaled_weights_agree<N: Arithmetic>(
    n: N,
    raw: Seq<u64>,
    total: u64,
    first: Seq<u64>,
    second: Seq<u64>,
)
    requires
        arithmetic::functional(n),
        weights::scales(n, raw, total, first),
        weights::scales(n, raw, total, second),
    ensures
        first == second,
{
    if word::same(total, word::ZERO) {
    } else if !word::finite(total) {
        let count = raw.len() as usize;
        let x = choose|share: u64| #[trigger]
            weights::equal_share(n, count, share) && forall|i: int|
                0 <= i < raw.len() ==> #[trigger] first[i] == share;
        let y = choose|share: u64| #[trigger]
            weights::equal_share(n, count, share) && forall|i: int|
                0 <= i < raw.len() ==> #[trigger] second[i] == share;
        assert(x == y);
    } else {
        assert forall|i: int| 0 <= i < raw.len() implies #[trigger] first[i] == second[i] by {
            assert(arithmetic::divides(n, raw[i], total, first[i]));
            assert(arithmetic::divides(n, raw[i], total, second[i]));
        }
    }
    assert(first =~= second);
}

proof fn means_agree<N: Arithmetic>(
    n: N,
    values: Seq<u64>,
    first: Option<u64>,
    second: Option<u64>,
)
    requires
        arithmetic::functional(n),
        weights::averages(n, values, first),
        weights::averages(n, values, second),
    ensures
        first == second,
{
    let known = weights::defined(values, values.len() as int);
    if known.len() > 0 {
        let x = first->0;
        let y = second->0;
        let (total, number) = choose|total: u64, number: u64|
            {
                &&& arithmetic::sums(n, known, total)
                &&& #[trigger] arithmetic::counts(n, known.len() as usize, number)
                &&& #[trigger] arithmetic::divides(n, total, number, x)
            };
        let (sum, count) = choose|total: u64, number: u64|
            {
                &&& arithmetic::sums(n, known, total)
                &&& #[trigger] arithmetic::counts(n, known.len() as usize, number)
                &&& #[trigger] arithmetic::divides(n, total, number, y)
            };
        arithmetic::sums_agree(n, known, total, sum);
        assert(number == count);
        assert(x == y);
    }
}

proof fn plain_means_agree<N: Arithmetic>(n: N, values: Seq<u64>, first: u64, second: u64)
    requires
        arithmetic::functional(n),
        retrieval::mean_or_zero(n, values, first),
        retrieval::mean_or_zero(n, values, second),
    ensures
        first == second,
{
    if weights::averages(n, values, Some(first)) && weights::averages(n, values, Some(second)) {
        means_agree(n, values, Some(first), Some(second));
    }
}

proof fn shifts_agree<N: Arithmetic>(
    n: N,
    center: u64,
    image: Seq<u64>,
    known: Seq<u64>,
    first: u64,
    second: u64,
)
    requires
        arithmetic::functional(n),
        retrieval::shifts(n, center, image, known, first),
        retrieval::shifts(n, center, image, known, second),
    ensures
        first == second,
{
    let (a, b, c) = choose|ti_mean: u64, sim_mean: u64, difference: u64|
        {
            &&& #[trigger] retrieval::image_mean(n, image, ti_mean)
            &&& #[trigger] retrieval::mean_or_zero(n, known, sim_mean)
            &&& #[trigger] arithmetic::subtracts(n, center, ti_mean, difference)
            &&& arithmetic::adds(n, difference, sim_mean, first)
        };
    let (x, y, z) = choose|ti_mean: u64, sim_mean: u64, difference: u64|
        {
            &&& #[trigger] retrieval::image_mean(n, image, ti_mean)
            &&& #[trigger] retrieval::mean_or_zero(n, known, sim_mean)
            &&& #[trigger] arithmetic::subtracts(n, center, ti_mean, difference)
            &&& arithmetic::adds(n, difference, sim_mean, second)
        };
    if retrieval::some_finite(image) {
        plain_means_agree(n, image, a, x);
    }
    plain_means_agree(n, known, b, y);
    assert(c == z);
}

proof fn parts_agree<N: Arithmetic>(n: N, fraction: u64, count: usize, first: usize, second: usize)
    requires
        arithmetic::functional(n),
        arithmetic::takes_part(n, fraction, count, first),
        arithmetic::takes_part(n, fraction, count, second),
    ensures
        first == second,
{
    let (a, b) = choose|number: u64, product: u64|
        {
            &&& #[trigger] arithmetic::counts(n, count, number)
            &&& #[trigger] arithmetic::multiplies(n, fraction, number, product)
            &&& arithmetic::truncates(n, product, first)
        };
    let (x, y) = choose|number: u64, product: u64|
        {
            &&& #[trigger] arithmetic::counts(n, count, number)
            &&& #[trigger] arithmetic::multiplies(n, fraction, number, product)
            &&& arithmetic::truncates(n, product, second)
        };
    assert(a == x);
    assert(b == y);
}

proof fn shares_agree<N: Arithmetic>(n: N, fraction: u64, size: i64, first: i64, second: i64)
    requires
        arithmetic::functional(n),
        arithmetic::takes_share(n, fraction, size, first),
        arithmetic::takes_share(n, fraction, size, second),
    ensures
        first == second,
{
    let (a, b) = choose|number: u64, product: u64|
        {
            &&& #[trigger] arithmetic::numbers(n, size, number)
            &&& #[trigger] arithmetic::multiplies(n, fraction, number, product)
            &&& arithmetic::cuts_to(n, product, first)
        };
    let (x, y) = choose|number: u64, product: u64|
        {
            &&& #[trigger] arithmetic::numbers(n, size, number)
            &&& #[trigger] arithmetic::multiplies(n, fraction, number, product)
            &&& arithmetic::cuts_to(n, product, second)
        };
    assert(a == x);
    assert(b == y);
}

/// The cell that a node falls back on has one outcome.
pub proof fn draws_agree<N: Arithmetic>(
    n: N,
    complete: Seq<usize>,
    has_gaps: bool,
    shape: Seq<i64>,
    u: Seq<u64>,
    cell: usize,
    other: usize,
)
    requires
        arithmetic::functional(n),
        image::names(n, complete, has_gaps, shape, u, cell),
        image::names(n, complete, has_gaps, shape, u, other),
    ensures
        cell == other,
{
    if has_gaps {
        let count = complete.len() as usize;
        let x = choose|place: usize| #[trigger]
            arithmetic::takes_part(n, u[0], count, place) && place < complete.len() && cell
                == complete[place as int];
        let y = choose|place: usize| #[trigger]
            arithmetic::takes_part(n, u[0], count, place) && place < complete.len() && other
                == complete[place as int];
        parts_agree(n, u[0], count, x, y);
    } else {
        let x = choose|coords: Seq<i64>| #[trigger]
            image::takes_shares(n, u, shape, coords) && cell == index::dot(
                coords,
                index::strides_of(shape),
            ) as usize;
        let y = choose|coords: Seq<i64>| #[trigger]
            image::takes_shares(n, u, shape, coords) && other == index::dot(
                coords,
                index::strides_of(shape),
            ) as usize;
        assert forall|a: int| 0 <= a < shape.len() implies #[trigger] x[a] == y[a] by {
            shares_agree(n, u[a], shape[a], x[a], y[a]);
        }
        assert(x =~= y);
    }
}

// ---------------------------------------------------------------------------------------
// Distances
// ---------------------------------------------------------------------------------------

/// The categorical distance of an anchor has one outcome.
pub proof fn categorical_distances_agree<N: Arithmetic>(
    n: N,
    de_sim: Seq<u64>,
    ti: Seq<u64>,
    base: int,
    lag_flat: Seq<i64>,
    node_weights: Seq<u64>,
    d: u64,
    e: u64,
)
    requires
        arithmetic::functional(n),
        distance::categorical_distance(n, de_sim, ti, base, lag_flat, node_weights, d),
        distance::categorical_distance(n, de_sim, ti, base, lag_flat, node_weights, e),
    ensures
        d == e,
{
    let steps = distance::categorical_steps(n, de_sim, ti, base, lag_flat, node_weights);
    let count = distance::event_len(de_sim, lag_flat, node_weights);
    assert forall|i: int, p: u64, q: u64, t: u64|
        0 <= i < count && #[trigger] steps(i, p, q) && #[trigger] steps(i, p, t) implies q
        == t by {
        let part = if word::same(de_sim[i], ti[base + lag_flat[i]]) {
            word::ZERO
        } else {
            node_weights[i]
        };
        assert(arithmetic::adds(n, p, part, q));
        assert(arithmetic::adds(n, p, part, t));
    }
    arithmetic::accumulations_agree(steps, steps, count, d, e);
}

/// The L1 distance of an anchor has one outcome.
pub proof fn l1_distances_agree<N: Arithmetic>(
    n: N,
    de_sim: Seq<u64>,
    ti: Seq<u64>,
    base: int,
    lag_flat: Seq<i64>,
    node_weights: Seq<u64>,
    d_max: u64,
    d: u64,
    e: u64,
)
    requires
        arithmetic::functional(n),
        distance::l1_distance(n, de_sim, ti, base, lag_flat, node_weights, d_max, d),
        distance::l1_distance(n, de_sim, ti, base, lag_flat, node_weights, d_max, e),
    ensures
        d == e,
{
    let steps = distance::l1_steps(n, de_sim, ti, base, lag_flat, node_weights, d_max);
    let count = distance::event_len(de_sim, lag_flat, node_weights);
    assert forall|i: int, p: u64, q: u64, t: u64|
        0 <= i < count && #[trigger] steps(i, p, q) && #[trigger] steps(i, p, t) implies q
        == t by {
        let cell = ti[base + lag_flat[i]];
        assert(distance::l1_step(n, de_sim[i], cell, node_weights[i], d_max, p, q));
        assert(distance::l1_step(n, de_sim[i], cell, node_weights[i], d_max, p, t));
    }
    arithmetic::accumulations_agree(steps, steps, count, d, e);
}

/// The L2 distance of an anchor has one outcome.
pub proof fn l2_distances_agree<N: Arithmetic>(
    n: N,
    de_sim: Seq<u64>,
    ti: Seq<u64>,
    base: int,
    lag_flat: Seq<i64>,
    node_weights: Seq<u64>,
    d_max: u64,
    d: u64,
    e: u64,
)
    requires
        arithmetic::functional(n),
        distance::l2_distance(n, de_sim, ti, base, lag_flat, node_weights, d_max, d),
        distance::l2_distance(n, de_sim, ti, base, lag_flat, node_weights, d_max, e),
    ensures
        d == e,
{
    let steps = distance::l2_steps(n, de_sim, ti, base, lag_flat, node_weights, d_max);
    let count = distance::event_len(de_sim, lag_flat, node_weights);
    assert forall|i: int, p: u64, q: u64, t: u64|
        0 <= i < count && #[trigger] steps(i, p, q) && #[trigger] steps(i, p, t) implies q
        == t by {
        let cell = ti[base + lag_flat[i]];
        assert(distance::l2_step(n, de_sim[i], cell, node_weights[i], d_max, p, q));
        assert(distance::l2_step(n, de_sim[i], cell, node_weights[i], d_max, p, t));
    }
    let x = choose|total: u64|
        {
            &&& arithmetic::accumulates(steps, count, total)
            &&& #[trigger] arithmetic::roots(n, total, d)
        };
    let y = choose|total: u64|
        {
            &&& arithmetic::accumulates(steps, count, total)
            &&& #[trigger] arithmetic::roots(n, total, e)
        };
    arithmetic::accumulations_agree(steps, steps, count, x, y);
}

/// The Lp distance of an anchor has one outcome.
pub proof fn lp_distances_agree<N: Arithmetic>(
    n: N,
    de_sim: Seq<u64>,
    ti: Seq<u64>,
    base: int,
    lag_flat: Seq<i64>,
    node_weights: Seq<u64>,
    d_max: u64,
    exponent: u64,
    inverse: u64,
    d: u64,
    e: u64,
)
    requires
        arithmetic::functional(n),
        distance::lp_distance(
            n,
            de_sim,
            ti,
            base,
            lag_flat,
            node_weights,
            d_max,
            exponent,
            inverse,
            d,
        ),
        distance::lp_distance(
            n,
            de_sim,
            ti,
            base,
            lag_flat,
            node_weights,
            d_max,
            exponent,
            inverse,
            e,
        ),
    ensures
        d == e,
{
    let steps = distance::lp_steps(n, de_sim, ti, base, lag_flat, node_weights, d_max, exponent);
    let count = distance::event_len(de_sim, lag_flat, node_weights);
    assert forall|i: int, p: u64, q: u64, t: u64|
        0 <= i < count && #[trigger] steps(i, p, q) && #[trigger] steps(i, p, t) implies q
        == t by {
        let cell = ti[base + lag_flat[i]];
        assert(distance::lp_step(n, de_sim[i], cell, node_weights[i], d_max, exponent, p, q));
        assert(distance::lp_step(n, de_sim[i], cell, node_weights[i], d_max, exponent, p, t));
    }
    let x = choose|total: u64|
        {
            &&& arithmetic::accumulates(steps, count, total)
            &&& #[trigger] arithmetic::powers(n, total, inverse, d)
        };
    let y = choose|total: u64|
        {
            &&& arithmetic::accumulates(steps, count, total)
            &&& #[trigger] arithmetic::powers(n, total, inverse, e)
        };
    arithmetic::accumulations_agree(steps, steps, count, x, y);
}

/// A scan for a categorical event has one outcome.
pub proof fn categorical_scans_agree<N: Arithmetic>(
    n: N,
    w: Sweep,
    de_sim: Seq<u64>,
    ti: Seq<u64>,
    lag_flat: Seq<i64>,
    node_weights: Seq<u64>,
    first: Option<Seq<i64>>,
    second: Option<Seq<i64>>,
)
    requires
        arithmetic::functional(n),
        w.feasible(),
        w.finds(scan::categorical_measure(n, de_sim, ti, lag_flat, node_weights), first),
        w.finds(scan::categorical_measure(n, de_sim, ti, lag_flat, node_weights), second),
    ensures
        first == second,
{
    let measure = scan::categorical_measure(n, de_sim, ti, lag_flat, node_weights);
    assert forall|anchor: Seq<i64>, d: u64, e: u64|
        w.covers(anchor) && #[trigger] measure(w.base(anchor), d) && #[trigger] measure(
            w.base(anchor),
            e,
        ) implies d == e by {
        categorical_distances_agree(
            n,
            de_sim,
            ti,
            w.base(anchor),
            lag_flat,
            node_weights,
            d,
            e,
        );
    }
    scan::scan_outcomes_agree(w, measure, measure, first, second);
}

// ---------------------------------------------------------------------------------------
// What the nodes look at
// ---------------------------------------------------------------------------------------

proof fn reaches_agree<N: Arithmetic>(
    n: N,
    offsets: Seq<Vec<i64>>,
    radius: u64,
    first: int,
    second: int,
)
    requires
        arithmetic::functional(n),
        neighbors::reaches(n, offsets, radius, first),
        neighbors::reaches(n, offsets, radius, second),
    ensures
        first == second,
{
    if word::finite(radius) {
        let x = choose|limit: u64| #[trigger]
            arithmetic::multiplies(n, radius, radius, limit) && neighbors::ends_at(
                n,
                offsets,
                limit,
                first,
            );
        let y = choose|limit: u64| #[trigger]
            arithmetic::multiplies(n, radius, radius, limit) && neighbors::ends_at(
                n,
                offsets,
                limit,
                second,
            );
        assert(x == y);
        if first < second {
            assert(neighbors::exceeds(n, offsets[first]@, x, false));
            limits_agree(n, offsets[first]@, x);
        }
        if second < first {
            assert(neighbors::exceeds(n, offsets[second]@, x, false));
            limits_agree(n, offsets[second]@, x);
        }
    }
}

proof fn limits_agree<N: Arithmetic>(n: N, offset: Seq<i64>, limit: u64)
    requires
        arithmetic::functional(n),
    ensures
        !(neighbors::exceeds(n, offset, limit, true) && neighbors::exceeds(
            n,
            offset,
            limit,
            false,
        )),
{
    if neighbors::exceeds(n, offset, limit, true) && neighbors::exceeds(n, offset, limit, false) {
        let d = choose|d: u64| #[trigger]
            neighbors::squares(n, offset, d) && word::below(limit, d) == true;
        let e = choose|e: u64| #[trigger]
            neighbors::squares(n, offset, e) && word::below(limit, e) == false;
        squares_agree(n, offset, d, e);
    }
}

proof fn levels_agree(
    model: PathModel,
    reaches: Seq<int>,
    a: Seq<CachedNode>,
    b: Seq<CachedNode>,
    node: int,
)
    requires
        model.wf(),
        model.caches(reaches, a),
        model.caches(reaches, b),
        0 <= node < a.len(),
        forall|v: int| 0 <= v < model.conditioned.len() ==> 0 <= #[trigger] reaches[v],
    ensures
        a[node].level == b[node].level,
    decreases node,
{
    let x = neighbors::levels_of(a);
    let y = neighbors::levels_of(b);
    assert(model.caches_node(reaches, x, node, a[node]));
    assert(model.caches_node(reaches, y, node, b[node]));
    assert forall|v: int, j: int|
        0 <= v < model.conditioned.len() && 0 <= j < model.picks(node, v, reaches[v]).len()
            && 0 <= #[trigger] model.awaited(node, v, reaches[v], j) implies x[model.awaited(
        node,
        v,
        reaches[v],
        j,
    )] == y[model.awaited(node, v, reaches[v], j)] by {
        assert(0 <= model.n_neighbors[v]);
        assert(0 <= reaches[v]);
        neighbors::picks_are_eligible(model, node, v, reaches[v]);
        let earlier = model.awaited(node, v, reaches[v], j);
        assert(model.eligible(node, v, model.picks(node, v, reaches[v])[j]));
        levels_agree(model, reaches, a, b, earlier);
    }
    let l = a[node].level as int;
    let m = b[node].level as int;
    if l < m {
        let (v, j) = choose|v: int, j: int|
            0 <= v < model.conditioned.len() && 0 <= j < model.picks(node, v, reaches[v]).len()
                && 0 <= #[trigger] model.awaited(node, v, reaches[v], j) && y[model.awaited(
                node,
                v,
                reaches[v],
                j,
            )] == m - 1;
        assert(x[model.awaited(node, v, reaches[v], j)] < l);
    }
    if m < l {
        let (v, j) = choose|v: int, j: int|
            0 <= v < model.conditioned.len() && 0 <= j < model.picks(node, v, reaches[v]).len()
                && 0 <= #[trigger] model.awaited(node, v, reaches[v], j) && x[model.awaited(
                node,
                v,
                reaches[v],
                j,
            )] == l - 1;
        assert(y[model.awaited(node, v, reaches[v], j)] < m);
    }
}

/// The nodes of a path look at the same cells and have the same levels, however often that is
/// worked out.
pub proof fn surveys_agree<N: Arithmetic, M: Metric>(
    s: Setup<N, M>,
    a: Seq<CachedNode>,
    b: Seq<CachedNode>,
)
    requires
        arithmetic::functional(*s.arithmetic),
        s.model().wf(),
        s.max_radius@.len() == s.conditioned@.len(),
        mps_engine::surveys(s, a),
        mps_engine::surveys(s, b),
    ensures
        same_cache(a, b),
{
    let model = s.model();
    let n = *s.arithmetic;
    let first = choose|all: Seq<int>| #[trigger]
        neighbors::all_reach(n, s.offsets@, s.max_radius@, all) && model.caches(all, a);
    let second = choose|all: Seq<int>| #[trigger]
        neighbors::all_reach(n, s.offsets@, s.max_radius@, all) && model.caches(all, b);
    assert forall|v: int| 0 <= v < first.len() implies #[trigger] first[v] == second[v] by {
        assert(neighbors::reaches(n, s.offsets@, s.max_radius@[v], first[v]));
        assert(neighbors::reaches(n, s.offsets@, s.max_radius@[v], second[v]));
        reaches_agree(n, s.offsets@, s.max_radius@[v], first[v], second[v]);
    }
    assert(first =~= second);
    assert forall|v: int| 0 <= v < model.conditioned.len() implies 0 <= #[trigger] first[v] by {
        assert(neighbors::reaches(n, s.offsets@, s.max_radius@[v], first[v]));
    }
    assert forall|i: int| 0 <= i < a.len() implies same_cached(#[trigger] a[i], b[i]) by {
        assert(model.caches_node(first, neighbors::levels_of(a), i, a[i]));
        assert(model.caches_node(first, neighbors::levels_of(b), i, b[i]));
        levels_agree(model, first, a, b, i);
        assert forall|v: int| 0 <= v < a[i].by_variable@.len() implies same_list(
            (#[trigger] a[i].by_variable@[v])@,
            b[i].by_variable@[v]@,
        ) by {
            let x = a[i].by_variable@[v]@;
            let y = b[i].by_variable@[v]@;
            assert(model.lists(i, v, first[v], x));
            assert(model.lists(i, v, first[v], y));
            assert forall|j: int| 0 <= j < x.len() implies (#[trigger] x[j]).flat == y[j].flat
                && x[j].lag@ == y[j].lag@ by {
                assert(y[j].flat == model.flat_at(i, model.picks(i, v, first[v])[j]));
            }
        }
    }
}

// ---------------------------------------------------------------------------------------
// A node
// ---------------------------------------------------------------------------------------

proof fn gathered_events_agree<N: Arithmetic>(
    n: N,
    row: Seq<u64>,
    given: Seq<u8>,
    flat: int,
    a: Seq<Neighbor>,
    b: Seq<Neighbor>,
    axes: int,
    first: EventModel,
    second: EventModel,
)
    requires
        arithmetic::functional(n),
        same_list(a, b),
        gathering::gathers(n, row, given, flat, a, axes, first),
        gathering::gathers(n, row, given, flat, b, axes, second),
    ensures
        first == second,
{
    let own: int = if word::nan(row[flat]) {
        0
    } else {
        1
    };
    assert forall|i: int| 0 <= i < first.values.len() implies {
        &&& #[trigger] first.values[i] == second.values[i]
        &&& first.conditioned[i] == second.conditioned[i]
        &&& first.lags[i] == second.lags[i]
        &&& first.lag_norms[i] == second.lag_norms[i]
    } by {
        if i >= own {
            let j = i - own;
            assert(a[j].flat == b[j].flat && a[j].lag@ == b[j].lag@);
            assert(first.values[own + j] == row[a[j].flat as int]);
            assert(second.values[own + j] == row[b[j].flat as int]);
            lengths_agree(n, a[j].lag@, first.lag_norms[own + j], second.lag_norms[own + j]);
        }
    }
    assert(first.values =~= second.values);
    assert(first.conditioned =~= second.conditioned) by {
        assert forall|i: int| 0 <= i < first.conditioned.len() implies
            #[trigger] first.conditioned[i] == second.conditioned[i] by {
            assert(first.values[i] == second.values[i]);
        }
    }
    assert(first.lags =~= second.lags) by {
        assert forall|i: int| 0 <= i < first.lags.len() implies #[trigger] first.lags[i]
            == second.lags[i] by {
            assert(first.values[i] == second.values[i]);
        }
    }
    assert(first.lag_norms =~= second.lag_norms) by {
        assert forall|i: int| 0 <= i < first.lag_norms.len() implies #[trigger] first.lag_norms[i]
            == second.lag_norms[i] by {
            assert(first.values[i] == second.values[i]);
        }
    }
}

proof fn events_agree<N: Arithmetic, M: Metric>(
    s: Setup<N, M>,
    fields: Seq<Seq<u64>>,
    a: CachedNode,
    b: CachedNode,
    node: int,
    first: Seq<EventModel>,
    shared: Seq<int>,
    second: Seq<EventModel>,
    others: Seq<int>,
)
    requires
        arithmetic::functional(*s.arithmetic),
        same_cached(a, b),
        a.by_variable@.len() == s.variables(),
        gathering::has_events(s, fields, a, node, first, shared),
        gathering::has_events(s, fields, b, node, second, others),
    ensures
        first == second,
        shared == others,
{
    assert forall|v: int| 0 <= v < first.len() implies #[trigger] first[v] == second[v]
        && shared[v] == others[v] by {
        assert(gathering::has_event(s, fields, a, node, v, first[v], shared[v]));
        assert(gathering::has_event(s, fields, b, node, v, second[v], others[v]));
        assert(same_list(a.by_variable@[v]@, b.by_variable@[v]@));
        if s.lag_matrices@.len() == 0 {
            gathered_events_agree(
                *s.arithmetic,
                fields[v],
                s.conditioned@[v]@,
                s.model().cell(node),
                a.by_variable@[v]@,
                b.by_variable@[v]@,
                s.sim_shape@.len() as int,
                first[v],
                second[v],
            );
        } else {
            let (raw, mapped) = choose|raw: EventModel, mapped: Seq<Seq<i64>>| #[trigger]
                gathering::maps_event(s, fields, a, node, v, raw, mapped) && first[v]
                    == event::reduced(raw, mapped, s.ti_shape@) && shared[v] == event::collapsed(
                    mapped,
                );
            let (bare, moved) = choose|raw: EventModel, mapped: Seq<Seq<i64>>| #[trigger]
                gathering::maps_event(s, fields, b, node, v, raw, mapped) && second[v]
                    == event::reduced(raw, mapped, s.ti_shape@) && others[v] == event::collapsed(
                    mapped,
                );
            gathered_events_agree(
                *s.arithmetic,
                fields[v],
                s.conditioned@[v]@,
                s.model().cell(node),
                a.by_variable@[v]@,
                b.by_variable@[v]@,
                s.sim_shape@.len() as int,
                raw,
                bare,
            );
            mapped_lags_agree(
                *s.arithmetic,
                s.lag_matrices@[node]@,
                raw.lags,
                mapped,
                moved,
            );
        }
    }
    assert(first =~= second);
    assert(shared =~= others) by {
        assert forall|v: int| 0 <= v < shared.len() implies #[trigger] shared[v] == others[v] by {
            assert(first[v] == second[v]);
        }
    }
}

proof fn requests_agree<N: Arithmetic, M: Metric>(
    s: Setup<N, M>,
    events: Seq<EventModel>,
    targets: Seq<usize>,
    a: ScanRequest,
    b: ScanRequest,
)
    requires
        arithmetic::functional(*s.arithmetic),
        search::requests(s, events, targets, a),
        search::requests(s, events, targets, b),
    ensures
        same_request(a, b),
{
    let chosen = search::active(events, events.len() as int);
    let x = choose|parts: Seq<Seq<u64>>| #[trigger]
        search::weighs_all(s, events, chosen, parts) && a.node_weights@ == search::joined(
            parts,
            parts.len() as int,
        );
    let y = choose|parts: Seq<Seq<u64>>| #[trigger]
        search::weighs_all(s, events, chosen, parts) && b.node_weights@ == search::joined(
            parts,
            parts.len() as int,
        );
    assert forall|i: int| 0 <= i < x.len() implies #[trigger] x[i] == y[i] by {
        let e = events[chosen[i] as int];
        weights_agree(
            *s.arithmetic,
            e.lag_norms,
            e.conditioned,
            s.distance_power,
            s.cond_weight,
            x[i],
            y[i],
        );
    }
    assert(x =~= y);
    assert(a.event_offsets@ =~= b.event_offsets@);
}

proof fn scans_agree<N: Arithmetic, M: Metric>(
    s: Setup<N, M>,
    node: int,
    events: Seq<EventModel>,
    targets: Seq<usize>,
    first: Option<Seq<i64>>,
    second: Option<Seq<i64>>,
)
    requires
        determined(s),
        index::countable(s.ti_shape@),
        fitting::overlap(events, s.ti_shape@),
        events.len() > 0,
        search::scans_for(s, node, events, targets, first),
        search::scans_for(s, node, events, targets, second),
    ensures
        first == second,
{
    let (a, start, budget) = choose|request: ScanRequest, start: usize, budget: usize| #[trigger]
        search::scans_with(s, node, events, targets, request, start, budget, first);
    let (b, begin, limit) = choose|request: ScanRequest, start: usize, budget: usize| #[trigger]
        search::scans_with(s, node, events, targets, request, start, budget, second);
    requests_agree(s, events, targets, a, b);
    let size = index::size(fitting::extents(events, s.ti_shape@)) as usize;
    parts_agree(*s.arithmetic, s.u_start@[node], size, start, begin);
    parts_agree(
        *s.arithmetic,
        s.scan_fraction,
        index::size(s.ti_shape@) as usize,
        budget,
        limit,
    );
    let w = search::node_sweep(s, events, start, budget);
    search::common_windows_can_be_scanned(s, events, start, budget);
    let x = search::measure(*s.metric, *s.ti, a);
    let y = search::measure(*s.metric, *s.ti, b);
    assert forall|anchor: Seq<i64>, d: u64, e: u64|
        w.covers(anchor) && #[trigger] x(w.base(anchor), d) && #[trigger] y(w.base(anchor), e)
            implies d == e by {
        let base = w.base(anchor) as i64;
        assert(setup::measures(*s.metric, *s.ti, a, base, d));
        assert(setup::measures(*s.metric, *s.ti, b, base, e));
    }
    scan::scan_outcomes_agree(w, x, y, first, second);
}

proof fn received_values_agree<N: Arithmetic, M: Metric>(
    s: Setup<N, M>,
    events: Seq<EventModel>,
    targets: Seq<usize>,
    anchor: Seq<i64>,
    strict: int,
    a: NodeResult,
    b: NodeResult,
)
    requires
        arithmetic::functional(*s.arithmetic),
        node::receives(s, events, targets, anchor, strict, a),
        node::receives(s, events, targets, anchor, strict, b),
    ensures
        a.values@ == b.values@,
{
    let base = index::dot(anchor, s.ti_strides());
    assert forall|i: int| 0 <= i < targets.len() implies #[trigger] a.values@[i]
        == b.values@[i] by {
        let v = targets[i] as int;
        assert(retrieval::retrieves(s, events, v, base, a.values@[i].1));
        assert(retrieval::retrieves(s, events, v, base, b.values@[i].1));
        if s.metric_kinds@[v] == retrieval::VARIATION && events[v].values.len() > 0 {
            shifts_agree(
                *s.arithmetic,
                s.ti_rows()[v][base],
                retrieval::image_values(s.ti_rows()[v], base, events[v], s.ti_strides()),
                events[v].values,
                a.values@[i].1,
                b.values@[i].1,
            );
        }
        assert(a.values@[i].0 == b.values@[i].0);
    }
    assert(a.values@ =~= b.values@);
}

proof fn fallbacks_agree<N: Arithmetic, M: Metric>(
    s: Setup<N, M>,
    node: int,
    targets: Seq<usize>,
    strict: int,
    a: NodeResult,
    b: NodeResult,
)
    requires
        arithmetic::functional(*s.arithmetic),
        node::falls_back(s, node, targets, strict, a),
        node::falls_back(s, node, targets, strict, b),
    ensures
        a.values@ == b.values@,
{
    let x = choose|source: usize| #[trigger]
        s.draws(node, source) && node::copies(s.ti_rows(), targets, source as int, a.values@);
    let y = choose|source: usize| #[trigger]
        s.draws(node, source) && node::copies(s.ti_rows(), targets, source as int, b.values@);
    draws_agree(
        *s.arithmetic,
        image::complete_cells(s.ti_rows(), index::size(s.ti_shape@)),
        image::incomplete(s.ti_rows()),
        s.ti_shape@,
        s.u_fallback@[node]@,
        x,
        y,
    );
    assert(a.values@ =~= b.values@);
}

proof fn decisions_agree<N: Arithmetic, M: Metric>(
    s: Setup<N, M>,
    node: int,
    events: Seq<EventModel>,
    targets: Seq<usize>,
    a: NodeResult,
    b: NodeResult,
)
    requires
        determined(s),
        index::countable(s.ti_shape@),
        events.len() > 0,
        node::decides(s, node, events, targets, a),
        node::decides(s, node, events, targets, b),
    ensures
        a.values@ == b.values@,
        a.strict_fallback_count == b.strict_fallback_count,
{
    let count = events.len() as int;
    let unfit = fitting::first_unfit(events, s.ti_shape@, count);
    let kept = fitting::all_trimmed(events, s.ti_shape@);
    let strict = fitting::cuts(events, s.ti_shape@, s.partial_boundary, count);
    if !fitting::all_empty(events) && unfit >= count && fitting::overlap(kept, s.ti_shape@) {
        let first = choose|found: Option<Seq<i64>>| #[trigger]
            search::scans_for(s, node, kept, targets, found) && match found {
                Some(anchor) => node::receives(s, kept, targets, anchor, strict, a),
                None => node::falls_back(s, node, targets, strict, a),
            };
        let second = choose|found: Option<Seq<i64>>| #[trigger]
            search::scans_for(s, node, kept, targets, found) && match found {
                Some(anchor) => node::receives(s, kept, targets, anchor, strict, b),
                None => node::falls_back(s, node, targets, strict, b),
            };
        scans_agree(s, node, kept, targets, first, second);
        if first is Some {
            received_values_agree(s, kept, targets, first->0, strict, a, b);
        } else {
            fallbacks_agree(s, node, targets, strict, a, b);
        }
    } else if fitting::all_empty(events) {
        fallbacks_agree(s, node, targets, 0, a, b);
    } else if unfit < count {
        let some = fitting::cuts(events, s.ti_shape@, s.partial_boundary, unfit + 1);
        fallbacks_agree(s, node, targets, some, a, b);
    } else {
        fallbacks_agree(s, node, targets, strict, a, b);
    }
}

/// A node comes to the same result, however often it is simulated from the same fields.
pub proof fn node_results_agree<N: Arithmetic, M: Metric>(
    s: Setup<N, M>,
    fields: Seq<Seq<u64>>,
    cached: CachedNode,
    other: CachedNode,
    node: int,
    a: NodeResult,
    b: NodeResult,
)
    requires
        determined(s),
        gathering::ready(s, fields, cached, node),
        same_cached(cached, other),
        node::node_outcome(s, fields, cached, node, a),
        node::node_outcome(s, fields, other, node, b),
    ensures
        same_result(a, b),
{
    let targets = gathering::lacking(fields, s.model().cell(node), s.variables());
    let (first, shared) = choose|events: Seq<EventModel>, shared: Seq<int>| #[trigger]
        gathering::has_events(s, fields, cached, node, events, shared) && node::decides(
            s,
            node,
            events,
            targets,
            a,
        ) && a.collapsed_lag_count == gathering::total(shared, shared.len() as int);
    let (second, others) = choose|events: Seq<EventModel>, shared: Seq<int>| #[trigger]
        gathering::has_events(s, fields, other, node, events, shared) && node::decides(
            s,
            node,
            events,
            targets,
            b,
        ) && b.collapsed_lag_count == gathering::total(shared, shared.len() as int);
    events_agree(s, fields, cached, other, node, first, shared, second, others);
    decisions_agree(s, node, first, targets, a, b);
}

// ---------------------------------------------------------------------------------------
// A simulation
// ---------------------------------------------------------------------------------------

proof fn level_nodes_agree(a: Seq<CachedNode>, b: Seq<CachedNode>, level: int, count: int)
    requires
        same_cache(a, b),
        0 <= count <= a.len(),
    ensures
        mps_engine::nodes_at(a, level, count) == mps_engine::nodes_at(b, level, count),
        mps_engine::level_count_of(a, count) == mps_engine::level_count_of(b, count),
    decreases count,
{
    if count > 0 {
        level_nodes_agree(a, b, level, count - 1);
        assert(same_cached(a[count - 1], b[count - 1]));
    }
}

proof fn widths_agree(a: Seq<CachedNode>, b: Seq<CachedNode>, levels: int)
    requires
        same_cache(a, b),
    ensures
        mps_engine::widest(a, levels) == mps_engine::widest(b, levels),
    decreases levels,
{
    if levels > 0 {
        widths_agree(a, b, levels - 1);
        level_nodes_agree(a, b, levels - 1, a.len() as int);
    }
}

/// Results that are the same are written the same.
pub proof fn same_results_are_written_the_same(
    fields: Seq<Seq<u64>>,
    a: NodeResult,
    b: NodeResult,
    count: int,
)
    requires
        same_result(a, b),
    ensures
        mps_engine::written(fields, a, count) == mps_engine::written(fields, b, count),
        mps_engine::numeric(a, count) == mps_engine::numeric(b, count),
    decreases count,
{
    if count > 0 {
        same_results_are_written_the_same(fields, a, b, count - 1);
    }
}

proof fn same_results_are_committed_the_same(
    p: Progress,
    a: Seq<NodeResult>,
    b: Seq<NodeResult>,
    count: int,
)
    requires
        same_results(a, b),
        0 <= count <= a.len(),
    ensures
        mps_engine::committed(p, a, count) == mps_engine::committed(p, b, count),
        mps_engine::all_numeric(a, count) ==> mps_engine::all_numeric(b, count),
    decreases count,
{
    if count > 0 {
        same_results_are_committed_the_same(p, a, b, count - 1);
        let before = mps_engine::committed(p, a, count - 1).fields;
        assert(same_result(a[count - 1], b[count - 1]));
        same_results_are_written_the_same(
            before,
            a[count - 1],
            b[count - 1],
            a[count - 1].values@.len() as int,
        );
        if mps_engine::all_numeric(a, count) {
            assert forall|i: int| 0 <= i < count implies mps_engine::numeric(
                #[trigger] b[i],
                b[i].values@.len() as int,
            ) by {
                assert(mps_engine::numeric(a[i], a[i].values@.len() as int));
                assert(same_result(a[i], b[i]));
                same_results_are_written_the_same(before, a[i], b[i], a[i].values@.len() as int);
            }
        }
    }
}

proof fn evaluations_agree<N: Arithmetic, M: Metric>(
    s: Setup<N, M>,
    initial: Seq<Seq<u64>>,
    a: Seq<CachedNode>,
    b: Seq<CachedNode>,
    fields: Seq<Seq<u64>>,
    level: int,
    first: Seq<NodeResult>,
    second: Seq<NodeResult>,
)
    requires
        determined(s),
        guarantees::underway(s, a, initial),
        guarantees::underway(s, b, initial),
        same_cache(a, b),
        s.consistent(fields),
        mps_engine::evaluates(s, a, fields, mps_engine::level_nodes(a, level), first),
        mps_engine::evaluates(s, b, fields, mps_engine::level_nodes(b, level), second),
    ensures
        same_results(first, second),
{
    let nodes = mps_engine::level_nodes(a, level);
    level_nodes_agree(a, b, level, a.len() as int);
    guarantees::long_paths_can_be_counted(s, a, initial);
    mps_engine::level_nodes_are_of_the_level(a, level, a.len() as int);
    assert forall|i: int| 0 <= i < first.len() implies same_result(
        #[trigger] first[i],
        second[i],
    ) by {
        let node = nodes[i] as int;
        assert(nodes[i] < a.len());
        assert(same_cached(a[node], b[node]));
        mps_engine::cached_nodes_are_usable(s, initial, a, node);
        assert(node::node_outcome(s, fields, a[node], node, first[i]));
        assert(node::node_outcome(s, fields, b[node], node, second[i]));
        node_results_agree(s, fields, a[node], b[node], node, first[i], second[i]);
    }
}

/// Where every rounding operation and every distance has one outcome, the levels of a path
/// lead to one set of fields and counts.
pub proof fn runs_agree<N: Arithmetic, M: Metric>(
    s: Setup<N, M>,
    initial: Seq<Seq<u64>>,
    a: Seq<CachedNode>,
    b: Seq<CachedNode>,
    levels: int,
    p: Progress,
    q: Progress,
)
    requires
        determined(s),
        guarantees::underway(s, a, initial),
        guarantees::underway(s, b, initial),
        mps_engine::reached(s, a, initial, levels, p),
        mps_engine::reached(s, b, initial, levels, q),
    ensures
        p == q,
    decreases levels,
{
    if levels > 0 {
        let x = choose|x: Progress|
            mps_engine::reached(s, a, initial, levels - 1, x) && #[trigger] mps_engine::advances(
                s,
                a,
                levels - 1,
                x,
                p,
            );
        let y = choose|y: Progress|
            mps_engine::reached(s, b, initial, levels - 1, y) && #[trigger] mps_engine::advances(
                s,
                b,
                levels - 1,
                y,
                q,
            );
        runs_agree(s, initial, a, b, levels - 1, x, y);
        let first = choose|results: Seq<NodeResult>| #[trigger]
            mps_engine::advances_by(s, a, levels - 1, x, p, results);
        let second = choose|results: Seq<NodeResult>| #[trigger]
            mps_engine::advances_by(s, b, levels - 1, y, q, results);
        guarantees::sizes_are_kept(s, a, initial, levels - 1, x);
        surveys_agree(s, a, b);
        evaluations_agree(s, initial, a, b, x.fields, levels - 1, first, second);
        same_results_are_committed_the_same(x, first, second, first.len() as int);
    }
}

/// A simulation is reproducible, and independent of the number of threads: where every
/// rounding operation and every distance has one outcome, two simulations that succeed come
/// to the same fields, the same counts and the same levels.
pub proof fn outputs_do_not_depend_on_threads<N: Arithmetic, M: Metric>(
    s: Setup<N, M>,
    initial: Seq<Seq<u64>>,
    num_threads: usize,
    other_threads: usize,
    a: SimulationOutput,
    b: SimulationOutput,
)
    requires
        determined(s),
        s.sensible(),
        mps_engine::simulates(s, initial, num_threads, Ok(a)),
        mps_engine::simulates(s, initial, other_threads, Ok(b)),
    ensures
        grid::grid_rows(a.fields) == grid::grid_rows(b.fields),
        a.strict_fallback_count == b.strict_fallback_count,
        a.level_count == b.level_count,
        a.max_ready_width == b.max_ready_width,
        a.collapsed_lag_count == b.collapsed_lag_count,
{
    let x = choose|cache: Seq<CachedNode>| #[trigger]
        mps_engine::surveys(s, cache) && mps_engine::completes(s, cache, initial, num_threads, a);
    let y = choose|cache: Seq<CachedNode>| #[trigger]
        mps_engine::surveys(s, cache) && mps_engine::completes(
            s,
            cache,
            initial,
            other_threads,
            b,
        );
    surveys_agree(s, x, y);
    level_nodes_agree(x, y, 0, x.len() as int);
    widths_agree(x, y, a.level_count as int);
    runs_agree(
        s,
        initial,
        x,
        y,
        a.level_count as int,
        guarantees::final_progress(a),
        guarantees::final_progress(b),
    );
}

/// Where every rounding operation and every distance has one outcome, a simulation that
/// succeeds once never breaks off at a value that is no number.
pub proof fn successful_simulations_never_break_off<N: Arithmetic, M: Metric>(
    s: Setup<N, M>,
    initial: Seq<Seq<u64>>,
    num_threads: usize,
    output: SimulationOutput,
    cache: Seq<CachedNode>,
    variable: usize,
    flat: usize,
)
    requires
        determined(s),
        s.sensible(),
        mps_engine::simulates(s, initial, num_threads, Ok(output)),
        mps_engine::surveys(s, cache),
    ensures
        !mps_engine::breaks_off(s, cache, initial, variable, flat),
{
    if mps_engine::breaks_off(s, cache, initial, variable, flat) {
        let done = choose|done: Seq<CachedNode>| #[trigger]
            mps_engine::surveys(s, done) && mps_engine::completes(
                s,
                done,
                initial,
                num_threads,
                output,
            );
        surveys_agree(s, done, cache);
        level_nodes_agree(done, cache, 0, done.len() as int);
        let (level, p, results) = choose|
            level: int,
            p: Progress,
            results: Seq<NodeResult>,
        | #[trigger]
            mps_engine::breaks_at(s, cache, initial, level, p, results, variable, flat);
        passed_levels(
            s,
            done,
            initial,
            output.level_count as int,
            level,
            guarantees::final_progress(output),
        );
        let (q, next) = choose|q: Progress, next: Progress|
            mps_engine::reached(s, done, initial, level, q) && #[trigger] mps_engine::advances(
                s,
                done,
                level,
                q,
                next,
            );
        runs_agree(s, initial, done, cache, level, q, p);
        let other = choose|other: Seq<NodeResult>| #[trigger]
            mps_engine::advances_by(s, done, level, q, next, other);
        guarantees::sizes_are_kept(s, done, initial, level, q);
        evaluations_agree(s, initial, done, cache, q.fields, level, other, results);
        same_results_are_committed_the_same(q, other, results, other.len() as int);
        let (i, j) = choose|i: int, j: int| #[trigger]
            mps_engine::first_nan(results, i, j) && results[i].values@[j].0 == variable
                && results[i].flat == flat;
        assert(mps_engine::numeric(results[i], results[i].values@.len() as int));
        assert(false);
    }
}

proof fn passed_levels<N: Arithmetic, M: Metric>(
    s: Setup<N, M>,
    cache: Seq<CachedNode>,
    initial: Seq<Seq<u64>>,
    levels: int,
    level: int,
    p: Progress,
)
    requires
        0 <= level < levels,
        mps_engine::reached(s, cache, initial, levels, p),
    ensures
        exists|q: Progress, next: Progress|
            mps_engine::reached(s, cache, initial, level, q) && #[trigger] mps_engine::advances(
                s,
                cache,
                level,
                q,
                next,
            ),
    decreases levels,
{
    let q = choose|q: Progress|
        mps_engine::reached(s, cache, initial, levels - 1, q) && #[trigger] mps_engine::advances(
            s,
            cache,
            levels - 1,
            q,
            p,
        );
    if level < levels - 1 {
        passed_levels(s, cache, initial, levels - 1, level, q);
    } else {
        assert(mps_engine::advances(s, cache, level, q, p));
    }
}

/// Where every rounding operation and every distance has one outcome, a simulation that breaks
/// off does so at one variable and one cell.
pub proof fn breaks_agree<N: Arithmetic, M: Metric>(
    s: Setup<N, M>,
    initial: Seq<Seq<u64>>,
    a: Seq<CachedNode>,
    b: Seq<CachedNode>,
    variable: usize,
    flat: usize,
    other_variable: usize,
    other_flat: usize,
)
    requires
        determined(s),
        guarantees::underway(s, a, initial),
        guarantees::underway(s, b, initial),
        mps_engine::breaks_off(s, a, initial, variable, flat),
        mps_engine::breaks_off(s, b, initial, other_variable, other_flat),
    ensures
        variable == other_variable,
        flat == other_flat,
{
    surveys_agree(s, a, b);
    level_nodes_agree(a, b, 0, a.len() as int);
    let (level, p, first) = choose|level: int, p: Progress, results: Seq<NodeResult>| #[trigger]
        mps_engine::breaks_at(s, a, initial, level, p, results, variable, flat);
    let (depth, q, second) = choose|level: int, p: Progress, results: Seq<NodeResult>| #[trigger]
        mps_engine::breaks_at(s, b, initial, level, p, results, other_variable, other_flat);
    passed_levels_do_not_break(s, initial, a, b, level, depth, p, q, first, variable, flat);
    passed_levels_do_not_break(
        s,
        initial,
        b,
        a,
        depth,
        level,
        q,
        p,
        second,
        other_variable,
        other_flat,
    );
    runs_agree(s, initial, a, b, level, p, q);
    guarantees::sizes_are_kept(s, a, initial, level, p);
    evaluations_agree(s, initial, a, b, p.fields, level, first, second);
    let (i, j) = choose|i: int, j: int| #[trigger]
        mps_engine::first_nan(first, i, j) && first[i].values@[j].0 == variable && first[i].flat
            == flat;
    let (k, l) = choose|i: int, j: int| #[trigger]
        mps_engine::first_nan(second, i, j) && second[i].values@[j].0 == other_variable
            && second[i].flat == other_flat;
    assert(same_result(first[i], second[i]));
    assert(same_result(first[k], second[k]));
    if i < k {
        assert(mps_engine::numeric(second[i], second[i].values@.len() as int));
        assert(!word::nan(second[i].values@[j].1));
    }
    if k < i {
        assert(mps_engine::numeric(first[k], first[k].values@.len() as int));
        assert(!word::nan(first[k].values@[l].1));
    }
    if j < l {
        assert(!word::nan(second[i].values@[j].1));
    }
    if l < j {
        assert(!word::nan(first[i].values@[l].1));
    }
}

/// A level that was passed is not one to break off at.
proof fn passed_levels_do_not_break<N: Arithmetic, M: Metric>(
    s: Setup<N, M>,
    initial: Seq<Seq<u64>>,
    a: Seq<CachedNode>,
    b: Seq<CachedNode>,
    level: int,
    depth: int,
    p: Progress,
    q: Progress,
    results: Seq<NodeResult>,
    variable: usize,
    flat: usize,
)
    requires
        determined(s),
        guarantees::underway(s, a, initial),
        guarantees::underway(s, b, initial),
        mps_engine::breaks_at(s, a, initial, level, p, results, variable, flat),
        mps_engine::reached(s, b, initial, depth, q),
    ensures
        depth <= level,
{
    if level < depth {
        surveys_agree(s, a, b);
        passed_levels(s, b, initial, depth, level, q);
        let (x, next) = choose|x: Progress, next: Progress|
            mps_engine::reached(s, b, initial, level, x) && #[trigger] mps_engine::advances(
                s,
                b,
                level,
                x,
                next,
            );
        runs_agree(s, initial, a, b, level, p, x);
        let other = choose|other: Seq<NodeResult>| #[trigger]
            mps_engine::advances_by(s, b, level, x, next, other);
        guarantees::sizes_are_kept(s, a, initial, level, p);
        evaluations_agree(s, initial, a, b, p.fields, level, results, other);
        let (i, j) = choose|i: int, j: int| #[trigger]
            mps_engine::first_nan(results, i, j) && results[i].values@[j].0 == variable
                && results[i].flat == flat;
        assert(same_result(results[i], other[i]));
        assert(mps_engine::numeric(other[i], other[i].values@.len() as int));
        assert(!word::nan(other[i].values@[j].1));
    }
}

/// The result tells that the threads could not be had.
pub open spec fn lacks_threads(result: Result<SimulationOutput, String>) -> bool {
    result matches Err(text) && exists|reason: Seq<char>|
        text@ == #[trigger] messages::pool_message(reason)
}

/// The results are the same, but for how many threads were used.
pub open spec fn same_outcome(
    a: Result<SimulationOutput, String>,
    b: Result<SimulationOutput, String>,
) -> bool {
    match (a, b) {
        (Ok(x), Ok(y)) => {
            &&& grid::grid_rows(x.fields) == grid::grid_rows(y.fields)
            &&& x.strict_fallback_count == y.strict_fallback_count
            &&& x.level_count == y.level_count
            &&& x.max_ready_width == y.max_ready_width
            &&& x.collapsed_lag_count == y.collapsed_lag_count
        },
        (Err(x), Err(y)) => x@ == y@,
        _ => false,
    }
}

/// What a simulation may come to does not depend on the number of threads: whatever comes of it
/// on some number of threads may come of it on any other, where they can be had. Only the number
/// of threads that were used differs.
pub proof fn outcomes_do_not_depend_on_threads<N: Arithmetic, M: Metric>(
    s: Setup<N, M>,
    initial: Seq<Seq<u64>>,
    num_threads: usize,
    other_threads: usize,
    a: Result<SimulationOutput, String>,
    b: Result<SimulationOutput, String>,
)
    requires
        mps_engine::simulates(s, initial, num_threads, a),
        !lacks_threads(a),
        b == match a {
            Ok(output) => Ok(
                (SimulationOutput {
                    used_threads: mps_engine::threads_for(other_threads, s.path@.len() as int),
                    ..output
                }),
            ),
            Err(text) => Err(text),
        },
    ensures
        mps_engine::simulates(s, initial, other_threads, b),
{
    if a is Ok {
        let output = a->Ok_0;
        let cache = choose|cache: Seq<CachedNode>| #[trigger]
            mps_engine::surveys(s, cache) && mps_engine::completes(
                s,
                cache,
                initial,
                num_threads,
                output,
            );
        assert(mps_engine::completes(s, cache, initial, other_threads, b->Ok_0));
    }
}

/// A simulation does not depend on the number of threads: where every rounding operation and
/// every distance has one outcome, and the threads can be had, two simulations with the same
/// inputs both succeed, with the same fields, counts and levels, or both fail with the same
/// message.
pub proof fn results_do_not_depend_on_threads<N: Arithmetic, M: Metric>(
    s: Setup<N, M>,
    initial: Seq<Seq<u64>>,
    num_threads: usize,
    other_threads: usize,
    a: Result<SimulationOutput, String>,
    b: Result<SimulationOutput, String>,
)
    requires
        determined(s),
        mps_engine::runnable(s, initial),
        mps_engine::simulates(s, initial, num_threads, a),
        mps_engine::simulates(s, initial, other_threads, b),
        !lacks_threads(a),
        !lacks_threads(b),
    ensures
        same_outcome(a, b),
{
    if s.consistent(initial) && s.resolvable() {
        match (a, b) {
            (Ok(x), Ok(y)) => {
                outputs_do_not_depend_on_threads(s, initial, num_threads, other_threads, x, y);
            },
            (Ok(x), Err(text)) => {
                reports_exclude_success(s, initial, num_threads, x, text@);
            },
            (Err(text), Ok(y)) => {
                reports_exclude_success(s, initial, other_threads, y, text@);
            },
            (Err(first), Err(second)) => {
                let (x, variable, flat) = choose|
                    cache: Seq<CachedNode>,
                    variable: usize,
                    flat: usize,
                | #[trigger]
                    mps_engine::breaks_off(s, cache, initial, variable, flat)
                        && mps_engine::surveys(s, cache) && first@ == messages::nan_message(
                        variable,
                        flat,
                    );
                let (y, other_variable, other_flat) = choose|
                    cache: Seq<CachedNode>,
                    variable: usize,
                    flat: usize,
                | #[trigger]
                    mps_engine::breaks_off(s, cache, initial, variable, flat)
                        && mps_engine::surveys(s, cache) && second@ == messages::nan_message(
                        variable,
                        flat,
                    );
                breaks_agree(s, initial, x, y, variable, flat, other_variable, other_flat);
            },
        }
    }
}

proof fn reports_exclude_success<N: Arithmetic, M: Metric>(
    s: Setup<N, M>,
    initial: Seq<Seq<u64>>,
    num_threads: usize,
    output: SimulationOutput,
    text: Seq<char>,
)
    requires
        determined(s),
        s.sensible(),
        mps_engine::simulates(s, initial, num_threads, Ok(output)),
    ensures
        !mps_engine::reports_nan(s, initial, text),
{
    if mps_engine::reports_nan(s, initial, text) {
        let (cache, variable, flat) = choose|
            cache: Seq<CachedNode>,
            variable: usize,
            flat: usize,
        | #[trigger]
            mps_engine::breaks_off(s, cache, initial, variable, flat) && mps_engine::surveys(
                s,
                cache,
            ) && text == messages::nan_message(variable, flat);
        successful_simulations_never_break_off(
            s,
            initial,
            num_threads,
            output,
            cache,
            variable,
            flat,
        );
    }
}

} // verus!
