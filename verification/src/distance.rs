//! Weighted distances between a data event and places in a training image.
//!
//! A data event is a list of values at given lags. An anchor of the training image
//! (TI) is compared with it by reading the TI at the flat positions `base + lag`,
//! where `base` is the flat position of the anchor.

use crate::arithmetic::{self, Arithmetic};
use crate::word;
use vstd::prelude::*;

verus! {

/// How many values an event has: as many as there are values, lags and weights.
pub open spec fn event_len(de_sim: Seq<u64>, lag_flat: Seq<i64>, weights: Seq<u64>) -> int {
    vstd::math::min(
        vstd::math::min(de_sim.len() as int, lag_flat.len() as int),
        weights.len() as int,
    )
}

/// The first `count` lags lead from `base` to cells of a TI of `ti_len` cells.
pub open spec fn reachable(base: int, lag_flat: Seq<i64>, count: int, ti_len: int) -> bool {
    forall|i: int|
        0 <= i < count ==> 0 <= base + #[trigger] lag_flat[i] < ti_len && base + lag_flat[i]
            <= i64::MAX
}

/// The steps of the categorical distance: each mismatch adds its weight.
pub open spec fn categorical_steps<N: Arithmetic>(
    n: N,
    de_sim: Seq<u64>,
    ti: Seq<u64>,
    base: int,
    lag_flat: Seq<i64>,
    weights: Seq<u64>,
) -> spec_fn(int, u64, u64) -> bool {
    |i: int, p: u64, q: u64|
        arithmetic::adds(
            n,
            p,
            if word::same(de_sim[i], ti[base + lag_flat[i]]) {
                word::ZERO
            } else {
                weights[i]
            },
            q,
        )
}

/// `d` is an outcome of the weighted categorical distance at `base`.
pub open spec fn categorical_distance<N: Arithmetic>(
    n: N,
    de_sim: Seq<u64>,
    ti: Seq<u64>,
    base: int,
    lag_flat: Seq<i64>,
    weights: Seq<u64>,
    d: u64,
) -> bool {
    arithmetic::accumulates(
        categorical_steps(n, de_sim, ti, base, lag_flat, weights),
        event_len(de_sim, lag_flat, weights),
        d,
    )
}

/// The weighted categorical distance at `base`.
pub fn categorical<N: Arithmetic>(
    n: &N,
    de_sim: &[u64],
    ti: &[u64],
    base: i64,
    lag_flat: &[i64],
    weights: &[u64],
) -> (d: u64)
    requires
        reachable(
            base as int,
            lag_flat@,
            event_len(de_sim@, lag_flat@, weights@),
            ti@.len() as int,
        ),
    ensures
        categorical_distance(*n, de_sim@, ti@, base as int, lag_flat@, weights@, d),
{
    let mut total: u64 = word::ZERO;
    let ghost steps = categorical_steps(*n, de_sim@, ti@, base as int, lag_flat@, weights@);
    let mut i: usize = 0;
    while i < de_sim.len() && i < lag_flat.len() && i < weights.len()
        invariant
            0 <= i <= event_len(de_sim@, lag_flat@, weights@),
            reachable(
                base as int,
                lag_flat@,
                event_len(de_sim@, lag_flat@, weights@),
                ti@.len() as int,
            ),
            steps == categorical_steps(*n, de_sim@, ti@, base as int, lag_flat@, weights@),
            arithmetic::accumulates(steps, i as int, total),
        decreases de_sim@.len() - i,
    {
        assert(0 <= base + lag_flat@[i as int] < ti@.len());
        let cell: u64 = ti[(base + lag_flat[i]) as usize];
        let part: u64 = if word::equal(de_sim[i], cell) {
            word::ZERO
        } else {
            weights[i]
        };
        let next: u64 = arithmetic::plus(n, total, part);
        proof {
            arithmetic::accumulates_one_more(steps, i as int, total, next);
        }
        total = next;
        i = i + 1;
    }
    total
}

/// The weighted categorical distances of a block of TI candidates.
///
/// Any two distinct labels are a mismatch, however close they are.
pub fn dist_block_categorical<N: Arithmetic>(
    n: &N,
    de_sim: &[u64],
    ti_flat: &[u64],
    base_flat: &[i64],
    lag_flat: &[i64],
    node_weights: &[u64],
) -> (dist: Vec<u64>)
    requires
        forall|b: int|
            0 <= b < base_flat@.len() ==> reachable(
                #[trigger] base_flat@[b] as int,
                lag_flat@,
                event_len(de_sim@, lag_flat@, node_weights@),
                ti_flat@.len() as int,
            ),
    ensures
        dist@.len() == base_flat@.len(),
        forall|b: int|
            0 <= b < base_flat@.len() ==> categorical_distance(
                *n,
                de_sim@,
                ti_flat@,
                base_flat@[b] as int,
                lag_flat@,
                node_weights@,
                #[trigger] dist@[b],
            ),
{
    let mut dist: Vec<u64> = Vec::new();
    let mut b: usize = 0;
    while b < base_flat.len()
        invariant
            b <= base_flat@.len(),
            forall|b: int|
                0 <= b < base_flat@.len() ==> reachable(
                    #[trigger] base_flat@[b] as int,
                    lag_flat@,
                    event_len(de_sim@, lag_flat@, node_weights@),
                    ti_flat@.len() as int,
                ),
            dist@.len() == b,
            forall|c: int|
                0 <= c < b ==> categorical_distance(
                    *n,
                    de_sim@,
                    ti_flat@,
                    base_flat@[c] as int,
                    lag_flat@,
                    node_weights@,
                    #[trigger] dist@[c],
                ),
        decreases base_flat@.len() - b,
    {
        let d: u64 = categorical(n, de_sim, ti_flat, base_flat[b], lag_flat, node_weights);
        dist.push(d);
        b = b + 1;
    }
    dist
}

/// The steps of the L1 distance: each value adds `weight * |difference| / d_max`.
pub open spec fn l1_steps<N: Arithmetic>(
    n: N,
    de_sim: Seq<u64>,
    ti: Seq<u64>,
    base: int,
    lag_flat: Seq<i64>,
    weights: Seq<u64>,
    d_max: u64,
) -> spec_fn(int, u64, u64) -> bool {
    |i: int, p: u64, q: u64|
        l1_step(n, de_sim[i], ti[base + lag_flat[i]], weights[i], d_max, p, q)
}

/// `p + weight * |value - cell| / d_max` may come out as `q`.
pub open spec fn l1_step<N: Arithmetic>(
    n: N,
    value: u64,
    cell: u64,
    weight: u64,
    d_max: u64,
    p: u64,
    q: u64,
) -> bool {
    exists|difference: u64, weighted: u64, part: u64|
        {
            &&& #[trigger] arithmetic::subtracts(n, value, cell, difference)
            &&& #[trigger] arithmetic::multiplies(
                n,
                weight,
                word::absolute_of(difference),
                weighted,
            )
            &&& #[trigger] arithmetic::divides(n, weighted, d_max, part)
            &&& arithmetic::adds(n, p, part, q)
        }
}

/// `d` is an outcome of the weighted L1 distance at `base`.
pub open spec fn l1_distance<N: Arithmetic>(
    n: N,
    de_sim: Seq<u64>,
    ti: Seq<u64>,
    base: int,
    lag_flat: Seq<i64>,
    weights: Seq<u64>,
    d_max: u64,
    d: u64,
) -> bool {
    arithmetic::accumulates(
        l1_steps(n, de_sim, ti, base, lag_flat, weights, d_max),
        event_len(de_sim, lag_flat, weights),
        d,
    )
}

/// The weighted L1 distance at `base`.
pub fn l1<N: Arithmetic>(
    n: &N,
    de_sim: &[u64],
    ti: &[u64],
    base: i64,
    lag_flat: &[i64],
    weights: &[u64],
    d_max: u64,
) -> (d: u64)
    requires
        reachable(
            base as int,
            lag_flat@,
            event_len(de_sim@, lag_flat@, weights@),
            ti@.len() as int,
        ),
    ensures
        l1_distance(*n, de_sim@, ti@, base as int, lag_flat@, weights@, d_max, d),
{
    let mut total: u64 = word::ZERO;
    let ghost steps = l1_steps(*n, de_sim@, ti@, base as int, lag_flat@, weights@, d_max);
    let mut i: usize = 0;
    while i < de_sim.len() && i < lag_flat.len() && i < weights.len()
        invariant
            0 <= i <= event_len(de_sim@, lag_flat@, weights@),
            reachable(
                base as int,
                lag_flat@,
                event_len(de_sim@, lag_flat@, weights@),
                ti@.len() as int,
            ),
            steps == l1_steps(
                *n,
                de_sim@,
                ti@,
                base as int,
                lag_flat@,
                weights@,
                d_max,
            ),
            arithmetic::accumulates(steps, i as int, total),
        decreases de_sim@.len() - i,
    {
        assert(0 <= base + lag_flat@[i as int] < ti@.len());
        let cell: u64 = ti[(base + lag_flat[i]) as usize];
        let difference: u64 = arithmetic::minus(n, de_sim[i], cell);
        let weighted: u64 = arithmetic::times(n, weights[i], word::absolute(difference));
        let part: u64 = arithmetic::over(n, weighted, d_max);
        let next: u64 = arithmetic::plus(n, total, part);
        proof {
            assert(steps(i as int, total, next));
            arithmetic::accumulates_one_more(steps, i as int, total, next);
        }
        total = next;
        i = i + 1;
    }
    total
}

/// The weighted L1 distances of a block of TI candidates, in units of `d_max`.
pub fn dist_block_l1<N: Arithmetic>(
    n: &N,
    de_sim: &[u64],
    ti_flat: &[u64],
    base_flat: &[i64],
    lag_flat: &[i64],
    node_weights: &[u64],
    d_max: u64,
) -> (dist: Vec<u64>)
    requires
        forall|b: int|
            0 <= b < base_flat@.len() ==> reachable(
                #[trigger] base_flat@[b] as int,
                lag_flat@,
                event_len(de_sim@, lag_flat@, node_weights@),
                ti_flat@.len() as int,
            ),
    ensures
        dist@.len() == base_flat@.len(),
        forall|b: int|
            0 <= b < base_flat@.len() ==> l1_distance(
                *n,
                de_sim@,
                ti_flat@,
                base_flat@[b] as int,
                lag_flat@,
                node_weights@,
                d_max,
                #[trigger] dist@[b],
            ),
{
    let mut dist: Vec<u64> = Vec::new();
    let mut b: usize = 0;
    while b < base_flat.len()
        invariant
            b <= base_flat@.len(),
            forall|b: int|
                0 <= b < base_flat@.len() ==> reachable(
                    #[trigger] base_flat@[b] as int,
                    lag_flat@,
                    event_len(de_sim@, lag_flat@, node_weights@),
                    ti_flat@.len() as int,
                ),
            dist@.len() == b,
            forall|c: int|
                0 <= c < b ==> l1_distance(
                    *n,
                    de_sim@,
                    ti_flat@,
                    base_flat@[c] as int,
                    lag_flat@,
                    node_weights@,
                    d_max,
                    #[trigger] dist@[c],
                ),
        decreases base_flat@.len() - b,
    {
        let d: u64 = l1(n, de_sim, ti_flat, base_flat[b], lag_flat, node_weights, d_max);
        dist.push(d);
        b = b + 1;
    }
    dist
}

/// The steps of the L2 distance: each value adds `weight * (difference / d_max)^2`.
pub open spec fn l2_steps<N: Arithmetic>(
    n: N,
    de_sim: Seq<u64>,
    ti: Seq<u64>,
    base: int,
    lag_flat: Seq<i64>,
    weights: Seq<u64>,
    d_max: u64,
) -> spec_fn(int, u64, u64) -> bool {
    |i: int, p: u64, q: u64|
        l2_step(n, de_sim[i], ti[base + lag_flat[i]], weights[i], d_max, p, q)
}

/// `p + weight * ratio * ratio` may come out as `q`, the ratio being that of
/// `value - cell` to `d_max`.
pub open spec fn l2_step<N: Arithmetic>(
    n: N,
    value: u64,
    cell: u64,
    weight: u64,
    d_max: u64,
    p: u64,
    q: u64,
) -> bool {
    exists|difference: u64, ratio: u64, weighted: u64, part: u64|
        {
            &&& #[trigger] arithmetic::subtracts(n, value, cell, difference)
            &&& #[trigger] arithmetic::divides(n, difference, d_max, ratio)
            &&& #[trigger] arithmetic::multiplies(n, weight, ratio, weighted)
            &&& arithmetic::multiplies(n, weighted, ratio, part)
            &&& #[trigger] arithmetic::adds(n, p, part, q)
        }
}

/// `d` is an outcome of the weighted L2 distance at `base`: the square root of the sum.
pub open spec fn l2_distance<N: Arithmetic>(
    n: N,
    de_sim: Seq<u64>,
    ti: Seq<u64>,
    base: int,
    lag_flat: Seq<i64>,
    weights: Seq<u64>,
    d_max: u64,
    d: u64,
) -> bool {
    exists|total: u64|
        {
            &&& arithmetic::accumulates(
                l2_steps(n, de_sim, ti, base, lag_flat, weights, d_max),
                event_len(de_sim, lag_flat, weights),
                total,
            )
            &&& #[trigger] arithmetic::roots(n, total, d)
        }
}

/// The weighted L2 distance at `base`.
pub fn l2<N: Arithmetic>(
    n: &N,
    de_sim: &[u64],
    ti: &[u64],
    base: i64,
    lag_flat: &[i64],
    weights: &[u64],
    d_max: u64,
) -> (d: u64)
    requires
        reachable(
            base as int,
            lag_flat@,
            event_len(de_sim@, lag_flat@, weights@),
            ti@.len() as int,
        ),
    ensures
        l2_distance(*n, de_sim@, ti@, base as int, lag_flat@, weights@, d_max, d),
{
    let mut total: u64 = word::ZERO;
    let ghost steps = l2_steps(*n, de_sim@, ti@, base as int, lag_flat@, weights@, d_max);
    let mut i: usize = 0;
    while i < de_sim.len() && i < lag_flat.len() && i < weights.len()
        invariant
            0 <= i <= event_len(de_sim@, lag_flat@, weights@),
            reachable(
                base as int,
                lag_flat@,
                event_len(de_sim@, lag_flat@, weights@),
                ti@.len() as int,
            ),
            steps == l2_steps(
                *n,
                de_sim@,
                ti@,
                base as int,
                lag_flat@,
                weights@,
                d_max,
            ),
            arithmetic::accumulates(steps, i as int, total),
        decreases de_sim@.len() - i,
    {
        assert(0 <= base + lag_flat@[i as int] < ti@.len());
        let cell: u64 = ti[(base + lag_flat[i]) as usize];
        let difference: u64 = arithmetic::minus(n, de_sim[i], cell);
        let ratio: u64 = arithmetic::over(n, difference, d_max);
        let weighted: u64 = arithmetic::times(n, weights[i], ratio);
        let part: u64 = arithmetic::times(n, weighted, ratio);
        let next: u64 = arithmetic::plus(n, total, part);
        proof {
            assert(steps(i as int, total, next));
            arithmetic::accumulates_one_more(steps, i as int, total, next);
        }
        total = next;
        i = i + 1;
    }
    arithmetic::root(n, total)
}

/// The weighted L2 distances of a block of TI candidates, in units of `d_max`.
pub fn dist_block_l2<N: Arithmetic>(
    n: &N,
    de_sim: &[u64],
    ti_flat: &[u64],
    base_flat: &[i64],
    lag_flat: &[i64],
    node_weights: &[u64],
    d_max: u64,
) -> (dist: Vec<u64>)
    requires
        forall|b: int|
            0 <= b < base_flat@.len() ==> reachable(
                #[trigger] base_flat@[b] as int,
                lag_flat@,
                event_len(de_sim@, lag_flat@, node_weights@),
                ti_flat@.len() as int,
            ),
    ensures
        dist@.len() == base_flat@.len(),
        forall|b: int|
            0 <= b < base_flat@.len() ==> l2_distance(
                *n,
                de_sim@,
                ti_flat@,
                base_flat@[b] as int,
                lag_flat@,
                node_weights@,
                d_max,
                #[trigger] dist@[b],
            ),
{
    let mut dist: Vec<u64> = Vec::new();
    let mut b: usize = 0;
    while b < base_flat.len()
        invariant
            b <= base_flat@.len(),
            forall|b: int|
                0 <= b < base_flat@.len() ==> reachable(
                    #[trigger] base_flat@[b] as int,
                    lag_flat@,
                    event_len(de_sim@, lag_flat@, node_weights@),
                    ti_flat@.len() as int,
                ),
            dist@.len() == b,
            forall|c: int|
                0 <= c < b ==> l2_distance(
                    *n,
                    de_sim@,
                    ti_flat@,
                    base_flat@[c] as int,
                    lag_flat@,
                    node_weights@,
                    d_max,
                    #[trigger] dist@[c],
                ),
        decreases base_flat@.len() - b,
    {
        let d: u64 = l2(n, de_sim, ti_flat, base_flat[b], lag_flat, node_weights, d_max);
        dist.push(d);
        b = b + 1;
    }
    dist
}

/// The steps of the Lp distance: each value adds `weight * (|difference| / d_max)^p`.
pub open spec fn lp_steps<N: Arithmetic>(
    n: N,
    de_sim: Seq<u64>,
    ti: Seq<u64>,
    base: int,
    lag_flat: Seq<i64>,
    weights: Seq<u64>,
    d_max: u64,
    exponent: u64,
) -> spec_fn(int, u64, u64) -> bool {
    |i: int, p: u64, q: u64|
        lp_step(n, de_sim[i], ti[base + lag_flat[i]], weights[i], d_max, exponent, p, q)
}

/// `p + weight * (|value - cell| / d_max)^exponent` may come out as `q`.
pub open spec fn lp_step<N: Arithmetic>(
    n: N,
    value: u64,
    cell: u64,
    weight: u64,
    d_max: u64,
    exponent: u64,
    p: u64,
    q: u64,
) -> bool {
    exists|difference: u64, ratio: u64, raised: u64, part: u64|
        {
            &&& #[trigger] arithmetic::subtracts(n, value, cell, difference)
            &&& #[trigger] arithmetic::divides(n, word::absolute_of(difference), d_max, ratio)
            &&& #[trigger] arithmetic::powers(n, ratio, exponent, raised)
            &&& #[trigger] arithmetic::multiplies(n, weight, raised, part)
            &&& arithmetic::adds(n, p, part, q)
        }
}

/// `d` is an outcome of the weighted Lp distance at `base`: the sum to the power
/// `inverse`.
pub open spec fn lp_distance<N: Arithmetic>(
    n: N,
    de_sim: Seq<u64>,
    ti: Seq<u64>,
    base: int,
    lag_flat: Seq<i64>,
    weights: Seq<u64>,
    d_max: u64,
    exponent: u64,
    inverse: u64,
    d: u64,
) -> bool {
    exists|total: u64|
        {
            &&& arithmetic::accumulates(
                lp_steps(n, de_sim, ti, base, lag_flat, weights, d_max, exponent),
                event_len(de_sim, lag_flat, weights),
                total,
            )
            &&& #[trigger] arithmetic::powers(n, total, inverse, d)
        }
}

/// The weighted Lp distance at `base`.
pub fn lp<N: Arithmetic>(
    n: &N,
    de_sim: &[u64],
    ti: &[u64],
    base: i64,
    lag_flat: &[i64],
    weights: &[u64],
    d_max: u64,
    exponent: u64,
    inverse: u64,
) -> (d: u64)
    requires
        reachable(
            base as int,
            lag_flat@,
            event_len(de_sim@, lag_flat@, weights@),
            ti@.len() as int,
        ),
    ensures
        lp_distance(
            *n,
            de_sim@,
            ti@,
            base as int,
            lag_flat@,
            weights@,
            d_max,
            exponent,
            inverse,
            d,
        ),
{
    let mut total: u64 = word::ZERO;
    let ghost steps = lp_steps(*n, de_sim@, ti@, base as int, lag_flat@, weights@, d_max, exponent);
    let mut i: usize = 0;
    while i < de_sim.len() && i < lag_flat.len() && i < weights.len()
        invariant
            0 <= i <= event_len(de_sim@, lag_flat@, weights@),
            reachable(
                base as int,
                lag_flat@,
                event_len(de_sim@, lag_flat@, weights@),
                ti@.len() as int,
            ),
            steps == lp_steps(
                *n,
                de_sim@,
                ti@,
                base as int,
                lag_flat@,
                weights@,
                d_max,
                exponent,
            ),
            arithmetic::accumulates(steps, i as int, total),
        decreases de_sim@.len() - i,
    {
        assert(0 <= base + lag_flat@[i as int] < ti@.len());
        let cell: u64 = ti[(base + lag_flat[i]) as usize];
        let difference: u64 = arithmetic::minus(n, de_sim[i], cell);
        let ratio: u64 = arithmetic::over(n, word::absolute(difference), d_max);
        let raised: u64 = arithmetic::power(n, ratio, exponent);
        let part: u64 = arithmetic::times(n, weights[i], raised);
        let next: u64 = arithmetic::plus(n, total, part);
        proof {
            assert(steps(i as int, total, next));
            arithmetic::accumulates_one_more(steps, i as int, total, next);
        }
        total = next;
        i = i + 1;
    }
    arithmetic::power(n, total, inverse)
}

/// The weighted Lp distances of a block of TI candidates, in units of `d_max`.
///
/// The exponents 1 and 2 have functions of their own, which raise nothing to a power.
pub fn dist_block_lp<N: Arithmetic>(
    n: &N,
    de_sim: &[u64],
    ti_flat: &[u64],
    base_flat: &[i64],
    lag_flat: &[i64],
    node_weights: &[u64],
    d_max: u64,
    p: u64,
) -> (dist: Vec<u64>)
    requires
        forall|b: int|
            0 <= b < base_flat@.len() ==> reachable(
                #[trigger] base_flat@[b] as int,
                lag_flat@,
                event_len(de_sim@, lag_flat@, node_weights@),
                ti_flat@.len() as int,
            ),
    ensures
        dist@.len() == base_flat@.len(),
        exists|inverse: u64| #[trigger]
            arithmetic::divides(*n, word::ONE, p, inverse) && forall|b: int|
            0 <= b < base_flat@.len() ==> lp_distance(
                *n,
                de_sim@,
                ti_flat@,
                base_flat@[b] as int,
                lag_flat@,
                node_weights@,
                d_max,
                p,
                inverse,
                #[trigger] dist@[b],
            ),
{
    let inverse: u64 = arithmetic::over(n, word::ONE, p);
    let mut dist: Vec<u64> = Vec::new();
    let mut b: usize = 0;
    while b < base_flat.len()
        invariant
            b <= base_flat@.len(),
            forall|b: int|
                0 <= b < base_flat@.len() ==> reachable(
                    #[trigger] base_flat@[b] as int,
                    lag_flat@,
                    event_len(de_sim@, lag_flat@, node_weights@),
                    ti_flat@.len() as int,
                ),
            dist@.len() == b,
            forall|c: int|
                0 <= c < b ==> lp_distance(
                    *n,
                    de_sim@,
                    ti_flat@,
                    base_flat@[c] as int,
                    lag_flat@,
                    node_weights@,
                    d_max,
                    p,
                    inverse,
                    #[trigger] dist@[c],
                ),
        decreases base_flat@.len() - b,
    {
        let d: u64 = lp(
            n,
            de_sim,
            ti_flat,
            base_flat[b],
            lag_flat,
            node_weights,
            d_max,
            p,
            inverse,
        );
        dist.push(d);
        b = b + 1;
    }
    dist
}

/// Rounding does not tell `weight * difference / d_max` from `weight * (difference / d_max)`.
pub open spec fn divides_alike<N: Arithmetic>(
    n: N,
    weight: u64,
    difference: u64,
    d_max: u64,
) -> bool {
    forall|weighted: u64, part: u64, ratio: u64, other: u64|
        #[trigger] arithmetic::multiplies(n, weight, difference, weighted)
            && #[trigger] arithmetic::divides(n, weighted, d_max, part)
            && #[trigger] arithmetic::divides(n, difference, d_max, ratio)
            && #[trigger] arithmetic::multiplies(n, weight, ratio, other) ==> part == other
}

/// Rounding does not tell `weight * ratio * ratio` from `weight * |ratio|^2`, where the ratio is
/// that of the difference to `d_max`.
pub open spec fn squares_alike<N: Arithmetic>(
    n: N,
    weight: u64,
    difference: u64,
    d_max: u64,
) -> bool {
    forall|ratio: u64, weighted: u64, part: u64, size: u64, raised: u64, other: u64|
        #[trigger] arithmetic::divides(n, difference, d_max, ratio)
            && #[trigger] arithmetic::multiplies(n, weight, ratio, weighted)
            && #[trigger] arithmetic::multiplies(n, weighted, ratio, part)
            && #[trigger] arithmetic::divides(n, word::absolute_of(difference), d_max, size)
            && #[trigger] arithmetic::powers(n, size, word::TWO, raised)
            && #[trigger] arithmetic::multiplies(n, weight, raised, other) ==> part == other
}

/// The Lp distance for the exponent 1 is the L1 distance, but for rounding: they agree where
/// every operation has one outcome, 1 / 1 is 1, a number to the power 1 is that number, and it
/// makes no difference whether a weight is applied before or after the division by `d_max`.
pub proof fn lp_of_one_is_l1<N: Arithmetic>(
    n: N,
    de_sim: Seq<u64>,
    ti: Seq<u64>,
    base: int,
    lag_flat: Seq<i64>,
    weights: Seq<u64>,
    d_max: u64,
    inverse: u64,
    d: u64,
    e: u64,
)
    requires
        arithmetic::functional(n),
        forall|r: u64| #[trigger] arithmetic::divides(n, word::ONE, word::ONE, r) ==> r
            == word::ONE,
        forall|a: u64, r: u64| #[trigger] arithmetic::powers(n, a, word::ONE, r) ==> r == a,
        forall|i: int, difference: u64|
            0 <= i < event_len(de_sim, lag_flat, weights) && #[trigger] arithmetic::subtracts(
                n,
                de_sim[i],
                ti[base + lag_flat[i]],
                difference,
            ) ==> divides_alike(n, weights[i], word::absolute_of(difference), d_max),
        arithmetic::divides(n, word::ONE, word::ONE, inverse),
        lp_distance(n, de_sim, ti, base, lag_flat, weights, d_max, word::ONE, inverse, d),
        l1_distance(n, de_sim, ti, base, lag_flat, weights, d_max, e),
    ensures
        d == e,
{
    let count = event_len(de_sim, lag_flat, weights);
    let general = lp_steps(n, de_sim, ti, base, lag_flat, weights, d_max, word::ONE);
    let special = l1_steps(n, de_sim, ti, base, lag_flat, weights, d_max);
    let total = choose|total: u64|
        {
            &&& arithmetic::accumulates(general, count, total)
            &&& #[trigger] arithmetic::powers(n, total, inverse, d)
        };
    assert forall|i: int, p: u64, q: u64, t: u64|
        0 <= i < count && #[trigger] general(i, p, q) && #[trigger] special(i, p, t) implies q
        == t by {
        let cell = ti[base + lag_flat[i]];
        assert(lp_step(n, de_sim[i], cell, weights[i], d_max, word::ONE, p, q));
        assert(l1_step(n, de_sim[i], cell, weights[i], d_max, p, t));
    }
    arithmetic::accumulations_agree(general, special, count, total, e);
}

/// The Lp distance for the exponent 2 is the L2 distance, but for rounding: they agree where
/// every operation has one outcome, the power 1 / 2 of the sum is its square root, and it makes
/// no difference whether a ratio is multiplied with itself or raised to the power 2.
pub proof fn lp_of_two_is_l2<N: Arithmetic>(
    n: N,
    de_sim: Seq<u64>,
    ti: Seq<u64>,
    base: int,
    lag_flat: Seq<i64>,
    weights: Seq<u64>,
    d_max: u64,
    inverse: u64,
    d: u64,
    e: u64,
)
    requires
        arithmetic::functional(n),
        forall|total: u64, r: u64, root: u64|
            arithmetic::accumulates(
                l2_steps(n, de_sim, ti, base, lag_flat, weights, d_max),
                event_len(de_sim, lag_flat, weights),
                total,
            ) && #[trigger] arithmetic::powers(n, total, inverse, r)
                && #[trigger] arithmetic::roots(n, total, root) ==> r == root,
        forall|i: int, difference: u64|
            0 <= i < event_len(de_sim, lag_flat, weights) && #[trigger] arithmetic::subtracts(
                n,
                de_sim[i],
                ti[base + lag_flat[i]],
                difference,
            ) ==> squares_alike(n, weights[i], difference, d_max),
        arithmetic::divides(n, word::ONE, word::TWO, inverse),
        lp_distance(n, de_sim, ti, base, lag_flat, weights, d_max, word::TWO, inverse, d),
        l2_distance(n, de_sim, ti, base, lag_flat, weights, d_max, e),
    ensures
        d == e,
{
    let count = event_len(de_sim, lag_flat, weights);
    let general = lp_steps(n, de_sim, ti, base, lag_flat, weights, d_max, word::TWO);
    let special = l2_steps(n, de_sim, ti, base, lag_flat, weights, d_max);
    let total = choose|total: u64|
        {
            &&& arithmetic::accumulates(general, count, total)
            &&& #[trigger] arithmetic::powers(n, total, inverse, d)
        };
    let other = choose|total: u64|
        {
            &&& arithmetic::accumulates(special, count, total)
            &&& #[trigger] arithmetic::roots(n, total, e)
        };
    assert forall|i: int, p: u64, q: u64, t: u64|
        0 <= i < count && #[trigger] general(i, p, q) && #[trigger] special(i, p, t) implies q
        == t by {
        let cell = ti[base + lag_flat[i]];
        assert(lp_step(n, de_sim[i], cell, weights[i], d_max, word::TWO, p, q));
        assert(l2_step(n, de_sim[i], cell, weights[i], d_max, p, t));
    }
    arithmetic::accumulations_agree(general, special, count, total, other);
}

} // verus!
