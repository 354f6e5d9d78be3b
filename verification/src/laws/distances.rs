//! What the distances between an event and an anchor measure.

use crate::arithmetic::{self, Arithmetic};
use crate::distance;
use crate::exactness::{self, Reading};
use crate::word;
use vstd::arithmetic::power::pow;
use vstd::prelude::*;

verus! {

/// Adding zero, on either side, changes nothing.
pub open spec fn zero_is_neutral<N: Arithmetic>(n: N) -> bool {
    &&& forall|p: u64, q: u64| #[trigger] arithmetic::adds(n, p, word::ZERO, q) ==> q == p
    &&& forall|p: u64, q: u64| #[trigger] arithmetic::adds(n, word::ZERO, p, q) ==> q == p
}

/// The labels of an event and of the training image at an anchor differ in place `i`.
pub open spec fn differs(
    de_sim: Seq<u64>,
    ti: Seq<u64>,
    base: int,
    lag_flat: Seq<i64>,
    i: int,
) -> bool {
    !word::same(de_sim[i], ti[base + lag_flat[i]])
}

/// An event that differs from the image in exactly one place is at the distance of the weight of
/// that place.
pub proof fn one_mismatch_costs_its_weight<N: Arithmetic>(
    n: N,
    de_sim: Seq<u64>,
    ti: Seq<u64>,
    base: int,
    lag_flat: Seq<i64>,
    weights: Seq<u64>,
    place: int,
    d: u64,
)
    requires
        zero_is_neutral(n),
        0 <= place < de_sim.len(),
        lag_flat.len() == de_sim.len(),
        weights.len() == de_sim.len(),
        forall|i: int|
            0 <= i < de_sim.len() ==> (#[trigger] differs(de_sim, ti, base, lag_flat, i) <==> i
                == place),
        distance::categorical_distance(n, de_sim, ti, base, lag_flat, weights, d),
    ensures
        d == weights[place],
{
    one_mismatch_so_far(
        n,
        de_sim,
        ti,
        base,
        lag_flat,
        weights,
        place,
        de_sim.len() as int,
        d,
    );
}

proof fn one_mismatch_so_far<N: Arithmetic>(
    n: N,
    de_sim: Seq<u64>,
    ti: Seq<u64>,
    base: int,
    lag_flat: Seq<i64>,
    weights: Seq<u64>,
    place: int,
    count: int,
    d: u64,
)
    requires
        zero_is_neutral(n),
        0 <= count <= de_sim.len(),
        forall|i: int|
            0 <= i < de_sim.len() ==> (#[trigger] differs(de_sim, ti, base, lag_flat, i) <==> i
                == place),
        arithmetic::accumulates(
            distance::categorical_steps(n, de_sim, ti, base, lag_flat, weights),
            count,
            d,
        ),
    ensures
        d == if place < count && 0 <= place {
            weights[place]
        } else {
            word::ZERO
        },
    decreases count,
{
    if count > 0 {
        let steps = distance::categorical_steps(n, de_sim, ti, base, lag_flat, weights);
        let p = choose|p: u64|
            arithmetic::accumulates(steps, count - 1, p) && #[trigger] steps(count - 1, p, d);
        one_mismatch_so_far(n, de_sim, ti, base, lag_flat, weights, place, count - 1, p);
        assert(differs(de_sim, ti, base, lag_flat, count - 1) <==> count - 1 == place);
    }
}

/// An event that matches the image in every place is at distance zero.
pub proof fn matches_are_at_distance_zero<N: Arithmetic>(
    n: N,
    de_sim: Seq<u64>,
    ti: Seq<u64>,
    base: int,
    lag_flat: Seq<i64>,
    weights: Seq<u64>,
    d: u64,
)
    requires
        zero_is_neutral(n),
        lag_flat.len() == de_sim.len(),
        weights.len() == de_sim.len(),
        forall|i: int| 0 <= i < de_sim.len() ==> !#[trigger] differs(de_sim, ti, base, lag_flat, i),
        distance::categorical_distance(n, de_sim, ti, base, lag_flat, weights, d),
    ensures
        d == word::ZERO,
{
    one_mismatch_so_far(n, de_sim, ti, base, lag_flat, weights, -1, de_sim.len() as int, d);
}

/// The weight of a place that matches does not matter, nor by how much labels differ: what the
/// distance may come to is the same for all events that differ in the same places, with the same
/// weights there.
pub proof fn only_mismatches_count<N: Arithmetic>(
    n: N,
    de_sim: Seq<u64>,
    other: Seq<u64>,
    ti: Seq<u64>,
    base: int,
    lag_flat: Seq<i64>,
    weights: Seq<u64>,
    others: Seq<u64>,
    d: u64,
)
    requires
        lag_flat.len() == de_sim.len(),
        weights.len() == de_sim.len(),
        other.len() == de_sim.len(),
        others.len() == de_sim.len(),
        forall|i: int|
            0 <= i < de_sim.len() ==> {
                &&& #[trigger] differs(de_sim, ti, base, lag_flat, i) == differs(
                    other,
                    ti,
                    base,
                    lag_flat,
                    i,
                )
                &&& differs(de_sim, ti, base, lag_flat, i) ==> weights[i] == others[i]
            },
        distance::categorical_distance(n, de_sim, ti, base, lag_flat, weights, d),
    ensures
        distance::categorical_distance(n, other, ti, base, lag_flat, others, d),
{
    let steps = distance::categorical_steps(n, de_sim, ti, base, lag_flat, weights);
    let weaker = distance::categorical_steps(n, other, ti, base, lag_flat, others);
    assert forall|i: int, p: u64, q: u64|
        0 <= i < de_sim.len() && #[trigger] steps(i, p, q) implies weaker(i, p, q) by {
        assert(differs(de_sim, ti, base, lag_flat, i) == differs(other, ti, base, lag_flat, i));
    }
    arithmetic::accumulates_under(steps, weaker, de_sim.len() as int, d);
}

/// The weights of the places that differ.
pub open spec fn mismatch_weights(
    de_sim: Seq<u64>,
    ti: Seq<u64>,
    base: int,
    lag_flat: Seq<i64>,
    w: spec_fn(int) -> int,
) -> spec_fn(int) -> int {
    |i: int|
        if differs(de_sim, ti, base, lag_flat, i) {
            w(i)
        } else {
            0
        }
}

/// Where the operations are exact, the categorical distance is the sum of the weights of the places
/// that differ.
pub proof fn mismatches_add_their_weights<N: Arithmetic>(
    n: N,
    r: Reading,
    de_sim: Seq<u64>,
    ti: Seq<u64>,
    base: int,
    lag_flat: Seq<i64>,
    weights: Seq<u64>,
    w: spec_fn(int) -> int,
    d: u64,
)
    requires
        r.exact(n),
        lag_flat.len() == de_sim.len(),
        weights.len() == de_sim.len(),
        forall|i: int| 0 <= i < weights.len() ==> r.says(#[trigger] weights[i], w(i)),
        exactness::summable(
            r,
            mismatch_weights(de_sim, ti, base, lag_flat, w),
            de_sim.len() as int,
        ),
        distance::categorical_distance(n, de_sim, ti, base, lag_flat, weights, d),
    ensures
        r.says(
            d,
            exactness::series(
                mismatch_weights(de_sim, ti, base, lag_flat, w),
                de_sim.len() as int,
            ),
        ),
{
    let f = mismatch_weights(de_sim, ti, base, lag_flat, w);
    let steps = distance::categorical_steps(n, de_sim, ti, base, lag_flat, weights);
    assert forall|i: int, p: u64, q: u64|
        0 <= i < de_sim.len() && #[trigger] steps(i, p, q) && r.says(
            p,
            exactness::series(f, i),
        ) implies r.says(q, exactness::series(f, i + 1)) by {
        assert(r.says(weights[i], w(i)));
        assert(exactness::series(f, i + 1) == exactness::series(f, i) + f(i));
        assert(r.holds(exactness::series(f, i + 1)));
        let part = if word::same(de_sim[i], ti[base + lag_flat[i]]) {
            word::ZERO
        } else {
            weights[i]
        };
        assert(arithmetic::adds(n, p, part, q));
        assert(r.says(part, f(i)));
    }
    exactness::chains_come_to_the_series(r, steps, f, de_sim.len() as int, d);
}

/// What an event and the image at an anchor stand for: `x(i)` and `t(i)` in place `i`, of weight
/// `w(i)`.
pub open spec fn stands_for(
    r: Reading,
    de_sim: Seq<u64>,
    ti: Seq<u64>,
    base: int,
    lag_flat: Seq<i64>,
    weights: Seq<u64>,
    x: spec_fn(int) -> int,
    t: spec_fn(int) -> int,
    w: spec_fn(int) -> int,
) -> bool {
    &&& lag_flat.len() == de_sim.len()
    &&& weights.len() == de_sim.len()
    &&& forall|i: int|
        0 <= i < de_sim.len() ==> {
            &&& r.says(#[trigger] de_sim[i], x(i))
            &&& r.says(ti[base + lag_flat[i]], t(i))
            &&& r.says(weights[i], w(i))
            &&& r.holds(x(i) - t(i))
        }
}

/// Where the operations are exact, the L1 distance is the sum of the weighted differences in units
/// of `d_max`: `part(i)` times `d_max` is the weight of place `i` times the difference there.
pub proof fn differences_add_up_to_l1<N: Arithmetic>(
    n: N,
    r: Reading,
    de_sim: Seq<u64>,
    ti: Seq<u64>,
    base: int,
    lag_flat: Seq<i64>,
    weights: Seq<u64>,
    d_max: u64,
    x: spec_fn(int) -> int,
    t: spec_fn(int) -> int,
    w: spec_fn(int) -> int,
    unit: int,
    weighted: spec_fn(int) -> int,
    part: spec_fn(int) -> int,
    d: u64,
)
    requires
        r.exact(n),
        stands_for(r, de_sim, ti, base, lag_flat, weights, x, t, w),
        r.says(d_max, unit),
        unit != 0,
        forall|i: int|
            0 <= i < de_sim.len() ==> {
                &&& weighted(i) * r.scale == w(i) * exactness::size_of(x(i) - t(i))
                &&& #[trigger] part(i) * unit == weighted(i) * r.scale
                &&& r.holds(weighted(i))
                &&& r.holds(part(i))
            },
        exactness::summable(r, part, de_sim.len() as int),
        distance::l1_distance(n, de_sim, ti, base, lag_flat, weights, d_max, d),
    ensures
        r.says(d, exactness::series(part, de_sim.len() as int)),
{
    let steps = distance::l1_steps(n, de_sim, ti, base, lag_flat, weights, d_max);
    assert forall|i: int, p: u64, q: u64|
        0 <= i < de_sim.len() && #[trigger] steps(i, p, q) && r.says(
            p,
            exactness::series(part, i),
        ) implies r.says(q, exactness::series(part, i + 1)) by {
        let cell = ti[base + lag_flat[i]];
        assert(distance::l1_step(n, de_sim[i], cell, weights[i], d_max, p, q));
        let (a, b, c) = choose|difference: u64, product: u64, quotient: u64|
            {
                &&& #[trigger] arithmetic::subtracts(n, de_sim[i], cell, difference)
                &&& #[trigger] arithmetic::multiplies(
                    n,
                    weights[i],
                    word::absolute_of(difference),
                    product,
                )
                &&& #[trigger] arithmetic::divides(n, product, d_max, quotient)
                &&& arithmetic::adds(n, p, quotient, q)
            };
        assert(r.says(de_sim[i], x(i)));
        assert(r.says(a, x(i) - t(i)));
        assert(part(i) * unit == weighted(i) * r.scale);
        assert(r.product(w(i), exactness::size_of(x(i) - t(i)), weighted(i)));
        assert(r.says(b, weighted(i)));
        assert(r.product(part(i), unit, weighted(i)));
        assert(r.says(c, part(i)));
        assert(exactness::series(part, i + 1) == exactness::series(part, i) + part(i));
        assert(r.holds(exactness::series(part, i + 1)));
    }
    exactness::chains_come_to_the_series(r, steps, part, de_sim.len() as int, d);
}

/// Where the operations are exact, the L2 distance is the root of the sum of the weighted squares of
/// the differences in units of `d_max`.
pub proof fn squares_add_up_to_l2<N: Arithmetic>(
    n: N,
    r: Reading,
    de_sim: Seq<u64>,
    ti: Seq<u64>,
    base: int,
    lag_flat: Seq<i64>,
    weights: Seq<u64>,
    d_max: u64,
    x: spec_fn(int) -> int,
    t: spec_fn(int) -> int,
    w: spec_fn(int) -> int,
    unit: int,
    ratio: spec_fn(int) -> int,
    weighted: spec_fn(int) -> int,
    part: spec_fn(int) -> int,
    root: int,
    d: u64,
)
    requires
        r.exact(n),
        stands_for(r, de_sim, ti, base, lag_flat, weights, x, t, w),
        r.says(d_max, unit),
        unit != 0,
        forall|i: int|
            0 <= i < de_sim.len() ==> {
                &&& ratio(i) * unit == (x(i) - t(i)) * r.scale
                &&& weighted(i) * r.scale == w(i) * ratio(i)
                &&& #[trigger] part(i) * r.scale == weighted(i) * ratio(i)
                &&& r.holds(ratio(i))
                &&& r.holds(weighted(i))
                &&& r.holds(part(i))
            },
        exactness::summable(r, part, de_sim.len() as int),
        0 <= root,
        r.holds(root),
        root * root == exactness::series(part, de_sim.len() as int) * r.scale,
        distance::l2_distance(n, de_sim, ti, base, lag_flat, weights, d_max, d),
    ensures
        r.says(d, root),
{
    let count = de_sim.len() as int;
    let steps = distance::l2_steps(n, de_sim, ti, base, lag_flat, weights, d_max);
    let total = choose|total: u64|
        {
            &&& arithmetic::accumulates(steps, distance::event_len(de_sim, lag_flat, weights), total)
            &&& #[trigger] arithmetic::roots(n, total, d)
        };
    assert forall|i: int, p: u64, q: u64|
        0 <= i < count && #[trigger] steps(i, p, q) && r.says(
            p,
            exactness::series(part, i),
        ) implies r.says(q, exactness::series(part, i + 1)) by {
        let cell = ti[base + lag_flat[i]];
        assert(distance::l2_step(n, de_sim[i], cell, weights[i], d_max, p, q));
        let (a, b, c, e) = choose|difference: u64, quotient: u64, product: u64, last: u64|
            {
                &&& #[trigger] arithmetic::subtracts(n, de_sim[i], cell, difference)
                &&& #[trigger] arithmetic::divides(n, difference, d_max, quotient)
                &&& #[trigger] arithmetic::multiplies(n, weights[i], quotient, product)
                &&& arithmetic::multiplies(n, product, quotient, last)
                &&& #[trigger] arithmetic::adds(n, p, last, q)
            };
        assert(r.says(de_sim[i], x(i)));
        assert(r.says(a, x(i) - t(i)));
        assert(part(i) * r.scale == weighted(i) * ratio(i));
        assert(r.product(ratio(i), unit, x(i) - t(i)));
        assert(r.says(b, ratio(i)));
        assert(r.product(w(i), ratio(i), weighted(i)));
        assert(r.says(c, weighted(i)));
        assert(r.product(weighted(i), ratio(i), part(i)));
        assert(r.says(e, part(i)));
        assert(exactness::series(part, i + 1) == exactness::series(part, i) + part(i));
        assert(r.holds(exactness::series(part, i + 1)));
    }
    exactness::chains_come_to_the_series(r, steps, part, count, total);
    assert(r.product(root, root, exactness::series(part, count)));
}

/// Where the operations are exact, the Lp distance for a whole exponent `k` is the root of degree
/// `k` of the sum of the weighted powers of the differences in units of `d_max`.
pub proof fn powers_add_up_to_lp<N: Arithmetic>(
    n: N,
    r: Reading,
    de_sim: Seq<u64>,
    ti: Seq<u64>,
    base: int,
    lag_flat: Seq<i64>,
    weights: Seq<u64>,
    d_max: u64,
    exponent: u64,
    inverse: u64,
    k: nat,
    part_of_one: int,
    x: spec_fn(int) -> int,
    t: spec_fn(int) -> int,
    w: spec_fn(int) -> int,
    unit: int,
    ratio: spec_fn(int) -> int,
    raised: spec_fn(int) -> int,
    part: spec_fn(int) -> int,
    root: int,
    d: u64,
)
    requires
        r.exact(n),
        stands_for(r, de_sim, ti, base, lag_flat, weights, x, t, w),
        r.says(d_max, unit),
        unit != 0,
        0 < k,
        r.says(exponent, k * r.scale),
        arithmetic::divides(n, word::ONE, exponent, inverse),
        part_of_one * k == r.scale,
        r.holds(part_of_one),
        forall|i: int|
            0 <= i < de_sim.len() ==> {
                &&& ratio(i) * unit == exactness::size_of(x(i) - t(i)) * r.scale
                &&& raised(i) * pow(r.scale, k) == pow(ratio(i), k) * r.scale
                &&& #[trigger] part(i) * r.scale == w(i) * raised(i)
                &&& r.holds(ratio(i))
                &&& r.holds(raised(i))
                &&& r.holds(part(i))
            },
        exactness::summable(r, part, de_sim.len() as int),
        0 <= root,
        r.holds(root),
        exactness::series(part, de_sim.len() as int) * pow(r.scale, k) == pow(root, k) * r.scale,
        distance::lp_distance(
            n,
            de_sim,
            ti,
            base,
            lag_flat,
            weights,
            d_max,
            exponent,
            inverse,
            d,
        ),
    ensures
        r.says(d, root),
{
    let count = de_sim.len() as int;
    let steps = distance::lp_steps(n, de_sim, ti, base, lag_flat, weights, d_max, exponent);
    let total = choose|total: u64|
        {
            &&& arithmetic::accumulates(steps, distance::event_len(de_sim, lag_flat, weights), total)
            &&& #[trigger] arithmetic::powers(n, total, inverse, d)
        };
    let s = r.scale;
    assert(part_of_one * (k * s) == (part_of_one * k) * s) by (nonlinear_arith);
    assert(r.product(part_of_one, k * s, s));
    assert(k * s != 0) by (nonlinear_arith)
        requires
            0 < k,
            0 < s,
    ;
    assert(r.says(inverse, part_of_one));
    assert forall|i: int, p: u64, q: u64|
        0 <= i < count && #[trigger] steps(i, p, q) && r.says(
            p,
            exactness::series(part, i),
        ) implies r.says(q, exactness::series(part, i + 1)) by {
        let cell = ti[base + lag_flat[i]];
        assert(distance::lp_step(n, de_sim[i], cell, weights[i], d_max, exponent, p, q));
        let (a, b, c, e) = choose|difference: u64, quotient: u64, power: u64, last: u64|
            {
                &&& #[trigger] arithmetic::subtracts(n, de_sim[i], cell, difference)
                &&& #[trigger] arithmetic::divides(
                    n,
                    word::absolute_of(difference),
                    d_max,
                    quotient,
                )
                &&& #[trigger] arithmetic::powers(n, quotient, exponent, power)
                &&& #[trigger] arithmetic::multiplies(n, weights[i], power, last)
                &&& arithmetic::adds(n, p, last, q)
            };
        assert(r.says(de_sim[i], x(i)));
        assert(r.says(a, x(i) - t(i)));
        assert(part(i) * r.scale == w(i) * raised(i));
        assert(r.product(ratio(i), unit, exactness::size_of(x(i) - t(i))));
        assert(r.says(b, ratio(i)));
        assert(r.raised(ratio(i), k, raised(i)));
        assert(r.says(c, raised(i)));
        assert(r.product(w(i), raised(i), part(i)));
        assert(r.says(e, part(i)));
        assert(exactness::series(part, i + 1) == exactness::series(part, i) + part(i));
        assert(r.holds(exactness::series(part, i + 1)));
    }
    exactness::chains_come_to_the_series(r, steps, part, count, total);
    assert(r.raised(root, k, exactness::series(part, count)));
}

/// The same for exponents that are no whole numbers: where the operations are exact, the Lp distance is
/// a power to `inverse` of the sum of the weighted powers to `exponent` of the differences in units
/// of `d_max`. Here `raised` are what those powers stand for.
pub proof fn every_exponent_adds_up_to_lp<N: Arithmetic>(
    n: N,
    r: Reading,
    de_sim: Seq<u64>,
    ti: Seq<u64>,
    base: int,
    lag_flat: Seq<i64>,
    weights: Seq<u64>,
    d_max: u64,
    exponent: u64,
    inverse: u64,
    x: spec_fn(int) -> int,
    t: spec_fn(int) -> int,
    w: spec_fn(int) -> int,
    unit: int,
    ratio: spec_fn(int) -> int,
    raised: spec_fn(int) -> int,
    part: spec_fn(int) -> int,
    d: u64,
) -> (total: u64)
    requires
        r.exact(n),
        stands_for(r, de_sim, ti, base, lag_flat, weights, x, t, w),
        r.says(d_max, unit),
        unit != 0,
        forall|i: int|
            0 <= i < de_sim.len() ==> {
                &&& ratio(i) * unit == exactness::size_of(x(i) - t(i)) * r.scale
                &&& #[trigger] part(i) * r.scale == w(i) * raised(i)
                &&& r.holds(ratio(i))
                &&& r.holds(part(i))
            },
        forall|i: int, a: u64, b: u64|
            0 <= i < de_sim.len() && #[trigger] r.says(a, ratio(i)) && #[trigger]
                arithmetic::powers(n, a, exponent, b) ==> r.says(b, raised(i)),
        exactness::summable(r, part, de_sim.len() as int),
        distance::lp_distance(
            n,
            de_sim,
            ti,
            base,
            lag_flat,
            weights,
            d_max,
            exponent,
            inverse,
            d,
        ),
    ensures
        r.says(total, exactness::series(part, de_sim.len() as int)),
        arithmetic::powers(n, total, inverse, d),
{
    let count = de_sim.len() as int;
    let steps = distance::lp_steps(n, de_sim, ti, base, lag_flat, weights, d_max, exponent);
    let total = choose|total: u64|
        {
            &&& arithmetic::accumulates(steps, distance::event_len(de_sim, lag_flat, weights), total)
            &&& #[trigger] arithmetic::powers(n, total, inverse, d)
        };
    assert forall|i: int, p: u64, q: u64|
        0 <= i < count && #[trigger] steps(i, p, q) && r.says(
            p,
            exactness::series(part, i),
        ) implies r.says(q, exactness::series(part, i + 1)) by {
        let cell = ti[base + lag_flat[i]];
        assert(distance::lp_step(n, de_sim[i], cell, weights[i], d_max, exponent, p, q));
        let (a, b, c, e) = choose|difference: u64, quotient: u64, power: u64, last: u64|
            {
                &&& #[trigger] arithmetic::subtracts(n, de_sim[i], cell, difference)
                &&& #[trigger] arithmetic::divides(
                    n,
                    word::absolute_of(difference),
                    d_max,
                    quotient,
                )
                &&& #[trigger] arithmetic::powers(n, quotient, exponent, power)
                &&& #[trigger] arithmetic::multiplies(n, weights[i], power, last)
                &&& arithmetic::adds(n, p, last, q)
            };
        assert(r.says(de_sim[i], x(i)));
        assert(r.says(a, x(i) - t(i)));
        assert(part(i) * r.scale == w(i) * raised(i));
        assert(r.product(ratio(i), unit, exactness::size_of(x(i) - t(i))));
        assert(r.says(b, ratio(i)));
        assert(r.says(c, raised(i)));
        assert(r.product(w(i), raised(i), part(i)));
        assert(r.says(e, part(i)));
        assert(exactness::series(part, i + 1) == exactness::series(part, i) + part(i));
        assert(r.holds(exactness::series(part, i + 1)));
    }
    exactness::chains_come_to_the_series(r, steps, part, count, total);
    total
}

} // verus!
