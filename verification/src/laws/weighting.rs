//! What the weights of the values of an event are for, and what the mean of numbers is.

use crate::arithmetic::{self, Arithmetic};
use crate::exactness::{self, Reading};
use crate::laws::lags;
use crate::weights;
use crate::word;
use vstd::arithmetic::power::pow;
use vstd::prelude::*;

verus! {

/// What the weights of an event go by: the distances `norms(i)` of its values, which of them were
/// given, the whole number `k` by whose power weights decay, and the factor for given values.
pub struct Decay {
    pub norms: spec_fn(int) -> int,
    pub given: Seq<bool>,
    pub k: nat,
    pub factor: int,
}

impl Decay {
    /// Value `i` was given.
    pub open spec fn is_given(self, i: int) -> bool {
        i < self.given.len() && self.given[i]
    }

    /// `z / scale` is the distance of value `i` to the power `-k`, and 1 at the node itself.
    pub open spec fn falls_to(self, r: Reading, i: int, z: int) -> bool {
        if (self.norms)(i) == 0 {
            z == r.scale
        } else {
            z * pow((self.norms)(i), self.k) == pow(r.scale, self.k) * r.scale
        }
    }

    /// `y / scale` is what `z / scale` comes to where value `i` was given, or not.
    pub open spec fn favours(self, r: Reading, i: int, z: int, y: int) -> bool {
        if self.is_given(i) {
            y * r.scale == z * self.factor
        } else {
            y == z
        }
    }
}

/// The words stand for what the weights go by.
pub open spec fn goes_by(
    r: Reading,
    lag_norms: Seq<u64>,
    distance_power: u64,
    cond_weight: u64,
    decay: Decay,
) -> bool {
    &&& forall|i: int|
        0 <= i < lag_norms.len() ==> r.says(#[trigger] lag_norms[i], (decay.norms)(i))
    &&& r.says(distance_power, decay.k * r.scale)
    &&& r.says(cond_weight, decay.factor)
}

/// `z` are the decayed weights, and `y` what they come to with the factor for given values; all of
/// them and their sum are at hand.
pub open spec fn weighed(
    r: Reading,
    count: int,
    decay: Decay,
    z: spec_fn(int) -> int,
    y: spec_fn(int) -> int,
) -> bool {
    &&& forall|i: int|
        0 <= i < count ==> {
            &&& decay.falls_to(r, i, z(i))
            &&& decay.favours(r, i, z(i), #[trigger] y(i))
            &&& r.holds(z(i))
            &&& r.holds(y(i))
        }
    &&& exactness::summable(r, y, count)
}

proof fn raw_weights_are_exact<N: Arithmetic>(
    n: N,
    r: Reading,
    lag_norms: Seq<u64>,
    distance_power: u64,
    cond_weight: u64,
    decay: Decay,
    z: spec_fn(int) -> int,
    y: spec_fn(int) -> int,
    raw: Seq<u64>,
    i: int,
)
    requires
        r.exact(n),
        goes_by(r, lag_norms, distance_power, cond_weight, decay),
        weighed(r, lag_norms.len() as int, decay, z, y),
        weights::raw_weights(n, lag_norms, decay.given, distance_power, cond_weight, raw),
        0 <= i < lag_norms.len(),
    ensures
        r.says(raw[i], y(i)),
{
    let s = r.scale;
    let k = decay.k;
    let x = (decay.norms)(i);
    assert(r.says(lag_norms[i], x));
    assert(decay.favours(r, i, z(i), y(i)));
    assert(weights::raw_weight(
        n,
        lag_norms[i],
        i < decay.given.len() && decay.given[i],
        distance_power,
        cond_weight,
        raw[i],
    ));
    assert((k * s == 0) <==> k == 0) by (nonlinear_arith)
        requires
            0 < s,
            0 <= k,
    ;
    assert forall|decayed: u64| #[trigger]
        weights::decays(n, lag_norms[i], distance_power, decayed) implies r.says(
        decayed,
        z(i),
    ) by {
        assert(r.says(word::ZERO, 0));
        assert(word::same(distance_power, word::ZERO) <==> k * s == 0);
        assert(word::same(lag_norms[i], word::ZERO) <==> x == 0);
        if x != 0 {
            if k == 0 {
                vstd::arithmetic::power::lemma_pow0(x);
                vstd::arithmetic::power::lemma_pow0(s);
                assert(z(i) == s);
            } else {
                assert(r.says(word::negated(distance_power), -(k * s)));
                assert(r.raised_down(x, k, z(i)));
            }
        }
    }
    if decay.is_given(i) {
        let decayed = choose|decayed: u64| #[trigger]
            weights::decays(n, lag_norms[i], distance_power, decayed) && arithmetic::multiplies(
                n,
                decayed,
                cond_weight,
                raw[i],
            );
        assert(r.product(z(i), decay.factor, y(i)));
    }
}

/// Where the operations are exact, the weights are the decayed ones, with the factor for given
/// values, divided by their sum.
pub proof fn weights_are_shares<N: Arithmetic>(
    n: N,
    r: Reading,
    lag_norms: Seq<u64>,
    distance_power: u64,
    cond_weight: u64,
    decay: Decay,
    z: spec_fn(int) -> int,
    y: spec_fn(int) -> int,
    share: spec_fn(int) -> int,
    ws: Seq<u64>,
    i: int,
)
    requires
        r.exact(n),
        goes_by(r, lag_norms, distance_power, cond_weight, decay),
        weighed(r, lag_norms.len() as int, decay, z, y),
        exactness::series(y, lag_norms.len() as int) != 0,
        0 <= i < lag_norms.len(),
        share(i) * exactness::series(y, lag_norms.len() as int) == y(i) * r.scale,
        r.holds(share(i)),
        weights::weighs(n, lag_norms, decay.given, distance_power, cond_weight, ws),
    ensures
        ws.len() == lag_norms.len(),
        r.says(ws[i], share(i)),
{
    let count = lag_norms.len() as int;
    let (raw, total) = choose|raw: Seq<u64>, total: u64|
        {
            &&& weights::raw_weights(
                n,
                lag_norms,
                decay.given,
                distance_power,
                cond_weight,
                raw,
            )
            &&& arithmetic::sums(n, raw, total)
            &&& #[trigger] weights::scales(n, raw, total, ws)
        };
    assert forall|j: int| 0 <= j < raw.len() implies r.says(#[trigger] raw[j], y(j)) by {
        raw_weights_are_exact(
            n,
            r,
            lag_norms,
            distance_power,
            cond_weight,
            decay,
            z,
            y,
            raw,
            j,
        );
    }
    exactness::sums_come_to_the_series(n, r, raw, y, total);
    assert(r.says(word::ZERO, 0));
    assert(arithmetic::divides(n, raw[i], total, ws[i]));
    assert(r.says(raw[i], y(i)));
    assert(r.product(share(i), exactness::series(y, count), y(i)));
}

/// Weights decay by the power of the distance: where the operations are exact, two values that were
/// both given, or both not, have weights in the inverse ratio of the powers of their distances, for
/// every power by which weights decay. At twice the distance, a weight is 2^k times smaller.
pub proof fn weights_decay_by_the_power_of_the_distance<N: Arithmetic>(
    n: N,
    r: Reading,
    lag_norms: Seq<u64>,
    distance_power: u64,
    cond_weight: u64,
    decay: Decay,
    z: spec_fn(int) -> int,
    y: spec_fn(int) -> int,
    share: spec_fn(int) -> int,
    ws: Seq<u64>,
    i: int,
    j: int,
)
    requires
        r.exact(n),
        goes_by(r, lag_norms, distance_power, cond_weight, decay),
        weighed(r, lag_norms.len() as int, decay, z, y),
        exactness::series(y, lag_norms.len() as int) != 0,
        forall|m: int|
            0 <= m < lag_norms.len() ==> {
                &&& #[trigger] share(m) * exactness::series(y, lag_norms.len() as int) == y(m)
                    * r.scale
                &&& r.holds(share(m))
            },
        0 <= i < lag_norms.len(),
        0 <= j < lag_norms.len(),
        (decay.norms)(i) != 0,
        (decay.norms)(j) != 0,
        decay.is_given(i) == decay.is_given(j),
        weights::weighs(n, lag_norms, decay.given, distance_power, cond_weight, ws),
    ensures
        r.says(ws[i], share(i)),
        r.says(ws[j], share(j)),
        share(i) * pow((decay.norms)(i), decay.k) == share(j) * pow((decay.norms)(j), decay.k),
{
    let count = lag_norms.len() as int;
    let t = exactness::series(y, count);
    weights_are_shares(
        n,
        r,
        lag_norms,
        distance_power,
        cond_weight,
        decay,
        z,
        y,
        share,
        ws,
        i,
    );
    weights_are_shares(
        n,
        r,
        lag_norms,
        distance_power,
        cond_weight,
        decay,
        z,
        y,
        share,
        ws,
        j,
    );
    let a = pow((decay.norms)(i), decay.k);
    let b = pow((decay.norms)(j), decay.k);
    let s = r.scale;
    assert(decay.favours(r, i, z(i), y(i)));
    assert(decay.favours(r, j, z(j), y(j)));
    assert(z(i) * a == z(j) * b);
    assert(y(i) * a == y(j) * b) by {
        if decay.is_given(i) {
            let f = decay.factor;
            assert((y(i) * a) * s == (y(i) * s) * a) by (nonlinear_arith);
            assert((z(i) * f) * a == (z(i) * a) * f) by (nonlinear_arith);
            assert((z(j) * f) * b == (z(j) * b) * f) by (nonlinear_arith);
            assert((y(j) * b) * s == (y(j) * s) * b) by (nonlinear_arith);
            cancel(y(i) * a, y(j) * b, s);
        }
    }
    assert((share(i) * a) * t == (share(i) * t) * a) by (nonlinear_arith);
    assert((y(i) * s) * a == (y(i) * a) * s) by (nonlinear_arith);
    assert((y(j) * s) * b == (y(j) * b) * s) by (nonlinear_arith);
    assert((share(j) * b) * t == (share(j) * t) * b) by (nonlinear_arith);
    assert(share(j) * t == y(j) * s && share(i) * t == y(i) * s);
    cancel(share(i) * a, share(j) * b, t);
}

/// The same for powers that are no whole numbers: values that were not given have weights in the ratio
/// of the powers of their distances to the opposite of `distance_power`, whatever number that is.
/// Here `y` are what those powers stand for.
pub proof fn weights_decay_by_every_power<N: Arithmetic>(
    n: N,
    r: Reading,
    lag_norms: Seq<u64>,
    given: Seq<bool>,
    distance_power: u64,
    cond_weight: u64,
    y: spec_fn(int) -> int,
    share: spec_fn(int) -> int,
    ws: Seq<u64>,
    i: int,
    j: int,
)
    requires
        r.exact(n),
        !word::same(distance_power, word::ZERO),
        forall|m: int|
            0 <= m < lag_norms.len() ==> !word::same(#[trigger] lag_norms[m], word::ZERO) && !(m
                < given.len() && given[m]),
        forall|m: int, w: u64|
            0 <= m < lag_norms.len() && #[trigger] arithmetic::powers(
                n,
                lag_norms[m],
                word::negated(distance_power),
                w,
            ) ==> r.says(w, y(m)),
        exactness::summable(r, y, lag_norms.len() as int),
        exactness::series(y, lag_norms.len() as int) != 0,
        0 <= i < lag_norms.len(),
        0 <= j < lag_norms.len(),
        share(i) * exactness::series(y, lag_norms.len() as int) == y(i) * r.scale,
        share(j) * exactness::series(y, lag_norms.len() as int) == y(j) * r.scale,
        r.holds(share(i)),
        r.holds(share(j)),
        weights::weighs(n, lag_norms, given, distance_power, cond_weight, ws),
    ensures
        ws.len() == lag_norms.len(),
        r.says(ws[i], share(i)),
        r.says(ws[j], share(j)),
        share(i) * y(j) == share(j) * y(i),
{
    let t = exactness::series(y, lag_norms.len() as int);
    let (raw, total) = choose|raw: Seq<u64>, total: u64|
        {
            &&& weights::raw_weights(n, lag_norms, given, distance_power, cond_weight, raw)
            &&& arithmetic::sums(n, raw, total)
            &&& #[trigger] weights::scales(n, raw, total, ws)
        };
    assert forall|m: int| 0 <= m < raw.len() implies r.says(#[trigger] raw[m], y(m)) by {
        assert(!word::same(lag_norms[m], word::ZERO));
        assert(weights::raw_weight(
            n,
            lag_norms[m],
            m < given.len() && given[m],
            distance_power,
            cond_weight,
            raw[m],
        ));
        assert(arithmetic::powers(n, lag_norms[m], word::negated(distance_power), raw[m]));
    }
    exactness::sums_come_to_the_series(n, r, raw, y, total);
    assert(r.says(word::ZERO, 0));
    assert(arithmetic::divides(n, raw[i], total, ws[i]));
    assert(arithmetic::divides(n, raw[j], total, ws[j]));
    assert(r.says(raw[i], y(i)) && r.says(raw[j], y(j)));
    assert(r.product(share(i), t, y(i)));
    assert(r.product(share(j), t, y(j)));
    let s = r.scale;
    assert((share(i) * y(j)) * t == (share(i) * t) * y(j)) by (nonlinear_arith);
    assert((share(j) * y(i)) * t == (share(j) * t) * y(i)) by (nonlinear_arith);
    assert((y(i) * s) * y(j) == (y(j) * s) * y(i)) by (nonlinear_arith);
    cancel(share(i) * y(j), share(j) * y(i), t);
}

proof fn cancel(a: int, b: int, t: int)
    requires
        t != 0,
        a * t == b * t,
    ensures
        a == b,
{
    assert(a == b) by (nonlinear_arith)
        requires
            t != 0,
            a * t == b * t,
    ;
}

/// Given values weigh more by their factor: where the operations are exact, two values at the same
/// distance, of which one was given, have weights in the ratio of the factor to 1.
pub proof fn given_values_weigh_more_by_their_factor<N: Arithmetic>(
    n: N,
    r: Reading,
    lag_norms: Seq<u64>,
    distance_power: u64,
    cond_weight: u64,
    decay: Decay,
    z: spec_fn(int) -> int,
    y: spec_fn(int) -> int,
    share: spec_fn(int) -> int,
    ws: Seq<u64>,
    i: int,
    j: int,
)
    requires
        r.exact(n),
        goes_by(r, lag_norms, distance_power, cond_weight, decay),
        weighed(r, lag_norms.len() as int, decay, z, y),
        exactness::series(y, lag_norms.len() as int) != 0,
        forall|m: int|
            0 <= m < lag_norms.len() ==> {
                &&& #[trigger] share(m) * exactness::series(y, lag_norms.len() as int) == y(m)
                    * r.scale
                &&& r.holds(share(m))
            },
        0 <= i < lag_norms.len(),
        0 <= j < lag_norms.len(),
        (decay.norms)(i) == (decay.norms)(j),
        (decay.norms)(i) == 0 || pow((decay.norms)(i), decay.k) != 0,
        decay.is_given(i),
        !decay.is_given(j),
        weights::weighs(n, lag_norms, decay.given, distance_power, cond_weight, ws),
    ensures
        r.says(ws[i], share(i)),
        r.says(ws[j], share(j)),
        share(i) * r.scale == share(j) * decay.factor,
{
    let count = lag_norms.len() as int;
    let t = exactness::series(y, count);
    weights_are_shares(
        n,
        r,
        lag_norms,
        distance_power,
        cond_weight,
        decay,
        z,
        y,
        share,
        ws,
        i,
    );
    weights_are_shares(
        n,
        r,
        lag_norms,
        distance_power,
        cond_weight,
        decay,
        z,
        y,
        share,
        ws,
        j,
    );
    let s = r.scale;
    let f = decay.factor;
    assert(decay.favours(r, i, z(i), y(i)));
    assert(decay.favours(r, j, z(j), y(j)));
    assert(z(i) == z(j)) by {
        if (decay.norms)(i) != 0 {
            cancel(z(i), z(j), pow((decay.norms)(i), decay.k));
        }
    }
    assert(y(i) * s == y(j) * f);
    assert((share(i) * s) * t == (share(i) * t) * s) by (nonlinear_arith);
    assert((y(j) * f) * s == (y(j) * s) * f) by (nonlinear_arith);
    assert((share(j) * f) * t == (share(j) * t) * f) by (nonlinear_arith);
    assert(share(j) * t == y(j) * s && share(i) * t == y(i) * s);
    cancel(share(i) * s, share(j) * f, t);
}

/// Weights add up to 1, where the operations are exact.
pub proof fn weights_add_up_to_one<N: Arithmetic>(
    n: N,
    r: Reading,
    lag_norms: Seq<u64>,
    distance_power: u64,
    cond_weight: u64,
    decay: Decay,
    z: spec_fn(int) -> int,
    y: spec_fn(int) -> int,
    share: spec_fn(int) -> int,
    ws: Seq<u64>,
)
    requires
        r.exact(n),
        goes_by(r, lag_norms, distance_power, cond_weight, decay),
        weighed(r, lag_norms.len() as int, decay, z, y),
        exactness::series(y, lag_norms.len() as int) != 0,
        forall|m: int|
            0 <= m < lag_norms.len() ==> {
                &&& #[trigger] share(m) * exactness::series(y, lag_norms.len() as int) == y(m)
                    * r.scale
                &&& r.holds(share(m))
            },
        weights::weighs(n, lag_norms, decay.given, distance_power, cond_weight, ws),
    ensures
        ws.len() == lag_norms.len(),
        forall|i: int| 0 <= i < ws.len() ==> r.says(#[trigger] ws[i], share(i)),
        exactness::series(share, ws.len() as int) == r.scale,
{
    let count = lag_norms.len() as int;
    let t = exactness::series(y, count);
    assert(ws.len() == lag_norms.len());
    assert forall|i: int| 0 <= i < ws.len() implies r.says(#[trigger] ws[i], share(i)) by {
        assert(share(i) * t == y(i) * r.scale);
        weights_are_shares(
            n,
            r,
            lag_norms,
            distance_power,
            cond_weight,
            decay,
            z,
            y,
            share,
            ws,
            i,
        );
    }
    let left = lags::scaled(share, t);
    let right = lags::scaled(y, r.scale);
    assert forall|i: int| 0 <= i < count implies #[trigger] left(i) == right(i) by {
        assert(share(i) * t == y(i) * r.scale);
    }
    exactness::series_alike(left, right, count);
    lags::scaled_series(share, t, count);
    lags::scaled_series(y, r.scale, count);
    assert(t * r.scale == r.scale * t) by (nonlinear_arith);
    cancel(exactness::series(share, count), r.scale, t);
}

/// Where the weights of all values add up to zero, no value weighs anything.
pub proof fn weights_that_add_up_to_nothing_are_nothing<N: Arithmetic>(
    n: N,
    r: Reading,
    lag_norms: Seq<u64>,
    distance_power: u64,
    cond_weight: u64,
    decay: Decay,
    z: spec_fn(int) -> int,
    y: spec_fn(int) -> int,
    ws: Seq<u64>,
)
    requires
        r.exact(n),
        goes_by(r, lag_norms, distance_power, cond_weight, decay),
        weighed(r, lag_norms.len() as int, decay, z, y),
        exactness::series(y, lag_norms.len() as int) == 0,
        weights::weighs(n, lag_norms, decay.given, distance_power, cond_weight, ws),
    ensures
        ws.len() == lag_norms.len(),
        forall|i: int| 0 <= i < ws.len() ==> r.says(#[trigger] ws[i], 0),
{
    let count = lag_norms.len() as int;
    let (raw, total) = choose|raw: Seq<u64>, total: u64|
        {
            &&& weights::raw_weights(
                n,
                lag_norms,
                decay.given,
                distance_power,
                cond_weight,
                raw,
            )
            &&& arithmetic::sums(n, raw, total)
            &&& #[trigger] weights::scales(n, raw, total, ws)
        };
    assert forall|i: int| 0 <= i < raw.len() implies r.says(#[trigger] raw[i], y(i)) by {
        raw_weights_are_exact(
            n,
            r,
            lag_norms,
            distance_power,
            cond_weight,
            decay,
            z,
            y,
            raw,
            i,
        );
    }
    exactness::sums_come_to_the_series(n, r, raw, y, total);
    assert(r.says(total, 0));
    assert(r.says(word::ZERO, 0));
    assert(word::same(total, word::ZERO));
}

/// Where the weights of all values come to no finite sum, all values weigh the same: one part in as
/// many as there are.
pub proof fn weights_without_a_sum_are_equal<N: Arithmetic>(
    n: N,
    r: Reading,
    lag_norms: Seq<u64>,
    given: Seq<bool>,
    distance_power: u64,
    cond_weight: u64,
    share: int,
    ws: Seq<u64>,
)
    requires
        r.exact(n),
        lag_norms.len() <= usize::MAX,
        forall|raw: Seq<u64>, total: u64|
            #[trigger] weights::raw_weights(
                n,
                lag_norms,
                given,
                distance_power,
                cond_weight,
                raw,
            ) && #[trigger] arithmetic::sums(n, raw, total) ==> !word::finite(total),
        r.holds(lag_norms.len() * r.scale),
        lag_norms.len() > 0,
        r.holds(share),
        share * lag_norms.len() == r.scale,
        weights::weighs(n, lag_norms, given, distance_power, cond_weight, ws),
    ensures
        ws.len() == lag_norms.len(),
        forall|i: int| 0 <= i < ws.len() ==> r.says(#[trigger] ws[i], share),
{
    let (raw, total) = choose|raw: Seq<u64>, total: u64|
        {
            &&& weights::raw_weights(n, lag_norms, given, distance_power, cond_weight, raw)
            &&& arithmetic::sums(n, raw, total)
            &&& #[trigger] weights::scales(n, raw, total, ws)
        };
    assert(!word::finite(total));
    let each = choose|each: u64| #[trigger]
        weights::equal_share(n, raw.len() as usize, each) && forall|i: int|
            0 <= i < raw.len() ==> #[trigger] ws[i] == each;
    let number = choose|number: u64| #[trigger]
        arithmetic::counts(n, raw.len() as usize, number) && arithmetic::divides(
            n,
            word::ONE,
            number,
            each,
        );
    let c = lag_norms.len() as int;
    assert(r.says(number, c * r.scale));
    assert(share * (c * r.scale) == (share * c) * r.scale) by (nonlinear_arith);
    assert(r.product(share, c * r.scale, r.scale));
    assert(c * r.scale != 0) by (nonlinear_arith)
        requires
            0 < c,
            0 < r.scale,
    ;
    assert(r.says(each, share));
}

/// What the numbers among the values stand for, and 0 for what is none.
pub open spec fn known_parts(values: Seq<u64>, x: spec_fn(int) -> int) -> spec_fn(int) -> int {
    |i: int|
        if word::nan(values[i]) {
            0
        } else {
            x(i)
        }
}

/// 1 for each value that is a number.
pub open spec fn known_ones(values: Seq<u64>) -> spec_fn(int) -> int {
    |i: int|
        if word::nan(values[i]) {
            0
        } else {
            1
        }
}

proof fn defined_values_add_up<N: Arithmetic>(
    n: N,
    r: Reading,
    values: Seq<u64>,
    x: spec_fn(int) -> int,
    count: int,
    total: u64,
)
    requires
        r.exact(n),
        0 <= count <= values.len(),
        forall|i: int|
            0 <= i < values.len() && !word::nan(#[trigger] values[i]) ==> r.says(values[i], x(i)),
        exactness::summable(r, known_parts(values, x), values.len() as int),
        arithmetic::sums(n, weights::defined(values, count), total),
    ensures
        r.says(total, exactness::series(known_parts(values, x), count)),
        weights::defined(values, count).len() == exactness::series(known_ones(values), count),
    decreases count,
{
    let f = known_parts(values, x);
    let known = weights::defined(values, count);
    if count > 0 {
        assert(exactness::series(f, count) == exactness::series(f, count - 1) + f(count - 1));
        if word::nan(values[count - 1]) {
            defined_values_add_up(n, r, values, x, count - 1, total);
        } else {
            let before = weights::defined(values, count - 1);
            assert(known == before.push(values[count - 1]));
            let steps = arithmetic::sum_steps(n, known);
            let p = choose|p: u64|
                arithmetic::accumulates(steps, known.len() - 1, p) && #[trigger] steps(
                    known.len() - 1,
                    p,
                    total,
                );
            let fewer = arithmetic::sum_steps(n, before);
            assert forall|i: int, a: u64, b: u64|
                0 <= i < before.len() && #[trigger] steps(i, a, b) implies fewer(i, a, b) by {
                assert(known[i] == before[i]);
            }
            arithmetic::accumulates_under(steps, fewer, before.len() as int, p);
            defined_values_add_up(n, r, values, x, count - 1, p);
            assert(arithmetic::adds(n, p, values[count - 1], total));
            assert(r.says(values[count - 1], x(count - 1)));
            assert(r.holds(exactness::series(f, count)));
        }
    }
}

/// The mean is that of the numbers among the values: where the operations are exact, as many times
/// the mean as there are numbers make up their sum. There is a mean where there is a number.
pub proof fn means_are_those_of_the_numbers<N: Arithmetic>(
    n: N,
    r: Reading,
    values: Seq<u64>,
    x: spec_fn(int) -> int,
    expected: int,
    mean: Option<u64>,
)
    requires
        r.exact(n),
        values.len() <= usize::MAX,
        r.holds(values.len() * r.scale),
        forall|i: int|
            0 <= i < values.len() && !word::nan(#[trigger] values[i]) ==> r.says(values[i], x(i)),
        exactness::summable(r, known_parts(values, x), values.len() as int),
        r.holds(expected),
        expected * exactness::series(known_ones(values), values.len() as int)
            == exactness::series(known_parts(values, x), values.len() as int),
        weights::averages(n, values, mean),
    ensures
        mean is Some <==> exists|i: int|
            0 <= i < values.len() && !word::nan(#[trigger] values[i]),
        mean matches Some(m) ==> r.says(m, expected),
{
    let count = values.len() as int;
    let known = weights::defined(values, count);
    some_are_defined(values, count);
    if let Some(m) = mean {
        let (total, number) = choose|total: u64, number: u64|
            {
                &&& arithmetic::sums(n, known, total)
                &&& #[trigger] arithmetic::counts(n, known.len() as usize, number)
                &&& #[trigger] arithmetic::divides(n, total, number, m)
            };
        defined_values_add_up(n, r, values, x, count, total);
        let c = known.len() as int;
        let s = r.scale;
        assert(c <= count);
        assert(0 <= c * s <= count * s) by (nonlinear_arith)
            requires
                0 <= c <= count,
                0 < s,
        ;
        assert(r.says(number, c * s));
        let sum = exactness::series(known_parts(values, x), count);
        assert(expected * (c * s) == (expected * c) * s) by (nonlinear_arith);
        assert(r.product(expected, c * s, sum));
        assert(c * s != 0) by (nonlinear_arith)
            requires
                0 < c,
                0 < s,
        ;
    }
}

proof fn some_are_defined(values: Seq<u64>, count: int)
    requires
        0 <= count <= values.len(),
    ensures
        weights::defined(values, count).len() <= count,
        weights::defined(values, count).len() > 0 <==> exists|i: int|
            0 <= i < count && !word::nan(#[trigger] values[i]),
    decreases count,
{
    if count > 0 {
        some_are_defined(values, count - 1);
        if !word::nan(values[count - 1]) {
            assert(weights::defined(values, count).len() > 0);
        }
    }
}

} // verus!
