//! The weights of the values of an event, and the mean of what is known.

use crate::arithmetic::{self, Arithmetic};
use crate::word;
use vstd::prelude::*;

verus! {

/// `weight` is an outcome of the decay of a value at distance `norm`: 1 where there is no
/// decay or no distance, else `norm` to the power `-distance_power`.
pub open spec fn decays<N: Arithmetic>(
    n: N,
    norm: u64,
    distance_power: u64,
    weight: u64,
) -> bool {
    if word::same(distance_power, word::ZERO) || word::same(norm, word::ZERO) {
        weight == word::ONE
    } else {
        arithmetic::powers(n, norm, word::negated(distance_power), weight)
    }
}

/// `weight` is an outcome of the weight of one value before the weights are scaled.
pub open spec fn raw_weight<N: Arithmetic>(
    n: N,
    norm: u64,
    conditioned: bool,
    distance_power: u64,
    cond_weight: u64,
    weight: u64,
) -> bool {
    if conditioned {
        exists|decayed: u64| #[trigger]
            decays(n, norm, distance_power, decayed) && arithmetic::multiplies(
                n,
                decayed,
                cond_weight,
                weight,
            )
    } else {
        decays(n, norm, distance_power, weight)
    }
}

/// `raw` are outcomes of the weights before they are scaled.
pub open spec fn raw_weights<N: Arithmetic>(
    n: N,
    lag_norms: Seq<u64>,
    conditioned: Seq<bool>,
    distance_power: u64,
    cond_weight: u64,
    raw: Seq<u64>,
) -> bool {
    &&& raw.len() == lag_norms.len()
    &&& forall|i: int|
        0 <= i < raw.len() ==> raw_weight(
            n,
            lag_norms[i],
            i < conditioned.len() && conditioned[i],
            distance_power,
            cond_weight,
            #[trigger] raw[i],
        )
}

/// `weight` is an outcome of the equal share of one of `count` values.
pub open spec fn equal_share<N: Arithmetic>(n: N, count: usize, weight: u64) -> bool {
    exists|number: u64| #[trigger]
        arithmetic::counts(n, count, number) && arithmetic::divides(
            n,
            word::ONE,
            number,
            weight,
        )
}

/// `weights` are outcomes of scaling `raw` by their sum: all are zero where the sum is,
/// all are equal where the sum is not finite.
pub open spec fn scales<N: Arithmetic>(n: N, raw: Seq<u64>, total: u64, weights: Seq<u64>) -> bool {
    &&& weights.len() == raw.len()
    &&& if word::same(total, word::ZERO) {
        forall|i: int| 0 <= i < raw.len() ==> #[trigger] weights[i] == word::ZERO
    } else if !word::finite(total) {
        exists|share: u64| #[trigger]
            equal_share(n, raw.len() as usize, share) && forall|i: int|
                0 <= i < raw.len() ==> #[trigger] weights[i] == share
    } else {
        forall|i: int|
            0 <= i < raw.len() ==> arithmetic::divides(n, raw[i], total, #[trigger] weights[i])
    }
}

/// `weights` are outcomes of the weights of an event.
pub open spec fn weighs<N: Arithmetic>(
    n: N,
    lag_norms: Seq<u64>,
    conditioned: Seq<bool>,
    distance_power: u64,
    cond_weight: u64,
    weights: Seq<u64>,
) -> bool {
    exists|raw: Seq<u64>, total: u64|
        {
            &&& raw_weights(n, lag_norms, conditioned, distance_power, cond_weight, raw)
            &&& arithmetic::sums(n, raw, total)
            &&& #[trigger] scales(n, raw, total, weights)
        }
}

/// The weights of the values of an event: they decay with the distance from the node, are
/// multiplied by `cond_weight` where a value was given, and are scaled to a sum of 1.
pub fn compute_node_weights<N: Arithmetic>(
    n: &N,
    lag_norms: &[u64],
    conditioned: &[bool],
    distance_power: u64,
    cond_weight: u64,
) -> (weights: Vec<u64>)
    ensures
        weighs(*n, lag_norms@, conditioned@, distance_power, cond_weight, weights@),
{
    let mut raw: Vec<u64> = Vec::new();
    let mut i: usize = 0;
    while i < lag_norms.len()
        invariant
            i <= lag_norms@.len(),
            raw@.len() == i,
            forall|j: int|
                0 <= j < i ==> raw_weight(
                    *n,
                    lag_norms@[j],
                    j < conditioned@.len() && conditioned@[j],
                    distance_power,
                    cond_weight,
                    #[trigger] raw@[j],
                ),
        decreases lag_norms@.len() - i,
    {
        let norm: u64 = lag_norms[i];
        let decayed: u64 = if word::equal(distance_power, word::ZERO) || word::equal(
            norm,
            word::ZERO,
        ) {
            word::ONE
        } else {
            arithmetic::power(n, norm, word::negate(distance_power))
        };
        assert(decays(*n, norm, distance_power, decayed));
        let weight: u64 = if i < conditioned.len() && conditioned[i] {
            arithmetic::times(n, decayed, cond_weight)
        } else {
            decayed
        };
        raw.push(weight);
        i = i + 1;
    }
    let total: u64 = arithmetic::sum(n, &raw);
    let weights: Vec<u64> = scale(n, &raw, total);
    weights
}

fn scale<N: Arithmetic>(n: &N, raw: &Vec<u64>, total: u64) -> (weights: Vec<u64>)
    ensures
        scales(*n, raw@, total, weights@),
{
    let mut weights: Vec<u64> = Vec::new();
    if word::equal(total, word::ZERO) {
        let mut i: usize = 0;
        while i < raw.len()
            invariant
                i <= raw@.len(),
                weights@.len() == i,
                forall|j: int| 0 <= j < i ==> #[trigger] weights@[j] == word::ZERO,
            decreases raw@.len() - i,
        {
            weights.push(word::ZERO);
            i = i + 1;
        }
    } else if !word::is_finite(total) {
        let number: u64 = arithmetic::count(n, raw.len());
        let share: u64 = arithmetic::over(n, word::ONE, number);
        assert(equal_share(*n, raw@.len() as usize, share));
        let mut i: usize = 0;
        while i < raw.len()
            invariant
                i <= raw@.len(),
                weights@.len() == i,
                forall|j: int| 0 <= j < i ==> #[trigger] weights@[j] == share,
            decreases raw@.len() - i,
        {
            weights.push(share);
            i = i + 1;
        }
    } else {
        let mut i: usize = 0;
        while i < raw.len()
            invariant
                i <= raw@.len(),
                weights@.len() == i,
                forall|j: int|
                    0 <= j < i ==> arithmetic::divides(*n, raw@[j], total, #[trigger] weights@[j]),
            decreases raw@.len() - i,
        {
            let weight: u64 = arithmetic::over(n, raw[i], total);
            weights.push(weight);
            i = i + 1;
        }
    }
    weights
}

/// The numbers among the first `count` values.
pub open spec fn defined(values: Seq<u64>, count: int) -> Seq<u64>
    decreases count,
{
    if count <= 0 {
        Seq::empty()
    } else if word::nan(values[count - 1]) {
        defined(values, count - 1)
    } else {
        defined(values, count - 1).push(values[count - 1])
    }
}

/// `mean` is an outcome of the mean of the numbers `known`.
pub open spec fn mean_of<N: Arithmetic>(n: N, known: Seq<u64>, mean: u64) -> bool {
    exists|total: u64, number: u64|
        {
            &&& arithmetic::sums(n, known, total)
            &&& #[trigger] arithmetic::counts(n, known.len() as usize, number)
            &&& #[trigger] arithmetic::divides(n, total, number, mean)
        }
}

/// `mean` is an outcome of the mean of the numbers among the values: there is one where
/// there are numbers.
pub open spec fn averages<N: Arithmetic>(n: N, values: Seq<u64>, mean: Option<u64>) -> bool {
    let known = defined(values, values.len() as int);
    match mean {
        Some(m) => known.len() > 0 && mean_of(n, known, m),
        None => known.len() == 0,
    }
}

/// The mean of the numbers among the values.
pub fn nanmean<N: Arithmetic>(n: &N, values: &[u64]) -> (mean: Option<u64>)
    ensures
        averages(*n, values@, mean),
{
    let mut total: u64 = word::ZERO;
    let mut count: usize = 0;
    let mut i: usize = 0;
    assert(arithmetic::sums(*n, defined(values@, 0), word::ZERO));
    while i < values.len()
        invariant
            i <= values@.len(),
            count <= i,
            count == defined(values@, i as int).len(),
            arithmetic::sums(*n, defined(values@, i as int), total),
        decreases values@.len() - i,
    {
        if !word::is_nan(values[i]) {
            let next: u64 = arithmetic::plus(n, total, values[i]);
            proof {
                arithmetic::sums_one_more(
                    *n,
                    defined(values@, i as int),
                    total,
                    values@[i as int],
                    next,
                );
            }
            total = next;
            count = count + 1;
        }
        i = i + 1;
    }
    if count > 0 {
        let number: u64 = arithmetic::count(n, count);
        let mean: u64 = arithmetic::over(n, total, number);
        proof {
            let known = defined(values@, values@.len() as int);
            assert(arithmetic::counts(*n, known.len() as usize, number));
            assert(mean_of(*n, known, mean));
        }
        Some(mean)
    } else {
        None
    }
}

} // verus!
