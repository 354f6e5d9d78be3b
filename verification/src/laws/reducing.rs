//! How an event that was brought into the training image is reduced until it fits.

use crate::event::{self, EventModel};
use crate::exactness;
use crate::window;
use vstd::prelude::*;

verus! {

/// The parts of `e` are those of `whole` at the given places, which come in order.
pub open spec fn part_of(e: EventModel, whole: EventModel, places: Seq<int>) -> bool {
    &&& e.wf()
    &&& e.values.len() == places.len()
    &&& forall|i: int, j: int|
        0 <= i < j < places.len() ==> #[trigger] places[i] < #[trigger] places[j]
    &&& forall|i: int|
        0 <= i < places.len() ==> {
            &&& 0 <= #[trigger] places[i] < whole.values.len()
            &&& e.values[i] == whole.values[places[i]]
            &&& e.conditioned[i] == whole.conditioned[places[i]]
            &&& e.lags[i] == whole.lags[places[i]]
            &&& e.lag_norms[i] == whole.lag_norms[places[i]]
        }
}

/// Along which axis the lags exceed the image most, and by how much: the span of the lags and the
/// node, less the size of the image.
pub open spec fn overhang(lags: Seq<Seq<i64>>, shape: Seq<i64>, axis: int) -> int {
    window::greatest(lags, lags.len() as int, axis) - window::least(lags, lags.len() as int, axis)
        + 1 - shape[axis]
}

/// How far a lag leads along an axis, one way or the other.
pub open spec fn stretch(lag: Seq<i64>, axis: int) -> int {
    vstd::math::max(lag[axis] as int, -lag[axis])
}

proof fn some_axis_is_worst(lags: Seq<Seq<i64>>, shape: Seq<i64>, count: int) -> (axis: int)
    requires
        0 < count <= shape.len(),
    ensures
        0 <= axis < count,
        forall|b: int|
            0 <= b < count ==> #[trigger] event::excess(lags, shape, b) <= event::excess(
                lags,
                shape,
                axis,
            ),
        forall|b: int|
            0 <= b < axis ==> #[trigger] event::excess(lags, shape, b) < event::excess(
                lags,
                shape,
                axis,
            ),
    decreases count,
{
    if count == 1 {
        0
    } else {
        let axis = some_axis_is_worst(lags, shape, count - 1);
        if event::excess(lags, shape, count - 1) > event::excess(lags, shape, axis) {
            count - 1
        } else {
            axis
        }
    }
}

proof fn some_lag_is_farthest(lags: Seq<Seq<i64>>, axis: int, count: int) -> (i: int)
    requires
        0 <= count <= lags.len(),
        exists|j: int| 0 <= j < count && !window::at_rest(#[trigger] lags[j]),
    ensures
        0 <= i < count,
        !window::at_rest(lags[i]),
        forall|j: int|
            0 <= j < count && !window::at_rest(#[trigger] lags[j]) ==> event::distance_along(
                lags[j],
                axis,
            ) <= event::distance_along(lags[i], axis),
        forall|j: int|
            0 <= j < i && !window::at_rest(#[trigger] lags[j]) ==> event::distance_along(
                lags[j],
                axis,
            ) < event::distance_along(lags[i], axis),
    decreases count,
{
    let last = count - 1;
    if exists|j: int| 0 <= j < last && !window::at_rest(#[trigger] lags[j]) {
        let i = some_lag_is_farthest(lags, axis, last);
        if !window::at_rest(lags[last]) && event::distance_along(lags[last], axis)
            > event::distance_along(lags[i], axis) {
            last
        } else {
            i
        }
    } else {
        last
    }
}

/// What is given up of an event that does not fit is the lag that leads farthest along the axis
/// along which the lags exceed the image most: the first such axis, and the first such lag.
pub proof fn the_farthest_lag_is_given_up(e: EventModel, shape: Seq<i64>) -> (r: (int, int))
    requires
        e.wf(),
        window::comparable(e.lags, e.lags.len() as int, shape),
        !window::fits(e.lags, e.lags.len() as int, shape),
    ensures
        0 <= r.0 < shape.len(),
        forall|b: int|
            0 <= b < shape.len() ==> #[trigger] overhang(e.lags, shape, b) <= overhang(
                e.lags,
                shape,
                r.0,
            ) && (b < r.0 ==> overhang(e.lags, shape, b) < overhang(e.lags, shape, r.0)),
        0 <= r.1 < e.lags.len(),
        !window::at_rest(e.lags[r.1]),
        forall|j: int|
            0 <= j < e.lags.len() && !window::at_rest(#[trigger] e.lags[j]) ==> stretch(
                e.lags[j],
                r.0,
            ) <= stretch(e.lags[r.1], r.0) && (j < r.1 ==> stretch(e.lags[j], r.0) < stretch(
                e.lags[r.1],
                r.0,
            )),
        event::fitted(e, shape) == event::fitted(e.without(r.1), shape),
{
    let lags = e.lags;
    let moving = choose|j: int| 0 <= j < lags.len() && !window::at_rest(#[trigger] lags[j]);
    assert(0 <= moving < lags.len() && !window::at_rest(lags[moving]));
    assert(lags[moving].len() == shape.len());
    assert(shape.len() > 0);
    let first = some_axis_is_worst(lags, shape, shape.len() as int);
    assert(event::is_worst_axis(lags, shape, first));
    let axis = choose|axis: int| event::is_worst_axis(lags, shape, axis);
    let found = some_lag_is_farthest(lags, axis, lags.len() as int);
    assert(event::is_farthest(lags, axis, found));
    let i = event::given_up(lags, shape);
    assert(event::is_farthest(lags, axis, i));
    assert forall|b: int| 0 <= b < shape.len() implies #[trigger] overhang(lags, shape, b)
        <= overhang(lags, shape, axis) && (b < axis ==> overhang(lags, shape, b) < overhang(
        lags,
        shape,
        axis,
    )) by {
        assert(event::excess(lags, shape, b) <= event::excess(lags, shape, axis));
    }
    assert forall|j: int| 0 <= j < lags.len() && !window::at_rest(#[trigger] lags[j]) implies
        stretch(lags[j], axis) <= stretch(lags[i], axis) && (j < i ==> stretch(lags[j], axis)
        < stretch(lags[i], axis)) by {
        assert(event::distance_along(lags[j], axis) <= event::distance_along(lags[i], axis));
    }
    (axis, i)
}

/// Fitting an event only leaves values out, each with its lag, its norm and its mark; and what fits
/// is left as it is.
pub proof fn fitting_leaves_values_out(e: EventModel, shape: Seq<i64>) -> (places: Seq<int>)
    requires
        e.wf(),
        window::comparable(e.lags, e.lags.len() as int, shape),
    ensures
        part_of(event::fitted(e, shape), e, places),
        window::fits(e.lags, e.lags.len() as int, shape) ==> event::fitted(e, shape) == e,
        window::fits(
            event::fitted(e, shape).lags,
            event::fitted(e, shape).lags.len() as int,
            shape,
        ),
    decreases e.lags.len(),
{
    if window::fits(e.lags, e.lags.len() as int, shape) {
        Seq::new(e.values.len(), |i: int| i)
    } else {
        let (axis, g) = the_farthest_lag_is_given_up(e, shape);
        let less = e.without(g);
        assert forall|k: int| 0 <= k < less.lags.len() implies (#[trigger] less.lags[k]).len()
            == shape.len() by {
            assert(e.lags[k].len() == shape.len());
            assert(e.lags[k + 1].len() == shape.len());
        }
        let inner = fitting_leaves_values_out(less, shape);
        let places = Seq::new(
            inner.len(),
            |i: int|
                if inner[i] < g {
                    inner[i]
                } else {
                    inner[i] + 1
                },
        );
        let out = event::fitted(e, shape);
        assert(out == event::fitted(less, shape));
        assert forall|i: int| 0 <= i < places.len() implies {
            &&& 0 <= #[trigger] places[i] < e.values.len()
            &&& out.values[i] == e.values[places[i]]
            &&& out.conditioned[i] == e.conditioned[places[i]]
            &&& out.lags[i] == e.lags[places[i]]
            &&& out.lag_norms[i] == e.lag_norms[places[i]]
        } by {
            assert(0 <= inner[i] < less.values.len());
        }
        assert forall|i: int, j: int| 0 <= i < j < places.len() implies #[trigger] places[i]
            < #[trigger] places[j] by {
            assert(inner[i] < inner[j]);
        }
        places
    }
}

proof fn first_places_are_first(lags: Seq<Seq<i64>>, count: int)
    requires
        0 <= count <= lags.len(),
    ensures
        forall|j: int| #[trigger]
            event::first_places(lags, count).contains(j) <==> 0 <= j < count && forall|i: int|
                0 <= i < j ==> #[trigger] lags[i] != lags[j],
        forall|a: int, b: int|
            0 <= a < b < event::first_places(lags, count).len() ==> #[trigger] event::first_places(
                lags,
                count,
            )[a] < #[trigger] event::first_places(lags, count)[b],
    decreases count,
{
    event::first_places_are_places(lags, count);
    if count > 0 {
        first_places_are_first(lags, count - 1);
        event::first_places_are_places(lags, count - 1);
        let before = event::first_places(lags, count - 1);
        let all = event::first_places(lags, count);
        assert forall|j: int| #[trigger] all.contains(j) <==> 0 <= j < count && (forall|i: int|
            0 <= i < j ==> #[trigger] lags[i] != lags[j]) by {
            if j < count - 1 {
                if before.contains(j) {
                    let k = choose|k: int| 0 <= k < before.len() && before[k] == j;
                    assert(all[k] == j);
                }
                if all.contains(j) {
                    let k = choose|k: int| 0 <= k < all.len() && all[k] == j;
                    assert(before[k] == j);
                }
            } else if j == count - 1 {
                if event::is_new(lags, count - 1) {
                    assert(all[before.len() as int] == count - 1);
                }
            }
        }
    }
}

/// Of values that share a lag the first one stays, with its lag, its norm and its mark: a reduced
/// event holds values of the event, in order, each with its own mapped lag, and none of them shares
/// its lag with an earlier value. Where all values with lags of their own fit together, none of
/// these is missing. The others are counted.
pub proof fn values_that_share_a_lag_are_left_out(
    e: EventModel,
    mapped: Seq<Seq<i64>>,
    shape: Seq<i64>,
) -> (places: Seq<int>)
    requires
        e.wf(),
        mapped.len() == e.values.len(),
        forall|i: int| 0 <= i < mapped.len() ==> (#[trigger] mapped[i]).len() == shape.len(),
        forall|a: int| 0 <= a < shape.len() ==> 0 <= #[trigger] shape[a],
    ensures
        part_of(event::reduced(e, mapped, shape), e.moved(mapped), places),
        forall|k: int, i: int|
            0 <= k < places.len() && 0 <= i < places[k] ==> #[trigger] mapped[i]
                != mapped[#[trigger] places[k]],
        event::collapsed(mapped) == 0 && window::fits(mapped, mapped.len() as int, shape)
            ==> places.len() == mapped.len(),
        0 <= event::collapsed(mapped) <= mapped.len(),
        event::collapsed(mapped) == 0 <==> forall|i: int, j: int|
            0 <= i < j < mapped.len() ==> #[trigger] mapped[i] != #[trigger] mapped[j],
{
    let count = mapped.len() as int;
    let firsts = event::first_places(mapped, count);
    event::first_places_are_places(mapped, count);
    first_places_are_first(mapped, count);
    let moved = e.moved(mapped);
    let picked = moved.picked(firsts);
    assert forall|k: int| 0 <= k < picked.lags.len() implies (#[trigger] picked.lags[k]).len()
        == shape.len() by {
        assert(0 <= firsts[k] < count);
    }
    let inner = fitting_leaves_values_out(picked, shape);
    let places = Seq::new(inner.len(), |i: int| firsts[inner[i]]);
    let out = event::reduced(e, mapped, shape);
    assert forall|i: int| 0 <= i < places.len() implies {
        &&& 0 <= #[trigger] places[i] < moved.values.len()
        &&& out.values[i] == moved.values[places[i]]
        &&& out.conditioned[i] == moved.conditioned[places[i]]
        &&& out.lags[i] == moved.lags[places[i]]
        &&& out.lag_norms[i] == moved.lag_norms[places[i]]
    } by {
        assert(0 <= inner[i] < picked.values.len());
        assert(0 <= firsts[inner[i]] < count);
    }
    assert forall|i: int, j: int| 0 <= i < j < places.len() implies #[trigger] places[i]
        < #[trigger] places[j] by {
        assert(inner[i] < inner[j]);
        assert(firsts[inner[i]] < firsts[inner[j]]);
    }
    assert forall|k: int, i: int| 0 <= k < places.len() && 0 <= i < places[k] implies
        #[trigger] mapped[i] != mapped[#[trigger] places[k]] by {
        assert(firsts[inner[k]] == places[k]);
        assert(firsts.contains(places[k]));
    }
    if firsts.len() == count {
        all_places_are_first(firsts, count);
        assert forall|i: int, j: int| 0 <= i < j < mapped.len() implies #[trigger] mapped[i]
            != #[trigger] mapped[j] by {
            assert(firsts[j] == j);
            assert(firsts.contains(j));
        }
        assert(picked.lags =~= mapped);
    }
    if forall|i: int, j: int|
        0 <= i < j < mapped.len() ==> #[trigger] mapped[i] != #[trigger] mapped[j] {
        every_place_is_first(mapped, count);
    }
    places
}

proof fn every_place_is_first(lags: Seq<Seq<i64>>, count: int)
    requires
        0 <= count <= lags.len(),
        forall|i: int, j: int|
            0 <= i < j < lags.len() ==> #[trigger] lags[i] != #[trigger] lags[j],
    ensures
        event::first_places(lags, count).len() == count,
    decreases count,
{
    if count > 0 {
        every_place_is_first(lags, count - 1);
        assert(event::is_new(lags, count - 1));
    }
}

proof fn all_places_are_first(places: Seq<int>, count: int)
    requires
        places.len() == count,
        forall|i: int| 0 <= i < count ==> 0 <= #[trigger] places[i] < count,
        forall|a: int, b: int|
            0 <= a < b < count ==> #[trigger] places[a] < #[trigger] places[b],
    ensures
        forall|i: int| 0 <= i < count ==> #[trigger] places[i] == i,
{
    assert forall|i: int| 0 <= i < count implies #[trigger] places[i] == i by {
        rising_places(places, count, i);
        falling_places(places, count, i);
    }
}

proof fn rising_places(places: Seq<int>, count: int, i: int)
    requires
        places.len() == count,
        0 <= i < count,
        forall|i: int| 0 <= i < count ==> 0 <= #[trigger] places[i] < count,
        forall|a: int, b: int|
            0 <= a < b < count ==> #[trigger] places[a] < #[trigger] places[b],
    ensures
        places[i] >= i,
    decreases i,
{
    if i > 0 {
        rising_places(places, count, i - 1);
        assert(places[i - 1] < places[i]);
    }
}

proof fn falling_places(places: Seq<int>, count: int, i: int)
    requires
        places.len() == count,
        0 <= i < count,
        forall|i: int| 0 <= i < count ==> 0 <= #[trigger] places[i] < count,
        forall|a: int, b: int|
            0 <= a < b < count ==> #[trigger] places[a] < #[trigger] places[b],
    ensures
        places[i] <= i,
    decreases count - i,
{
    if i < count - 1 {
        falling_places(places, count, i + 1);
        assert(places[i] < places[i + 1]);
    }
}

/// 1 for each value whose lag an earlier value has.
pub open spec fn repeats(lags: Seq<Seq<i64>>) -> spec_fn(int) -> int {
    |j: int|
        if exists|i: int| 0 <= i < j && #[trigger] lags[i] == lags[j] {
            1
        } else {
            0
        }
}

/// The values that share a lag with an earlier one are counted one by one.
pub proof fn values_that_share_a_lag_are_counted(mapped: Seq<Seq<i64>>)
    ensures
        event::collapsed(mapped) == exactness::series(repeats(mapped), mapped.len() as int),
{
    repeats_are_counted(mapped, mapped.len() as int);
}

proof fn repeats_are_counted(lags: Seq<Seq<i64>>, count: int)
    requires
        0 <= count <= lags.len(),
    ensures
        count - event::first_places(lags, count).len() == exactness::series(repeats(lags), count),
    decreases count,
{
    if count > 0 {
        repeats_are_counted(lags, count - 1);
        assert(event::is_new(lags, count - 1) <==> repeats(lags)(count - 1) == 0);
    }
}

} // verus!
