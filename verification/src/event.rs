//! Data events: the known values around a node, and how they are brought into the
//! training image.

use crate::arithmetic::{self, Arithmetic};
use crate::window;
use crate::word;
use vstd::prelude::*;

verus! {

/// What an event holds, value by value.
#[verifier::ext_equal]
pub struct EventModel {
    /// The values.
    pub values: Seq<u64>,
    /// Which values were given and not simulated.
    pub conditioned: Seq<bool>,
    /// Where the values lie, seen from the node.
    pub lags: Seq<Seq<i64>>,
    /// How far from the node the values lie in the simulation grid.
    pub lag_norms: Seq<u64>,
}

impl EventModel {
    /// There is one lag, one norm and one mark for each value.
    pub open spec fn wf(self) -> bool {
        &&& self.conditioned.len() == self.values.len()
        &&& self.lags.len() == self.values.len()
        &&& self.lag_norms.len() == self.values.len()
    }

    /// The first `count` values of the event.
    pub open spec fn first(self, count: int) -> EventModel {
        EventModel {
            values: self.values.take(count),
            conditioned: self.conditioned.take(count),
            lags: self.lags.take(count),
            lag_norms: self.lag_norms.take(count),
        }
    }

    /// The values at the given places of the event.
    pub open spec fn picked(self, places: Seq<int>) -> EventModel {
        EventModel {
            values: Seq::new(places.len(), |i: int| self.values[places[i]]),
            conditioned: Seq::new(places.len(), |i: int| self.conditioned[places[i]]),
            lags: Seq::new(places.len(), |i: int| self.lags[places[i]]),
            lag_norms: Seq::new(places.len(), |i: int| self.lag_norms[places[i]]),
        }
    }

    /// The event with other lags.
    pub open spec fn moved(self, lags: Seq<Seq<i64>>) -> EventModel {
        EventModel { lags, ..self }
    }

    /// The event without the value at place `i`.
    pub open spec fn without(self, i: int) -> EventModel {
        EventModel {
            values: removed(self.values, i),
            conditioned: removed(self.conditioned, i),
            lags: removed(self.lags, i),
            lag_norms: removed(self.lag_norms, i),
        }
    }
}

/// The sequence without its element at place `i`.
pub open spec fn removed<T>(s: Seq<T>, i: int) -> Seq<T> {
    Seq::new(
        (s.len() - 1) as nat,
        |k: int|
            if k < i {
                s[k]
            } else {
                s[k + 1]
            },
    )
}

/// The known values around a node.
pub struct Event {
    /// The values.
    pub values: Vec<u64>,
    /// Which values were given and not simulated.
    pub conditioned: Vec<bool>,
    /// Where the values lie, seen from the node.
    pub lags: Vec<Vec<i64>>,
    /// How far from the node the values lie in the simulation grid.
    pub lag_norms: Vec<u64>,
}

impl View for Event {
    type V = EventModel;

    open spec fn view(&self) -> EventModel {
        EventModel {
            values: self.values@,
            conditioned: self.conditioned@,
            lags: window::views(self.lags@),
            lag_norms: self.lag_norms@,
        }
    }
}

impl Event {
    /// An event without values.
    pub fn empty() -> (event: Event)
        ensures
            event@.wf(),
            event@.values.len() == 0,
    {
        Event {
            values: Vec::new(),
            conditioned: Vec::new(),
            lags: Vec::new(),
            lag_norms: Vec::new(),
        }
    }

    /// How many values the event has.
    pub fn len(&self) -> (r: usize)
        ensures
            r == self@.values.len(),
    {
        self.values.len()
    }

    /// Drops all but the first `keep` values.
    pub fn truncate(&mut self, keep: usize)
        requires
            old(self)@.wf(),
        ensures
            final(self)@.wf(),
            keep <= old(self)@.values.len() ==> final(self)@ == old(self)@.first(keep as int),
            keep > old(self)@.values.len() ==> final(self)@ == old(self)@,
    {
        self.values.truncate(keep);
        self.conditioned.truncate(keep);
        self.lags.truncate(keep);
        self.lag_norms.truncate(keep);
        proof {
            if keep <= old(self)@.values.len() {
                assert(self@ =~~= old(self)@.first(keep as int));
            } else {
                assert(self@ =~~= old(self)@);
            }
        }
    }
}

/// The steps of one component of a mapped lag: each component of the lag adds itself
/// times its coefficient.
pub open spec fn mapping_steps<N: Arithmetic>(
    n: N,
    row: Seq<u64>,
    lag: Seq<i64>,
) -> spec_fn(int, u64, u64) -> bool {
    |i: int, p: u64, q: u64| mapping_step(n, lag[i], row[i], p, q)
}

/// `p + component * coefficient` may come out as `q`.
pub open spec fn mapping_step<N: Arithmetic>(
    n: N,
    component: i64,
    coefficient: u64,
    p: u64,
    q: u64,
) -> bool {
    exists|number: u64, product: u64|
        {
            &&& #[trigger] arithmetic::numbers(n, component, number)
            &&& #[trigger] arithmetic::multiplies(n, number, coefficient, product)
            &&& arithmetic::adds(n, p, product, q)
        }
}

/// `component` is an outcome of applying one row of a matrix to a lag, rounded.
pub open spec fn maps_component<N: Arithmetic>(
    n: N,
    row: Seq<u64>,
    lag: Seq<i64>,
    component: i64,
) -> bool {
    exists|total: u64|
        {
            &&& arithmetic::accumulates(mapping_steps(n, row, lag), lag.len() as int, total)
            &&& #[trigger] arithmetic::rounds(n, total, component)
        }
}

/// `mapped` is an outcome of applying a matrix to a lag, rounded.
pub open spec fn maps_lag<N: Arithmetic>(
    n: N,
    matrix: Seq<Vec<u64>>,
    lag: Seq<i64>,
    mapped: Seq<i64>,
) -> bool {
    &&& mapped.len() == lag.len()
    &&& forall|a: int|
        0 <= a < lag.len() ==> maps_component(n, matrix[a]@, lag, #[trigger] mapped[a])
}

/// `mapped` is an outcome of applying a matrix to each lag, rounded.
pub open spec fn maps_lags<N: Arithmetic>(
    n: N,
    matrix: Seq<Vec<u64>>,
    lags: Seq<Seq<i64>>,
    mapped: Seq<Seq<i64>>,
) -> bool {
    &&& mapped.len() == lags.len()
    &&& forall|i: int|
        0 <= i < lags.len() ==> maps_lag(n, matrix, lags[i], #[trigger] mapped[i])
}

/// The lag at place `i` has not occurred before.
pub open spec fn is_new(lags: Seq<Seq<i64>>, i: int) -> bool {
    forall|j: int| 0 <= j < i ==> #[trigger] lags[j] != lags[i]
}

/// The places among the first `count` at which a lag occurs for the first time.
pub open spec fn first_places(lags: Seq<Seq<i64>>, count: int) -> Seq<int>
    decreases count,
{
    if count <= 0 {
        Seq::empty()
    } else if is_new(lags, count - 1) {
        first_places(lags, count - 1).push(count - 1)
    } else {
        first_places(lags, count - 1)
    }
}

/// By how much the lags reach too far along an axis to fit in the training image.
pub open spec fn excess(lags: Seq<Seq<i64>>, shape: Seq<i64>, axis: int) -> int {
    window::greatest(lags, lags.len() as int, axis) - window::least(lags, lags.len() as int, axis)
        - (shape[axis] - 1)
}

/// The lags reach too far along this axis, farther than along any other and farther than
/// along the axes before it.
pub open spec fn is_worst_axis(lags: Seq<Seq<i64>>, shape: Seq<i64>, axis: int) -> bool {
    &&& 0 <= axis < shape.len()
    &&& forall|b: int|
        0 <= b < shape.len() ==> #[trigger] excess(lags, shape, b) <= excess(lags, shape, axis)
    &&& forall|b: int|
        0 <= b < axis ==> #[trigger] excess(lags, shape, b) < excess(lags, shape, axis)
}

/// How far a lag leads along an axis, whatever the direction.
pub open spec fn distance_along(lag: Seq<i64>, axis: int) -> int {
    if lag[axis] < 0 {
        -lag[axis]
    } else {
        lag[axis] as int
    }
}

/// Of the lags that lead somewhere, the one at place `i` is the first that leads
/// farthest along an axis.
pub open spec fn is_farthest(lags: Seq<Seq<i64>>, axis: int, i: int) -> bool {
    &&& 0 <= i < lags.len()
    &&& !window::at_rest(lags[i])
    &&& forall|j: int|
        0 <= j < lags.len() && !window::at_rest(#[trigger] lags[j]) ==> distance_along(
            lags[j],
            axis,
        ) <= distance_along(lags[i], axis)
    &&& forall|j: int|
        0 <= j < i && !window::at_rest(#[trigger] lags[j]) ==> distance_along(lags[j], axis)
            < distance_along(lags[i], axis)
}

/// The lag to give up first: the farthest along the axis with the largest excess.
pub open spec fn given_up(lags: Seq<Seq<i64>>, shape: Seq<i64>) -> int {
    let axis = choose|axis: int| is_worst_axis(lags, shape, axis);
    choose|i: int| is_farthest(lags, axis, i)
}

/// What is left of an event when lags are given up until the event fits in the training
/// image.
pub open spec fn fitted(event: EventModel, shape: Seq<i64>) -> EventModel
    decreases event.lags.len(),
{
    if window::fits(event.lags, event.lags.len() as int, shape) {
        event
    } else {
        fitted(event.without(given_up(event.lags, shape)), shape)
    }
}

/// An event whose lags become `mapped`: of values that come to share a lag the first
/// stays, and lags are given up until the event fits.
pub open spec fn reduced(
    event: EventModel,
    mapped: Seq<Seq<i64>>,
    shape: Seq<i64>,
) -> EventModel {
    fitted(event.moved(mapped).picked(first_places(mapped, mapped.len() as int)), shape)
}

/// How many values share a lag with an earlier one.
pub open spec fn collapsed(mapped: Seq<Seq<i64>>) -> int {
    mapped.len() - first_places(mapped, mapped.len() as int).len()
}

fn same_lag(a: &Vec<i64>, b: &Vec<i64>) -> (r: bool)
    ensures
        r == (a@ == b@),
{
    if a.len() != b.len() {
        return false;
    }
    let mut k: usize = 0;
    while k < a.len()
        invariant
            k <= a@.len(),
            a@.len() == b@.len(),
            forall|j: int| 0 <= j < k ==> #[trigger] a@[j] == b@[j],
        decreases a@.len() - k,
    {
        if a[k] != b[k] {
            assert(a@[k as int] != b@[k as int]);
            return false;
        }
        k = k + 1;
    }
    assert(a@ =~= b@);
    true
}

/// A copy of a lag.
pub fn copy_lag(lag: &Vec<i64>) -> (copy: Vec<i64>)
    ensures
        copy@ == lag@,
{
    let copy: Vec<i64> = lag.clone();
    assert(copy@ =~= lag@);
    copy
}

fn map_lag<N: Arithmetic>(n: &N, matrix: &[Vec<u64>], lag: &Vec<i64>) -> (mapped: Vec<i64>)
    requires
        matrix@.len() == lag@.len(),
        forall|a: int| 0 <= a < matrix@.len() ==> (#[trigger] matrix@[a])@.len() == lag@.len(),
    ensures
        maps_lag(*n, matrix@, lag@, mapped@),
{
    let mut mapped: Vec<i64> = Vec::new();
    let mut a: usize = 0;
    while a < lag.len()
        invariant
            a <= lag@.len(),
            matrix@.len() == lag@.len(),
            forall|a: int|
                0 <= a < matrix@.len() ==> (#[trigger] matrix@[a])@.len() == lag@.len(),
            mapped@.len() == a,
            forall|b: int|
                0 <= b < a ==> maps_component(*n, matrix@[b]@, lag@, #[trigger] mapped@[b]),
        decreases lag@.len() - a,
    {
        let row: &Vec<u64> = &matrix[a];
        let ghost steps = mapping_steps(*n, row@, lag@);
        let mut total: u64 = word::ZERO;
        let mut i: usize = 0;
        while i < lag.len()
            invariant
                i <= lag@.len(),
                row@.len() == lag@.len(),
                steps == mapping_steps(*n, row@, lag@),
                arithmetic::accumulates(steps, i as int, total),
            decreases lag@.len() - i,
        {
            let number: u64 = arithmetic::number(n, lag[i]);
            let product: u64 = arithmetic::times(n, number, row[i]);
            let next: u64 = arithmetic::plus(n, total, product);
            proof {
                assert(steps(i as int, total, next));
                arithmetic::accumulates_one_more(steps, i as int, total, next);
            }
            total = next;
            i = i + 1;
        }
        let component: i64 = arithmetic::nearest(n, total);
        mapped.push(component);
        a = a + 1;
    }
    mapped
}

fn occurred_before(lags: &Vec<Vec<i64>>, i: usize) -> (r: bool)
    requires
        i < lags@.len(),
    ensures
        r == !is_new(window::views(lags@), i as int),
{
    let ghost all = window::views(lags@);
    let mut j: usize = 0;
    while j < i
        invariant
            j <= i < lags@.len(),
            all == window::views(lags@),
            forall|k: int| 0 <= k < j ==> #[trigger] all[k] != all[i as int],
        decreases i - j,
    {
        if same_lag(&lags[j], &lags[i]) {
            assert(all[j as int] == all[i as int]);
            return true;
        }
        j = j + 1;
    }
    false
}

/// Maps the lags of an event into the training image (TI) and cuts the event down to
/// what fits there.
///
/// Of the values that come to share a lag, the first stays. Then, as long as the event
/// fits nowhere in the TI, the lag that leads farthest along the axis of the largest
/// excess is given up. Returns how many values shared a lag with an earlier one.
pub fn transform_and_reduce_event<N: Arithmetic>(
    n: &N,
    event: &mut Event,
    matrix: &[Vec<u64>],
    ti_shape: &[i64],
) -> (r: usize)
    requires
        old(event)@.wf(),
        window::comparable(old(event)@.lags, old(event)@.lags.len() as int, ti_shape@),
        matrix@.len() == ti_shape@.len(),
        forall|a: int|
            0 <= a < matrix@.len() ==> (#[trigger] matrix@[a])@.len() == ti_shape@.len(),
    ensures
        exists|mapped: Seq<Seq<i64>>| #[trigger]
            maps_lags(*n, matrix@, old(event)@.lags, mapped) && final(event)@ == reduced(
                old(event)@,
                mapped,
                ti_shape@,
            ) && r == collapsed(mapped),
        final(event)@.wf(),
        final(event)@.lags.len() <= old(event)@.lags.len(),
        r <= old(event)@.lags.len(),
        window::comparable(final(event)@.lags, final(event)@.lags.len() as int, ti_shape@),
        window::fits(final(event)@.lags, final(event)@.lags.len() as int, ti_shape@),
{
    let ghost initial = event@;
    let mut transformed: Vec<Vec<i64>> = Vec::new();
    let mut i: usize = 0;
    while i < event.lags.len()
        invariant
            i <= event.lags@.len(),
            event@ == initial,
            window::comparable(initial.lags, initial.lags.len() as int, ti_shape@),
            matrix@.len() == ti_shape@.len(),
            forall|a: int|
                0 <= a < matrix@.len() ==> (#[trigger] matrix@[a])@.len() == ti_shape@.len(),
            transformed@.len() == i,
            forall|j: int|
                0 <= j < i ==> maps_lag(
                    *n,
                    matrix@,
                    initial.lags[j],
                    (#[trigger] transformed@[j])@,
                ),
        decreases event.lags@.len() - i,
    {
        assert(event@.lags[i as int] == event.lags@[i as int]@);
        let mapped: Vec<i64> = map_lag(n, matrix, &event.lags[i]);
        transformed.push(mapped);
        i = i + 1;
    }
    let ghost mapped = window::views(transformed@);
    assert forall|j: int| 0 <= j < initial.lags.len() implies maps_lag(
        *n,
        matrix@,
        initial.lags[j],
        #[trigger] mapped[j],
    ) by {
        assert(mapped[j] == transformed@[j]@);
    }
    assert(maps_lags(*n, matrix@, initial.lags, mapped));

    let mut distinct: Event = Event::empty();
    let mut k: usize = 0;
    assert(distinct@ =~~= initial.moved(mapped).picked(first_places(mapped, 0)));
    while k < transformed.len()
        invariant
            k <= transformed@.len(),
            mapped == window::views(transformed@),
            mapped.len() == initial.lags.len(),
            initial.wf(),
            event@ == initial,
            distinct@.wf(),
            distinct@ == initial.moved(mapped).picked(first_places(mapped, k as int)),
            distinct@.values.len() <= k,
        decreases transformed@.len() - k,
    {
        if !occurred_before(&transformed, k) {
            let ghost prior = distinct@;
            distinct.values.push(event.values[k]);
            distinct.conditioned.push(event.conditioned[k]);
            distinct.lags.push(copy_lag(&transformed[k]));
            distinct.lag_norms.push(event.lag_norms[k]);
            proof {
                let places = first_places(mapped, k as int);
                assert(first_places(mapped, k + 1) == places.push(k as int));
                assert(mapped[k as int] == transformed@[k as int]@);
                let next = initial.moved(mapped).picked(places.push(k as int));
                assert(prior.lags.len() == places.len());
                assert(distinct@.values =~= next.values);
                assert(distinct@.conditioned =~= next.conditioned);
                assert forall|i: int| 0 <= i < places.len() implies #[trigger] distinct@.lags[i]
                    == next.lags[i] by {
                    assert(prior.lags[i] == distinct@.lags[i]);
                    assert(prior.lags[i] == mapped[places[i]]);
                }
                assert(distinct@.lags =~= next.lags);
                assert(distinct@.lag_norms =~= next.lag_norms);
            }
        }
        k = k + 1;
    }
    let shared: usize = transformed.len() - distinct.len();
    *event = distinct;
    let ghost target = fitted(event@, ti_shape@);
    proof {
        picked_lags_are_comparable(initial.moved(mapped), mapped.len() as int, ti_shape@);
    }
    while !fits_image(&event.lags, ti_shape)
        invariant
            event@.wf(),
            event@.lags.len() <= initial.lags.len(),
            window::comparable(event@.lags, event@.lags.len() as int, ti_shape@),
            target == fitted(event@, ti_shape@),
        ensures
            window::fits(event@.lags, event@.lags.len() as int, ti_shape@),
        decreases event@.lags.len(),
    {
        let ghost before = event@;
        let drop: usize = lag_to_give_up(&event.lags, ti_shape);
        event.values.remove(drop);
        event.conditioned.remove(drop);
        event.lags.remove(drop);
        event.lag_norms.remove(drop);
        assert(event@ =~~= before.without(drop as int));
    }
    shared
}

proof fn picked_lags_are_comparable(event: EventModel, count: int, shape: Seq<i64>)
    requires
        window::comparable(event.lags, event.lags.len() as int, shape),
        0 <= count <= event.lags.len(),
    ensures
        ({
            let lags = event.picked(first_places(event.lags, count)).lags;
            window::comparable(lags, lags.len() as int, shape)
        }),
{
    first_places_are_places(event.lags, count);
}

/// The first places are places, in order and without repetition.
pub proof fn first_places_are_places(lags: Seq<Seq<i64>>, count: int)
    requires
        0 <= count <= lags.len(),
    ensures
        first_places(lags, count).len() <= count,
        forall|i: int|
            0 <= i < first_places(lags, count).len() ==> 0 <= #[trigger] first_places(
                lags,
                count,
            )[i] < count,
    decreases count,
{
    if count > 0 {
        first_places_are_places(lags, count - 1);
    }
}

fn fits_image(lags: &Vec<Vec<i64>>, ti_shape: &[i64]) -> (r: bool)
    requires
        window::comparable(window::views(lags@), lags@.len() as int, ti_shape@),
    ensures
        r == window::fits(window::views(lags@), lags@.len() as int, ti_shape@),
{
    window::bounds_for_prefix(lags, lags.len(), ti_shape).is_some()
}

fn worst_axis(lags: &Vec<Vec<i64>>, ti_shape: &[i64]) -> (axis: usize)
    requires
        window::comparable(window::views(lags@), lags@.len() as int, ti_shape@),
        ti_shape@.len() > 0,
    ensures
        is_worst_axis(window::views(lags@), ti_shape@, axis as int),
{
    let ghost all = window::views(lags@);
    let mut worst: usize = 0;
    let mut most: i128 = 0;
    let mut axis: usize = 0;
    while axis < ti_shape.len()
        invariant
            axis <= ti_shape@.len(),
            all == window::views(lags@),
            window::comparable(all, lags@.len() as int, ti_shape@),
            axis > 0 ==> worst < axis && most == excess(all, ti_shape@, worst as int),
            forall|b: int| 0 <= b < axis ==> #[trigger] excess(all, ti_shape@, b) <= most,
            forall|b: int| 0 <= b < worst ==> #[trigger] excess(all, ti_shape@, b) < most,
        decreases ti_shape@.len() - axis,
    {
        assert forall|j: int| 0 <= j < lags@.len() implies axis < (#[trigger] lags@[j])@.len() by {
            assert(all[j].len() == ti_shape@.len());
        }
        let (back, forth) = window::reach(lags, lags.len(), axis);
        let amount: i128 = forth as i128 - back as i128 - (ti_shape[axis] as i128 - 1);
        assert(amount == excess(all, ti_shape@, axis as int));
        if axis == 0 || amount > most {
            worst = axis;
            most = amount;
        }
        axis = axis + 1;
    }
    worst
}

fn lag_to_give_up(lags: &Vec<Vec<i64>>, ti_shape: &[i64]) -> (place: usize)
    requires
        window::comparable(window::views(lags@), lags@.len() as int, ti_shape@),
        !window::fits(window::views(lags@), lags@.len() as int, ti_shape@),
    ensures
        place < lags@.len(),
        place == given_up(window::views(lags@), ti_shape@),
{
    let ghost all = window::views(lags@);
    let axis: usize = worst_axis(lags, ti_shape);
    let mut place: usize = 0;
    let mut farthest: i128 = -1;
    let mut i: usize = 0;
    while i < lags.len()
        invariant
            i <= lags@.len(),
            all == window::views(lags@),
            window::comparable(all, lags@.len() as int, ti_shape@),
            axis < ti_shape@.len(),
            farthest >= 0 ==> {
                &&& place < i
                &&& !window::at_rest(all[place as int])
                &&& farthest == distance_along(all[place as int], axis as int)
            },
            farthest < 0 ==> farthest == -1 && forall|j: int|
                0 <= j < i ==> window::at_rest(#[trigger] all[j]),
            forall|j: int|
                0 <= j < i && !window::at_rest(#[trigger] all[j]) ==> distance_along(
                    all[j],
                    axis as int,
                ) <= farthest,
            forall|j: int|
                0 <= j < place && !window::at_rest(#[trigger] all[j]) ==> distance_along(
                    all[j],
                    axis as int,
                ) < farthest,
        decreases lags@.len() - i,
    {
        assert(all[i as int] == lags@[i as int]@);
        assert(all[i as int].len() == ti_shape@.len());
        if !window::is_at_rest(&lags[i]) {
            let component: i128 = lags[i][axis] as i128;
            let away: i128 = if component < 0 {
                -component
            } else {
                component
            };
            if away > farthest {
                place = i;
                farthest = away;
            }
        }
        i = i + 1;
    }
    proof {
        let chosen = choose|axis: int| is_worst_axis(all, ti_shape@, axis);
        assert(chosen == axis) by {
            if chosen < axis {
                assert(excess(all, ti_shape@, chosen) < excess(all, ti_shape@, axis as int));
            } else if axis < chosen {
                assert(excess(all, ti_shape@, axis as int) < excess(all, ti_shape@, chosen));
            }
        }
        assert(is_farthest(all, axis as int, place as int));
        let other = choose|i: int| is_farthest(all, axis as int, i);
        if other < place {
            assert(distance_along(all[other], axis as int) < distance_along(
                all[place as int],
                axis as int,
            ));
        } else if place < other {
            assert(distance_along(all[place as int], axis as int) < distance_along(
                all[other],
                axis as int,
            ));
        }
    }
    place
}

/// No two lags are the same.
pub open spec fn distinct_lags(lags: Seq<Seq<i64>>) -> bool {
    forall|i: int, j: int| 0 <= i < j < lags.len() ==> #[trigger] lags[i] != #[trigger] lags[j]
}

/// An event that was mapped and cut down has no lag twice, and no more values than before.
pub proof fn reduced_events_have_distinct_lags(
    event: EventModel,
    mapped: Seq<Seq<i64>>,
    shape: Seq<i64>,
)
    ensures
        distinct_lags(reduced(event, mapped, shape).lags),
        reduced(event, mapped, shape).lags.len() <= mapped.len() - collapsed(mapped),
{
    let places = first_places(mapped, mapped.len() as int);
    first_places_are_places(mapped, mapped.len() as int);
    first_places_are_in_order(mapped, mapped.len() as int);
    let picked = event.moved(mapped).picked(places);
    assert forall|i: int, j: int| 0 <= i < j < picked.lags.len() implies #[trigger] picked.lags[i]
        != #[trigger] picked.lags[j] by {
        assert(is_new(mapped, places[j]));
        assert(places[i] < places[j]);
        assert(mapped[places[i]] != mapped[places[j]]);
    }
    fitting_keeps_lags_distinct(picked, shape);
}

proof fn first_places_are_in_order(lags: Seq<Seq<i64>>, count: int)
    requires
        0 <= count <= lags.len(),
    ensures
        forall|i: int|
            0 <= i < first_places(lags, count).len() ==> is_new(
                lags,
                #[trigger] first_places(lags, count)[i],
            ),
        forall|i: int, j: int|
            0 <= i < j < first_places(lags, count).len() ==> #[trigger] first_places(
                lags,
                count,
            )[i] < #[trigger] first_places(lags, count)[j],
    decreases count,
{
    if count > 0 {
        first_places_are_in_order(lags, count - 1);
        first_places_are_places(lags, count - 1);
    }
}

proof fn fitting_keeps_lags_distinct(event: EventModel, shape: Seq<i64>)
    requires
        distinct_lags(event.lags),
    ensures
        distinct_lags(fitted(event, shape).lags),
        fitted(event, shape).lags.len() <= event.lags.len(),
    decreases event.lags.len(),
{
    if !window::fits(event.lags, event.lags.len() as int, shape) {
        let place = given_up(event.lags, shape);
        let left = event.without(place);
        assert forall|i: int, j: int| 0 <= i < j < left.lags.len() implies #[trigger] left.lags[i]
            != #[trigger] left.lags[j] by {
            let a = if i < place {
                i
            } else {
                i + 1
            };
            let b = if j < place {
                j
            } else {
                j + 1
            };
            assert(event.lags[a] != event.lags[b]);
        }
        fitting_keeps_lags_distinct(left, shape);
    }
}

} // verus!
