//! Where in the training image the events of a node fit together.

use crate::arithmetic::Arithmetic;
use crate::event::{Event, EventModel};
use crate::gathering;
use crate::index;
use crate::setup::{Metric, Setup};
use crate::window;
use vstd::prelude::*;

verus! {

/// No event has a value.
pub open spec fn all_empty(events: Seq<EventModel>) -> bool {
    forall|v: int| 0 <= v < events.len() ==> (#[trigger] events[v]).values.len() == 0
}

/// The event has to be cut although partial events are not asked for.
pub open spec fn cut(e: EventModel, shape: Seq<i64>, partial_boundary: bool) -> bool {
    !partial_boundary && !window::fits(e.lags, e.lags.len() as int, shape)
}

/// How many of the first `count` events have to be cut although partial events are not
/// asked for.
pub open spec fn cuts(
    events: Seq<EventModel>,
    shape: Seq<i64>,
    partial_boundary: bool,
    count: int,
) -> int
    decreases count,
{
    if count <= 0 {
        0
    } else {
        cuts(events, shape, partial_boundary, count - 1) + if cut(
            events[count - 1],
            shape,
            partial_boundary,
        ) {
            1int
        } else {
            0int
        }
    }
}

/// The first of the first `count` events of which nothing fits, or `count`.
pub open spec fn first_unfit(events: Seq<EventModel>, shape: Seq<i64>, count: int) -> int
    decreases count,
{
    if count <= 0 {
        0
    } else {
        let before = first_unfit(events, shape, count - 1);
        if before < count - 1 {
            before
        } else if window::kept(events[count - 1].lags, shape) is None {
            count - 1
        } else {
            count
        }
    }
}

/// What is kept of an event.
pub open spec fn trimmed(e: EventModel, shape: Seq<i64>) -> EventModel {
    e.first(window::kept(e.lags, shape)->0)
}

/// What is kept of each event.
pub open spec fn all_trimmed(events: Seq<EventModel>, shape: Seq<i64>) -> Seq<EventModel> {
    Seq::new(events.len(), |v: int| trimmed(events[v], shape))
}

/// The first anchor along an axis at which the first `count` events fit.
pub open spec fn window_lo(events: Seq<EventModel>, axis: int, count: int) -> int
    decreases count,
{
    if count <= 0 {
        0
    } else {
        vstd::math::max(
            window_lo(events, axis, count - 1),
            window::lower(events[count - 1].lags, events[count - 1].lags.len() as int, axis),
        )
    }
}

/// The last anchor along an axis at which the first `count` events fit.
pub open spec fn window_hi(
    events: Seq<EventModel>,
    shape: Seq<i64>,
    axis: int,
    count: int,
) -> int
    decreases count,
{
    if count <= 0 {
        shape[axis] - 1
    } else {
        vstd::math::min(
            window_hi(events, shape, axis, count - 1),
            window::upper(
                events[count - 1].lags,
                events[count - 1].lags.len() as int,
                shape,
                axis,
            ),
        )
    }
}

/// The events fit at a common anchor.
pub open spec fn overlap(events: Seq<EventModel>, shape: Seq<i64>) -> bool {
    forall|a: int|
        0 <= a < shape.len() ==> #[trigger] window_lo(events, a, events.len() as int)
            <= window_hi(events, shape, a, events.len() as int)
}

/// The first anchor of the window.
pub open spec fn corner(events: Seq<EventModel>, shape: Seq<i64>) -> Seq<i64> {
    Seq::new(shape.len(), |a: int| window_lo(events, a, events.len() as int) as i64)
}

/// The shape of the window.
pub open spec fn extents(events: Seq<EventModel>, shape: Seq<i64>) -> Seq<i64> {
    Seq::new(
        shape.len(),
        |a: int|
            (window_hi(events, shape, a, events.len() as int) - window_lo(
                events,
                a,
                events.len() as int,
            ) + 1) as i64,
    )
}

/// Tells whether no event has a value.
pub(crate) fn are_all_empty(events: &Vec<Event>) -> (r: bool)
    ensures
        r == all_empty(gathering::event_views(events@)),
{
    let ghost views = gathering::event_views(events@);
    let mut v: usize = 0;
    while v < events.len()
        invariant
            v <= events@.len(),
            views == gathering::event_views(events@),
            forall|u: int| 0 <= u < v ==> (#[trigger] views[u]).values.len() == 0,
        decreases events@.len() - v,
    {
        assert(views[v as int] == events@[v as int]@);
        if events[v].len() > 0 {
            return false;
        }
        v = v + 1;
    }
    true
}

/// Cuts the events down to what fits in the training image, and returns the window of the
/// anchors at which all of them fit, by its first anchor and its shape, if there is one;
/// and how many events had to be cut although partial events are not asked for.
pub(crate) fn fit_events<N: Arithmetic, M: Metric>(
    s: &Setup<N, M>,
    events: &mut Vec<Event>,
) -> (r: (Option<(Vec<i64>, Vec<i64>)>, usize))
    requires
        s.countable(),
        forall|v: int|
            0 <= v < old(events)@.len() ==> gathering::shaped(
                (#[trigger] old(events)@[v])@,
                s.ti_shape@,
            ),
    ensures
        ({
            let before = gathering::event_views(old(events)@);
            let count = before.len() as int;
            let unfit = first_unfit(before, s.ti_shape@, count);
            let kept = all_trimmed(before, s.ti_shape@);
            match r.0 {
                Some((lo, shape)) => {
                    &&& unfit == count
                    &&& gathering::event_views(final(events)@) == kept
                    &&& overlap(kept, s.ti_shape@)
                    &&& lo@ == corner(kept, s.ti_shape@)
                    &&& shape@ == extents(kept, s.ti_shape@)
                    &&& r.1 == cuts(before, s.ti_shape@, s.partial_boundary, count)
                },
                None => if unfit < count {
                    r.1 == cuts(before, s.ti_shape@, s.partial_boundary, unfit + 1)
                } else {
                    &&& unfit == count
                    &&& !overlap(kept, s.ti_shape@)
                    &&& r.1 == cuts(before, s.ti_shape@, s.partial_boundary, count)
                },
            }
        }),
        r.1 <= old(events)@.len(),
{
    let ghost before = gathering::event_views(events@);
    let ghost shape = s.ti_shape@;
    let ghost kept = all_trimmed(before, shape);
    let mut lo: Vec<i64> = gathering::zero_lag(s.ti_shape.len());
    let mut hi: Vec<i64> = Vec::new();
    let mut axis: usize = 0;
    while axis < s.ti_shape.len()
        invariant
            axis <= shape.len(),
            shape == s.ti_shape@,
            s.countable(),
            hi@.len() == axis,
            forall|a: int| 0 <= a < axis ==> #[trigger] hi@[a] == shape[a] - 1,
        decreases shape.len() - axis,
    {
        assert(0 <= shape[axis as int]);
        hi.push(s.ti_shape[axis] - 1);
        axis = axis + 1;
    }
    let mut strict: usize = 0;
    let mut v: usize = 0;
    while v < events.len()
        invariant
            v <= events@.len() == before.len(),
            before == gathering::event_views(old(events)@),
            shape == s.ti_shape@,
            s.countable(),
            kept == all_trimmed(before, shape),
            forall|u: int| 0 <= u < before.len() ==> gathering::shaped(#[trigger] before[u], shape),
            forall|u: int| 0 <= u < v ==> (#[trigger] events@[u])@ == kept[u],
            forall|u: int| v <= u < before.len() ==> (#[trigger] events@[u])@ == before[u],
            first_unfit(before, shape, v as int) == v,
            strict == cuts(before, shape, s.partial_boundary, v as int),
            strict <= v,
            lo@.len() == shape.len(),
            hi@.len() == shape.len(),
            forall|a: int|
                #![trigger lo@[a]]
                #![trigger hi@[a]]
                0 <= a < shape.len() ==> {
                    &&& lo@[a] == window_lo(kept, a, v as int)
                    &&& hi@[a] == window_hi(kept, shape, a, v as int)
                    &&& 0 <= lo@[a]
                    &&& hi@[a] < shape[a]
                },
        decreases before.len() - v,
    {
        let ghost e = before[v as int];
        assert(events@[v as int]@ == e);
        assert(gathering::shaped(e, shape));
        let (bounds, strict_fallback) = window::window_bounds(
            &events[v].lags,
            s.ti_shape,
            s.partial_boundary,
        );
        if strict_fallback {
            strict = strict + 1;
        }
        assert(strict == cuts(before, shape, s.partial_boundary, v + 1));
        match bounds {
            None => {
                proof {
                    first_unfit_stays(before, shape, v + 1, before.len() as int);
                }
                return (None, strict);
            },
            Some((first, last, keep)) => {
                proof {
                    window::kept_events_fit(e.lags, shape);
                    assert(kept[v as int] == e.first(keep as int));
                }
                events[v].truncate(keep);
                let ghost after = lo@;
                let ghost until = hi@;
                let mut axis: usize = 0;
                while axis < s.ti_shape.len()
                    invariant
                        axis <= shape.len(),
                        shape == s.ti_shape@,
                        0 <= v < before.len(),
                        kept.len() == before.len(),
                        e == before[v as int],
                        0 <= keep <= e.lags.len(),
                        e.wf(),
                        kept[v as int] == e.first(keep as int),
                        first@.len() == shape.len(),
                        last@.len() == shape.len(),
                        forall|a: int|
                            #![trigger first@[a]]
                            #![trigger last@[a]]
                            0 <= a < shape.len() ==> {
                                &&& first@[a] == window::lower(e.lags, keep as int, a)
                                &&& last@[a] == window::upper(e.lags, keep as int, shape, a)
                            },
                        lo@.len() == shape.len(),
                        hi@.len() == shape.len(),
                        forall|a: int|
                            #![trigger lo@[a]]
                            #![trigger hi@[a]]
                            0 <= a < shape.len() ==> {
                                let seen: int = if a < axis {
                                    v + 1
                                } else {
                                    v as int
                                };
                                &&& lo@[a] == window_lo(kept, a, seen)
                                &&& hi@[a] == window_hi(kept, shape, a, seen)
                                &&& 0 <= lo@[a]
                                &&& hi@[a] < shape[a]
                            },
                    decreases shape.len() - axis,
                {
                    proof {
                        reach_of_a_beginning(e.lags, keep as int, keep as int, axis as int);
                        assert(first@[axis as int] == window::lower(
                            e.lags,
                            keep as int,
                            axis as int,
                        ));
                    }
                    if lo[axis] < first[axis] {
                        lo.set(axis, first[axis]);
                    }
                    if hi[axis] > last[axis] {
                        hi.set(axis, last[axis]);
                    }
                    axis = axis + 1;
                }
            },
        }
        v = v + 1;
    }
    let ghost count = before.len() as int;
    assert(gathering::event_views(events@) =~= kept);
    let mut extent: Vec<i64> = Vec::new();
    let mut axis: usize = 0;
    while axis < s.ti_shape.len()
        invariant
            axis <= shape.len(),
            shape == s.ti_shape@,
            before == gathering::event_views(old(events)@),
            kept == all_trimmed(before, shape),
            count == before.len(),
            first_unfit(before, shape, count) == count,
            strict == cuts(before, shape, s.partial_boundary, count),
            strict <= count,
            lo@.len() == shape.len(),
            hi@.len() == shape.len(),
            forall|a: int|
                #![trigger lo@[a]]
                #![trigger hi@[a]]
                0 <= a < shape.len() ==> {
                    &&& lo@[a] == window_lo(kept, a, count)
                    &&& hi@[a] == window_hi(kept, shape, a, count)
                    &&& 0 <= lo@[a]
                    &&& hi@[a] < shape[a]
                },
            extent@.len() == axis,
            forall|a: int|
                0 <= a < axis ==> {
                    &&& 1 <= #[trigger] extent@[a]
                    &&& extent@[a] == window_hi(kept, shape, a, count) - window_lo(
                        kept,
                        a,
                        count,
                    ) + 1
                },
        decreases shape.len() - axis,
    {
        let ghost a = axis as int;
        assert(lo@[a] == window_lo(kept, a, count) && hi@[a] == window_hi(kept, shape, a, count));
        if lo[axis] > hi[axis] {
            assert(kept.len() == count);
            assert(!overlap(kept, shape));
            return (None, strict);
        }
        extent.push(hi[axis] - lo[axis] + 1);
        axis = axis + 1;
    }
    proof {
        assert forall|a: int| 0 <= a < shape.len() implies #[trigger] window_lo(kept, a, count)
            <= window_hi(kept, shape, a, count) by {
            assert(extent@[a] > 0);
        }
        assert(lo@ =~= corner(kept, shape));
        assert(extent@ =~= extents(kept, shape));
    }
    (Some((lo, extent)), strict)
}

proof fn first_unfit_stays(events: Seq<EventModel>, shape: Seq<i64>, count: int, more: int)
    requires
        0 <= count <= more,
        first_unfit(events, shape, count) < count,
    ensures
        first_unfit(events, shape, more) == first_unfit(events, shape, count),
    decreases more,
{
    if count < more {
        first_unfit_stays(events, shape, count, more - 1);
    }
}

/// How far the first lags of an event go does not depend on the lags after them.
proof fn reach_of_a_beginning(lags: Seq<Seq<i64>>, length: int, count: int, axis: int)
    requires
        0 <= count <= length <= lags.len(),
    ensures
        window::least(lags.take(length), count, axis) == window::least(lags, count, axis),
        window::greatest(lags.take(length), count, axis) == window::greatest(lags, count, axis),
    decreases count,
{
    if count > 0 {
        reach_of_a_beginning(lags, length, count - 1, axis);
        assert(lags.take(length)[count - 1] == lags[count - 1]);
    }
}

/// At an anchor of the common window every event stays in the training image.
pub open spec fn in_common_window(
    events: Seq<EventModel>,
    shape: Seq<i64>,
    anchor: Seq<i64>,
) -> bool {
    &&& anchor.len() == shape.len()
    &&& forall|a: int|
        0 <= a < shape.len() ==> window_lo(events, a, events.len() as int) <= #[trigger] anchor[a]
            <= window_hi(events, shape, a, events.len() as int)
}

proof fn common_window_is_narrower(
    events: Seq<EventModel>,
    shape: Seq<i64>,
    axis: int,
    count: int,
    v: int,
)
    requires
        0 <= v < count,
    ensures
        window::lower(events[v].lags, events[v].lags.len() as int, axis) <= window_lo(
            events,
            axis,
            count,
        ),
        window_hi(events, shape, axis, count) <= window::upper(
            events[v].lags,
            events[v].lags.len() as int,
            shape,
            axis,
        ),
    decreases count,
{
    if v < count - 1 {
        common_window_is_narrower(events, shape, axis, count - 1, v);
    }
}

/// The common window lies in the training image.
pub(crate) proof fn common_window_is_in_the_image(
    events: Seq<EventModel>,
    shape: Seq<i64>,
    axis: int,
    count: int,
)
    ensures
        0 <= window_lo(events, axis, count),
        window_hi(events, shape, axis, count) <= shape[axis] - 1,
    decreases count,
{
    if count > 0 {
        common_window_is_in_the_image(events, shape, axis, count - 1);
    }
}

/// The common window belongs to the window of each event.
pub proof fn common_windows_admit_every_event(
    events: Seq<EventModel>,
    shape: Seq<i64>,
    anchor: Seq<i64>,
    v: int,
)
    requires
        in_common_window(events, shape, anchor),
        0 <= v < events.len(),
    ensures
        window::admits(events[v].lags, events[v].lags.len() as int, shape, anchor),
        index::inside(anchor, shape),
{
    assert forall|a: int| 0 <= a < shape.len() implies {
        &&& window::lower(events[v].lags, events[v].lags.len() as int, a) <= #[trigger] anchor[a]
        &&& anchor[a] <= window::upper(events[v].lags, events[v].lags.len() as int, shape, a)
        &&& 0 <= anchor[a] < shape[a]
    } by {
        common_window_is_narrower(events, shape, a, events.len() as int, v);
        common_window_is_in_the_image(events, shape, a, events.len() as int);
    }
}

/// Where events fit at a common anchor, their lags are shorter than the training image.
pub(crate) proof fn overlapping_lags_are_short(
    events: Seq<EventModel>,
    shape: Seq<i64>,
    v: int,
    i: int,
)
    requires
        overlap(events, shape),
        0 <= v < events.len(),
        window::comparable(events[v].lags, events[v].lags.len() as int, shape),
        0 <= i < events[v].lags.len(),
    ensures
        index::within(events[v].lags[i], shape),
{
    let lags = events[v].lags;
    let count = events.len() as int;
    assert forall|a: int| 0 <= a < shape.len() implies -shape[a] < #[trigger] lags[i][a]
        < shape[a] by {
        assert(window_lo(events, a, count) <= window_hi(events, shape, a, count));
        common_window_is_narrower(events, shape, a, count, v);
        window::lags_lie_within_their_reach(lags, lags.len() as int, a, i);
    }
}

/// What is kept of events has lags of the training image.
pub(crate) proof fn trimmed_events_are_shaped(events: Seq<EventModel>, shape: Seq<i64>)
    requires
        forall|v: int| 0 <= v < events.len() ==> gathering::shaped(#[trigger] events[v], shape),
        first_unfit(events, shape, events.len() as int) == events.len(),
    ensures
        forall|v: int|
            0 <= v < events.len() ==> gathering::shaped(
                #[trigger] all_trimmed(events, shape)[v],
                shape,
            ),
{
    assert forall|v: int| 0 <= v < events.len() implies gathering::shaped(
        #[trigger] all_trimmed(events, shape)[v],
        shape,
    ) by {
        assert(gathering::shaped(events[v], shape));
        fit_events_are_kept(events, shape, events.len() as int, v);
        window::kept_events_fit(events[v].lags, shape);
    }
}

proof fn fit_events_are_kept(events: Seq<EventModel>, shape: Seq<i64>, count: int, v: int)
    requires
        0 <= v < count,
        first_unfit(events, shape, count) == count,
    ensures
        window::kept(events[v].lags, shape) is Some,
    decreases count,
{
    first_unfit_is_no_more(events, shape, count - 1);
    if v < count - 1 {
        fit_events_are_kept(events, shape, count - 1, v);
    }
}

/// The first event of which nothing fits is one of the events, or there is none.
pub(crate) proof fn first_unfit_is_no_more(events: Seq<EventModel>, shape: Seq<i64>, count: int)
    requires
        0 <= count,
    ensures
        0 <= first_unfit(events, shape, count) <= count,
    decreases count,
{
    if count > 0 {
        first_unfit_is_no_more(events, shape, count - 1);
    }
}

/// No more events are cut than there are.
pub(crate) proof fn cuts_are_no_more(
    events: Seq<EventModel>,
    shape: Seq<i64>,
    partial_boundary: bool,
    count: int,
)
    requires
        0 <= count,
    ensures
        0 <= cuts(events, shape, partial_boundary, count) <= count,
    decreases count,
{
    if count > 0 {
        cuts_are_no_more(events, shape, partial_boundary, count - 1);
    }
}

} // verus!
