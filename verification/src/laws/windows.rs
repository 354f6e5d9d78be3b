//! Where in the training image events fit.

use crate::event::EventModel;
use crate::exactness;
use crate::fitting;
use crate::index;
use crate::window;
use vstd::prelude::*;

verus! {

/// The first `count` lags lead from the anchor to cells of the training image, and the anchor is
/// one itself.
pub open spec fn settles(
    lags: Seq<Seq<i64>>,
    count: int,
    shape: Seq<i64>,
    anchor: Seq<i64>,
) -> bool {
    &&& index::inside(anchor, shape)
    &&& forall|i: int, a: int|
        0 <= i < count && 0 <= a < shape.len() ==> 0 <= anchor[a] + #[trigger] lags[i][a] < shape[a]
}

/// The window of an event holds the anchors from which all of its lags lead to cells of the image,
/// and no others.
pub proof fn windows_hold_where_events_settle(
    lags: Seq<Seq<i64>>,
    count: int,
    shape: Seq<i64>,
    anchor: Seq<i64>,
)
    requires
        window::comparable(lags, count, shape),
        count > 0,
    ensures
        window::admits(lags, count, shape, anchor) <==> settles(lags, count, shape, anchor),
{
    if window::admits(lags, count, shape, anchor) {
        window::windows_keep_events_in_the_image(lags, count, shape, anchor, 0);
        assert forall|i: int, a: int| 0 <= i < count && 0 <= a < shape.len() implies 0 <= anchor[a]
            + #[trigger] lags[i][a] < shape[a] by {
            window::windows_keep_events_in_the_image(lags, count, shape, anchor, i);
            assert(0 <= anchor[a] + lags[i][a] < shape[a]);
        }
    }
    if settles(lags, count, shape, anchor) {
        window::windows_are_as_large_as_can_be(lags, count, shape, anchor);
    }
}

/// An event fits where there is an anchor from which all of its lags lead to cells of the image.
pub proof fn events_fit_where_they_settle(lags: Seq<Seq<i64>>, count: int, shape: Seq<i64>)
    requires
        window::comparable(lags, count, shape),
        count > 0,
        forall|a: int| 0 <= a < shape.len() ==> 0 < #[trigger] shape[a],
    ensures
        window::fits(lags, count, shape) <==> exists|anchor: Seq<i64>| #[trigger]
            settles(lags, count, shape, anchor),
{
    if window::fits(lags, count, shape) {
        let anchor = Seq::new(shape.len(), |a: int| window::lower(lags, count, a) as i64);
        assert forall|a: int| 0 <= a < shape.len() implies window::lower(lags, count, a)
            <= #[trigger] anchor[a] <= window::upper(lags, count, shape, a) by {
            window::lags_lie_within_their_reach(lags, count, a, 0);
            if forall|i: int| 0 <= i < count ==> window::at_rest(#[trigger] lags[i]) {
                resting_lags_reach_nowhere(lags, count, shape, a);
            } else {
                assert(window::lower(lags, count, a) <= window::upper(lags, count, shape, a));
            }
        }
        windows_hold_where_events_settle(lags, count, shape, anchor);
    }
    if exists|anchor: Seq<i64>| #[trigger] settles(lags, count, shape, anchor) {
        let anchor = choose|anchor: Seq<i64>| #[trigger] settles(lags, count, shape, anchor);
        windows_hold_where_events_settle(lags, count, shape, anchor);
        assert forall|a: int| 0 <= a < shape.len() implies #[trigger] window::lower(lags, count, a)
            <= window::upper(lags, count, shape, a) by {
            assert(window::lower(lags, count, a) <= anchor[a]);
        }
    }
}

proof fn resting_lags_reach_nowhere(
    lags: Seq<Seq<i64>>,
    count: int,
    shape: Seq<i64>,
    axis: int,
)
    requires
        count <= lags.len(),
        forall|i: int| 0 <= i < count ==> (#[trigger] lags[i]).len() == shape.len(),
        forall|i: int| 0 <= i < count ==> window::at_rest(#[trigger] lags[i]),
        0 <= axis < shape.len(),
    ensures
        window::least(lags, count, axis) == 0,
        window::greatest(lags, count, axis) == 0,
    decreases count,
{
    if count > 0 {
        resting_lags_reach_nowhere(lags, count - 1, shape, axis);
        assert(lags[count - 1].len() == shape.len());
        assert(window::at_rest(lags[count - 1]));
        assert(lags[count - 1][axis] == 0);
    }
}

/// All events settle at the anchor.
pub open spec fn all_settle(
    events: Seq<EventModel>,
    shape: Seq<i64>,
    anchor: Seq<i64>,
) -> bool {
    &&& index::inside(anchor, shape)
    &&& forall|v: int|
        0 <= v < events.len() ==> settles(
            (#[trigger] events[v]).lags,
            events[v].lags.len() as int,
            shape,
            anchor,
        )
}

proof fn narrow_windows_hold_what_all_hold(
    events: Seq<EventModel>,
    shape: Seq<i64>,
    axis: int,
    count: int,
    at: int,
)
    requires
        0 <= at < shape[axis],
        forall|v: int|
            0 <= v < count ==> window::lower(
                (#[trigger] events[v]).lags,
                events[v].lags.len() as int,
                axis,
            ) <= at <= window::upper(events[v].lags, events[v].lags.len() as int, shape, axis),
    ensures
        fitting::window_lo(events, axis, count) <= at <= fitting::window_hi(
            events,
            shape,
            axis,
            count,
        ),
    decreases count,
{
    if count > 0 {
        narrow_windows_hold_what_all_hold(events, shape, axis, count - 1, at);
        assert(window::lower(events[count - 1].lags, events[count - 1].lags.len() as int, axis)
            <= at);
    }
}

/// The common window of events holds the anchors at which all of them settle, and no others.
pub proof fn common_windows_hold_where_all_settle(
    events: Seq<EventModel>,
    shape: Seq<i64>,
    anchor: Seq<i64>,
)
    requires
        events.len() > 0,
        forall|v: int|
            0 <= v < events.len() ==> window::comparable(
                (#[trigger] events[v]).lags,
                events[v].lags.len() as int,
                shape,
            ),
    ensures
        fitting::in_common_window(events, shape, anchor) <==> all_settle(events, shape, anchor),
{
    if fitting::in_common_window(events, shape, anchor) {
        fitting::common_windows_admit_every_event(events, shape, anchor, 0);
        assert forall|v: int| 0 <= v < events.len() implies settles(
            (#[trigger] events[v]).lags,
            events[v].lags.len() as int,
            shape,
            anchor,
        ) by {
            fitting::common_windows_admit_every_event(events, shape, anchor, v);
            if events[v].lags.len() > 0 {
                windows_hold_where_events_settle(
                    events[v].lags,
                    events[v].lags.len() as int,
                    shape,
                    anchor,
                );
            }
        }
    }
    if all_settle(events, shape, anchor) {
        assert forall|a: int| 0 <= a < shape.len() implies fitting::window_lo(
            events,
            a,
            events.len() as int,
        ) <= #[trigger] anchor[a] <= fitting::window_hi(events, shape, a, events.len() as int) by {
            assert(0 <= anchor[a] < shape[a]);
            assert forall|v: int| 0 <= v < events.len() implies window::lower(
                (#[trigger] events[v]).lags,
                events[v].lags.len() as int,
                a,
            ) <= anchor[a] <= window::upper(events[v].lags, events[v].lags.len() as int, shape, a) by {
                let lags = events[v].lags;
                assert(settles(lags, lags.len() as int, shape, anchor));
                window::windows_are_as_large_as_can_be(lags, lags.len() as int, shape, anchor);
            }
            narrow_windows_hold_what_all_hold(
                events,
                shape,
                a,
                events.len() as int,
                anchor[a] as int,
            );
        }
    }
}

/// Events overlap where there is an anchor at which all of them settle.
pub proof fn events_overlap_where_all_settle(events: Seq<EventModel>, shape: Seq<i64>)
    requires
        events.len() > 0,
        forall|v: int|
            0 <= v < events.len() ==> window::comparable(
                (#[trigger] events[v]).lags,
                events[v].lags.len() as int,
                shape,
            ),
    ensures
        fitting::overlap(events, shape) <==> exists|anchor: Seq<i64>| #[trigger]
            all_settle(events, shape, anchor),
{
    let count = events.len() as int;
    if fitting::overlap(events, shape) {
        let anchor = Seq::new(
            shape.len(),
            |a: int| fitting::window_lo(events, a, count) as i64,
        );
        assert forall|a: int| 0 <= a < shape.len() implies fitting::window_lo(events, a, count)
            <= #[trigger] anchor[a] <= fitting::window_hi(events, shape, a, count) by {
            assert(fitting::window_lo(events, a, count) <= fitting::window_hi(
                events,
                shape,
                a,
                count,
            ));
            fitting::common_window_is_in_the_image(events, shape, a, count);
        }
        common_windows_hold_where_all_settle(events, shape, anchor);
    }
    if exists|anchor: Seq<i64>| #[trigger] all_settle(events, shape, anchor) {
        let anchor = choose|anchor: Seq<i64>| #[trigger] all_settle(events, shape, anchor);
        common_windows_hold_where_all_settle(events, shape, anchor);
        assert forall|a: int| 0 <= a < shape.len() implies #[trigger] fitting::window_lo(
            events,
            a,
            count,
        ) <= fitting::window_hi(events, shape, a, count) by {
            assert(fitting::window_lo(events, a, count) <= anchor[a]);
        }
    }
}

/// What is kept of an event are its first values, each with its lag, its norm and its mark: as many
/// as fit together.
pub proof fn first_values_are_kept(e: EventModel, shape: Seq<i64>, keep: int)
    requires
        e.wf(),
        window::kept(e.lags, shape) == Some(keep),
    ensures
        0 <= keep <= e.values.len(),
        fitting::trimmed(e, shape).wf(),
        fitting::trimmed(e, shape).values.len() == keep,
        forall|i: int|
            0 <= i < keep ==> {
                &&& #[trigger] fitting::trimmed(e, shape).values[i] == e.values[i]
                &&& fitting::trimmed(e, shape).conditioned[i] == e.conditioned[i]
                &&& fitting::trimmed(e, shape).lags[i] == e.lags[i]
                &&& fitting::trimmed(e, shape).lag_norms[i] == e.lag_norms[i]
            },
        window::fits(e.lags, keep, shape),
        forall|more: int| keep < more <= e.lags.len() ==> !#[trigger] window::fits(
            e.lags,
            more,
            shape,
        ),
{
    window::kept_events_fit(e.lags, shape);
}

/// 1 for each event that does not fit as a whole.
pub open spec fn misfits(events: Seq<EventModel>, shape: Seq<i64>) -> spec_fn(int) -> int {
    |v: int|
        if window::fits(events[v].lags, events[v].lags.len() as int, shape) {
            0
        } else {
            1
        }
}

/// Events that do not fit as a whole are counted, unless partial events are asked for.
pub proof fn misfits_are_counted_unless_asked_for(
    events: Seq<EventModel>,
    shape: Seq<i64>,
    count: int,
)
    ensures
        fitting::cuts(events, shape, false, count) == exactness::series(
            misfits(events, shape),
            count,
        ),
        fitting::cuts(events, shape, true, count) == 0,
    decreases count,
{
    if count > 0 {
        misfits_are_counted_unless_asked_for(events, shape, count - 1);
    }
}

/// The first event of which nothing fits comes after events of which something fits.
pub proof fn the_first_unfit_event_is_the_first(
    events: Seq<EventModel>,
    shape: Seq<i64>,
    count: int,
)
    requires
        0 <= count <= events.len(),
    ensures
        ({
            let first = fitting::first_unfit(events, shape, count);
            &&& 0 <= first <= count
            &&& forall|v: int|
                0 <= v < first ==> window::kept((#[trigger] events[v]).lags, shape) is Some
            &&& first < count ==> events[first].lags.len() > 0 && forall|more: int|
                1 <= more <= events[first].lags.len() ==> !#[trigger] window::fits(
                    events[first].lags,
                    more,
                    shape,
                )
        }),
    decreases count,
{
    if count > 0 {
        the_first_unfit_event_is_the_first(events, shape, count - 1);
        window::kept_events_fit(events[count - 1].lags, shape);
    }
}

} // verus!
