//! What a variable receives from an anchor.

use crate::arithmetic::{self, Arithmetic};
use crate::event::{Event, EventModel};
use crate::fitting;
use crate::gathering;
use crate::image;
use crate::index;
use crate::setup::{Metric, Setup};
use crate::weights;
use crate::window;
use crate::word;
use vstd::prelude::*;

verus! {

/// The kind of distance under which a value is shifted by the mean of its event.
pub const VARIATION: i64 = 2;

/// The values of the training image at the lags of an event.
pub open spec fn image_values(
    row: Seq<u64>,
    base: int,
    e: EventModel,
    strides: Seq<i64>,
) -> Seq<u64> {
    Seq::new(e.lags.len(), |i: int| row[base + index::dot(e.lags[i], strides)])
}

/// Some value is finite.
pub open spec fn some_finite(values: Seq<u64>) -> bool {
    exists|i: int| 0 <= i < values.len() && word::finite(#[trigger] values[i])
}

/// `mean` is an outcome of the mean of the numbers among the values, zero where there are
/// none.
pub open spec fn mean_or_zero<N: Arithmetic>(n: N, values: Seq<u64>, mean: u64) -> bool {
    weights::averages(n, values, Some(mean)) || (weights::averages(n, values, None) && mean
        == word::ZERO)
}

/// `mean` is an outcome of the mean of the training image over an event, zero where none of
/// its values is finite.
pub open spec fn image_mean<N: Arithmetic>(n: N, values: Seq<u64>, mean: u64) -> bool {
    if some_finite(values) {
        mean_or_zero(n, values, mean)
    } else {
        mean == word::ZERO
    }
}

/// `value` is an outcome of `center - ti_mean + sim_mean`.
pub open spec fn shifts<N: Arithmetic>(
    n: N,
    center: u64,
    image: Seq<u64>,
    known: Seq<u64>,
    value: u64,
) -> bool {
    exists|ti_mean: u64, sim_mean: u64, difference: u64|
        {
            &&& #[trigger] image_mean(n, image, ti_mean)
            &&& #[trigger] mean_or_zero(n, known, sim_mean)
            &&& #[trigger] arithmetic::subtracts(n, center, ti_mean, difference)
            &&& arithmetic::adds(n, difference, sim_mean, value)
        }
}

/// `value` is an outcome of what a variable receives from the anchor at `base`: the value
/// there, shifted by the difference of the means where variations are compared.
pub open spec fn retrieves<N: Arithmetic, M: Metric>(
    s: Setup<N, M>,
    events: Seq<EventModel>,
    variable: int,
    base: int,
    value: u64,
) -> bool {
    let row = s.ti_rows()[variable];
    let e = events[variable];
    if s.metric_kinds@[variable] != VARIATION || e.values.len() == 0 {
        value == row[base]
    } else {
        shifts(
            *s.arithmetic,
            row[base],
            image_values(row, base, e, s.ti_strides()),
            e.values,
            value,
        )
    }
}

fn mean_or<N: Arithmetic>(n: &N, values: &[u64]) -> (mean: u64)
    ensures
        mean_or_zero(*n, values@, mean),
{
    match weights::nanmean(n, values) {
        Some(mean) => mean,
        None => word::ZERO,
    }
}

fn has_finite(values: &[u64]) -> (r: bool)
    ensures
        r == some_finite(values@),
{
    let mut i: usize = 0;
    while i < values.len()
        invariant
            i <= values@.len(),
            forall|j: int| 0 <= j < i ==> !word::finite(#[trigger] values@[j]),
        decreases values@.len() - i,
    {
        if word::is_finite(values[i]) {
            assert(word::finite(values@[i as int]));
            return true;
        }
        i = i + 1;
    }
    false
}

/// The values of the training image at the lags of an event.
fn values_in_image<N: Arithmetic, M: Metric>(
    s: &Setup<N, M>,
    variable: usize,
    anchor: &[i64],
    anchor_flat: usize,
    event: &Event,
    ti_strides: &[i64],
) -> (values: Vec<u64>)
    requires
        index::countable(s.ti_shape@),
        variable < s.variables(),
        s.ti_rows()[variable as int].len() == index::size(s.ti_shape@),
        ti_strides@ == s.ti_strides(),
        gathering::shaped(event@, s.ti_shape@),
        window::admits(event@.lags, event@.lags.len() as int, s.ti_shape@, anchor@),
        anchor_flat == index::dot(anchor@, s.ti_strides()),
        forall|i: int|
            0 <= i < event@.lags.len() ==> index::within(#[trigger] event@.lags[i], s.ti_shape@),
    ensures
        values@ == image_values(
            s.ti_rows()[variable as int],
            anchor_flat as int,
            event@,
            s.ti_strides(),
        ),
{
    let ghost shape = s.ti_shape@;
    let ghost all = image_values(
        s.ti_rows()[variable as int],
        anchor_flat as int,
        event@,
        s.ti_strides(),
    );
    let mut values: Vec<u64> = Vec::new();
    let mut i: usize = 0;
    while i < event.lags.len()
        invariant
            i <= event.lags@.len(),
            shape == s.ti_shape@,
            index::countable(shape),
            variable < s.variables(),
            s.ti_rows()[variable as int].len() == index::size(shape),
            ti_strides@ == s.ti_strides(),
            gathering::shaped(event@, shape),
            window::admits(event@.lags, event@.lags.len() as int, shape, anchor@),
            anchor_flat == index::dot(anchor@, s.ti_strides()),
            forall|i: int|
                0 <= i < event@.lags.len() ==> index::within(#[trigger] event@.lags[i], shape),
            all == image_values(
                s.ti_rows()[variable as int],
                anchor_flat as int,
                event@,
                s.ti_strides(),
            ),
            values@.len() == i,
            forall|j: int| 0 <= j < i ==> #[trigger] values@[j] == all[j],
        decreases event.lags@.len() - i,
    {
        let ghost lag = event@.lags[i as int];
        proof {
            assert(lag == event.lags@[i as int]@);
            index::short_lags_have_flat_distances(lag, shape);
            window::windows_keep_events_in_the_image(
                event@.lags,
                event@.lags.len() as int,
                shape,
                anchor@,
                i as int,
            );
            index::positions_shift_by_the_flat_lag(
                anchor@,
                lag,
                s.ti_strides(),
                shape.len() as int,
            );
            index::cells_have_positions(index::shifted(anchor@, lag), shape);
            index::cells_have_positions(anchor@, shape);
            assert(index::dot(index::shifted(anchor@, lag), s.ti_strides()) == anchor_flat
                + index::dot(lag, s.ti_strides()));
            assert(index::extent(shape, 0) <= i64::MAX);
        }
        let away: i64 = index::flat_lag(&event.lags[i], ti_strides);
        let flat: i64 = anchor_flat as i64 + away;
        values.push(s.ti.at(variable, flat as usize));
        i = i + 1;
    }
    assert(values@ =~= all);
    values
}

/// What a variable receives from an anchor.
fn retrieve<N: Arithmetic, M: Metric>(
    s: &Setup<N, M>,
    events: &Vec<Event>,
    variable: usize,
    anchor: &[i64],
    anchor_flat: usize,
    ti_strides: &[i64],
) -> (value: u64)
    requires
        index::countable(s.ti_shape@),
        variable < s.variables(),
        s.ti_rows()[variable as int].len() == index::size(s.ti_shape@),
        s.metric_kinds@.len() == s.variables(),
        ti_strides@ == s.ti_strides(),
        events@.len() == s.variables(),
        gathering::shaped(events@[variable as int]@, s.ti_shape@),
        fitting::overlap(gathering::event_views(events@), s.ti_shape@),
        fitting::in_common_window(gathering::event_views(events@), s.ti_shape@, anchor@),
        anchor_flat == index::dot(anchor@, s.ti_strides()),
    ensures
        retrieves(*s, gathering::event_views(events@), variable as int, anchor_flat as int, value),
{
    let ghost views = gathering::event_views(events@);
    let event: &Event = &events[variable];
    proof {
        assert(views[variable as int] == event@);
        fitting::common_windows_admit_every_event(views, s.ti_shape@, anchor@, variable as int);
        index::cells_have_positions(anchor@, s.ti_shape@);
    }
    let center: u64 = s.ti.at(variable, anchor_flat);
    if s.metric_kinds[variable] != VARIATION || event.len() == 0 {
        return center;
    }
    assert forall|i: int| 0 <= i < event@.lags.len() implies index::within(
        #[trigger] event@.lags[i],
        s.ti_shape@,
    ) by {
        fitting::overlapping_lags_are_short(views, s.ti_shape@, variable as int, i);
    }
    let image: Vec<u64> = values_in_image(s, variable, anchor, anchor_flat, event, ti_strides);
    let ti_mean: u64 = if has_finite(&image) {
        mean_or(s.arithmetic, &image)
    } else {
        word::ZERO
    };
    assert(image_mean(*s.arithmetic, image@, ti_mean));
    let sim_mean: u64 = mean_or(s.arithmetic, &event.values);
    let difference: u64 = arithmetic::minus(s.arithmetic, center, ti_mean);
    arithmetic::plus(s.arithmetic, difference, sim_mean)
}

/// What the variables that a node lacks receive from an anchor.
pub(crate) fn retrieve_all<N: Arithmetic, M: Metric>(
    s: &Setup<N, M>,
    events: &Vec<Event>,
    targets: &Vec<usize>,
    anchor: &[i64],
    ti_strides: &[i64],
) -> (values: Vec<(usize, u64)>)
    requires
        image::pictures(s.ti_rows(), s.ti_shape@),
        s.metric_kinds@.len() == s.variables(),
        s.variables() > 0,
        ti_strides@ == s.ti_strides(),
        events@.len() == s.variables(),
        forall|v: int|
            0 <= v < events@.len() ==> gathering::shaped((#[trigger] events@[v])@, s.ti_shape@),
        fitting::overlap(gathering::event_views(events@), s.ti_shape@),
        fitting::in_common_window(gathering::event_views(events@), s.ti_shape@, anchor@),
        forall|i: int| 0 <= i < targets@.len() ==> #[trigger] targets@[i] < s.variables(),
    ensures
        values@.len() == targets@.len(),
        forall|i: int|
            0 <= i < targets@.len() ==> {
                &&& (#[trigger] values@[i]).0 == targets@[i]
                &&& retrieves(
                    *s,
                    gathering::event_views(events@),
                    targets@[i] as int,
                    index::dot(anchor@, s.ti_strides()),
                    values@[i].1,
                )
            },
{
    proof {
        fitting::common_windows_admit_every_event(
            gathering::event_views(events@),
            s.ti_shape@,
            anchor@,
            0,
        );
        index::cells_have_positions(anchor@, s.ti_shape@);
        assert(index::extent(s.ti_shape@, 0) <= usize::MAX);
    }
    let anchor_flat: usize = index::flat_index(anchor, ti_strides);
    let mut values: Vec<(usize, u64)> = Vec::new();
    let mut i: usize = 0;
    while i < targets.len()
        invariant
            i <= targets@.len(),
            image::pictures(s.ti_rows(), s.ti_shape@),
            s.metric_kinds@.len() == s.variables(),
            ti_strides@ == s.ti_strides(),
            events@.len() == s.variables(),
            forall|v: int|
                0 <= v < events@.len() ==> gathering::shaped((#[trigger] events@[v])@, s.ti_shape@),
            fitting::overlap(gathering::event_views(events@), s.ti_shape@),
            fitting::in_common_window(gathering::event_views(events@), s.ti_shape@, anchor@),
            forall|i: int| 0 <= i < targets@.len() ==> #[trigger] targets@[i] < s.variables(),
            anchor_flat == index::dot(anchor@, s.ti_strides()),
            values@.len() == i,
            forall|j: int|
                0 <= j < i ==> {
                    &&& (#[trigger] values@[j]).0 == targets@[j]
                    &&& retrieves(
                        *s,
                        gathering::event_views(events@),
                        targets@[j] as int,
                        anchor_flat as int,
                        values@[j].1,
                    )
                },
        decreases targets@.len() - i,
    {
        let variable: usize = targets[i];
        assert(s.ti_rows()[variable as int].len() == index::size(s.ti_shape@));
        let value: u64 = retrieve(s, events, variable, anchor, anchor_flat, ti_strides);
        values.push((variable, value));
        i = i + 1;
    }
    values
}

} // verus!
