//! What a variable receives from an anchor.

use crate::arithmetic::{self, Arithmetic};
use crate::event::EventModel;
use crate::exactness::{self, Reading};
use crate::index;
use crate::laws::weighting;
use crate::retrieval;
use crate::setup::{Metric, Setup};
use crate::weights;
use crate::word;
use vstd::prelude::*;

verus! {

/// The value of a variable in the cell of the training image that lies `lag` away from `anchor`.
pub open spec fn image_value<N: Arithmetic, M: Metric>(
    s: Setup<N, M>,
    variable: int,
    anchor: Seq<i64>,
    lag: Seq<i64>,
) -> u64 {
    s.ti_rows()[variable][index::dot(
        index::shifted(anchor, lag),
        index::strides_of(s.ti_shape@),
    )]
}

/// The event lies in the training image when it is put at `anchor`.
pub open spec fn lies_in_the_image(e: EventModel, shape: Seq<i64>, anchor: Seq<i64>) -> bool {
    &&& e.wf()
    &&& anchor.len() == shape.len()
    &&& forall|i: int| 0 <= i < e.lags.len() ==> (#[trigger] e.lags[i]).len() == shape.len()
    &&& forall|i: int, a: int|
        0 <= i < e.lags.len() && 0 <= a < shape.len() ==> 0 <= anchor[a] + #[trigger] e.lags[i][a]
            < shape[a]
}

/// Without variations, a variable receives the value at the anchor itself.
pub proof fn centers_are_copied<N: Arithmetic, M: Metric>(
    s: Setup<N, M>,
    events: Seq<EventModel>,
    variable: int,
    anchor: Seq<i64>,
    value: u64,
)
    requires
        s.metric_kinds@[variable] != 2 || events[variable].values.len() == 0,
        retrieval::retrieves(
            s,
            events,
            variable,
            index::dot(anchor, index::strides_of(s.ti_shape@)),
            value,
        ),
    ensures
        value == s.ti_rows()[variable][index::dot(anchor, index::strides_of(s.ti_shape@))],
{
}

/// Under variations, what a variable receives differs from the value at the anchor by as much as
/// the mean of the known values differs from the mean of the image at their lags: all numbers of
/// the event count on either side, and what is no number counts for nothing.
pub proof fn variations_shift_by_the_means<N: Arithmetic, M: Metric>(
    s: Setup<N, M>,
    r: Reading,
    events: Seq<EventModel>,
    variable: int,
    anchor: Seq<i64>,
    center: int,
    known: spec_fn(int) -> int,
    seen: spec_fn(int) -> int,
    known_mean: int,
    seen_mean: int,
    value: u64,
)
    requires
        r.exact(*s.arithmetic),
        s.metric_kinds@[variable] == 2,
        events[variable].values.len() > 0,
        events[variable].values.len() <= usize::MAX,
        r.holds(events[variable].values.len() * r.scale),
        lies_in_the_image(events[variable], s.ti_shape@, anchor),
        r.says(
            s.ti_rows()[variable][index::dot(anchor, index::strides_of(s.ti_shape@))],
            center,
        ),
        ({
            let e = events[variable];
            let image = Seq::new(
                e.lags.len(),
                |i: int| image_value(s, variable, anchor, e.lags[i]),
            );
            let count = e.values.len() as int;
            &&& forall|i: int|
                0 <= i < count && !word::nan(#[trigger] e.values[i]) ==> r.says(
                    e.values[i],
                    known(i),
                )
            &&& forall|i: int|
                0 <= i < count && !word::nan(#[trigger] image[i]) ==> r.says(image[i], seen(i))
            &&& exactness::summable(r, weighting::known_parts(e.values, known), count)
            &&& exactness::summable(r, weighting::known_parts(image, seen), count)
            &&& known_mean * exactness::series(weighting::known_ones(e.values), count)
                == exactness::series(weighting::known_parts(e.values, known), count)
            &&& seen_mean * exactness::series(weighting::known_ones(image), count)
                == exactness::series(weighting::known_parts(image, seen), count)
            &&& exactness::series(weighting::known_ones(e.values), count) == 0 ==> known_mean == 0
            &&& exactness::series(weighting::known_ones(image), count) == 0 ==> seen_mean == 0
        }),
        r.holds(known_mean),
        r.holds(seen_mean),
        r.holds(center - seen_mean),
        r.holds(center - seen_mean + known_mean),
        retrieval::retrieves(
            s,
            events,
            variable,
            index::dot(anchor, index::strides_of(s.ti_shape@)),
            value,
        ),
    ensures
        r.says(value, center - seen_mean + known_mean),
{
    let n = *s.arithmetic;
    let e = events[variable];
    let count = e.values.len() as int;
    let strides = index::strides_of(s.ti_shape@);
    let base = index::dot(anchor, strides);
    let row = s.ti_rows()[variable];
    let image = Seq::new(e.lags.len(), |i: int| image_value(s, variable, anchor, e.lags[i]));
    let read = retrieval::image_values(row, base, e, strides);
    assert forall|i: int| 0 <= i < read.len() implies #[trigger] read[i] == image[i] by {
        let lag = e.lags[i];
        assert forall|a: int| 0 <= a < s.ti_shape@.len() implies 0 <= anchor[a] + #[trigger] lag[a]
            < s.ti_shape@[a] by {
            assert(0 <= anchor[a] + e.lags[i][a] < s.ti_shape@[a]);
        }
        index::positions_shift_by_the_flat_lag(anchor, lag, strides, s.ti_shape@.len() as int);
    }
    assert(read =~= image);
    assert(retrieval::shifts(n, row[base], image, e.values, value));
    let (ti_mean, sim_mean, difference) = choose|ti_mean: u64, sim_mean: u64, difference: u64|
        {
            &&& #[trigger] retrieval::image_mean(n, image, ti_mean)
            &&& #[trigger] retrieval::mean_or_zero(n, e.values, sim_mean)
            &&& #[trigger] arithmetic::subtracts(n, row[base], ti_mean, difference)
            &&& arithmetic::adds(n, difference, sim_mean, value)
        };
    plain_means(n, r, e.values, known, known_mean, sim_mean);
    if retrieval::some_finite(image) {
        plain_means(n, r, image, seen, seen_mean, ti_mean);
    } else {
        assert forall|i: int| 0 <= i < count implies word::nan(#[trigger] image[i]) by {
            if !word::nan(image[i]) {
                assert(r.says(image[i], seen(i)));
                assert(word::finite(image[i]));
            }
        }
        nothing_known(image, count);
    }
}

proof fn nothing_known(values: Seq<u64>, count: int)
    requires
        forall|i: int| 0 <= i < count ==> word::nan(#[trigger] values[i]),
    ensures
        exactness::series(weighting::known_ones(values), count) == 0,
    decreases count,
{
    if count > 0 {
        nothing_known(values, count - 1);
        assert(word::nan(values[count - 1]));
    }
}

proof fn plain_means<N: Arithmetic>(
    n: N,
    r: Reading,
    values: Seq<u64>,
    x: spec_fn(int) -> int,
    expected: int,
    mean: u64,
)
    requires
        r.exact(n),
        values.len() <= usize::MAX,
        r.holds(values.len() * r.scale),
        forall|i: int|
            0 <= i < values.len() && !word::nan(#[trigger] values[i]) ==> r.says(values[i], x(i)),
        exactness::summable(r, weighting::known_parts(values, x), values.len() as int),
        r.holds(expected),
        expected * exactness::series(weighting::known_ones(values), values.len() as int)
            == exactness::series(weighting::known_parts(values, x), values.len() as int),
        exactness::series(weighting::known_ones(values), values.len() as int) == 0 ==> expected
            == 0,
        retrieval::mean_or_zero(n, values, mean),
    ensures
        r.says(mean, expected),
{
    if weights::averages(n, values, Some(mean)) {
        weighting::means_are_those_of_the_numbers(n, r, values, x, expected, Some(mean));
    } else {
        weighting::means_are_those_of_the_numbers(n, r, values, x, expected, None);
        assert forall|i: int| 0 <= i < values.len() implies word::nan(#[trigger] values[i]) by {}
        nothing_known(values, values.len() as int);
    }
}

/// Where all values are numbers, as many times the shift as there are values make up the sum of the
/// differences between the known values and the image at their lags, for events of every length.
pub proof fn variations_add_up<N: Arithmetic, M: Metric>(
    s: Setup<N, M>,
    r: Reading,
    events: Seq<EventModel>,
    variable: int,
    anchor: Seq<i64>,
    center: int,
    known: spec_fn(int) -> int,
    seen: spec_fn(int) -> int,
    known_mean: int,
    seen_mean: int,
    shift: int,
    value: u64,
)
    requires
        r.exact(*s.arithmetic),
        s.metric_kinds@[variable] == 2,
        0 < events[variable].values.len() <= usize::MAX,
        r.holds(events[variable].values.len() * r.scale),
        lies_in_the_image(events[variable], s.ti_shape@, anchor),
        r.says(
            s.ti_rows()[variable][index::dot(anchor, index::strides_of(s.ti_shape@))],
            center,
        ),
        forall|i: int|
            0 <= i < events[variable].values.len() ==> {
                &&& r.says(#[trigger] events[variable].values[i], known(i))
                &&& r.says(
                    image_value(s, variable, anchor, events[variable].lags[i]),
                    seen(i),
                )
            },
        exactness::summable(r, known, events[variable].values.len() as int),
        exactness::summable(r, seen, events[variable].values.len() as int),
        known_mean * events[variable].values.len() == exactness::series(
            known,
            events[variable].values.len() as int,
        ),
        seen_mean * events[variable].values.len() == exactness::series(
            seen,
            events[variable].values.len() as int,
        ),
        r.holds(known_mean),
        r.holds(seen_mean),
        r.holds(center - seen_mean),
        r.holds(center + shift),
        events[variable].values.len() * shift == exactness::series(
            known,
            events[variable].values.len() as int,
        ) - exactness::series(seen, events[variable].values.len() as int),
        retrieval::retrieves(
            s,
            events,
            variable,
            index::dot(anchor, index::strides_of(s.ti_shape@)),
            value,
        ),
    ensures
        r.says(value, center + shift),
{
    let e = events[variable];
    let count = e.values.len() as int;
    let image = Seq::new(e.lags.len(), |i: int| image_value(s, variable, anchor, e.lags[i]));
    assert forall|i: int| 0 <= i < count implies !word::nan(#[trigger] e.values[i]) && !word::nan(
        image[i],
    ) && r.says(image[i], seen(i)) by {
        assert(r.says(e.values[i], known(i)));
        assert(word::finite(e.values[i]) && word::finite(image[i]));
    }
    assert forall|i: int| 0 <= i < count && !word::nan(#[trigger] image[i]) implies r.says(
        image[i],
        seen(i),
    ) by {
        assert(!word::nan(e.values[i]));
    }
    all_known(e.values, known, count);
    assert forall|i: int| 0 <= i < count implies !word::nan(#[trigger] image[i]) by {
        assert(!word::nan(e.values[i]));
    }
    all_known(image, seen, count);
    assert forall|k: int| 0 <= k <= count implies r.holds(
        #[trigger] exactness::series(weighting::known_parts(e.values, known), k),
    ) by {
        all_known(e.values, known, k);
        assert(r.holds(exactness::series(known, k)));
    }
    assert forall|k: int| 0 <= k <= count implies r.holds(
        #[trigger] exactness::series(weighting::known_parts(image, seen), k),
    ) by {
        all_known(image, seen, k);
        assert(r.holds(exactness::series(seen, k)));
    }
    assert(count * shift == known_mean * count - seen_mean * count);
    assert(shift == known_mean - seen_mean) by (nonlinear_arith)
        requires
            0 < count,
            count * shift == known_mean * count - seen_mean * count,
    ;
    variations_shift_by_the_means(
        s,
        r,
        events,
        variable,
        anchor,
        center,
        known,
        seen,
        known_mean,
        seen_mean,
        value,
    );
}

proof fn all_known(values: Seq<u64>, x: spec_fn(int) -> int, count: int)
    requires
        0 <= count,
        forall|i: int| 0 <= i < count ==> !word::nan(#[trigger] values[i]),
    ensures
        exactness::series(weighting::known_ones(values), count) == count,
        exactness::series(weighting::known_parts(values, x), count) == exactness::series(x, count),
    decreases count,
{
    if count > 0 {
        all_known(values, x, count - 1);
        assert(!word::nan(values[count - 1]));
    }
}

} // verus!
