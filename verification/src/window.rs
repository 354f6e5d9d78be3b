//! Search windows: where in the training image a data event fits.
//!
//! An event fits at an anchor where the anchor and all of its lags lie in the training
//! image (TI). The anchors at which the event fits form a box.

use crate::index;
use vstd::prelude::*;

verus! {

/// The lags in a sequence of vectors.
pub open spec fn views(lags: Seq<Vec<i64>>) -> Seq<Seq<i64>> {
    Seq::new(lags.len(), |i: int| lags[i]@)
}

/// The lag leads nowhere.
pub open spec fn at_rest(lag: Seq<i64>) -> bool {
    forall|a: int| 0 <= a < lag.len() ==> #[trigger] lag[a] == 0
}

/// How far the first `count` lags go back along an axis: their least component, or 0.
pub open spec fn least(lags: Seq<Seq<i64>>, count: int, axis: int) -> int
    decreases count,
{
    if count <= 0 {
        0
    } else {
        vstd::math::min(least(lags, count - 1, axis), lags[count - 1][axis] as int)
    }
}

/// How far the first `count` lags go forth along an axis: their greatest component, or 0.
pub open spec fn greatest(lags: Seq<Seq<i64>>, count: int, axis: int) -> int
    decreases count,
{
    if count <= 0 {
        0
    } else {
        vstd::math::max(greatest(lags, count - 1, axis), lags[count - 1][axis] as int)
    }
}

/// The first anchor along an axis at which the first `count` lags fit.
pub open spec fn lower(lags: Seq<Seq<i64>>, count: int, axis: int) -> int {
    -least(lags, count, axis)
}

/// The last anchor along an axis at which the first `count` lags fit.
pub open spec fn upper(lags: Seq<Seq<i64>>, count: int, shape: Seq<i64>, axis: int) -> int {
    shape[axis] - 1 - greatest(lags, count, axis)
}

/// The first `count` lags fit somewhere, or lead nowhere.
pub open spec fn fits(lags: Seq<Seq<i64>>, count: int, shape: Seq<i64>) -> bool {
    ||| forall|i: int| 0 <= i < count ==> at_rest(#[trigger] lags[i])
    ||| forall|a: int|
        0 <= a < shape.len() ==> #[trigger] lower(lags, count, a) <= upper(lags, count, shape, a)
}

/// The lower corner of the box of anchors at which the first `count` lags fit.
pub open spec fn lower_corner(lags: Seq<Seq<i64>>, count: int, shape: Seq<i64>) -> Seq<i64> {
    Seq::new(shape.len(), |a: int| lower(lags, count, a) as i64)
}

/// The upper corner of the box of anchors at which the first `count` lags fit.
pub open spec fn upper_corner(lags: Seq<Seq<i64>>, count: int, shape: Seq<i64>) -> Seq<i64> {
    Seq::new(shape.len(), |a: int| upper(lags, count, shape, a) as i64)
}

/// The largest number of lags from 1 to `count` that fit, if any do.
pub open spec fn largest_fit(lags: Seq<Seq<i64>>, count: int, shape: Seq<i64>) -> Option<int>
    decreases count,
{
    if count < 1 {
        None
    } else if fits(lags, count, shape) {
        Some(count)
    } else {
        largest_fit(lags, count - 1, shape)
    }
}

/// How many lags of an event are kept: all of them where they fit, else as many of the
/// first as fit. `None` where not even the first one fits.
pub open spec fn kept(lags: Seq<Seq<i64>>, shape: Seq<i64>) -> Option<int> {
    if fits(lags, lags.len() as int, shape) {
        Some(lags.len() as int)
    } else {
        largest_fit(lags, lags.len() - 1, shape)
    }
}

/// No size is negative, and the first `count` lags have as many axes as the TI.
pub open spec fn comparable(lags: Seq<Seq<i64>>, count: int, shape: Seq<i64>) -> bool {
    &&& 0 <= count <= lags.len()
    &&& forall|i: int| 0 <= i < count ==> (#[trigger] lags[i]).len() == shape.len()
    &&& forall|a: int| 0 <= a < shape.len() ==> 0 <= #[trigger] shape[a]
}

/// Tells whether a lag leads nowhere.
pub fn is_at_rest(lag: &Vec<i64>) -> (r: bool)
    ensures
        r == at_rest(lag@),
{
    let mut a: usize = 0;
    while a < lag.len()
        invariant
            a <= lag@.len(),
            forall|b: int| 0 <= b < a ==> #[trigger] lag@[b] == 0,
        decreases lag@.len() - a,
    {
        if lag[a] != 0 {
            return false;
        }
        a = a + 1;
    }
    true
}

/// How far the first `keep` lags go back and forth along an axis.
pub fn reach(lags: &[Vec<i64>], keep: usize, axis: usize) -> (r: (i64, i64))
    requires
        keep <= lags@.len(),
        forall|i: int| 0 <= i < keep ==> axis < (#[trigger] lags@[i])@.len(),
    ensures
        r.0 == least(views(lags@), keep as int, axis as int),
        r.1 == greatest(views(lags@), keep as int, axis as int),
        r.0 <= 0 <= r.1,
{
    let mut back: i64 = 0;
    let mut forth: i64 = 0;
    let mut i: usize = 0;
    while i < keep
        invariant
            i <= keep <= lags@.len(),
            forall|i: int| 0 <= i < keep ==> axis < (#[trigger] lags@[i])@.len(),
            back == least(views(lags@), i as int, axis as int),
            forth == greatest(views(lags@), i as int, axis as int),
            back <= 0 <= forth,
        decreases keep - i,
    {
        let component: i64 = lags[i][axis];
        assert(views(lags@)[i as int][axis as int] == component);
        if component < back {
            back = component;
        }
        if component > forth {
            forth = component;
        }
        i = i + 1;
    }
    (back, forth)
}

/// The corners of the box of anchors at which the first `keep` lags fit.
///
/// Lags that lead nowhere fit in the whole TI, even in an empty one.
pub fn bounds_for_prefix(lags: &[Vec<i64>], keep: usize, ti_shape: &[i64]) -> (bounds: Option<
    (Vec<i64>, Vec<i64>),
>)
    requires
        comparable(views(lags@), keep as int, ti_shape@),
    ensures
        bounds is Some <==> fits(views(lags@), keep as int, ti_shape@),
        bounds matches Some((lo, hi)) ==> {
            &&& lo@ == lower_corner(views(lags@), keep as int, ti_shape@)
            &&& hi@ == upper_corner(views(lags@), keep as int, ti_shape@)
            &&& forall|a: int|
                #![trigger lo@[a]]
                #![trigger hi@[a]]
                0 <= a < ti_shape@.len() ==> {
                    &&& lo@[a] == lower(views(lags@), keep as int, a)
                    &&& hi@[a] == upper(views(lags@), keep as int, ti_shape@, a)
                }
        },
{
    let ghost all = views(lags@);
    let mut moving: bool = false;
    let mut i: usize = 0;
    while i < keep
        invariant
            i <= keep <= lags@.len(),
            all == views(lags@),
            moving <==> !(forall|j: int| 0 <= j < i ==> at_rest(#[trigger] all[j])),
        decreases keep - i,
    {
        assert(all[i as int] == lags@[i as int]@);
        if !is_at_rest(&lags[i]) {
            moving = true;
        }
        i = i + 1;
    }
    assert(moving <==> !(forall|j: int| 0 <= j < keep ==> at_rest(#[trigger] all[j])));
    let mut lo: Vec<i64> = Vec::new();
    let mut hi: Vec<i64> = Vec::new();
    let mut axis: usize = 0;
    while axis < ti_shape.len()
        invariant
            axis <= ti_shape@.len(),
            all == views(lags@),
            comparable(all, keep as int, ti_shape@),
            keep <= lags@.len(),
            moving <==> !(forall|j: int| 0 <= j < keep ==> at_rest(#[trigger] all[j])),
            lo@.len() == axis,
            hi@.len() == axis,
            forall|a: int|
                #![trigger lo@[a]]
                #![trigger hi@[a]]
                0 <= a < axis ==> {
                    &&& lo@[a] == lower(all, keep as int, a)
                    &&& hi@[a] == upper(all, keep as int, ti_shape@, a)
                    &&& moving ==> lo@[a] <= hi@[a]
                },
        decreases ti_shape@.len() - axis,
    {
        assert forall|j: int| 0 <= j < keep implies axis < (#[trigger] lags@[j])@.len() by {
            assert(all[j].len() == ti_shape@.len());
        }
        let (back, forth) = reach(lags, keep, axis);
        let first: i128 = -(back as i128);
        let last: i128 = ti_shape[axis] as i128 - 1 - forth as i128;
        assert(first == lower(all, keep as int, axis as int));
        assert(last == upper(all, keep as int, ti_shape@, axis as int));
        if moving && first > last {
            return None;
        }
        proof {
            if !moving {
                nothing_reached(all, keep as int, axis as int);
            }
        }
        lo.push(first as i64);
        hi.push(last as i64);
        axis = axis + 1;
    }
    proof {
        if moving {
            assert forall|a: int| 0 <= a < ti_shape@.len() implies #[trigger] lower(
                all,
                keep as int,
                a,
            ) <= upper(all, keep as int, ti_shape@, a) by {
                assert(lo@[a] <= hi@[a]);
            }
        }
        assert(lo@ =~= lower_corner(all, keep as int, ti_shape@));
        assert(hi@ =~= upper_corner(all, keep as int, ti_shape@));
    }
    Some((lo, hi))
}

/// The window of an event: the box of anchors at which it fits, and how many of its
/// lags are kept to make it fit. The flag tells that lags had to go although
/// `partial_boundary` does not ask for partial events.
pub fn window_bounds(lags: &[Vec<i64>], ti_shape: &[i64], partial_boundary: bool) -> (r: (
    Option<(Vec<i64>, Vec<i64>, usize)>,
    bool,
))
    requires
        comparable(views(lags@), lags@.len() as int, ti_shape@),
    ensures
        r.1 == (!partial_boundary && !fits(views(lags@), lags@.len() as int, ti_shape@)),
        match r.0 {
            Some((lo, hi, keep)) => {
                &&& kept(views(lags@), ti_shape@) == Some(keep as int)
                &&& lo@ == lower_corner(views(lags@), keep as int, ti_shape@)
                &&& hi@ == upper_corner(views(lags@), keep as int, ti_shape@)
                &&& forall|a: int|
                    #![trigger lo@[a]]
                    #![trigger hi@[a]]
                    0 <= a < ti_shape@.len() ==> {
                        &&& lo@[a] == lower(views(lags@), keep as int, a)
                        &&& hi@[a] == upper(views(lags@), keep as int, ti_shape@, a)
                    }
            },
            None => kept(views(lags@), ti_shape@) is None,
        },
{
    let ghost all = views(lags@);
    if let Some((lo, hi)) = bounds_for_prefix(lags, lags.len(), ti_shape) {
        return (Some((lo, hi, lags.len())), false);
    }
    let strict_fallback: bool = !partial_boundary;
    let mut keep: usize = if lags.len() == 0 {
        0
    } else {
        lags.len() - 1
    };
    while keep > 0
        invariant
            all == views(lags@),
            keep <= lags@.len(),
            comparable(all, lags@.len() as int, ti_shape@),
            !fits(all, lags@.len() as int, ti_shape@),
            strict_fallback == !partial_boundary,
            kept(all, ti_shape@) == largest_fit(all, keep as int, ti_shape@),
        decreases keep,
    {
        if let Some((lo, hi)) = bounds_for_prefix(lags, keep, ti_shape) {
            return (Some((lo, hi, keep)), strict_fallback);
        }
        keep = keep - 1;
    }
    (None, strict_fallback)
}

proof fn nothing_reached(lags: Seq<Seq<i64>>, count: int, axis: int)
    requires
        0 <= count <= lags.len(),
        forall|i: int|
            0 <= i < count ==> at_rest(#[trigger] lags[i]) && 0 <= axis < lags[i].len(),
    ensures
        least(lags, count, axis) == 0,
        greatest(lags, count, axis) == 0,
    decreases count,
{
    if count > 0 {
        nothing_reached(lags, count - 1, axis);
        assert(at_rest(lags[count - 1]));
    }
}

/// Every component of the first `count` lags lies between their least and greatest.
pub proof fn lags_lie_within_their_reach(lags: Seq<Seq<i64>>, count: int, axis: int, i: int)
    requires
        0 <= i < count,
    ensures
        least(lags, count, axis) <= lags[i][axis] <= greatest(lags, count, axis),
        least(lags, count, axis) <= 0 <= greatest(lags, count, axis),
    decreases count,
{
    reach_includes_zero(lags, count, axis);
    if i < count - 1 {
        lags_lie_within_their_reach(lags, count - 1, axis, i);
    }
}

proof fn reach_includes_zero(lags: Seq<Seq<i64>>, count: int, axis: int)
    ensures
        least(lags, count, axis) <= 0 <= greatest(lags, count, axis),
    decreases count,
{
    if count > 0 {
        reach_includes_zero(lags, count - 1, axis);
    }
}

/// The anchor lies between the corners of the window of the first `count` lags.
pub open spec fn admits(
    lags: Seq<Seq<i64>>,
    count: int,
    shape: Seq<i64>,
    anchor: Seq<i64>,
) -> bool {
    &&& anchor.len() == shape.len()
    &&& forall|a: int|
        0 <= a < shape.len() ==> lower(lags, count, a) <= #[trigger] anchor[a] <= upper(
            lags,
            count,
            shape,
            a,
        )
}

/// At every anchor of its window, an event stays in the TI: the anchor and each of the
/// lags lead to a cell of the TI.
pub proof fn windows_keep_events_in_the_image(
    lags: Seq<Seq<i64>>,
    count: int,
    shape: Seq<i64>,
    anchor: Seq<i64>,
    i: int,
)
    requires
        comparable(lags, count, shape),
        admits(lags, count, shape, anchor),
        0 <= i < count,
    ensures
        index::inside(anchor, shape),
        index::inside(index::shifted(anchor, lags[i]), shape),
        forall|a: int|
            0 <= a < shape.len() ==> 0 <= #[trigger] anchor[a] + lags[i][a] < shape[a],
{
    assert forall|a: int| 0 <= a < shape.len() implies {
        &&& 0 <= #[trigger] anchor[a] < shape[a]
        &&& 0 <= anchor[a] + lags[i][a] < shape[a]
    } by {
        lags_lie_within_their_reach(lags, count, a, i);
    }
    let moved = index::shifted(anchor, lags[i]);
    assert forall|a: int| 0 <= a < shape.len() implies 0 <= #[trigger] moved[a] < shape[a] by {
        assert(0 <= anchor[a] + lags[i][a] < shape[a]);
    }
}

/// A window leaves no anchor out: where the anchor and all lags lead to cells of the TI,
/// the anchor belongs to the window.
pub proof fn windows_are_as_large_as_can_be(
    lags: Seq<Seq<i64>>,
    count: int,
    shape: Seq<i64>,
    anchor: Seq<i64>,
)
    requires
        comparable(lags, count, shape),
        index::inside(anchor, shape),
        forall|i: int, a: int|
            0 <= i < count && 0 <= a < shape.len() ==> 0 <= anchor[a] + #[trigger] lags[i][a]
                < shape[a],
    ensures
        admits(lags, count, shape, anchor),
{
    assert forall|a: int| 0 <= a < shape.len() implies lower(lags, count, a)
        <= #[trigger] anchor[a] <= upper(lags, count, shape, a) by {
        window_axis_is_as_large_as_can_be(lags, count, shape, anchor, a);
    }
}

proof fn window_axis_is_as_large_as_can_be(
    lags: Seq<Seq<i64>>,
    count: int,
    shape: Seq<i64>,
    anchor: Seq<i64>,
    a: int,
)
    requires
        comparable(lags, count, shape),
        index::inside(anchor, shape),
        0 <= a < shape.len(),
        forall|i: int|
            0 <= i < count ==> 0 <= anchor[a] + #[trigger] lags[i][a] < shape[a],
    ensures
        lower(lags, count, a) <= anchor[a] <= upper(lags, count, shape, a),
    decreases count,
{
    assert(0 <= anchor[a] < shape[a]);
    if count > 0 {
        window_axis_is_as_large_as_can_be(lags, count - 1, shape, anchor, a);
        assert(0 <= anchor[a] + lags[count - 1][a] < shape[a]);
    }
}

/// Where an event fits, so does every shorter beginning of it.
pub proof fn shorter_events_fit(lags: Seq<Seq<i64>>, fewer: int, count: int, shape: Seq<i64>)
    requires
        0 <= fewer <= count,
        fits(lags, count, shape),
    ensures
        fits(lags, fewer, shape),
{
    if !(forall|i: int| 0 <= i < fewer ==> at_rest(#[trigger] lags[i])) {
        assert forall|a: int| 0 <= a < shape.len() implies #[trigger] lower(lags, fewer, a)
            <= upper(lags, fewer, shape, a) by {
            assert(lower(lags, count, a) <= upper(lags, count, shape, a));
            shorter_events_reach_less(lags, fewer, count, a);
        }
    }
}

proof fn shorter_events_reach_less(lags: Seq<Seq<i64>>, fewer: int, count: int, axis: int)
    requires
        0 <= fewer <= count,
    ensures
        least(lags, count, axis) <= least(lags, fewer, axis),
        greatest(lags, fewer, axis) <= greatest(lags, count, axis),
    decreases count,
{
    if fewer < count {
        shorter_events_reach_less(lags, fewer, count - 1, axis);
    }
}

/// What is kept of an event fits, is not more than there was, and could not be one lag
/// longer.
pub proof fn kept_events_fit(lags: Seq<Seq<i64>>, shape: Seq<i64>)
    ensures
        kept(lags, shape) matches Some(keep) ==> {
            &&& 0 <= keep <= lags.len()
            &&& fits(lags, keep, shape)
            &&& forall|more: int|
                keep < more <= lags.len() ==> !#[trigger] fits(lags, more, shape)
        },
        kept(lags, shape) is None ==> lags.len() > 0 && forall|more: int|
            1 <= more <= lags.len() ==> !#[trigger] fits(lags, more, shape),
{
    if !fits(lags, lags.len() as int, shape) {
        largest_fits_are_largest(lags, lags.len() - 1, shape);
    }
}

proof fn largest_fits_are_largest(lags: Seq<Seq<i64>>, count: int, shape: Seq<i64>)
    ensures
        largest_fit(lags, count, shape) matches Some(keep) ==> {
            &&& 1 <= keep <= count
            &&& fits(lags, keep, shape)
            &&& forall|more: int| keep < more <= count ==> !#[trigger] fits(lags, more, shape)
        },
        largest_fit(lags, count, shape) is None ==> forall|more: int|
            1 <= more <= count ==> !#[trigger] fits(lags, more, shape),
    decreases count,
{
    if count >= 1 && !fits(lags, count, shape) {
        largest_fits_are_largest(lags, count - 1, shape);
    }
}

} // verus!
