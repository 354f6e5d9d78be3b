//! The scan of a training-image window for an anchor that matches a data event.

use crate::arithmetic::Arithmetic;
use crate::distance;
use crate::index;
use crate::word;
use vstd::prelude::*;

verus! {

/// The threshold asks for an exact match.
pub open spec fn exact_only(threshold: u64) -> bool {
    !word::nan(threshold) && word::rank(threshold) <= 0
}

/// The distance `d` ends a scan: it is zero where only an exact match will do, and
/// below the threshold otherwise.
pub open spec fn accepted(threshold: u64, d: u64) -> bool {
    if exact_only(threshold) {
        word::same(d, word::ZERO)
    } else {
        word::below(d, threshold)
    }
}

/// A scan to be made: the window that starts at `lo` and has the given shape, the
/// position in it to start from, how many candidates to look at, when to stop early,
/// and the strides of the TI.
pub struct Sweep {
    pub lo: Seq<i64>,
    pub shape: Seq<i64>,
    pub start: int,
    pub max_scan: int,
    pub threshold: u64,
    pub strides: Seq<i64>,
}

impl Sweep {
    /// The anchor lies in the window.
    pub open spec fn covers(self, anchor: Seq<i64>) -> bool {
        &&& anchor.len() == self.lo.len()
        &&& forall|a: int|
            0 <= a < self.lo.len() ==> self.lo[a] <= #[trigger] anchor[a] < self.lo[a]
                + self.shape[a]
    }

    /// Every anchor of the window has coordinates and a flat position, and there is an
    /// anchor to look at.
    pub open spec fn feasible(self) -> bool {
        &&& self.lo.len() == self.shape.len()
        &&& index::countable(self.shape)
        &&& self.max_scan > 0 ==> index::size(self.shape) > 0
        &&& forall|a: int|
            0 <= a < self.shape.len() ==> #[trigger] self.lo[a] + self.shape[a] <= i64::MAX
        &&& forall|anchor: Seq<i64>| #[trigger]
            self.covers(anchor) ==> {
                &&& index::summable(anchor, self.strides)
                &&& 0 <= self.base(anchor) <= i64::MAX
                &&& self.base(anchor) <= usize::MAX
            }
    }

    /// The flat position of an anchor in the TI.
    pub open spec fn base(self, anchor: Seq<i64>) -> int {
        index::dot(anchor, self.strides)
    }

    /// The anchor that the scan visits after `k` others: the window is walked in
    /// row-major order, and from its end back to its beginning.
    pub open spec fn visited(self, k: int) -> Seq<i64> {
        index::shifted(
            self.lo,
            index::coords_of((self.start + k) % index::size(self.shape), self.shape),
        )
    }

    /// `ds` are the distances of the visited anchors, where `measure(base, d)` says that
    /// `d` is a distance of the anchor at `base`. The scan ends at the first accepted
    /// distance, or after `max_scan` anchors.
    pub open spec fn measured(self, measure: spec_fn(int, u64) -> bool, ds: Seq<u64>) -> bool {
        &&& ds.len() <= self.max_scan
        &&& forall|k: int|
            0 <= k < ds.len() ==> measure(self.base(self.visited(k)), #[trigger] ds[k])
        &&& forall|k: int|
            0 <= k < ds.len() - 1 ==> !accepted(self.threshold, #[trigger] ds[k])
        &&& ds.len() < self.max_scan ==> ds.len() > 0 && accepted(self.threshold, ds.last())
    }

    /// `choice` is the candidate that a scan with the distances `ds` settles for: the
    /// accepted one, else the first of the least, else none.
    pub open spec fn settles(self, ds: Seq<u64>, choice: Option<int>) -> bool {
        match choice {
            Some(k) => {
                &&& 0 <= k < ds.len()
                &&& forall|j: int| 0 <= j < k ==> !accepted(self.threshold, #[trigger] ds[j])
                &&& accepted(self.threshold, ds[k]) || (first_least(ds, k) && forall|j: int|
                    0 <= j < ds.len() ==> !accepted(self.threshold, #[trigger] ds[j]))
            },
            None => forall|j: int|
                0 <= j < ds.len() ==> !accepted(self.threshold, #[trigger] ds[j])
                    && !word::below(ds[j], word::INFINITY),
        }
    }

    /// The scan may see the distances `ds`, settle for `choice` and end with `found`.
    pub open spec fn ends(
        self,
        measure: spec_fn(int, u64) -> bool,
        ds: Seq<u64>,
        choice: Option<int>,
        found: Option<Seq<i64>>,
    ) -> bool {
        &&& self.measured(measure, ds)
        &&& self.settles(ds, choice)
        &&& found == match choice {
            Some(k) => Some(self.visited(k)),
            None => None,
        }
    }

    /// `found` is an outcome of the scan.
    pub open spec fn finds(
        self,
        measure: spec_fn(int, u64) -> bool,
        found: Option<Seq<i64>>,
    ) -> bool {
        exists|ds: Seq<u64>, choice: Option<int>| #[trigger]
            self.ends(measure, ds, choice, found)
    }
}

/// `ds[k]` is the first of the least distances, and not infinite.
pub open spec fn first_least(ds: Seq<u64>, k: int) -> bool {
    &&& word::below(ds[k], word::INFINITY)
    &&& forall|j: int| 0 <= j < ds.len() ==> !word::below(#[trigger] ds[j], ds[k])
    &&& forall|j: int| 0 <= j < k ==> !word::same(#[trigger] ds[j], ds[k])
}

/// The coordinates in an optional vector.
pub open spec fn optional(found: Option<Vec<i64>>) -> Option<Seq<i64>> {
    match found {
        Some(coords) => Some(coords@),
        None => None,
    }
}

/// What a closure may return for an anchor at `base`.
pub open spec fn measured_by<F: Fn(i64) -> u64>(distance: F) -> spec_fn(int, u64) -> bool {
    |base: int, d: u64| call_ensures(distance, (base as i64,), d)
}

/// The scan that the arguments of [`scan_node`] describe.
pub open spec fn sweep(
    lo: &[i64],
    win_shape: &[i64],
    start: usize,
    max_scan: usize,
    threshold: u64,
    ti_strides: &[i64],
) -> Sweep {
    Sweep {
        lo: lo@,
        shape: win_shape@,
        start: start as int,
        max_scan: max_scan as int,
        threshold,
        strides: ti_strides@,
    }
}

/// Scans a window of the TI for an anchor that matches an event.
///
/// The scan starts at position `start` of the window, goes on in row-major order, and
/// wraps round. A threshold of at most zero accepts the first exact match, another
/// one the first distance below it. Where none of the `max_scan` candidates is
/// accepted, the first of the least distances wins. The result is `None` where no
/// distance is below infinity.
pub fn scan_node<F: Fn(i64) -> u64>(
    lo: &[i64],
    win_shape: &[i64],
    start: usize,
    max_scan: usize,
    threshold: u64,
    ti_strides: &[i64],
    distance: F,
) -> (found: Option<Vec<i64>>)
    requires
        sweep(lo, win_shape, start, max_scan, threshold, ti_strides).feasible(),
        forall|anchor: Seq<i64>| #[trigger]
            sweep(lo, win_shape, start, max_scan, threshold, ti_strides).covers(anchor)
                ==> call_requires(distance, (index::dot(anchor, ti_strides@) as i64,)),
    ensures
        sweep(lo, win_shape, start, max_scan, threshold, ti_strides).finds(
            measured_by(distance),
            optional(found),
        ),
{
    let ghost w = sweep(lo, win_shape, start, max_scan, threshold, ti_strides);
    let ghost measure = measured_by(distance);
    let ghost mut ds: Seq<u64> = Seq::empty();
    let ghost mut choice: Option<int> = None;
    let win_size: usize = index::cell_count(win_shape);
    let win_strides: Vec<i64> = index::c_strides(win_shape);
    let exact: bool = word::less(threshold, word::ZERO) || word::equal(threshold, word::ZERO);
    let mut best_d: u64 = word::INFINITY;
    let mut best: Option<Vec<i64>> = None;
    let mut pos: usize = if win_size > 0 {
        start % win_size
    } else {
        0
    };
    let mut k: usize = 0;
    while k < max_scan
        invariant
            k <= max_scan,
            w == sweep(lo, win_shape, start, max_scan, threshold, ti_strides),
            w.feasible(),
            forall|anchor: Seq<i64>| #[trigger]
                w.covers(anchor) ==> call_requires(
                    distance,
                    (index::dot(anchor, ti_strides@) as i64,),
                ),
            measure == measured_by(distance),
            win_size == index::size(win_shape@),
            win_strides@ == index::strides_of(win_shape@),
            exact == exact_only(threshold),
            max_scan > 0 ==> pos == (start + k) % (win_size as int),
            ds.len() == k,
            forall|j: int|
                0 <= j < ds.len() ==> measure(w.base(w.visited(j)), #[trigger] ds[j]),
            forall|j: int| 0 <= j < ds.len() ==> !accepted(threshold, #[trigger] ds[j]),
            w.settles(ds, choice),
            choice is None ==> best is None && best_d == word::INFINITY,
            choice matches Some(c) ==> {
                &&& best_d == ds[c]
                &&& first_least(ds, c)
                &&& best matches Some(coords) && coords@ == w.visited(c)
            },
        decreases max_scan - k,
    {
        let coords: Vec<i64> = index::cell_at(lo, win_shape, &win_strides, pos);
        proof {
            assert(coords@ == w.visited(k as int));
            visited_anchors_are_in_the_window(w, k as int);
        }
        let base: i64 = index::flat_index(&coords, ti_strides) as i64;
        let d: u64 = distance(base);
        let ghost before = ds;
        proof {
            ds = before.push(d);
            assert(measure(w.base(w.visited(k as int)), d));
        }
        if (exact && word::equal(d, word::ZERO)) || (!exact && word::less(d, threshold)) {
            proof {
                assert(accepted(threshold, ds[k as int]));
                assert(w.ends(measure, ds, Some(k as int), Some(coords@)));
            }
            return Some(coords);
        }
        if word::less(d, best_d) {
            best_d = d;
            best = Some(coords);
            proof {
                choice = Some(k as int);
                assert forall|j: int| 0 <= j < ds.len() implies !word::below(
                    #[trigger] ds[j],
                    d,
                ) && (j < k ==> !word::same(ds[j], d)) by {
                    if j < k {
                        assert(ds[j] == before[j]);
                    }
                }
            }
        } else {
            assert forall|j: int| 0 <= j < k implies #[trigger] ds[j] == before[j] by {}
        }
        proof {
            next_position(start + k, win_size as int);
        }
        pos = if pos + 1 == win_size {
            0
        } else {
            pos + 1
        };
        k = k + 1;
    }
    proof {
        assert(w.ends(measure, ds, choice, optional(best)));
    }
    best
}

/// What the categorical distance may be for an anchor at `base`.
pub open spec fn categorical_measure<N: Arithmetic>(
    n: N,
    de_sim: Seq<u64>,
    ti: Seq<u64>,
    lag_flat: Seq<i64>,
    weights: Seq<u64>,
) -> spec_fn(int, u64) -> bool {
    |base: int, d: u64| distance::categorical_distance(n, de_sim, ti, base, lag_flat, weights, d)
}

/// [`scan_node`] for one categorical variable.
pub fn scan_node_categorical<N: Arithmetic>(
    n: &N,
    lo: &[i64],
    win_shape: &[i64],
    start: usize,
    max_scan: usize,
    threshold: u64,
    de_sim: &[u64],
    ti_flat: &[u64],
    ti_strides: &[i64],
    lag_flat: &[i64],
    node_weights: &[u64],
) -> (found: Option<Vec<i64>>)
    requires
        sweep(lo, win_shape, start, max_scan, threshold, ti_strides).feasible(),
        forall|anchor: Seq<i64>| #[trigger]
            sweep(lo, win_shape, start, max_scan, threshold, ti_strides).covers(anchor)
                ==> distance::reachable(
                index::dot(anchor, ti_strides@),
                lag_flat@,
                distance::event_len(de_sim@, lag_flat@, node_weights@),
                ti_flat@.len() as int,
            ),
    ensures
        sweep(lo, win_shape, start, max_scan, threshold, ti_strides).finds(
            categorical_measure(*n, de_sim@, ti_flat@, lag_flat@, node_weights@),
            optional(found),
        ),
{
    let ghost w = sweep(lo, win_shape, start, max_scan, threshold, ti_strides);
    let measure_at = |base: i64| -> (d: u64)
        requires
            distance::reachable(
                base as int,
                lag_flat@,
                distance::event_len(de_sim@, lag_flat@, node_weights@),
                ti_flat@.len() as int,
            ),
        ensures
            distance::categorical_distance(
                *n,
                de_sim@,
                ti_flat@,
                base as int,
                lag_flat@,
                node_weights@,
                d,
            ),
        { distance::categorical(n, de_sim, ti_flat, base, lag_flat, node_weights) };
    let found: Option<Vec<i64>> = scan_node(
        lo,
        win_shape,
        start,
        max_scan,
        threshold,
        ti_strides,
        measure_at,
    );
    proof {
        let closure = measured_by(measure_at);
        let measure = categorical_measure(*n, de_sim@, ti_flat@, lag_flat@, node_weights@);
        assert forall|anchor: Seq<i64>, d: u64|
            #[trigger] w.covers(anchor) && closure(w.base(anchor), d) implies #[trigger] measure(
            w.base(anchor),
            d,
        ) by {}
        scan_under_a_weaker_measure(w, closure, measure, optional(found));
    }
    found
}

/// A scan visits anchors of its window only.
pub proof fn visited_anchors_are_in_the_window(w: Sweep, k: int)
    requires
        w.feasible(),
        0 < w.max_scan,
    ensures
        w.covers(w.visited(k)),
{
    let pos = (w.start + k) % index::size(w.shape);
    index::positions_have_cells(pos, w.shape);
    let away = index::coords_of(pos, w.shape);
    let anchor = w.visited(k);
    assert forall|a: int| 0 <= a < w.lo.len() implies w.lo[a] <= #[trigger] anchor[a] < w.lo[a]
        + w.shape[a] by {
        assert(0 <= away[a] < w.shape[a]);
        assert(w.lo[a] + w.shape[a] <= i64::MAX);
    }
}

/// What a scan finds is an anchor of its window.
pub proof fn found_anchors_are_in_the_window(
    w: Sweep,
    measure: spec_fn(int, u64) -> bool,
    anchor: Seq<i64>,
)
    requires
        w.feasible(),
        w.finds(measure, Some(anchor)),
    ensures
        w.covers(anchor),
{
    let (ds, choice) = choose|ds: Seq<u64>, choice: Option<int>| #[trigger]
        w.ends(measure, ds, choice, Some(anchor));
    visited_anchors_are_in_the_window(w, choice->0);
}

/// A scan of as many candidates as the window has cells leaves no anchor out.
pub proof fn full_scans_visit_every_anchor(w: Sweep, anchor: Seq<i64>)
    requires
        w.feasible(),
        w.covers(anchor),
    ensures
        exists|k: int| 0 <= k < index::size(w.shape) && #[trigger] w.visited(k) == anchor,
{
    let size = index::size(w.shape);
    let away = Seq::new(w.lo.len(), |a: int| (anchor[a] - w.lo[a]) as i64);
    assert forall|a: int| 0 <= a < w.shape.len() implies 0 <= #[trigger] away[a]
        < w.shape[a] by {
        assert(w.lo[a] <= anchor[a] < w.lo[a] + w.shape[a]);
    }
    assert(index::inside(away, w.shape));
    let pos = index::dot(away, index::strides_of(w.shape));
    index::cells_have_positions(away, w.shape);
    index::position_determines_cell(away, w.shape);
    let k = (pos - w.start) % size;
    assert((w.start + k) % size == pos) by {
        vstd::arithmetic::div_mod::lemma_add_mod_noop(w.start, pos - w.start, size);
        vstd::arithmetic::div_mod::lemma_add_mod_noop(w.start, k, size);
        vstd::arithmetic::div_mod::lemma_mod_twice(pos - w.start, size);
        vstd::arithmetic::div_mod::lemma_small_mod(pos as nat, size as nat);
    }
    assert forall|a: int| 0 <= a < w.lo.len() implies index::shifted(w.lo, away)[a]
        == #[trigger] anchor[a] by {
        assert(w.lo[a] <= anchor[a] < w.lo[a] + w.shape[a]);
        assert(0 <= away[a] < w.shape[a]);
    }
    assert(w.visited(k) =~= anchor);
}

/// A scan may be described by any measure that admits the distances found in the
/// window.
pub proof fn scan_under_a_weaker_measure(
    w: Sweep,
    measure: spec_fn(int, u64) -> bool,
    weaker: spec_fn(int, u64) -> bool,
    found: Option<Seq<i64>>,
)
    requires
        w.feasible(),
        w.finds(measure, found),
        forall|anchor: Seq<i64>, d: u64|
            #[trigger] w.covers(anchor) && measure(w.base(anchor), d) ==> #[trigger] weaker(
                w.base(anchor),
                d,
            ),
    ensures
        w.finds(weaker, found),
{
    let (ds, choice) = choose|ds: Seq<u64>, choice: Option<int>| #[trigger]
        w.ends(measure, ds, choice, found);
    assert forall|k: int| 0 <= k < ds.len() implies weaker(
        w.base(w.visited(k)),
        #[trigger] ds[k],
    ) by {
        visited_anchors_are_in_the_window(w, k);
        assert(w.covers(w.visited(k)) && measure(w.base(w.visited(k)), ds[k]));
    }
    assert(w.ends(weaker, ds, choice, found));
}

/// Where every distance has one value, a scan has one outcome.
pub proof fn scan_outcomes_agree(
    w: Sweep,
    measure: spec_fn(int, u64) -> bool,
    other: spec_fn(int, u64) -> bool,
    first: Option<Seq<i64>>,
    second: Option<Seq<i64>>,
)
    requires
        w.feasible(),
        forall|anchor: Seq<i64>, d: u64, e: u64|
            w.covers(anchor) && #[trigger] measure(w.base(anchor), d) && #[trigger] other(
                w.base(anchor),
                e,
            ) ==> d == e,
        w.finds(measure, first),
        w.finds(other, second),
    ensures
        first == second,
{
    let (ds, choice) = choose|ds: Seq<u64>, choice: Option<int>| #[trigger]
        w.ends(measure, ds, choice, first);
    let (es, selection) = choose|es: Seq<u64>, selection: Option<int>| #[trigger]
        w.ends(other, es, selection, second);
    let shared = vstd::math::min(ds.len() as int, es.len() as int);
    assert forall|k: int| 0 <= k < shared implies #[trigger] ds[k] == es[k] by {
        visited_anchors_are_in_the_window(w, k);
        assert(measure(w.base(w.visited(k)), ds[k]));
        assert(other(w.base(w.visited(k)), es[k]));
    }
    if ds.len() < es.len() {
        assert(accepted(w.threshold, ds[ds.len() - 1]));
        assert(!accepted(w.threshold, es[ds.len() - 1]));
    }
    if es.len() < ds.len() {
        assert(accepted(w.threshold, es[es.len() - 1]));
        assert(!accepted(w.threshold, ds[es.len() - 1]));
    }
    assert(ds =~= es);
    choices_agree(w, ds, choice, selection);
}

proof fn choices_agree(w: Sweep, ds: Seq<u64>, first: Option<int>, second: Option<int>)
    requires
        w.settles(ds, first),
        w.settles(ds, second),
    ensures
        first == second,
{
    if first is Some && second is Some {
        let j = first->0;
        let k = second->0;
        if j < k {
            assert(!accepted(w.threshold, ds[j]));
            assert(!word::below(ds[k], ds[j]) && !word::same(ds[j], ds[k]));
        }
        if k < j {
            assert(!accepted(w.threshold, ds[k]));
            assert(!word::below(ds[j], ds[k]) && !word::same(ds[k], ds[j]));
        }
    }
}

/// A scan comes back empty only where no candidate is at a distance below infinity.
pub proof fn scans_fail_only_on_infinite_distances(
    w: Sweep,
    measure: spec_fn(int, u64) -> bool,
    k: int,
)
    requires
        w.finds(measure, None),
        0 <= k < w.max_scan,
    ensures
        exists|d: u64| #[trigger]
            measure(w.base(w.visited(k)), d) && !word::below(d, word::INFINITY),
{
    let (ds, choice) = choose|ds: Seq<u64>, choice: Option<int>| #[trigger]
        w.ends(measure, ds, choice, None);
    if ds.len() < w.max_scan {
        assert(accepted(w.threshold, ds[ds.len() - 1]));
    }
    assert(measure(w.base(w.visited(k)), ds[k]));
}

proof fn next_position(x: int, n: int)
    requires
        0 <= x,
        0 < n,
    ensures
        (x + 1) % n == if x % n + 1 == n {
            0
        } else {
            x % n + 1
        },
{
    vstd::arithmetic::div_mod::lemma_fundamental_div_mod(x, n);
    let q = x / n;
    assert(n * q == q * n) by (nonlinear_arith);
    if x % n + 1 == n {
        assert((q + 1) * n == q * n + n) by (nonlinear_arith);
        vstd::arithmetic::div_mod::lemma_fundamental_div_mod_converse(x + 1, n, q + 1, 0);
    } else {
        vstd::arithmetic::div_mod::lemma_fundamental_div_mod_converse(x + 1, n, q, x % n + 1);
    }
}

} // verus!
