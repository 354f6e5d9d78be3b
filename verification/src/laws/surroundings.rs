//! What a node gathers around it.

use crate::arithmetic::{self, Arithmetic};
use crate::event::{self, EventModel};
use crate::exactness::{self, Reading};
use crate::gathering;
use crate::index;
use crate::laws::lags;
use crate::laws::looking;
use crate::laws::reducing;
use crate::neighbors::{self, CachedNode};
use crate::setup::{Metric, Setup};
use crate::word;
use vstd::prelude::*;

verus! {

/// The flat position of the cell that lies `lag` away from a node.
pub open spec fn place<N: Arithmetic, M: Metric>(
    s: Setup<N, M>,
    node: int,
    lag: Seq<i64>,
) -> int {
    index::dot(index::shifted(s.path@[node]@, lag), index::strides_of(s.sim_shape@))
}

/// The node has a value of its own for the variable.
pub open spec fn has_own<N: Arithmetic, M: Metric>(
    s: Setup<N, M>,
    fields: Seq<Seq<u64>>,
    node: int,
    variable: int,
) -> bool {
    !word::nan(
        fields[variable][index::dot(s.path@[node]@, index::strides_of(s.sim_shape@))],
    )
}

/// The event holds what lies around a node: each value is that of the cell to which its lag leads,
/// and is marked where it was given there. The value of the node itself comes first, where it has
/// one; then come those at the offsets `ks`.
pub open spec fn surrounds<N: Arithmetic, M: Metric>(
    s: Setup<N, M>,
    fields: Seq<Seq<u64>>,
    node: int,
    variable: int,
    ks: Seq<int>,
    e: EventModel,
) -> bool {
    let own: int = if has_own(s, fields, node, variable) {
        1
    } else {
        0
    };
    &&& e.wf()
    &&& e.values.len() == own + ks.len()
    &&& forall|i: int|
        0 <= i < e.values.len() ==> {
            &&& #[trigger] e.values[i] == fields[variable][place(s, node, e.lags[i])]
            &&& e.conditioned[i] == (s.conditioned@[variable]@[place(s, node, e.lags[i])] != 0)
            &&& e.lags[i].len() == s.sim_shape@.len()
        }
    &&& own == 1 ==> forall|a: int| 0 <= a < s.sim_shape@.len() ==> #[trigger] e.lags[0][a] == 0
    &&& forall|j: int| 0 <= j < ks.len() ==> e.lags[own + j] == s.offsets@[#[trigger] ks[j]]@
}

/// Without a matrix, the event of a variable holds what lies around the node at its offsets, and no
/// value is left out.
pub proof fn events_hold_what_lies_around<N: Arithmetic, M: Metric>(
    s: Setup<N, M>,
    fields: Seq<Seq<u64>>,
    cached: CachedNode,
    node: int,
    variable: int,
    ks: Seq<int>,
    e: EventModel,
    shared: int,
)
    requires
        s.consistent(fields),
        s.sensible(),
        0 <= node < s.path@.len(),
        0 <= variable < s.variables(),
        looking::follows_offsets(s.model(), node, cached.by_variable@[variable]@, ks),
        s.lag_matrices@.len() == 0,
        gathering::has_event(s, fields, cached, node, variable, e, shared),
    ensures
        surrounds(s, fields, node, variable, ks, e),
        shared == 0,
{
    gathered_events_surround(s, fields, cached, node, variable, ks, e);
}

proof fn gathered_events_surround<N: Arithmetic, M: Metric>(
    s: Setup<N, M>,
    fields: Seq<Seq<u64>>,
    cached: CachedNode,
    node: int,
    variable: int,
    ks: Seq<int>,
    e: EventModel,
)
    requires
        s.consistent(fields),
        s.sensible(),
        0 <= node < s.path@.len(),
        0 <= variable < s.variables(),
        looking::follows_offsets(s.model(), node, cached.by_variable@[variable]@, ks),
        gathering::gathers_for(s, fields, cached, node, variable, e),
    ensures
        surrounds(s, fields, node, variable, ks, e),
{
    let list = cached.by_variable@[variable]@;
    let axes = s.sim_shape@.len() as int;
    let coords = s.path@[node]@;
    let strides = index::strides_of(s.sim_shape@);
    let own: int = if has_own(s, fields, node, variable) {
        1
    } else {
        0
    };
    assert(s.model().cell(node) == index::dot(coords, strides));
    assert(index::inside(s.model().path[node]@, s.sim_shape@));
    assert forall|i: int| 0 <= i < e.values.len() implies {
        &&& #[trigger] e.values[i] == fields[variable][place(s, node, e.lags[i])]
        &&& e.conditioned[i] == (s.conditioned@[variable]@[place(s, node, e.lags[i])] != 0)
        &&& e.lags[i].len() == axes
    } by {
        if i < own {
            let rest = gathering::no_lag(axes);
            assert(e.lags[0] == rest);
            assert(index::shifted(coords, rest) =~= coords);
        } else {
            let j = i - own;
            assert(e.values[own + j] == fields[variable][list[j].flat as int]);
            assert(list[j].lag@ == s.model().offsets[ks[j]]@);
            assert(s.model().offsets[ks[j]]@.len() == s.sim_shape@.len());
        }
    }
    assert forall|j: int| 0 <= j < ks.len() implies e.lags[own + j]
        == s.offsets@[#[trigger] ks[j]]@ by {
        assert(e.values[own + j] == fields[variable][list[j].flat as int]);
        assert(list[j].lag@ == s.model().offsets[ks[j]]@);
    }
}

/// The norms of an event are the lengths of its lags: where the operations are exact, the square of
/// a norm is the squared length of its lag.
pub proof fn norms_are_lengths<N: Arithmetic, M: Metric>(
    s: Setup<N, M>,
    r: Reading,
    fields: Seq<Seq<u64>>,
    cached: CachedNode,
    node: int,
    variable: int,
    ks: Seq<int>,
    e: EventModel,
    shared: int,
    i: int,
    length: int,
)
    requires
        r.exact(*s.arithmetic),
        s.consistent(fields),
        s.sensible(),
        0 <= node < s.path@.len(),
        0 <= variable < s.variables(),
        looking::follows_offsets(s.model(), node, cached.by_variable@[variable]@, ks),
        s.lag_matrices@.len() == 0,
        gathering::has_event(s, fields, cached, node, variable, e, shared),
        0 <= i < e.values.len(),
        looking::moderate(r, e.lags[i]),
        0 <= length,
        r.holds(length),
        length * length == looking::square_length(e.lags[i]) * r.scale * r.scale,
    ensures
        r.says(e.lag_norms[i], length),
{
    gathered_events_surround(s, fields, cached, node, variable, ks, e);
    let own: int = if has_own(s, fields, node, variable) {
        1
    } else {
        0
    };
    let n = *s.arithmetic;
    if i < own {
        let lag = e.lags[0];
        exactness::lonely_series(looking::squares_of(lag), lag.len() as int, -1);
        assert(length == 0) by (nonlinear_arith)
            requires
                length * length == 0 * r.scale * r.scale,
        ;
    } else {
        let list = cached.by_variable@[variable]@;
        let j = i - own;
        assert(gathering::measures_lag(n, list[j].lag@, e.lag_norms[own + j]));
        assert(e.lags[own + j] == s.offsets@[ks[j]]@);
        assert(list[j].lag@ == s.model().offsets[ks[j]]@);
        let lag = e.lags[i];
        let d = choose|d: u64| #[trigger]
            neighbors::squares(n, lag, d) && arithmetic::roots(n, d, e.lag_norms[i]);
        assert forall|a: int| 0 <= a < lag.len() implies -neighbors::MAX_OFFSET
            <= #[trigger] lag[a] <= neighbors::MAX_OFFSET by {
            assert(s.model().offsets[ks[j]]@.len() == s.sim_shape@.len());
            assert(-neighbors::MAX_OFFSET <= s.model().offsets[ks[j]]@[a] <= neighbors::MAX_OFFSET);
        }
        looking::lengths_are_euclidean(n, r, lag, d);
        assert(r.product(length, length, looking::square_length(lag) * r.scale));
    }
}

/// What the entries of a matrix and the components of a lag come to is at hand, and so are the
/// components of the mapped lag.
pub open spec fn tame(r: Reading, entries: Seq<Seq<int>>, lag: Seq<i64>) -> bool {
    &&& lags::moderate(r, entries, lag)
    &&& forall|a: int|
        0 <= a < lag.len() ==> i64::MIN <= exactness::series(
            lags::contribution(#[trigger] entries[a], lag),
            lag.len() as int,
        ) <= i64::MAX
}

/// With a matrix, the event of a variable holds values that lie around the node, each at the product
/// of the matrix of that node and the lag at which the value lies; in order, and no two of them at
/// the same place.
pub proof fn events_follow_the_matrix_of_their_node<N: Arithmetic, M: Metric>(
    s: Setup<N, M>,
    r: Reading,
    fields: Seq<Seq<u64>>,
    cached: CachedNode,
    node: int,
    variable: int,
    ks: Seq<int>,
    entries: Seq<Seq<int>>,
    e: EventModel,
    shared: int,
) -> (around: (EventModel, Seq<int>))
    requires
        r.exact(*s.arithmetic),
        s.consistent(fields),
        s.sensible(),
        0 <= node < s.path@.len(),
        0 <= variable < s.variables(),
        looking::follows_offsets(s.model(), node, cached.by_variable@[variable]@, ks),
        s.lag_matrices@.len() > 0,
        lags::holds_integers(
            r,
            s.lag_matrices@[node]@,
            entries,
            s.sim_shape@.len() as int,
        ),
        tame(r, entries, gathering::no_lag(s.sim_shape@.len() as int)),
        forall|k: int|
            0 <= k < s.offsets@.len() ==> tame(r, entries, (#[trigger] s.offsets@[k])@),
        gathering::has_event(s, fields, cached, node, variable, e, shared),
    ensures
        surrounds(s, fields, node, variable, ks, around.0),
        e.wf(),
        e.values.len() == around.1.len(),
        forall|i: int, j: int|
            0 <= i < j < around.1.len() ==> #[trigger] around.1[i] < #[trigger] around.1[j],
        forall|i: int|
            0 <= i < e.values.len() ==> {
                &&& 0 <= #[trigger] around.1[i] < around.0.values.len()
                &&& e.values[i] == around.0.values[around.1[i]]
                &&& e.conditioned[i] == around.0.conditioned[around.1[i]]
                &&& e.lag_norms[i] == around.0.lag_norms[around.1[i]]
                &&& e.lags[i].len() == s.sim_shape@.len()
                &&& forall|a: int|
                    0 <= a < s.sim_shape@.len() ==> #[trigger] e.lags[i][a] == exactness::series(
                        lags::contribution(entries[a], around.0.lags[around.1[i]]),
                        s.sim_shape@.len() as int,
                    )
            },
        forall|i: int, j: int|
            0 <= i < j < e.lags.len() ==> #[trigger] e.lags[i] != #[trigger] e.lags[j],
{
    let n = *s.arithmetic;
    let (raw, mapped) = choose|raw: EventModel, mapped: Seq<Seq<i64>>| #[trigger]
        gathering::maps_event(s, fields, cached, node, variable, raw, mapped) && e
            == event::reduced(raw, mapped, s.ti_shape@) && shared == event::collapsed(mapped);
    gathered_events_surround(s, fields, cached, node, variable, ks, raw);
    let matrix = s.lag_matrices@[node]@;
    let axes = s.sim_shape@.len() as int;
    assert forall|i: int| 0 <= i < mapped.len() implies (#[trigger] mapped[i]).len()
        == s.ti_shape@.len() by {
        assert(event::maps_lag(n, matrix, raw.lags[i], mapped[i]));
        assert(raw.values[i] == fields[variable][place(s, node, raw.lags[i])]);
    }
    let places = reducing::values_that_share_a_lag_are_left_out(raw, mapped, s.ti_shape@);
    event::reduced_events_have_distinct_lags(raw, mapped, s.ti_shape@);
    assert forall|i: int| 0 <= i < e.values.len() implies {
        &&& 0 <= #[trigger] places[i] < raw.values.len()
        &&& e.values[i] == raw.values[places[i]]
        &&& e.conditioned[i] == raw.conditioned[places[i]]
        &&& e.lag_norms[i] == raw.lag_norms[places[i]]
        &&& e.lags[i].len() == axes
        &&& forall|a: int|
            0 <= a < axes ==> #[trigger] e.lags[i][a] == exactness::series(
                lags::contribution(entries[a], raw.lags[places[i]]),
                axes,
            )
    } by {
        let p = places[i];
        let lag = raw.lags[p];
        assert(e.lags[i] == mapped[p]);
        assert(event::maps_lag(n, matrix, raw.lags[p], mapped[p]));
        assert(raw.values[p] == fields[variable][place(s, node, raw.lags[p])]);
        let own: int = if has_own(s, fields, node, variable) {
            1
        } else {
            0
        };
        if p < own {
            assert(lag =~= gathering::no_lag(axes));
        } else {
            assert(raw.lags[own + (p - own)] == s.offsets@[ks[p - own]]@);
        }
        assert(tame(r, entries, lag));
        assert forall|a: int| 0 <= a < axes implies #[trigger] e.lags[i][a] == exactness::series(
            lags::contribution(entries[a], lag),
            axes,
        ) by {
            assert(i64::MIN <= exactness::series(
                lags::contribution(entries[a], lag),
                lag.len() as int,
            ) <= i64::MAX);
            lags::lags_are_multiplied_by_the_matrix(n, r, matrix, entries, lag, mapped[p], a);
        }
    }
    (raw, places)
}

} // verus!
