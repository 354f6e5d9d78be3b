//! The known values around a node: which values it lacks, and the events that it goes by.

use crate::arithmetic::{self, Arithmetic};
use crate::event::{self, Event, EventModel};
use crate::grid::{self, ValueGrid};
use crate::index;
use crate::neighbors::{self, CachedNode, Neighbor};
use crate::setup::{self, Metric, Setup};
use crate::window;
use crate::word;
use vstd::prelude::*;

verus! {

/// The variables among the first `count` that lack a value in a cell.
pub open spec fn lacking(fields: Seq<Seq<u64>>, flat: int, count: int) -> Seq<usize>
    decreases count,
{
    if count <= 0 {
        Seq::empty()
    } else if word::nan(fields[count - 1][flat]) {
        lacking(fields, flat, count - 1).push((count - 1) as usize)
    } else {
        lacking(fields, flat, count - 1)
    }
}

/// `norm` is an outcome of the length of a lag.
pub open spec fn measures_lag<N: Arithmetic>(n: N, lag: Seq<i64>, norm: u64) -> bool {
    exists|d: u64| #[trigger] neighbors::squares(n, lag, d) && arithmetic::roots(n, d, norm)
}

/// The lag of a node to itself.
pub open spec fn no_lag(axes: int) -> Seq<i64> {
    Seq::new(axes as nat, |a: int| 0i64)
}

/// `e` is an outcome of gathering the event of one variable: its value at the node itself,
/// where there is one, then those of the cells that the node looks at.
pub open spec fn gathers<N: Arithmetic>(
    n: N,
    row: Seq<u64>,
    given: Seq<u8>,
    flat: int,
    list: Seq<Neighbor>,
    axes: int,
    e: EventModel,
) -> bool {
    let own: int = if word::nan(row[flat]) {
        0
    } else {
        1
    };
    &&& e.wf()
    &&& e.values.len() == own + list.len()
    &&& own == 1 ==> {
        &&& e.values[0] == row[flat]
        &&& e.conditioned[0] == (given[flat] != 0)
        &&& e.lags[0] == no_lag(axes)
        &&& e.lag_norms[0] == word::ZERO
    }
    &&& forall|j: int|
        0 <= j < list.len() ==> {
            &&& e.values[own + j] == row[(#[trigger] list[j]).flat as int]
            &&& e.conditioned[own + j] == (given[list[j].flat as int] != 0)
            &&& e.lags[own + j] == list[j].lag@
            &&& measures_lag(n, list[j].lag@, e.lag_norms[own + j])
        }
}

/// `e` is an outcome of the event of one variable, and `shared` counts its values that
/// shared a lag with an earlier one.
pub open spec fn has_event<N: Arithmetic, M: Metric>(
    s: Setup<N, M>,
    fields: Seq<Seq<u64>>,
    cached: CachedNode,
    node: int,
    variable: int,
    e: EventModel,
    shared: int,
) -> bool {
    if s.lag_matrices@.len() == 0 {
        gathers_for(s, fields, cached, node, variable, e) && shared == 0
    } else {
        exists|raw: EventModel, mapped: Seq<Seq<i64>>| #[trigger]
            maps_event(s, fields, cached, node, variable, raw, mapped) && e == event::reduced(
                raw,
                mapped,
                s.ti_shape@,
            ) && shared == event::collapsed(mapped)
    }
}

/// `raw` is an outcome of the gathered event, and `mapped` of its lags in the training
/// image.
pub open spec fn maps_event<N: Arithmetic, M: Metric>(
    s: Setup<N, M>,
    fields: Seq<Seq<u64>>,
    cached: CachedNode,
    node: int,
    variable: int,
    raw: EventModel,
    mapped: Seq<Seq<i64>>,
) -> bool {
    &&& gathers_for(s, fields, cached, node, variable, raw)
    &&& event::maps_lags(*s.arithmetic, s.lag_matrices@[node]@, raw.lags, mapped)
}

/// `e` is an outcome of gathering the event of one variable at a node.
pub open spec fn gathers_for<N: Arithmetic, M: Metric>(
    s: Setup<N, M>,
    fields: Seq<Seq<u64>>,
    cached: CachedNode,
    node: int,
    variable: int,
    e: EventModel,
) -> bool {
    gathers(
        *s.arithmetic,
        fields[variable],
        s.conditioned@[variable]@,
        s.model().cell(node),
        cached.by_variable@[variable]@,
        s.sim_shape@.len() as int,
        e,
    )
}

/// `events` are outcomes of the events of all variables, with the counts of shared lags.
pub open spec fn has_events<N: Arithmetic, M: Metric>(
    s: Setup<N, M>,
    fields: Seq<Seq<u64>>,
    cached: CachedNode,
    node: int,
    events: Seq<EventModel>,
    shared: Seq<int>,
) -> bool {
    &&& events.len() == s.variables()
    &&& shared.len() == s.variables()
    &&& forall|v: int|
        0 <= v < s.variables() ==> has_event(
            s,
            fields,
            cached,
            node,
            v,
            #[trigger] events[v],
            shared[v],
        )
}

/// The sum of the first `count` numbers.
pub open spec fn total(xs: Seq<int>, count: int) -> int
    decreases count,
{
    if count <= 0 {
        0
    } else {
        total(xs, count - 1) + xs[count - 1]
    }
}

/// The events in a sequence.
pub open spec fn event_views(events: Seq<Event>) -> Seq<EventModel> {
    Seq::new(events.len(), |v: int| events[v]@)
}

/// The cells that a node looks at lie in the simulation grid, and there are no more of them
/// than offsets.
pub open spec fn usable<N: Arithmetic, M: Metric>(s: Setup<N, M>, cached: CachedNode) -> bool {
    &&& cached.by_variable@.len() == s.variables()
    &&& forall|v: int|
        0 <= v < s.variables() ==> usable_list(s, (#[trigger] cached.by_variable@[v])@)
}

/// The cells lie in the simulation grid, and there are no more of them than offsets.
pub open spec fn usable_list<N: Arithmetic, M: Metric>(
    s: Setup<N, M>,
    list: Seq<Neighbor>,
) -> bool {
    &&& list.len() <= s.offsets@.len()
    &&& forall|j: int|
        0 <= j < list.len() ==> {
            &&& (#[trigger] list[j]).flat < index::size(s.sim_shape@)
            &&& list[j].lag@.len() == s.sim_shape@.len()
        }
    &&& forall|j: int, a: int|
        0 <= j < list.len() && 0 <= a < s.sim_shape@.len() ==> -neighbors::MAX_OFFSET
            <= #[trigger] list[j].lag@[a] <= neighbors::MAX_OFFSET
}

/// A node of a simulation can be simulated.
pub open spec fn ready<N: Arithmetic, M: Metric>(
    s: Setup<N, M>,
    fields: Seq<Seq<u64>>,
    cached: CachedNode,
    node: int,
) -> bool {
    &&& s.consistent(fields)
    &&& s.resolvable()
    &&& s.sensible()
    &&& 0 <= node < s.path@.len()
    &&& usable(s, cached)
}

/// There is one lag, one norm and one mark for each value, and the lags have as many axes as the
/// training image.
pub open spec fn shaped(e: EventModel, shape: Seq<i64>) -> bool {
    e.wf() && window::comparable(e.lags, e.lags.len() as int, shape)
}

/// The variables that lack a value in a cell.
pub(crate) fn missing_variables(fields: &ValueGrid, flat: usize) -> (targets: Vec<usize>)
    requires
        forall|v: int|
            0 <= v < grid::grid_rows(*fields).len() ==> flat < (#[trigger] grid::grid_rows(
                *fields,
            )[v]).len(),
    ensures
        targets@ == lacking(
            grid::grid_rows(*fields),
            flat as int,
            grid::grid_rows(*fields).len() as int,
        ),
{
    let ghost rows = grid::grid_rows(*fields);
    let (variables, _cells) = fields.dim();
    let mut targets: Vec<usize> = Vec::new();
    let mut v: usize = 0;
    while v < variables
        invariant
            v <= variables,
            rows == grid::grid_rows(*fields),
            variables == rows.len(),
            forall|i: int| 0 <= i < rows.len() ==> flat < (#[trigger] rows[i]).len(),
            targets@ == lacking(rows, flat as int, v as int),
        decreases variables - v,
    {
        assert(flat < rows[v as int].len());
        if word::is_nan(fields.at(v, flat)) {
            targets.push(v);
        }
        v = v + 1;
    }
    targets
}

/// The lag of a node to itself.
pub(crate) fn zero_lag(axes: usize) -> (lag: Vec<i64>)
    ensures
        lag@ == no_lag(axes as int),
{
    let lag: Vec<i64> = vec![0i64; axes];
    assert(lag@ =~= no_lag(axes as int));
    lag
}

/// Gathers the known values of one variable around a node.
fn gather_event<N: Arithmetic, M: Metric>(
    s: &Setup<N, M>,
    fields: &ValueGrid,
    variable: usize,
    flat: usize,
    list: &Vec<Neighbor>,
) -> (event: Event)
    requires
        s.consistent(grid::grid_rows(*fields)),
        s.sensible(),
        variable < s.variables(),
        flat < index::size(s.sim_shape@),
        usable_list(*s, list@),
    ensures
        gathers(
            *s.arithmetic,
            grid::grid_rows(*fields)[variable as int],
            s.conditioned@[variable as int]@,
            flat as int,
            list@,
            s.sim_shape@.len() as int,
            event@,
        ),
        shaped(event@, s.ti_shape@),
        event@.lags.len() <= s.offsets@.len() + 1,
{
    let ghost row = grid::grid_rows(*fields)[variable as int];
    let ghost given = s.conditioned@[variable as int]@;
    let ghost axes = s.sim_shape@.len() as int;
    let mut event: Event = Event::empty();
    let value: u64 = fields.at(variable, flat);
    if !word::is_nan(value) {
        event.values.push(value);
        event.conditioned.push(s.conditioned[variable][flat] != 0);
        event.lags.push(zero_lag(s.sim_shape.len()));
        event.lag_norms.push(word::ZERO);
    }
    let ghost own: int = if word::nan(row[flat as int]) {
        0
    } else {
        1
    };
    assert(list@.take(0) =~= Seq::<Neighbor>::empty());
    let mut j: usize = 0;
    while j < list.len()
        invariant
            j <= list@.len(),
            s.consistent(grid::grid_rows(*fields)),
            s.sensible(),
            variable < s.variables(),
            usable_list(*s, list@),
            row == grid::grid_rows(*fields)[variable as int],
            given == s.conditioned@[variable as int]@,
            axes == s.sim_shape@.len(),
            own == if word::nan(row[flat as int]) {
                0int
            } else {
                1int
            },
            gathers(
                *s.arithmetic,
                row,
                given,
                flat as int,
                list@.take(j as int),
                axes,
                event@,
            ),
            forall|i: int| 0 <= i < event@.lags.len() ==> (#[trigger] event@.lags[i]).len() == axes,
        decreases list@.len() - j,
    {
        let neighbor: &Neighbor = &list[j];
        let ghost before = event@;
        assert(list@[j as int].flat < index::size(s.sim_shape@));
        assert forall|a: int| 0 <= a < neighbor.lag@.len() implies -neighbors::MAX_OFFSET
            <= #[trigger] neighbor.lag@[a] <= neighbors::MAX_OFFSET by {
            assert(-neighbors::MAX_OFFSET <= list@[j as int].lag@[a] <= neighbors::MAX_OFFSET);
        }
        let squared: u64 = neighbors::squared_length(s.arithmetic, &neighbor.lag);
        let norm: u64 = arithmetic::root(s.arithmetic, squared);
        assert(measures_lag(*s.arithmetic, neighbor.lag@, norm));
        event.values.push(fields.at(variable, neighbor.flat));
        event.conditioned.push(s.conditioned[variable][neighbor.flat] != 0);
        event.lags.push(event::copy_lag(&neighbor.lag));
        event.lag_norms.push(norm);
        proof {
            let part = list@.take(j as int);
            let next = list@.take(j + 1);
            assert(next =~= part.push(list@[j as int]));
            assert forall|i: int| 0 <= i < event@.lags.len() implies #[trigger] event@.lags[i]
                == if i < before.lags.len() {
                before.lags[i]
            } else {
                neighbor.lag@
            } by {}
            assert forall|i: int| 0 <= i < next.len() implies {
                &&& event@.values[own + i] == row[(#[trigger] next[i]).flat as int]
                &&& event@.conditioned[own + i] == (given[next[i].flat as int] != 0)
                &&& event@.lags[own + i] == next[i].lag@
                &&& measures_lag(*s.arithmetic, next[i].lag@, event@.lag_norms[own + i])
            } by {
                if i < j {
                    assert(next[i] == part[i]);
                    assert(event@.lags[own + i] == before.lags[own + i]);
                } else {
                    assert(event@.lags[own + i] == neighbor.lag@);
                }
            }
        }
        j = j + 1;
    }
    assert(list@.take(j as int) =~= list@);
    event
}

/// The event of one variable at a node, brought into the training image where there is a
/// matrix for that, and how many of its values shared a lag with an earlier one.
fn event_at<N: Arithmetic, M: Metric>(
    s: &Setup<N, M>,
    fields: &ValueGrid,
    cached: &CachedNode,
    node: usize,
    variable: usize,
    flat: usize,
) -> (r: (Event, usize))
    requires
        ready(*s, grid::grid_rows(*fields), *cached, node as int),
        variable < s.variables(),
        flat == s.model().cell(node as int),
        flat < index::size(s.sim_shape@),
    ensures
        has_event(
            *s,
            grid::grid_rows(*fields),
            *cached,
            node as int,
            variable as int,
            r.0@,
            r.1 as int,
        ),
        shaped(r.0@, s.ti_shape@),
        r.1 <= s.offsets@.len() + 1,
{
    assert(usable_list(*s, cached.by_variable@[variable as int]@));
    let mut event: Event = gather_event(
        s,
        fields,
        variable,
        flat,
        &cached.by_variable[variable],
    );
    let ghost raw = event@;
    if s.lag_matrices.len() == 0 {
        return (event, 0);
    }
    assert(setup::square(s.lag_matrices@[node as int], s.sim_shape@.len() as int));
    let shared: usize = event::transform_and_reduce_event(
        s.arithmetic,
        &mut event,
        &s.lag_matrices[node],
        s.ti_shape,
    );
    proof {
        let mapped = choose|mapped: Seq<Seq<i64>>| #[trigger]
            event::maps_lags(
                *s.arithmetic,
                s.lag_matrices@[node as int]@,
                raw.lags,
                mapped,
            ) && event@ == event::reduced(raw, mapped, s.ti_shape@) && shared
                == event::collapsed(mapped);
        assert(maps_event(
            *s,
            grid::grid_rows(*fields),
            *cached,
            node as int,
            variable as int,
            raw,
            mapped,
        ));
    }
    (event, shared)
}

/// The events of all variables at a node, and how many values shared a lag with an earlier
/// one.
pub(crate) fn events_at<N: Arithmetic, M: Metric>(
    s: &Setup<N, M>,
    fields: &ValueGrid,
    cached: &CachedNode,
    node: usize,
    flat: usize,
) -> (r: (Vec<Event>, usize, Ghost<Seq<int>>))
    requires
        ready(*s, grid::grid_rows(*fields), *cached, node as int),
        flat == s.model().cell(node as int),
        flat < index::size(s.sim_shape@),
    ensures
        has_events(
            *s,
            grid::grid_rows(*fields),
            *cached,
            node as int,
            event_views(r.0@),
            r.2@,
        ),
        r.1 == total(r.2@, r.2@.len() as int),
        r.1 <= s.variables() * (s.offsets@.len() + 1),
        r.0@.len() == s.variables(),
        forall|v: int| 0 <= v < r.0@.len() ==> shaped((#[trigger] r.0@[v])@, s.ti_shape@),
{
    let ghost rows = grid::grid_rows(*fields);
    let ghost most = (s.offsets@.len() + 1) as int;
    let (variables, _cells) = fields.dim();
    let mut events: Vec<Event> = Vec::new();
    let mut collapsed: usize = 0;
    let ghost mut shared: Seq<int> = Seq::empty();
    let mut v: usize = 0;
    while v < variables
        invariant
            v <= variables,
            variables == s.variables(),
            rows == grid::grid_rows(*fields),
            most == s.offsets@.len() + 1,
            ready(*s, rows, *cached, node as int),
            flat == s.model().cell(node as int),
            flat < index::size(s.sim_shape@),
            events@.len() == v,
            shared.len() == v,
            collapsed == total(shared, v as int),
            collapsed <= v * most,
            forall|u: int|
                0 <= u < v ==> {
                    &&& shaped((#[trigger] events@[u])@, s.ti_shape@)
                    &&& has_event(*s, rows, *cached, node as int, u, events@[u]@, shared[u])
                },
        decreases variables - v,
    {
        let (event, count) = event_at(s, fields, cached, node, v, flat);
        proof {
            assert(v * most + most == (v + 1) * most) by (nonlinear_arith);
            assert((v + 1) * most <= variables * most) by (nonlinear_arith)
                requires
                    v + 1 <= variables,
                    0 <= most,
            ;
            totals_stay(shared, shared.push(count as int), v as int);
            shared = shared.push(count as int);
        }
        events.push(event);
        collapsed = collapsed + count;
        v = v + 1;
    }
    (events, collapsed, Ghost(shared))
}

proof fn totals_stay(xs: Seq<int>, ys: Seq<int>, count: int)
    requires
        forall|i: int| 0 <= i < count ==> #[trigger] xs[i] == ys[i],
    ensures
        total(xs, count) == total(ys, count),
    decreases count,
{
    if count > 0 {
        totals_stay(xs, ys, count - 1);
        assert(xs[count - 1] == ys[count - 1]);
    }
}

/// A sum is bounded by the largest of its numbers, times how many there are.
pub(crate) proof fn totals_are_bounded(xs: Seq<int>, most: int, count: int)
    requires
        0 <= count,
        forall|i: int| 0 <= i < count ==> #[trigger] xs[i] <= most,
    ensures
        total(xs, count) <= count * most,
    decreases count,
{
    if count > 0 {
        totals_are_bounded(xs, most, count - 1);
        assert(xs[count - 1] <= most);
        assert((count - 1) * most + most == count * most) by (nonlinear_arith);
    } else {
        assert(0 * most == 0) by (nonlinear_arith);
    }
}

/// The variables that lack a value are variables, in order, and lack one.
pub proof fn lacking_variables_lack_values(fields: Seq<Seq<u64>>, flat: int, count: int)
    requires
        0 <= count <= usize::MAX,
    ensures
        forall|i: int|
            0 <= i < lacking(fields, flat, count).len() ==> {
                let v = #[trigger] lacking(fields, flat, count)[i];
                v < count && word::nan(fields[v as int][flat])
            },
        forall|v: int|
            0 <= v < count && word::nan(#[trigger] fields[v][flat]) ==> lacking(
                fields,
                flat,
                count,
            ).contains(v as usize),
        forall|i: int, j: int|
            0 <= i < j < lacking(fields, flat, count).len() ==> #[trigger] lacking(
                fields,
                flat,
                count,
            )[i] < #[trigger] lacking(fields, flat, count)[j],
    decreases count,
{
    if count > 0 {
        lacking_variables_lack_values(fields, flat, count - 1);
        let before = lacking(fields, flat, count - 1);
        let all = lacking(fields, flat, count);
        assert forall|v: int| 0 <= v < count && word::nan(#[trigger] fields[v][flat]) implies
            all.contains(v as usize) by {
            if v < count - 1 {
                let i = choose|i: int| 0 <= i < before.len() && before[i] == v as usize;
                assert(all[i] == v as usize);
            } else {
                assert(all[before.len() as int] == v as usize);
            }
        }
    }
}

} // verus!
