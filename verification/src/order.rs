//! Levels are as good as one node after the other: what a path leads to level by level, it
//! could have led to node by node.

use crate::arithmetic::Arithmetic;
use crate::determinism;
use crate::event::EventModel;
use crate::gathering;
use crate::guarantees;
use crate::index;
use crate::mps_engine::{self, Progress, SimulationOutput};
use crate::neighbors::{self, CachedNode};
use crate::node::{self, NodeResult};
use crate::setup::{Metric, Setup};
use crate::word;
use vstd::prelude::*;

verus! {

/// A node may be simulated from the fields of `p` and lead to `q`.
pub open spec fn follows<N: Arithmetic, M: Metric>(
    s: Setup<N, M>,
    cache: Seq<CachedNode>,
    p: Progress,
    node: int,
    q: Progress,
) -> bool {
    exists|r: NodeResult| #[trigger]
        node::node_outcome(s, p.fields, cache[node], node, r) && mps_engine::numeric(
            r,
            r.values@.len() as int,
        ) && q == mps_engine::after(p, r)
}

/// The first `count` nodes, simulated one after the other, may lead from the initial fields
/// to `p`.
pub open spec fn one_by_one<N: Arithmetic, M: Metric>(
    s: Setup<N, M>,
    cache: Seq<CachedNode>,
    initial: Seq<Seq<u64>>,
    count: int,
    p: Progress,
) -> bool
    decreases count,
{
    if count <= 0 {
        p == mps_engine::beginning(initial)
    } else {
        exists|prior: Progress|
            one_by_one(s, cache, initial, count - 1, prior) && #[trigger] follows(
                s,
                cache,
                prior,
                count - 1,
                p,
            )
    }
}

/// No two nodes of the path lie at the same cell.
pub open spec fn distinct_cells<N: Arithmetic, M: Metric>(s: Setup<N, M>) -> bool {
    forall|i: int, j: int|
        0 <= i < j < s.path@.len() ==> #[trigger] s.model().cell(i) != #[trigger] s.model().cell(j)
}

/// Values that are given are there.
pub open spec fn given_values_are_known<N: Arithmetic, M: Metric>(
    s: Setup<N, M>,
    initial: Seq<Seq<u64>>,
) -> bool {
    forall|v: int, c: int|
        0 <= v < initial.len() && 0 <= c < initial[v].len() && #[trigger] s.conditioned@[v]@[c]
            != 0 ==> !word::nan(initial[v][c])
}

// ---------------------------------------------------------------------------------------
// What a node reads
// ---------------------------------------------------------------------------------------

/// The fields agree in all that a node reads: the node itself, and the cells that it looks
/// at.
pub open spec fn read_alike<N: Arithmetic, M: Metric>(
    s: Setup<N, M>,
    cached: CachedNode,
    node: int,
    f: Seq<Seq<u64>>,
    g: Seq<Seq<u64>>,
) -> bool {
    &&& forall|v: int|
        0 <= v < s.variables() ==> #[trigger] f[v][s.model().cell(node)]
            == g[v][s.model().cell(node)]
    &&& forall|v: int, j: int|
        0 <= v < s.variables() && 0 <= j < cached.by_variable@[v]@.len() ==> f[v][(
        #[trigger] cached.by_variable@[v]@[j]).flat as int]
            == g[v][cached.by_variable@[v]@[j].flat as int]
}

proof fn lacking_alike(f: Seq<Seq<u64>>, g: Seq<Seq<u64>>, flat: int, count: int)
    requires
        forall|v: int| 0 <= v < count ==> #[trigger] f[v][flat] == g[v][flat],
    ensures
        gathering::lacking(f, flat, count) == gathering::lacking(g, flat, count),
    decreases count,
{
    if count > 0 {
        lacking_alike(f, g, flat, count - 1);
        assert(f[count - 1][flat] == g[count - 1][flat]);
    }
}

/// A node comes to the same results from fields that agree in what it reads.
pub proof fn nodes_depend_on_what_they_read<N: Arithmetic, M: Metric>(
    s: Setup<N, M>,
    cached: CachedNode,
    node: int,
    f: Seq<Seq<u64>>,
    g: Seq<Seq<u64>>,
    r: NodeResult,
)
    requires
        read_alike(s, cached, node, f, g),
        node::node_outcome(s, f, cached, node, r),
    ensures
        node::node_outcome(s, g, cached, node, r),
{
    let flat = s.model().cell(node);
    lacking_alike(f, g, flat, s.variables());
    let targets = gathering::lacking(f, flat, s.variables());
    let (events, shared) = choose|events: Seq<EventModel>, shared: Seq<int>| #[trigger]
        gathering::has_events(s, f, cached, node, events, shared) && node::decides(
            s,
            node,
            events,
            targets,
            r,
        ) && r.collapsed_lag_count == gathering::total(shared, shared.len() as int);
    assert forall|v: int| 0 <= v < s.variables() implies gathering::has_event(
        s,
        g,
        cached,
        node,
        v,
        #[trigger] events[v],
        shared[v],
    ) by {
        assert(gathering::has_event(s, f, cached, node, v, events[v], shared[v]));
        if s.lag_matrices@.len() == 0 {
            gathered_alike(s, cached, node, v, f, g, events[v]);
        } else {
            let (raw, mapped) = choose|raw: EventModel, mapped: Seq<Seq<i64>>| #[trigger]
                gathering::maps_event(s, f, cached, node, v, raw, mapped) && events[v]
                    == crate::event::reduced(raw, mapped, s.ti_shape@) && shared[v]
                    == crate::event::collapsed(mapped);
            gathered_alike(s, cached, node, v, f, g, raw);
            assert(gathering::maps_event(s, g, cached, node, v, raw, mapped));
        }
    }
    assert(gathering::has_events(s, g, cached, node, events, shared));
}

/// What a node may come to depends on no other cell than those that it reads: it may come to the
/// same results from all fields that agree in them.
pub proof fn outcomes_depend_on_what_is_read<N: Arithmetic, M: Metric>(
    s: Setup<N, M>,
    cached: CachedNode,
    node: int,
    f: Seq<Seq<u64>>,
    g: Seq<Seq<u64>>,
    r: NodeResult,
)
    requires
        read_alike(s, cached, node, f, g),
    ensures
        node::node_outcome(s, f, cached, node, r) <==> node::node_outcome(s, g, cached, node, r),
{
    assert(read_alike(s, cached, node, g, f));
    if node::node_outcome(s, f, cached, node, r) {
        nodes_depend_on_what_they_read(s, cached, node, f, g, r);
    }
    if node::node_outcome(s, g, cached, node, r) {
        nodes_depend_on_what_they_read(s, cached, node, g, f, r);
    }
}

/// A node depends on no other cell than those that it reads: where every rounding operation and
/// every distance has one outcome, it comes to one result from all fields that agree in them.
pub proof fn results_depend_on_what_is_read<N: Arithmetic, M: Metric>(
    s: Setup<N, M>,
    cached: CachedNode,
    node: int,
    f: Seq<Seq<u64>>,
    g: Seq<Seq<u64>>,
    a: NodeResult,
    b: NodeResult,
)
    requires
        determinism::determined(s),
        gathering::ready(s, f, cached, node),
        read_alike(s, cached, node, f, g),
        node::node_outcome(s, f, cached, node, a),
        node::node_outcome(s, g, cached, node, b),
    ensures
        determinism::same_result(a, b),
{
    nodes_depend_on_what_they_read(s, cached, node, f, g, a);
    assert(read_alike(s, cached, node, g, f));
    nodes_depend_on_what_they_read(s, cached, node, g, f, b);
    determinism::node_results_agree(s, f, cached, cached, node, a, b);
}

proof fn gathered_alike<N: Arithmetic, M: Metric>(
    s: Setup<N, M>,
    cached: CachedNode,
    node: int,
    v: int,
    f: Seq<Seq<u64>>,
    g: Seq<Seq<u64>>,
    e: EventModel,
)
    requires
        read_alike(s, cached, node, f, g),
        0 <= v < s.variables(),
        gathering::gathers_for(s, f, cached, node, v, e),
    ensures
        gathering::gathers_for(s, g, cached, node, v, e),
{
    let list = cached.by_variable@[v]@;
    let flat = s.model().cell(node);
    assert(f[v][flat] == g[v][flat]);
    let own: int = if word::nan(f[v][flat]) {
        0
    } else {
        1
    };
    assert forall|j: int| 0 <= j < list.len() implies {
        &&& e.values[own + j] == g[v][(#[trigger] list[j]).flat as int]
        &&& e.conditioned[own + j] == (s.conditioned@[v]@[list[j].flat as int] != 0)
        &&& e.lags[own + j] == list[j].lag@
        &&& gathering::measures_lag(*s.arithmetic, list[j].lag@, e.lag_norms[own + j])
    } by {
        assert(e.values[own + j] == f[v][list[j].flat as int]);
        assert(f[v][cached.by_variable@[v]@[j].flat as int]
            == g[v][cached.by_variable@[v]@[j].flat as int]);
    }
}

// ---------------------------------------------------------------------------------------
// What the nodes have written
// ---------------------------------------------------------------------------------------

/// What a result holds for a variable.
spec fn value_for(r: NodeResult, v: int) -> u64 {
    r.values@[choose|j: int| 0 <= j < r.values@.len() && (#[trigger] r.values@[j]).0 == v].1
}

/// A result has at most one value for a variable.
spec fn unambiguous(r: NodeResult) -> bool {
    forall|i: int, j: int|
        0 <= i < j < r.values@.len() ==> (#[trigger] r.values@[i]).0 != (#[trigger] r.values@[j]).0
}

/// The result is one of the node at the given place: it belongs to the cell of the node, and
/// has values for what the node lacks.
spec fn proper<N: Arithmetic, M: Metric>(
    s: Setup<N, M>,
    initial: Seq<Seq<u64>>,
    i: int,
    r: NodeResult,
) -> bool {
    &&& r.flat == s.model().cell(i)
    &&& unambiguous(r)
    &&& mps_engine::placed(initial, r)
    &&& forall|v: int|
        0 <= v < initial.len() && #[trigger] guarantees::writes(r, r.values@.len() as int, v)
            ==> word::nan(initial[v][s.model().cell(i)])
}

/// The chosen node at place `i` gives a cell its value.
spec fn gives<N: Arithmetic, M: Metric>(
    s: Setup<N, M>,
    results: Seq<NodeResult>,
    chosen: spec_fn(int) -> bool,
    v: int,
    c: int,
    i: int,
) -> bool {
    &&& 0 <= i < results.len()
    &&& chosen(i)
    &&& s.model().cell(i) == c
    &&& guarantees::writes(results[i], results[i].values@.len() as int, v)
}

spec fn fill<N: Arithmetic, M: Metric>(
    s: Setup<N, M>,
    initial: Seq<Seq<u64>>,
    results: Seq<NodeResult>,
    chosen: spec_fn(int) -> bool,
    v: int,
    c: int,
) -> u64 {
    if exists|i: int| gives(s, results, chosen, v, c, i) {
        value_for(results[choose|i: int| gives(s, results, chosen, v, c, i)], v)
    } else {
        initial[v][c]
    }
}

/// The initial fields with the values that the chosen nodes give.
spec fn filled<N: Arithmetic, M: Metric>(
    s: Setup<N, M>,
    initial: Seq<Seq<u64>>,
    results: Seq<NodeResult>,
    chosen: spec_fn(int) -> bool,
) -> Seq<Seq<u64>> {
    Seq::new(
        initial.len(),
        |v: int| Seq::new(initial[v].len(), |c: int| fill(s, initial, results, chosen, v, c)),
    )
}

proof fn giver_is_unique<N: Arithmetic, M: Metric>(
    s: Setup<N, M>,
    initial: Seq<Seq<u64>>,
    results: Seq<NodeResult>,
    chosen: spec_fn(int) -> bool,
    v: int,
    c: int,
    i: int,
)
    requires
        distinct_cells(s),
        results.len() == s.path@.len(),
        gives(s, results, chosen, v, c, i),
    ensures
        fill(s, initial, results, chosen, v, c) == value_for(results[i], v),
{
    let k = choose|k: int| gives(s, results, chosen, v, c, k);
    if k < i {
        assert(s.model().cell(k) != s.model().cell(i));
    }
    if i < k {
        assert(s.model().cell(i) != s.model().cell(k));
    }
}

proof fn filled_alike<N: Arithmetic, M: Metric>(
    s: Setup<N, M>,
    initial: Seq<Seq<u64>>,
    a: Seq<NodeResult>,
    b: Seq<NodeResult>,
    chosen: spec_fn(int) -> bool,
    other: spec_fn(int) -> bool,
)
    requires
        distinct_cells(s),
        a.len() == s.path@.len(),
        b.len() == s.path@.len(),
        forall|i: int|
            0 <= i < a.len() ==> #[trigger] chosen(i) == other(i) && (chosen(i) ==> a[i] == b[i]),
    ensures
        filled(s, initial, a, chosen) == filled(s, initial, b, other),
{
    let f = filled(s, initial, a, chosen);
    let g = filled(s, initial, b, other);
    assert forall|v: int| 0 <= v < initial.len() implies #[trigger] f[v] == g[v] by {
        assert forall|c: int| 0 <= c < initial[v].len() implies #[trigger] f[v][c] == g[v][c] by {
            if exists|i: int| gives(s, a, chosen, v, c, i) {
                let i = choose|i: int| gives(s, a, chosen, v, c, i);
                assert(chosen(i) == other(i));
                assert(gives(s, b, other, v, c, i));
                giver_is_unique(s, initial, b, other, v, c, i);
            } else if exists|i: int| gives(s, b, other, v, c, i) {
                let i = choose|i: int| gives(s, b, other, v, c, i);
                assert(chosen(i) == other(i));
                assert(gives(s, a, chosen, v, c, i));
            }
        }
        assert(f[v] =~= g[v]);
    }
    assert(f =~= g);
}

proof fn written_value(fields: Seq<Seq<u64>>, r: NodeResult, count: int, v: int, c: int)
    requires
        mps_engine::placed(fields, r),
        unambiguous(r),
        0 <= count <= r.values@.len(),
        0 <= v < fields.len(),
        0 <= c < fields[v].len(),
    ensures
        mps_engine::same_size(mps_engine::written(fields, r, count), fields),
        mps_engine::written(fields, r, count)[v][c] == if c == r.flat && guarantees::writes(
            r,
            count,
            v,
        ) {
            value_for(r, v)
        } else {
            fields[v][c]
        },
    decreases count,
{
    if count > 0 {
        written_value(fields, r, count - 1, v, c);
        let before = mps_engine::written(fields, r, count - 1);
        let row = r.values@[count - 1].0 as int;
        assert(row < fields.len() && r.flat < fields[row].len());
        assert(before[row].len() == fields[row].len());
        assert(before[v].len() == fields[v].len());
        if row == v {
            assert(guarantees::writes(r, count, v));
            let j = choose|j: int| 0 <= j < r.values@.len() && (#[trigger] r.values@[j]).0 == v;
            assert(r.values@[count - 1].0 == v);
            assert(j == count - 1) by {
                if j < count - 1 {
                    assert(r.values@[j].0 != r.values@[count - 1].0);
                }
                if count - 1 < j {
                    assert(r.values@[count - 1].0 != r.values@[j].0);
                }
            }
        } else {
            assert(guarantees::writes(r, count, v) == guarantees::writes(r, count - 1, v)) by {
                if guarantees::writes(r, count - 1, v) {
                    let j = choose|j: int| 0 <= j < count - 1 && (#[trigger] r.values@[j]).0 == v;
                    assert(r.values@[j].0 == v);
                }
            }
        }
    }
}

/// Writing the result of one more node fills in what that node gives.
proof fn one_more_result<N: Arithmetic, M: Metric>(
    s: Setup<N, M>,
    initial: Seq<Seq<u64>>,
    results: Seq<NodeResult>,
    chosen: spec_fn(int) -> bool,
    more: spec_fn(int) -> bool,
    i: int,
)
    requires
        distinct_cells(s),
        results.len() == s.path@.len(),
        0 <= i < results.len(),
        proper(s, initial, i, results[i]),
        !chosen(i),
        forall|k: int| 0 <= k < results.len() ==> #[trigger] more(k) == (chosen(k) || k == i),
    ensures
        mps_engine::written(
            filled(s, initial, results, chosen),
            results[i],
            results[i].values@.len() as int,
        ) == filled(s, initial, results, more),
{
    let f = filled(s, initial, results, chosen);
    let r = results[i];
    let all = r.values@.len() as int;
    let g = mps_engine::written(f, r, all);
    let h = filled(s, initial, results, more);
    assert(mps_engine::placed(f, r)) by {
        assert forall|j: int| 0 <= j < r.values@.len() implies {
            &&& (#[trigger] r.values@[j]).0 < f.len()
            &&& r.flat < f[r.values@[j].0 as int].len()
        } by {
            assert(r.values@[j].0 < initial.len());
        }
    }
    guarantees::written_rows_keep_their_length(f, r, all);
    assert forall|v: int| 0 <= v < initial.len() implies #[trigger] g[v] == h[v] by {
        assert(g[v].len() == f[v].len());
        assert forall|c: int| 0 <= c < initial[v].len() implies #[trigger] g[v][c] == h[v][c] by {
            written_value(f, r, all, v, c);
            assert(more(i));
            if c == r.flat && guarantees::writes(r, all, v) {
                assert(gives(s, results, more, v, c, i));
                giver_is_unique(s, initial, results, more, v, c, i);
            } else if exists|k: int| gives(s, results, chosen, v, c, k) {
                let k = choose|k: int| gives(s, results, chosen, v, c, k);
                assert(more(k));
                assert(gives(s, results, more, v, c, k));
                giver_is_unique(s, initial, results, more, v, c, k);
            } else if exists|k: int| gives(s, results, more, v, c, k) {
                let k = choose|k: int| gives(s, results, more, v, c, k);
                assert(more(k));
                assert(gives(s, results, chosen, v, c, k));
            }
        }
        assert(g[v] =~= h[v]);
    }
    assert(g =~= h);
}

// ---------------------------------------------------------------------------------------
// What the nodes have counted
// ---------------------------------------------------------------------------------------

/// What the chosen ones among the first `count` nodes count.
spec fn tally(
    counts: spec_fn(int) -> int,
    chosen: spec_fn(int) -> bool,
    count: int,
) -> int
    decreases count,
{
    if count <= 0 {
        0
    } else {
        tally(counts, chosen, count - 1) + if chosen(count - 1) {
            counts(count - 1)
        } else {
            0
        }
    }
}

spec fn stricts(results: Seq<NodeResult>) -> spec_fn(int) -> int {
    |i: int| results[i].strict_fallback_count as int
}

spec fn collapses(results: Seq<NodeResult>) -> spec_fn(int) -> int {
    |i: int| results[i].collapsed_lag_count as int
}

proof fn tallies_alike(
    a: spec_fn(int) -> int,
    b: spec_fn(int) -> int,
    chosen: spec_fn(int) -> bool,
    other: spec_fn(int) -> bool,
    count: int,
)
    requires
        forall|i: int|
            0 <= i < count ==> #[trigger] chosen(i) == other(i) && (chosen(i) ==> a(i) == b(i)),
    ensures
        tally(a, chosen, count) == tally(b, other, count),
    decreases count,
{
    if count > 0 {
        tallies_alike(a, b, chosen, other, count - 1);
        assert(chosen(count - 1) == other(count - 1));
    }
}

proof fn one_more_tally(
    counts: spec_fn(int) -> int,
    chosen: spec_fn(int) -> bool,
    more: spec_fn(int) -> bool,
    i: int,
    count: int,
)
    requires
        0 <= i < count,
        !chosen(i),
        forall|k: int| 0 <= k < count ==> #[trigger] more(k) == (chosen(k) || k == i),
    ensures
        tally(counts, more, count) == tally(counts, chosen, count) + counts(i),
    decreases count,
{
    assert(more(count - 1) == (chosen(count - 1) || count - 1 == i));
    if i < count - 1 {
        one_more_tally(counts, chosen, more, i, count - 1);
    } else {
        assert forall|k: int| 0 <= k < count - 1 implies #[trigger] more(k) == chosen(k) && (more(
            k,
        ) ==> counts(k) == counts(k)) by {}
        tallies_alike(counts, counts, more, chosen, count - 1);
    }
}

proof fn empty_tally(counts: spec_fn(int) -> int, chosen: spec_fn(int) -> bool, count: int)
    requires
        forall|i: int| 0 <= i < count ==> !#[trigger] chosen(i),
    ensures
        tally(counts, chosen, count) == 0,
    decreases count,
{
    if count > 0 {
        empty_tally(counts, chosen, count - 1);
        assert(!chosen(count - 1));
    }
}

/// How far the results of the chosen nodes lead.
spec fn standing<N: Arithmetic, M: Metric>(
    s: Setup<N, M>,
    initial: Seq<Seq<u64>>,
    results: Seq<NodeResult>,
    chosen: spec_fn(int) -> bool,
) -> Progress {
    Progress {
        fields: filled(s, initial, results, chosen),
        strict: tally(stricts(results), chosen, results.len() as int),
        collapsed: tally(collapses(results), chosen, results.len() as int),
    }
}

proof fn standing_alike<N: Arithmetic, M: Metric>(
    s: Setup<N, M>,
    initial: Seq<Seq<u64>>,
    a: Seq<NodeResult>,
    b: Seq<NodeResult>,
    chosen: spec_fn(int) -> bool,
    other: spec_fn(int) -> bool,
)
    requires
        distinct_cells(s),
        a.len() == s.path@.len(),
        b.len() == s.path@.len(),
        forall|i: int|
            0 <= i < a.len() ==> #[trigger] chosen(i) == other(i) && (chosen(i) ==> a[i] == b[i]),
    ensures
        standing(s, initial, a, chosen) == standing(s, initial, b, other),
{
    filled_alike(s, initial, a, b, chosen, other);
    tallies_alike(stricts(a), stricts(b), chosen, other, a.len() as int);
    tallies_alike(collapses(a), collapses(b), chosen, other, a.len() as int);
}

proof fn nowhere_is_the_beginning<N: Arithmetic, M: Metric>(
    s: Setup<N, M>,
    initial: Seq<Seq<u64>>,
    results: Seq<NodeResult>,
    chosen: spec_fn(int) -> bool,
)
    requires
        forall|i: int| 0 <= i < results.len() ==> !#[trigger] chosen(i),
    ensures
        standing(s, initial, results, chosen) == mps_engine::beginning(initial),
{
    let f = filled(s, initial, results, chosen);
    assert forall|v: int| 0 <= v < initial.len() implies #[trigger] f[v] == initial[v] by {
        assert(f[v] =~= initial[v]);
    }
    assert(f =~= initial);
    empty_tally(stricts(results), chosen, results.len() as int);
    empty_tally(collapses(results), chosen, results.len() as int);
}

/// Writing the result of one more node leads as far as that node does.
proof fn one_more_standing<N: Arithmetic, M: Metric>(
    s: Setup<N, M>,
    initial: Seq<Seq<u64>>,
    results: Seq<NodeResult>,
    chosen: spec_fn(int) -> bool,
    more: spec_fn(int) -> bool,
    i: int,
)
    requires
        distinct_cells(s),
        results.len() == s.path@.len(),
        0 <= i < results.len(),
        proper(s, initial, i, results[i]),
        !chosen(i),
        forall|k: int| 0 <= k < results.len() ==> #[trigger] more(k) == (chosen(k) || k == i),
    ensures
        mps_engine::after(standing(s, initial, results, chosen), results[i]) == standing(
            s,
            initial,
            results,
            more,
        ),
{
    one_more_result(s, initial, results, chosen, more, i);
    one_more_tally(stricts(results), chosen, more, i, results.len() as int);
    one_more_tally(collapses(results), chosen, more, i, results.len() as int);
}

// ---------------------------------------------------------------------------------------
// Levels and nodes
// ---------------------------------------------------------------------------------------

/// The nodes below a level.
spec fn below(cache: Seq<CachedNode>, level: int) -> spec_fn(int) -> bool {
    |i: int| cache[i].level < level
}

/// The nodes below a level, and those of the level before place `count`.
spec fn below_or_before(cache: Seq<CachedNode>, level: int, count: int) -> spec_fn(int) -> bool {
    |i: int| cache[i].level < level || (cache[i].level == level && i < count)
}

/// The nodes before place `count`.
spec fn before(count: int) -> spec_fn(int) -> bool {
    |i: int| i < count
}

/// Each node below a level has come to its result from what the levels below its own have
/// left.
spec fn explained<N: Arithmetic, M: Metric>(
    s: Setup<N, M>,
    cache: Seq<CachedNode>,
    initial: Seq<Seq<u64>>,
    level: int,
    results: Seq<NodeResult>,
) -> bool {
    &&& results.len() == s.path@.len()
    &&& forall|i: int|
        0 <= i < results.len() && cache[i].level < level ==> {
            &&& node::node_outcome(
                s,
                filled(s, initial, results, below(cache, cache[i].level as int)),
                cache[i],
                i,
                #[trigger] results[i],
            )
            &&& mps_engine::numeric(results[i], results[i].values@.len() as int)
        }
}

/// No node gives its own cell a value before it is its turn.
proof fn own_cells_wait<N: Arithmetic, M: Metric>(
    s: Setup<N, M>,
    cache: Seq<CachedNode>,
    initial: Seq<Seq<u64>>,
    results: Seq<NodeResult>,
    chosen: spec_fn(int) -> bool,
    i: int,
    v: int,
)
    requires
        guarantees::underway(s, cache, initial),
        distinct_cells(s),
        results.len() == s.path@.len(),
        0 <= i < results.len(),
        !chosen(i),
        0 <= v < initial.len(),
    ensures
        0 <= s.model().cell(i) < initial[v].len(),
        filled(s, initial, results, chosen)[v][s.model().cell(i)]
            == initial[v][s.model().cell(i)],
{
    let c = s.model().cell(i);
    assert(index::inside(s.model().path[i]@, s.sim_shape@));
    index::cells_have_positions(s.path@[i]@, s.sim_shape@);
    assert(initial[v].len() == index::size(s.sim_shape@));
    if exists|k: int| gives(s, results, chosen, v, c, k) {
        let k = choose|k: int| gives(s, results, chosen, v, c, k);
        if k < i {
            assert(s.model().cell(k) != s.model().cell(i));
        }
        if i < k {
            assert(s.model().cell(i) != s.model().cell(k));
        }
    }
}

/// A result that comes of fields in which the own cell of the node is as it was at the start
/// is a proper one.
proof fn outcomes_are_proper<N: Arithmetic, M: Metric>(
    s: Setup<N, M>,
    cache: Seq<CachedNode>,
    initial: Seq<Seq<u64>>,
    results: Seq<NodeResult>,
    chosen: spec_fn(int) -> bool,
    i: int,
    r: NodeResult,
)
    requires
        guarantees::underway(s, cache, initial),
        distinct_cells(s),
        results.len() == s.path@.len(),
        0 <= i < results.len(),
        !chosen(i),
        node::node_outcome(
            s,
            filled(s, initial, results, chosen),
            cache[i],
            i,
            r,
        ),
    ensures
        proper(s, initial, i, r),
{
    let f = filled(s, initial, results, chosen);
    let c = s.model().cell(i);
    guarantees::many_variables_can_be_counted(s);
    guarantees::long_paths_can_be_counted(s, cache, initial);
    assert(s.consistent(f));
    mps_engine::results_have_a_place(s, f, cache, i, r);
    node::nodes_receive_what_they_lack(s, f, cache[i], i, r);
    gathering::lacking_variables_lack_values(f, c, s.variables());
    let targets = gathering::lacking(f, c, s.variables());
    assert forall|a: int, b: int| 0 <= a < b < r.values@.len() implies (
    #[trigger] r.values@[a]).0 != (#[trigger] r.values@[b]).0 by {
        assert(targets[a] < targets[b]);
    }
    assert forall|v: int|
        0 <= v < initial.len() && #[trigger] guarantees::writes(r, r.values@.len() as int, v)
            implies word::nan(initial[v][c]) by {
        let j = choose|j: int| 0 <= j < r.values@.len() && (#[trigger] r.values@[j]).0 == v;
        assert(targets[j] == v);
        own_cells_wait(s, cache, initial, results, chosen, i, v);
    }
    assert forall|j: int| 0 <= j < r.values@.len() implies {
        &&& (#[trigger] r.values@[j]).0 < initial.len()
        &&& r.flat < initial[r.values@[j].0 as int].len()
    } by {
        assert(r.values@[j].0 < f.len());
    }
}

proof fn earlier_nodes_come_first(cache: Seq<CachedNode>, level: int, count: int, more: int, k: int)
    requires
        0 <= count <= more,
        0 <= k < mps_engine::nodes_at(cache, level, count).len(),
    ensures
        k < mps_engine::nodes_at(cache, level, more).len(),
        mps_engine::nodes_at(cache, level, more)[k] == mps_engine::nodes_at(
            cache,
            level,
            count,
        )[k],
    decreases more,
{
    if count < more {
        earlier_nodes_come_first(cache, level, count, more - 1, k);
    }
}

/// Writing the results of a level fills in what its nodes give.
proof fn levels_fill<N: Arithmetic, M: Metric>(
    s: Setup<N, M>,
    cache: Seq<CachedNode>,
    initial: Seq<Seq<u64>>,
    level: int,
    count: int,
    q: Progress,
    list: Seq<NodeResult>,
    results: Seq<NodeResult>,
)
    requires
        distinct_cells(s),
        results.len() == s.path@.len(),
        cache.len() == s.path@.len(),
        cache.len() <= usize::MAX,
        0 <= count <= cache.len(),
        q == standing(s, initial, results, below(cache, level)),
        list.len() == mps_engine::level_nodes(cache, level).len(),
        forall|k: int|
            0 <= k < list.len() ==> #[trigger] list[k] == results[mps_engine::level_nodes(
                cache,
                level,
            )[k] as int],
        forall|i: int|
            0 <= i < results.len() && cache[i].level == level ==> proper(
                s,
                initial,
                i,
                #[trigger] results[i],
            ),
    ensures
        mps_engine::committed(
            q,
            list,
            mps_engine::nodes_at(cache, level, count).len() as int,
        ) == standing(s, initial, results, below_or_before(cache, level, count)),
    decreases count,
{
    let chosen = below_or_before(cache, level, count);
    if count == 0 {
        let low = below(cache, level);
        assert forall|i: int| 0 <= i < results.len() implies #[trigger] low(i) == chosen(i) by {}
        standing_alike(s, initial, results, results, low, chosen);
    } else {
        levels_fill(s, cache, initial, level, count - 1, q, list, results);
        let fewer = below_or_before(cache, level, count - 1);
        let i = count - 1;
        if cache[i].level == level {
            let k = mps_engine::nodes_at(cache, level, count).len() - 1;
            assert(mps_engine::nodes_at(cache, level, count)[k] == i as usize);
            earlier_nodes_come_first(cache, level, count, cache.len() as int, k);
            assert(list[k] == results[i]);
            assert(proper(s, initial, i, results[i]));
            assert forall|k: int| 0 <= k < results.len() implies #[trigger] chosen(k) == (fewer(k)
                || k == i) by {}
            one_more_standing(s, initial, results, fewer, chosen, i);
        } else {
            assert forall|k: int| 0 <= k < results.len() implies #[trigger] fewer(k)
                == chosen(k) by {}
            standing_alike(s, initial, results, results, fewer, chosen);
        }
    }
}

/// The place of a node in its level.
spec fn place_in_level(cache: Seq<CachedNode>, level: int, i: int) -> int {
    choose|k: int|
        0 <= k < mps_engine::level_nodes(cache, level).len() && #[trigger] mps_engine::level_nodes(
            cache,
            level,
        )[k] == i
}

/// What the levels have led to is explained by one result for each node.
proof fn runs_are_explained<N: Arithmetic, M: Metric>(
    s: Setup<N, M>,
    cache: Seq<CachedNode>,
    initial: Seq<Seq<u64>>,
    level: int,
    p: Progress,
) -> (results: Seq<NodeResult>)
    requires
        guarantees::underway(s, cache, initial),
        distinct_cells(s),
        0 <= level,
        mps_engine::reached(s, cache, initial, level, p),
    ensures
        explained(s, cache, initial, level, results),
        p == standing(s, initial, results, below(cache, level)),
    decreases level,
{
    guarantees::long_paths_can_be_counted(s, cache, initial);
    let nodes = s.path@.len();
    if level == 0 {
        let results = Seq::new(nodes, |i: int| arbitrary::<NodeResult>());
        nowhere_is_the_beginning(s, initial, results, below(cache, 0));
        results
    } else {
        let l = level - 1;
        let q = choose|q: Progress|
            mps_engine::reached(s, cache, initial, l, q) && #[trigger] mps_engine::advances(
                s,
                cache,
                l,
                q,
                p,
            );
        let known = runs_are_explained(s, cache, initial, l, q);
        let list = choose|list: Seq<NodeResult>| #[trigger]
            mps_engine::advances_by(s, cache, l, q, p, list);
        let order = mps_engine::level_nodes(cache, l);
        mps_engine::level_nodes_are_of_the_level(cache, l, cache.len() as int);
        let results = Seq::new(
            nodes,
            |i: int|
                if cache[i].level == l {
                    list[place_in_level(cache, l, i)]
                } else {
                    known[i]
                },
        );
        assert forall|k: int| 0 <= k <= l implies standing(s, initial, known, below(cache, k))
            == #[trigger] standing(s, initial, results, below(cache, k)) by {
            let low = below(cache, k);
            assert forall|i: int| 0 <= i < known.len() implies #[trigger] low(i) == low(i) && (
            low(i) ==> known[i] == results[i]) by {}
            standing_alike(s, initial, known, results, low, low);
        }
        assert(standing(s, initial, known, below(cache, l)) == standing(
            s,
            initial,
            results,
            below(cache, l),
        ));
        assert forall|k: int| 0 <= k < list.len() implies #[trigger] list[k]
            == results[order[k] as int] by {
            let i = order[k] as int;
            assert(order[k] < cache.len() && cache[i].level == l);
            let place = place_in_level(cache, l, i);
            assert(order[k] == i);
            assert(0 <= place < order.len() && order[place] == i);
            if place < k {
                assert(order[place] < order[k]);
            }
            if k < place {
                assert(order[k] < order[place]);
            }
        }
        assert forall|i: int| 0 <= i < nodes && cache[i].level < level implies {
            &&& node::node_outcome(
                s,
                filled(s, initial, results, below(cache, cache[i].level as int)),
                cache[i],
                i,
                #[trigger] results[i],
            )
            &&& mps_engine::numeric(results[i], results[i].values@.len() as int)
        } by {
            if cache[i].level < l {
                assert(results[i] == known[i]);
                assert(standing(s, initial, known, below(cache, cache[i].level as int))
                    == standing(s, initial, results, below(cache, cache[i].level as int)));
                assert(node::node_outcome(
                    s,
                    filled(s, initial, known, below(cache, cache[i].level as int)),
                    cache[i],
                    i,
                    known[i],
                ));
            } else {
                assert(order.contains(i as usize));
                let k = choose|k: int| 0 <= k < order.len() && order[k] == i as usize;
                assert(list[k] == results[order[k] as int]);
                assert(node::node_outcome(s, q.fields, cache[i], i, list[k]));
                assert(mps_engine::numeric(list[k], list[k].values@.len() as int));
            }
        }
        assert forall|i: int| 0 <= i < results.len() && cache[i].level == l implies proper(
            s,
            initial,
            i,
            #[trigger] results[i],
        ) by {
            outcomes_are_proper(s, cache, initial, results, below(cache, l), i, results[i]);
        }
        levels_fill(s, cache, initial, l, cache.len() as int, q, list, results);
        let through = below_or_before(cache, l, cache.len() as int);
        let low = below(cache, level);
        assert forall|i: int| 0 <= i < results.len() implies #[trigger] through(i) == low(i) by {}
        standing_alike(s, initial, results, results, through, low);
        results
    }
}

/// What a node reads is the same when it is its turn, whether the nodes before it are those
/// of the lower levels or those that come earlier in the path.
proof fn turns_are_alike<N: Arithmetic, M: Metric>(
    s: Setup<N, M>,
    cache: Seq<CachedNode>,
    initial: Seq<Seq<u64>>,
    results: Seq<NodeResult>,
    node: int,
)
    requires
        guarantees::underway(s, cache, initial),
        distinct_cells(s),
        given_values_are_known(s, initial),
        results.len() == s.path@.len(),
        forall|i: int|
            0 <= i < results.len() ==> proper(s, initial, i, #[trigger] results[i]),
        0 <= node < results.len(),
    ensures
        read_alike(
            s,
            cache[node],
            node,
            filled(s, initial, results, below(cache, cache[node].level as int)),
            filled(s, initial, results, before(node)),
        ),
{
    guarantees::long_paths_can_be_counted(s, cache, initial);
    let low = below(cache, cache[node].level as int);
    let early = before(node);
    let f = filled(s, initial, results, low);
    let g = filled(s, initial, results, early);
    assert forall|v: int| 0 <= v < s.variables() implies #[trigger] f[v][s.model().cell(node)]
        == g[v][s.model().cell(node)] by {
        own_cells_wait(s, cache, initial, results, low, node, v);
        own_cells_wait(s, cache, initial, results, early, node, v);
    }
    mps_engine::cached_nodes_are_usable(s, initial, cache, node);
    let model = s.model();
    let all = choose|all: Seq<int>| #[trigger]
        neighbors::all_reach(*s.arithmetic, s.offsets@, s.max_radius@, all) && model.caches(
            all,
            cache,
        );
    assert forall|v: int, j: int|
        0 <= v < s.variables() && 0 <= j < cache[node].by_variable@[v]@.len() implies f[v][(
    #[trigger] cache[node].by_variable@[v]@[j]).flat as int]
        == g[v][cache[node].by_variable@[v]@[j].flat as int] by {
        let c = cache[node].by_variable@[v]@[j].flat as int;
        assert(neighbors::reaches(*s.arithmetic, s.offsets@, s.max_radius@[v], all[v]));
        assert(gathering::usable_list(s, cache[node].by_variable@[v]@));
        assert(c < index::size(s.sim_shape@));
        neighbors::nodes_wait_for_lower_levels(model, all, cache, node, v, j);
        assert(initial[v].len() == index::size(s.sim_shape@));
        if exists|k: int| gives(s, results, low, v, c, k) {
            let k = choose|k: int| gives(s, results, low, v, c, k);
            givers_are_awaited(s, cache, initial, results, v, c, k);
            assert(early(k));
            assert(gives(s, results, early, v, c, k));
            giver_is_unique(s, initial, results, early, v, c, k);
        } else if exists|k: int| gives(s, results, early, v, c, k) {
            let k = choose|k: int| gives(s, results, early, v, c, k);
            givers_are_awaited(s, cache, initial, results, v, c, k);
            assert(low(k));
            assert(gives(s, results, low, v, c, k));
        }
    }
}

/// A node that gives a cell its value is the one that the cell depends on.
proof fn givers_are_awaited<N: Arithmetic, M: Metric>(
    s: Setup<N, M>,
    cache: Seq<CachedNode>,
    initial: Seq<Seq<u64>>,
    results: Seq<NodeResult>,
    v: int,
    c: int,
    k: int,
)
    requires
        guarantees::underway(s, cache, initial),
        distinct_cells(s),
        given_values_are_known(s, initial),
        results.len() == s.path@.len(),
        0 <= k < results.len(),
        proper(s, initial, k, results[k]),
        0 <= v < s.variables(),
        0 <= c < initial[v].len(),
        s.model().cell(k) == c,
        guarantees::writes(results[k], results[k].values@.len() as int, v),
    ensures
        s.model().dependency(v, c) == k,
{
    assert(word::nan(initial[v][c]));
    if s.conditioned@[v]@[c] != 0 {
        assert(!word::nan(initial[v][c]));
    }
    only_visit_is_the_last(s, s.path@.len() as int, k);
}

proof fn only_visit_is_the_last<N: Arithmetic, M: Metric>(s: Setup<N, M>, count: int, k: int)
    requires
        distinct_cells(s),
        0 <= k < count <= s.path@.len(),
    ensures
        s.model().last_visit(count, s.model().cell(k)) == k,
    decreases count,
{
    if k < count - 1 {
        assert(s.model().cell(k) != s.model().cell(count - 1));
        only_visit_is_the_last(s, count - 1, k);
    }
}

proof fn nodes_follow_each_other<N: Arithmetic, M: Metric>(
    s: Setup<N, M>,
    cache: Seq<CachedNode>,
    initial: Seq<Seq<u64>>,
    results: Seq<NodeResult>,
    count: int,
)
    requires
        guarantees::underway(s, cache, initial),
        distinct_cells(s),
        given_values_are_known(s, initial),
        explained(
            s,
            cache,
            initial,
            mps_engine::level_count_of(cache, cache.len() as int),
            results,
        ),
        0 <= count <= results.len(),
    ensures
        one_by_one(
            s,
            cache,
            initial,
            count,
            standing(s, initial, results, before(count)),
        ),
    decreases count,
{
    guarantees::long_paths_can_be_counted(s, cache, initial);
    if count == 0 {
        nowhere_is_the_beginning(s, initial, results, before(0));
    } else {
        nodes_follow_each_other(s, cache, initial, results, count - 1);
        let i = count - 1;
        assert forall|k: int| 0 <= k < results.len() implies proper(
            s,
            initial,
            k,
            #[trigger] results[k],
        ) by {
            guarantees::levels_are_counted(cache, cache.len() as int, k);
            outcomes_are_proper(
                s,
                cache,
                initial,
                results,
                below(cache, cache[k].level as int),
                k,
                results[k],
            );
        }
        guarantees::levels_are_counted(cache, cache.len() as int, i);
        let prior = standing(s, initial, results, before(i));
        let low = filled(s, initial, results, below(cache, cache[i].level as int));
        assert(node::node_outcome(s, low, cache[i], i, results[i]));
        turns_are_alike(s, cache, initial, results, i);
        nodes_depend_on_what_they_read(s, cache[i], i, low, prior.fields, results[i]);
        let fewer = before(i);
        let more = before(count);
        assert forall|k: int| 0 <= k < results.len() implies #[trigger] more(k) == (fewer(k) || k
            == i) by {}
        assert(proper(s, initial, i, results[i]));
        one_more_standing(s, initial, results, fewer, more, i);
        assert(follows(s, cache, prior, count - 1, standing(s, initial, results, more)));
    }
}

/// Levels are as good as one node after the other. Where the path visits no cell twice and
/// given values are there, the fields and counts that the levels lead to are fields and counts
/// that the nodes would have led to one after the other, in the order of the path.
pub proof fn levels_lead_where_the_path_does<N: Arithmetic, M: Metric>(
    s: Setup<N, M>,
    cache: Seq<CachedNode>,
    initial: Seq<Seq<u64>>,
    p: Progress,
)
    requires
        guarantees::underway(s, cache, initial),
        distinct_cells(s),
        given_values_are_known(s, initial),
        mps_engine::reached(
            s,
            cache,
            initial,
            mps_engine::level_count_of(cache, cache.len() as int),
            p,
        ),
    ensures
        one_by_one(s, cache, initial, s.path@.len() as int, p),
{
    let levels = mps_engine::level_count_of(cache, cache.len() as int);
    guarantees::long_paths_can_be_counted(s, cache, initial);
    level_counts_are_not_negative(cache, cache.len() as int);
    let results = runs_are_explained(s, cache, initial, levels, p);
    let count = s.path@.len() as int;
    nodes_follow_each_other(s, cache, initial, results, count);
    let low = below(cache, levels);
    let all = before(count);
    assert forall|i: int| 0 <= i < results.len() implies #[trigger] low(i) == all(i) by {
        guarantees::levels_are_counted(cache, cache.len() as int, i);
    }
    standing_alike(s, initial, results, results, low, all);
}

proof fn level_counts_are_not_negative(cache: Seq<CachedNode>, count: int)
    ensures
        0 <= mps_engine::level_count_of(cache, count),
    decreases count,
{
    if count > 0 {
        level_counts_are_not_negative(cache, count - 1);
    }
}

/// No node of the path comes twice.
pub open spec fn distinct_nodes<N: Arithmetic, M: Metric>(s: Setup<N, M>) -> bool {
    forall|i: int, j: int|
        0 <= i < j < s.path@.len() ==> (#[trigger] s.path@[i])@ != (#[trigger] s.path@[j])@
}

/// Nodes that differ lie at different cells.
pub proof fn distinct_nodes_have_distinct_cells<N: Arithmetic, M: Metric>(s: Setup<N, M>)
    requires
        s.sensible(),
        distinct_nodes(s),
    ensures
        distinct_cells(s),
{
    assert forall|i: int, j: int| 0 <= i < j < s.path@.len() implies #[trigger] s.model().cell(i)
        != #[trigger] s.model().cell(j) by {
        assert(s.path@[i]@ != s.path@[j]@);
        assert(index::inside(s.model().path[i]@, s.sim_shape@));
        assert(index::inside(s.model().path[j]@, s.sim_shape@));
        if s.model().cell(i) == s.model().cell(j) {
            index::cells_have_distinct_positions(s.path@[i]@, s.path@[j]@, s.sim_shape@);
        }
    }
}

/// Nodes that are simulated one after the other keep the sizes of the fields.
proof fn nodes_keep_sizes<N: Arithmetic, M: Metric>(
    s: Setup<N, M>,
    cache: Seq<CachedNode>,
    initial: Seq<Seq<u64>>,
    count: int,
    p: Progress,
)
    requires
        guarantees::underway(s, cache, initial),
        count <= s.path@.len(),
        one_by_one(s, cache, initial, count, p),
    ensures
        s.consistent(p.fields),
    decreases count,
{
    if count > 0 {
        let prior = choose|prior: Progress|
            one_by_one(s, cache, initial, count - 1, prior) && #[trigger] follows(
                s,
                cache,
                prior,
                count - 1,
                p,
            );
        nodes_keep_sizes(s, cache, initial, count - 1, prior);
        let r = choose|r: NodeResult| #[trigger]
            node::node_outcome(s, prior.fields, cache[count - 1], count - 1, r)
                && mps_engine::numeric(r, r.values@.len() as int) && p == mps_engine::after(
                prior,
                r,
            );
        guarantees::long_paths_can_be_counted(s, cache, initial);
        mps_engine::results_have_a_place(s, prior.fields, cache, count - 1, r);
        guarantees::written_rows_keep_their_length(prior.fields, r, r.values@.len() as int);
    }
}

/// Where every rounding operation and every distance has one outcome, the nodes lead to one set
/// of fields and counts, one after the other.
pub proof fn turns_agree<N: Arithmetic, M: Metric>(
    s: Setup<N, M>,
    initial: Seq<Seq<u64>>,
    a: Seq<CachedNode>,
    b: Seq<CachedNode>,
    count: int,
    p: Progress,
    q: Progress,
)
    requires
        determinism::determined(s),
        guarantees::underway(s, a, initial),
        guarantees::underway(s, b, initial),
        count <= s.path@.len(),
        one_by_one(s, a, initial, count, p),
        one_by_one(s, b, initial, count, q),
    ensures
        p == q,
    decreases count,
{
    if count > 0 {
        let node = count - 1;
        let x = choose|prior: Progress|
            one_by_one(s, a, initial, node, prior) && #[trigger] follows(s, a, prior, node, p);
        let y = choose|prior: Progress|
            one_by_one(s, b, initial, node, prior) && #[trigger] follows(s, b, prior, node, q);
        turns_agree(s, initial, a, b, node, x, y);
        let first = choose|r: NodeResult| #[trigger]
            node::node_outcome(s, x.fields, a[node], node, r) && mps_engine::numeric(
                r,
                r.values@.len() as int,
            ) && p == mps_engine::after(x, r);
        let second = choose|r: NodeResult| #[trigger]
            node::node_outcome(s, y.fields, b[node], node, r) && mps_engine::numeric(
                r,
                r.values@.len() as int,
            ) && q == mps_engine::after(y, r);
        guarantees::long_paths_can_be_counted(s, a, initial);
        nodes_keep_sizes(s, a, initial, node, x);
        mps_engine::cached_nodes_are_usable(s, initial, a, node);
        determinism::surveys_agree(s, a, b);
        assert(determinism::same_cached(a[node], b[node]));
        determinism::node_results_agree(s, x.fields, a[node], b[node], node, first, second);
        determinism::same_results_are_written_the_same(
            x.fields,
            first,
            second,
            first.values@.len() as int,
        );
    }
}

/// A simulation that succeeds comes to what the nodes would have come to one after the other, in
/// the order of the path: to the same fields, and to counts that are the sums over the same
/// results. This holds where no node comes twice in the path, given values are there, and every
/// rounding operation and every distance has one outcome.
pub proof fn outputs_are_what_the_path_leads_to<N: Arithmetic, M: Metric>(
    s: Setup<N, M>,
    initial: Seq<Seq<u64>>,
    num_threads: usize,
    output: SimulationOutput,
    cache: Seq<CachedNode>,
    p: Progress,
)
    requires
        determinism::determined(s),
        s.sensible(),
        distinct_nodes(s),
        given_values_are_known(s, initial),
        mps_engine::simulates(s, initial, num_threads, Ok(output)),
        mps_engine::surveys(s, cache),
        one_by_one(s, cache, initial, s.path@.len() as int, p),
    ensures
        p == guarantees::final_progress(output),
{
    let done = choose|done: Seq<CachedNode>| #[trigger]
        mps_engine::surveys(s, done) && mps_engine::completes(
            s,
            done,
            initial,
            num_threads,
            output,
        );
    let q = guarantees::final_progress(output);
    distinct_nodes_have_distinct_cells(s);
    levels_lead_where_the_path_does(s, done, initial, q);
    turns_agree(s, initial, cache, done, s.path@.len() as int, p, q);
}

} // verus!
