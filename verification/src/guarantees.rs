//! What a simulation guarantees of the fields that it comes to.

use crate::arithmetic::Arithmetic;
use crate::event::{self, EventModel};
use crate::fitting;
use crate::gathering;
use crate::grid;
use crate::image;
use crate::index;
use crate::messages;
use crate::mps_engine::{self, Progress, SimulationOutput};
use crate::neighbors::{self, CachedNode};
use crate::node::{self, NodeResult};
use crate::retrieval;
use crate::scan;
use crate::search;
use crate::setup::{Metric, ScanRequest, Setup};
use crate::window;
use crate::word;
use vstd::prelude::*;

verus! {

/// What a simulation goes by: inputs that match the initial fields and make sense, and what
/// the nodes of the path look at.
pub open spec fn underway<N: Arithmetic, M: Metric>(
    s: Setup<N, M>,
    cache: Seq<CachedNode>,
    initial: Seq<Seq<u64>>,
) -> bool {
    &&& s.consistent(initial)
    &&& s.resolvable()
    &&& s.sensible()
    &&& mps_engine::surveys(s, cache)
}

/// A path can be counted.
pub proof fn long_paths_can_be_counted<N: Arithmetic, M: Metric>(
    s: Setup<N, M>,
    cache: Seq<CachedNode>,
    initial: Seq<Seq<u64>>,
)
    requires
        underway(s, cache, initial),
    ensures
        cache.len() == s.path@.len(),
        cache.len() <= usize::MAX,
{
    let nodes = s.path@.len() as int;
    let variables = s.variables();
    let most = s.offsets@.len() as int;
    assert(nodes <= nodes * (variables * (most + 1))) by (nonlinear_arith)
        requires
            0 <= nodes,
            1 <= variables,
            0 <= most,
    ;
}

/// The result writes to a variable.
pub open spec fn writes(r: NodeResult, count: int, v: int) -> bool {
    exists|j: int| 0 <= j < count && (#[trigger] r.values@[j]).0 == v
}

proof fn writing_a_result(
    fields: Seq<Seq<u64>>,
    r: NodeResult,
    count: int,
    v: int,
    c: int,
)
    requires
        mps_engine::placed(fields, r),
        0 <= count <= r.values@.len(),
        0 <= v < fields.len(),
        0 <= c < fields[v].len(),
    ensures
        mps_engine::same_size(mps_engine::written(fields, r, count), fields),
        c != r.flat || !writes(r, count, v) ==> mps_engine::written(fields, r, count)[v][c]
            == fields[v][c],
        c == r.flat && writes(r, count, v) && mps_engine::numeric(r, count) ==> !word::nan(
            mps_engine::written(fields, r, count)[v][c],
        ),
    decreases count,
{
    if count > 0 {
        writing_a_result(fields, r, count - 1, v, c);
        let before = mps_engine::written(fields, r, count - 1);
        let row = r.values@[count - 1].0 as int;
        assert(row < fields.len() && r.flat < fields[row].len());
        assert(before[row].len() == fields[row].len());
        assert(before[v].len() == fields[v].len());
        if writes(r, count, v) && !writes(r, count - 1, v) {
            assert(row == v);
        }
        if row == v {
            assert(writes(r, count, v));
        }
        if writes(r, count - 1, v) {
            let j = choose|j: int| 0 <= j < count - 1 && (#[trigger] r.values@[j]).0 == v;
            assert(r.values@[j].0 == v);
            assert(writes(r, count, v));
        }
    }
}

/// One of the results writes to a variable of a cell.
pub open spec fn some_writes(results: Seq<NodeResult>, count: int, v: int, c: int) -> bool {
    exists|i: int|
        0 <= i < count && (#[trigger] results[i]).flat == c && writes(
            results[i],
            results[i].values@.len() as int,
            v,
        )
}

proof fn committing_results(
    p: Progress,
    results: Seq<NodeResult>,
    count: int,
    v: int,
    c: int,
)
    requires
        forall|i: int|
            0 <= i < results.len() ==> mps_engine::placed(p.fields, #[trigger] results[i]),
        0 <= count <= results.len(),
        0 <= v < p.fields.len(),
        0 <= c < p.fields[v].len(),
    ensures
        mps_engine::same_size(mps_engine::committed(p, results, count).fields, p.fields),
        !some_writes(results, count, v, c) ==> mps_engine::committed(
            p,
            results,
            count,
        ).fields[v][c] == p.fields[v][c],
        some_writes(results, count, v, c) && mps_engine::all_numeric(results, count)
            ==> !word::nan(mps_engine::committed(p, results, count).fields[v][c]),
    decreases count,
{
    if count > 0 {
        committing_results(p, results, count - 1, v, c);
        let before = mps_engine::committed(p, results, count - 1).fields;
        let r = results[count - 1];
        let all = r.values@.len() as int;
        assert(mps_engine::placed(p.fields, results[count - 1]));
        assert(mps_engine::placed(before, r));
        assert(before[v].len() == p.fields[v].len());
        writing_a_result(before, r, all, v, c);
        if r.flat == c && writes(r, all, v) {
            assert(some_writes(results, count, v, c));
        }
        if some_writes(results, count - 1, v, c) {
            let i = choose|i: int|
                0 <= i < count - 1 && (#[trigger] results[i]).flat == c && writes(
                    results[i],
                    results[i].values@.len() as int,
                    v,
                );
            assert(results[i].flat == c);
            assert(some_writes(results, count, v, c));
        }
    }
}

/// The sizes of the fields stay as they are, and each node of a level has its results in
/// place.
pub proof fn levels_keep_sizes<N: Arithmetic, M: Metric>(
    s: Setup<N, M>,
    cache: Seq<CachedNode>,
    initial: Seq<Seq<u64>>,
    level: int,
    p: Progress,
    q: Progress,
    results: Seq<NodeResult>,
)
    requires
        underway(s, cache, initial),
        mps_engine::same_size(p.fields, initial),
        mps_engine::evaluates(
            s,
            cache,
            p.fields,
            mps_engine::level_nodes(cache, level),
            results,
        ),
        q == mps_engine::committed(p, results, results.len() as int),
    ensures
        mps_engine::same_size(q.fields, initial),
        forall|i: int|
            0 <= i < results.len() ==> mps_engine::placed(p.fields, #[trigger] results[i]),
{
    let nodes = mps_engine::level_nodes(cache, level);
    long_paths_can_be_counted(s, cache, initial);
    mps_engine::level_nodes_are_of_the_level(cache, level, cache.len() as int);
    assert(s.consistent(p.fields));
    assert forall|i: int| 0 <= i < results.len() implies mps_engine::placed(
        p.fields,
        #[trigger] results[i],
    ) by {
        assert(nodes[i] < cache.len());
        mps_engine::results_have_a_place(s, p.fields, cache, nodes[i] as int, results[i]);
    }
    assert forall|v: int| 0 <= v < q.fields.len() implies (#[trigger] q.fields[v]).len()
        == initial[v].len() by {
        committed_rows_keep_their_length(p, results, results.len() as int);
    }
    committed_rows_keep_their_length(p, results, results.len() as int);
}

proof fn committed_rows_keep_their_length(p: Progress, results: Seq<NodeResult>, count: int)
    requires
        forall|i: int|
            0 <= i < results.len() ==> mps_engine::placed(p.fields, #[trigger] results[i]),
        0 <= count <= results.len(),
    ensures
        mps_engine::same_size(mps_engine::committed(p, results, count).fields, p.fields),
    decreases count,
{
    if count > 0 {
        committed_rows_keep_their_length(p, results, count - 1);
        let before = mps_engine::committed(p, results, count - 1).fields;
        assert(mps_engine::placed(p.fields, results[count - 1]));
        written_rows_keep_their_length(
            before,
            results[count - 1],
            results[count - 1].values@.len() as int,
        );
    }
}

/// Writing values keeps the sizes of the fields.
pub proof fn written_rows_keep_their_length(fields: Seq<Seq<u64>>, r: NodeResult, count: int)
    requires
        mps_engine::placed(fields, r),
        0 <= count <= r.values@.len(),
    ensures
        mps_engine::same_size(mps_engine::written(fields, r, count), fields),
    decreases count,
{
    if count > 0 {
        written_rows_keep_their_length(fields, r, count - 1);
        assert(r.values@[count - 1].0 < fields.len());
    }
}

/// A simulation keeps the sizes of its fields.
pub proof fn sizes_are_kept<N: Arithmetic, M: Metric>(
    s: Setup<N, M>,
    cache: Seq<CachedNode>,
    initial: Seq<Seq<u64>>,
    levels: int,
    p: Progress,
)
    requires
        underway(s, cache, initial),
        mps_engine::reached(s, cache, initial, levels, p),
    ensures
        mps_engine::same_size(p.fields, initial),
        s.consistent(p.fields),
    decreases levels,
{
    if levels > 0 {
        let q = choose|q: Progress|
            mps_engine::reached(s, cache, initial, levels - 1, q)
                && #[trigger] mps_engine::advances(s, cache, levels - 1, q, p);
        sizes_are_kept(s, cache, initial, levels - 1, q);
        let results = choose|results: Seq<NodeResult>| #[trigger]
            mps_engine::advances_by(s, cache, levels - 1, q, p, results);
        levels_keep_sizes(s, cache, initial, levels - 1, q, p, results);
    }
}

/// What a node writes, it lacked.
proof fn only_lacking_values_are_written<N: Arithmetic, M: Metric>(
    s: Setup<N, M>,
    cache: Seq<CachedNode>,
    initial: Seq<Seq<u64>>,
    level: int,
    p: Progress,
    results: Seq<NodeResult>,
    v: int,
    c: int,
)
    requires
        underway(s, cache, initial),
        mps_engine::same_size(p.fields, initial),
        mps_engine::evaluates(
            s,
            cache,
            p.fields,
            mps_engine::level_nodes(cache, level),
            results,
        ),
        0 <= v < initial.len(),
        some_writes(results, results.len() as int, v, c),
    ensures
        word::nan(p.fields[v][c]),
        exists|i: int|
            0 <= i < cache.len() && #[trigger] s.model().cell(i) == c && cache[i].level == level,
{
    let nodes = mps_engine::level_nodes(cache, level);
    long_paths_can_be_counted(s, cache, initial);
    mps_engine::level_nodes_are_of_the_level(cache, level, cache.len() as int);
    let i = choose|i: int|
        0 <= i < results.len() && (#[trigger] results[i]).flat == c && writes(
            results[i],
            results[i].values@.len() as int,
            v,
        );
    let node = nodes[i] as int;
    assert(nodes[i] < cache.len());
    assert(node::node_outcome(s, p.fields, cache[node], node, results[i]));
    node::nodes_receive_what_they_lack(s, p.fields, cache[node], node, results[i]);
    many_variables_can_be_counted(s);
    gathering::lacking_variables_lack_values(p.fields, s.model().cell(node), s.variables());
    let j = choose|j: int|
        0 <= j < results[i].values@.len() && (#[trigger] results[i].values@[j]).0 == v;
    let targets = gathering::lacking(p.fields, s.model().cell(node), s.variables());
    assert(targets[j] == v);
    assert(word::nan(p.fields[targets[j] as int][c]));
}

/// The variables can be counted.
pub proof fn many_variables_can_be_counted<N: Arithmetic, M: Metric>(s: Setup<N, M>)
    requires
        s.sensible(),
    ensures
        s.variables() <= usize::MAX,
{
    let variables = s.variables();
    let most = s.offsets@.len() as int;
    assert(variables <= variables * (most + 1)) by (nonlinear_arith)
        requires
            0 <= variables,
            0 <= most,
    ;
}

/// A value that is known stays: given values are preserved, and what a node has received is
/// not written again by a later level.
pub proof fn known_values_are_kept<N: Arithmetic, M: Metric>(
    s: Setup<N, M>,
    cache: Seq<CachedNode>,
    initial: Seq<Seq<u64>>,
    levels: int,
    p: Progress,
    v: int,
    c: int,
)
    requires
        underway(s, cache, initial),
        mps_engine::reached(s, cache, initial, levels, p),
        0 <= v < initial.len(),
        0 <= c < initial[v].len(),
        !word::nan(initial[v][c]),
    ensures
        p.fields[v][c] == initial[v][c],
    decreases levels,
{
    if levels > 0 {
        let q = choose|q: Progress|
            mps_engine::reached(s, cache, initial, levels - 1, q)
                && #[trigger] mps_engine::advances(s, cache, levels - 1, q, p);
        known_values_are_kept(s, cache, initial, levels - 1, q, v, c);
        known_values_pass_a_level(s, cache, initial, levels - 1, q, p, v, c);
    }
}

proof fn known_values_pass_a_level<N: Arithmetic, M: Metric>(
    s: Setup<N, M>,
    cache: Seq<CachedNode>,
    initial: Seq<Seq<u64>>,
    level: int,
    q: Progress,
    p: Progress,
    v: int,
    c: int,
)
    requires
        underway(s, cache, initial),
        mps_engine::reached(s, cache, initial, level, q),
        mps_engine::advances(s, cache, level, q, p),
        0 <= v < initial.len(),
        0 <= c < initial[v].len(),
        !word::nan(q.fields[v][c]),
    ensures
        p.fields[v][c] == q.fields[v][c],
{
    let results = choose|results: Seq<NodeResult>| #[trigger]
        mps_engine::advances_by(s, cache, level, q, p, results);
    sizes_are_kept(s, cache, initial, level, q);
    levels_keep_sizes(s, cache, initial, level, q, p, results);
    assert(q.fields[v].len() == initial[v].len());
    committing_results(q, results, results.len() as int, v, c);
    if some_writes(results, results.len() as int, v, c) {
        only_lacking_values_are_written(s, cache, initial, level, q, results, v, c);
    }
}

/// A cell that no node of the path lies at stays as it is.
pub proof fn cells_off_the_path_are_kept<N: Arithmetic, M: Metric>(
    s: Setup<N, M>,
    cache: Seq<CachedNode>,
    initial: Seq<Seq<u64>>,
    levels: int,
    p: Progress,
    v: int,
    c: int,
)
    requires
        underway(s, cache, initial),
        mps_engine::reached(s, cache, initial, levels, p),
        0 <= v < initial.len(),
        0 <= c < initial[v].len(),
        forall|i: int| 0 <= i < s.path@.len() ==> #[trigger] s.model().cell(i) != c,
    ensures
        p.fields[v][c] == initial[v][c],
    decreases levels,
{
    if levels > 0 {
        let q = choose|q: Progress|
            mps_engine::reached(s, cache, initial, levels - 1, q)
                && #[trigger] mps_engine::advances(s, cache, levels - 1, q, p);
        cells_off_the_path_are_kept(s, cache, initial, levels - 1, q, v, c);
        let results = choose|results: Seq<NodeResult>| #[trigger]
            mps_engine::advances_by(s, cache, levels - 1, q, p, results);
        sizes_are_kept(s, cache, initial, levels - 1, q);
        levels_keep_sizes(s, cache, initial, levels - 1, q, p, results);
        assert(q.fields[v].len() == initial[v].len());
        committing_results(q, results, results.len() as int, v, c);
        if some_writes(results, results.len() as int, v, c) {
            only_lacking_values_are_written(s, cache, initial, levels - 1, q, results, v, c);
            mps_engine::cached_nodes_are_usable(s, initial, cache, 0);
        }
    }
}

/// Once its level is done, a node has a number for every variable.
pub proof fn simulated_nodes_have_values<N: Arithmetic, M: Metric>(
    s: Setup<N, M>,
    cache: Seq<CachedNode>,
    initial: Seq<Seq<u64>>,
    levels: int,
    p: Progress,
    node: int,
    v: int,
)
    requires
        underway(s, cache, initial),
        mps_engine::reached(s, cache, initial, levels, p),
        0 <= node < cache.len(),
        cache[node].level < levels,
        0 <= v < initial.len(),
    ensures
        !word::nan(p.fields[v][s.model().cell(node)]),
    decreases levels,
{
    let c = s.model().cell(node);
    mps_engine::cached_nodes_are_usable(s, initial, cache, node);
    assert(index::inside(s.model().path[node]@, s.sim_shape@));
    index::cells_have_positions(s.path@[node]@, s.sim_shape@);
    assert(initial[v].len() == index::size(s.sim_shape@));
    let q = choose|q: Progress|
        mps_engine::reached(s, cache, initial, levels - 1, q) && #[trigger] mps_engine::advances(
            s,
            cache,
            levels - 1,
            q,
            p,
        );
    if cache[node].level < levels - 1 {
        simulated_nodes_have_values(s, cache, initial, levels - 1, q, node, v);
        known_values_pass_a_level(s, cache, initial, levels - 1, q, p, v, c);
    } else if !word::nan(q.fields[v][c]) {
        known_values_pass_a_level(s, cache, initial, levels - 1, q, p, v, c);
    } else {
        let level = levels - 1;
        let results = choose|results: Seq<NodeResult>| #[trigger]
            mps_engine::advances_by(s, cache, level, q, p, results);
        sizes_are_kept(s, cache, initial, level, q);
        levels_keep_sizes(s, cache, initial, level, q, p, results);
        assert(q.fields[v].len() == initial[v].len());
        committing_results(q, results, results.len() as int, v, c);
        let nodes = mps_engine::level_nodes(cache, level);
        long_paths_can_be_counted(s, cache, initial);
        mps_engine::level_nodes_are_of_the_level(cache, level, cache.len() as int);
        assert(nodes.contains(node as usize));
        let i = choose|i: int| 0 <= i < nodes.len() && nodes[i] == node as usize;
        assert(node::node_outcome(s, q.fields, cache[node], node, results[i]));
        node::nodes_receive_what_they_lack(s, q.fields, cache[node], node, results[i]);
        many_variables_can_be_counted(s);
        gathering::lacking_variables_lack_values(q.fields, c, s.variables());
        let targets = gathering::lacking(q.fields, c, s.variables());
        assert(targets.contains(v as usize));
        let j = choose|j: int| 0 <= j < targets.len() && targets[j] == v as usize;
        assert(results[i].values@[j].0 == v);
        assert(writes(results[i], results[i].values@.len() as int, v));
        assert(results[i].flat == c);
        assert(some_writes(results, results.len() as int, v, c));
    }
}

/// The output of a simulation keeps every value that was known at the start.
pub proof fn outputs_keep_known_values<N: Arithmetic, M: Metric>(
    s: Setup<N, M>,
    initial: Seq<Seq<u64>>,
    num_threads: usize,
    output: SimulationOutput,
    v: int,
    c: int,
)
    requires
        s.sensible(),
        mps_engine::simulates(s, initial, num_threads, Ok(output)),
        0 <= v < initial.len(),
        0 <= c < initial[v].len(),
        !word::nan(initial[v][c]),
    ensures
        grid::grid_rows(output.fields)[v][c] == initial[v][c],
{
    let cache = choose|cache: Seq<CachedNode>| #[trigger]
        mps_engine::surveys(s, cache) && mps_engine::completes(
            s,
            cache,
            initial,
            num_threads,
            output,
        );
    let p = final_progress(output);
    known_values_are_kept(s, cache, initial, output.level_count as int, p, v, c);
}

/// The output of a simulation has a number for every variable at every node of the path.
pub proof fn outputs_fill_the_path<N: Arithmetic, M: Metric>(
    s: Setup<N, M>,
    initial: Seq<Seq<u64>>,
    num_threads: usize,
    output: SimulationOutput,
    node: int,
    v: int,
)
    requires
        s.sensible(),
        mps_engine::simulates(s, initial, num_threads, Ok(output)),
        0 <= node < s.path@.len(),
        0 <= v < initial.len(),
    ensures
        !word::nan(grid::grid_rows(output.fields)[v][s.model().cell(node)]),
{
    let cache = choose|cache: Seq<CachedNode>| #[trigger]
        mps_engine::surveys(s, cache) && mps_engine::completes(
            s,
            cache,
            initial,
            num_threads,
            output,
        );
    let p = final_progress(output);
    long_paths_can_be_counted(s, cache, initial);
    levels_are_counted(cache, cache.len() as int, node);
    simulated_nodes_have_values(s, cache, initial, output.level_count as int, p, node, v);
}

/// The output of a simulation leaves the cells off the path as they were.
pub proof fn outputs_keep_cells_off_the_path<N: Arithmetic, M: Metric>(
    s: Setup<N, M>,
    initial: Seq<Seq<u64>>,
    num_threads: usize,
    output: SimulationOutput,
    v: int,
    c: int,
)
    requires
        s.sensible(),
        mps_engine::simulates(s, initial, num_threads, Ok(output)),
        0 <= v < initial.len(),
        0 <= c < initial[v].len(),
        forall|i: int| 0 <= i < s.path@.len() ==> #[trigger] s.model().cell(i) != c,
    ensures
        grid::grid_rows(output.fields)[v][c] == initial[v][c],
{
    let cache = choose|cache: Seq<CachedNode>| #[trigger]
        mps_engine::surveys(s, cache) && mps_engine::completes(
            s,
            cache,
            initial,
            num_threads,
            output,
        );
    let p = final_progress(output);
    cells_off_the_path_are_kept(s, cache, initial, output.level_count as int, p, v, c);
}

/// How far a simulation has come when it is done.
pub open spec fn final_progress(output: SimulationOutput) -> Progress {
    Progress {
        fields: grid::grid_rows(output.fields),
        strict: output.strict_fallback_count as int,
        collapsed: output.collapsed_lag_count as int,
    }
}

/// The level of a node is one of those that are counted.
pub proof fn levels_are_counted(cache: Seq<CachedNode>, count: int, node: int)
    requires
        0 <= node < count <= cache.len(),
    ensures
        cache[node].level < mps_engine::level_count_of(cache, count),
    decreases count,
{
    if node < count - 1 {
        levels_are_counted(cache, count - 1, node);
    }
}

/// Every level has a node, and is no wider than the widest.
pub proof fn every_level_has_a_node<N: Arithmetic, M: Metric>(
    s: Setup<N, M>,
    cache: Seq<CachedNode>,
    initial: Seq<Seq<u64>>,
    level: int,
)
    requires
        underway(s, cache, initial),
        0 <= level < mps_engine::level_count_of(cache, cache.len() as int),
    ensures
        1 <= mps_engine::level_nodes(cache, level).len() <= mps_engine::widest(
            cache,
            mps_engine::level_count_of(cache, cache.len() as int),
        ),
{
    let count = cache.len() as int;
    long_paths_can_be_counted(s, cache, initial);
    highest_level_has_a_node(cache, count);
    let top = choose|node: int|
        0 <= node < count && (#[trigger] cache[node]).level + 1 == mps_engine::level_count_of(
            cache,
            count,
        );
    lower_levels_have_nodes(s, cache, initial, top, level);
    let node = choose|node: int| 0 <= node < count && (#[trigger] cache[node]).level == level;
    mps_engine::level_nodes_are_of_the_level(cache, level, count);
    assert(mps_engine::level_nodes(cache, level).contains(node as usize));
    widest_is_widest(cache, mps_engine::level_count_of(cache, count), level);
}

proof fn highest_level_has_a_node(cache: Seq<CachedNode>, count: int)
    requires
        0 <= count <= cache.len(),
        0 < mps_engine::level_count_of(cache, count),
    ensures
        exists|node: int|
            0 <= node < count && (#[trigger] cache[node]).level + 1
                == mps_engine::level_count_of(cache, count),
    decreases count,
{
    if count > 0 {
        if mps_engine::level_count_of(cache, count) == cache[count - 1].level + 1 {
            assert(cache[count - 1].level + 1 == mps_engine::level_count_of(cache, count));
        } else {
            highest_level_has_a_node(cache, count - 1);
        }
    }
}

proof fn lower_levels_have_nodes<N: Arithmetic, M: Metric>(
    s: Setup<N, M>,
    cache: Seq<CachedNode>,
    initial: Seq<Seq<u64>>,
    node: int,
    level: int,
)
    requires
        underway(s, cache, initial),
        0 <= node < cache.len(),
        0 <= level <= cache[node].level,
    ensures
        exists|other: int| 0 <= other < cache.len() && (#[trigger] cache[other]).level == level,
    decreases cache[node].level - level,
{
    if level < cache[node].level {
        let model = s.model();
        let all = choose|all: Seq<int>| #[trigger]
            neighbors::all_reach(*s.arithmetic, s.offsets@, s.max_radius@, all) && model.caches(
                all,
                cache,
            );
        assert forall|v: int| 0 <= v < all.len() implies 0 <= #[trigger] all[v] by {
            assert(neighbors::reaches(*s.arithmetic, s.offsets@, s.max_radius@[v], all[v]));
        }
        neighbors::no_level_is_skipped(model, all, cache, node);
        let earlier = choose|earlier: int|
            0 <= earlier < node && #[trigger] cache[earlier].level == cache[node].level - 1;
        lower_levels_have_nodes(s, cache, initial, earlier, level);
    } else {
        assert(cache[node].level == level);
    }
}

proof fn widest_is_widest(cache: Seq<CachedNode>, levels: int, level: int)
    requires
        0 <= level < levels,
    ensures
        mps_engine::level_nodes(cache, level).len() <= mps_engine::widest(cache, levels),
    decreases levels,
{
    if level < levels - 1 {
        widest_is_widest(cache, levels - 1, level);
    }
}

/// A node that copies the cell that it falls back on receives numbers.
pub proof fn fallback_values_are_numbers<N: Arithmetic, M: Metric>(
    s: Setup<N, M>,
    initial: Seq<Seq<u64>>,
    node: int,
    targets: Seq<usize>,
    strict: int,
    r: NodeResult,
)
    requires
        s.consistent(initial),
        s.sensible(),
        0 <= node < s.path@.len(),
        forall|i: int| 0 <= i < targets.len() ==> #[trigger] targets[i] < s.variables(),
        node::falls_back(s, node, targets, strict, r),
        targets.len() > 0 ==> s.lands(node),
    ensures
        mps_engine::numeric(r, r.values@.len() as int),
{
    let rows = s.ti_rows();
    let source = choose|source: usize| #[trigger]
        s.draws(node, source) && node::copies(rows, targets, source as int, r.values@);
    let cell = source as int;
    if targets.len() > 0 {
        image::draws_name_complete_cells(
            *s.arithmetic,
            rows,
            s.ti_shape@,
            s.u_fallback@[node]@,
            source,
        );
    }
    assert forall|j: int| 0 <= j < r.values@.len() implies !word::nan(
        (#[trigger] r.values@[j]).1,
    ) by {
        assert(r.values@[j] == (targets[j], rows[targets[j] as int][cell]));
        assert(targets[j] < s.variables());
        assert(!word::nan(rows[targets[j] as int][cell]));
    }
}

/// Without anything to go by, a simulation does not break off: where no event has a value,
/// a node receives numbers.
pub proof fn lonely_nodes_receive_numbers<N: Arithmetic, M: Metric>(
    s: Setup<N, M>,
    initial: Seq<Seq<u64>>,
    node: int,
    events: Seq<EventModel>,
    targets: Seq<usize>,
    r: NodeResult,
)
    requires
        s.consistent(initial),
        s.sensible(),
        0 <= node < s.path@.len(),
        forall|i: int| 0 <= i < targets.len() ==> #[trigger] targets[i] < s.variables(),
        node::decides(s, node, events, targets, r),
        fitting::all_empty(events),
        targets.len() > 0 ==> s.lands(node),
    ensures
        mps_engine::numeric(r, r.values@.len() as int),
        r.strict_fallback_count == 0,
{
    fallback_values_are_numbers(s, initial, node, targets, 0, r);
}

/// An event that was brought into the training image fits there.
pub proof fn reduced_events_fit(event: EventModel, shape: Seq<i64>)
    ensures
        window::fits(
            event::fitted(event, shape).lags,
            event::fitted(event, shape).lags.len() as int,
            shape,
        ),
    decreases event.lags.len(),
{
    if !window::fits(event.lags, event.lags.len() as int, shape) {
        reduced_events_fit(event.without(event::given_up(event.lags, shape)), shape);
    }
}

/// Events that are brought into the training image by a matrix are never cut afterwards.
pub proof fn mapped_events_are_never_cut<N: Arithmetic, M: Metric>(
    s: Setup<N, M>,
    fields: Seq<Seq<u64>>,
    cached: CachedNode,
    node: int,
    r: NodeResult,
)
    requires
        s.lag_matrices@.len() > 0,
        node::node_outcome(s, fields, cached, node, r),
    ensures
        r.strict_fallback_count == 0,
{
    let targets = gathering::lacking(fields, s.model().cell(node), s.variables());
    let (events, shared) = choose|events: Seq<EventModel>, shared: Seq<int>| #[trigger]
        gathering::has_events(s, fields, cached, node, events, shared) && node::decides(
            s,
            node,
            events,
            targets,
            r,
        ) && r.collapsed_lag_count == gathering::total(shared, shared.len() as int);
    let count = events.len() as int;
    assert forall|v: int| 0 <= v < count implies window::fits(
        (#[trigger] events[v]).lags,
        events[v].lags.len() as int,
        s.ti_shape@,
    ) by {
        assert(gathering::has_event(s, fields, cached, node, v, events[v], shared[v]));
        let (raw, mapped) = choose|raw: EventModel, mapped: Seq<Seq<i64>>| #[trigger]
            gathering::maps_event(s, fields, cached, node, v, raw, mapped) && events[v]
                == event::reduced(raw, mapped, s.ti_shape@) && shared[v] == event::collapsed(
                mapped,
            );
        reduced_events_fit(
            raw.moved(mapped).picked(event::first_places(mapped, mapped.len() as int)),
            s.ti_shape@,
        );
    }
    fitting_events_are_not_cut(events, s.ti_shape@, s.partial_boundary, count);
}

proof fn fitting_events_are_not_cut(
    events: Seq<EventModel>,
    shape: Seq<i64>,
    partial_boundary: bool,
    count: int,
)
    requires
        0 <= count,
        forall|v: int|
            0 <= v < count ==> window::fits(
                (#[trigger] events[v]).lags,
                events[v].lags.len() as int,
                shape,
            ),
    ensures
        fitting::cuts(events, shape, partial_boundary, count) == 0,
        fitting::first_unfit(events, shape, count) == count,
    decreases count,
{
    if count > 0 {
        fitting_events_are_not_cut(events, shape, partial_boundary, count - 1);
        assert(window::fits(events[count - 1].lags, events[count - 1].lags.len() as int, shape));
    }
}

/// Partial events are what a node goes by in any case: where they are not asked for, they are
/// counted, and the values that the node receives are the same.
pub proof fn asking_for_partial_events_changes_counts_only<N: Arithmetic, M: Metric>(
    s: Setup<N, M>,
    t: Setup<N, M>,
    node: int,
    events: Seq<EventModel>,
    targets: Seq<usize>,
    a: NodeResult,
    b: NodeResult,
)
    requires
        t == (Setup { partial_boundary: true, ..s }),
        node::decides(s, node, events, targets, a),
        b.values@ == a.values@,
        b.strict_fallback_count == 0,
    ensures
        node::decides(t, node, events, targets, b),
{
    let count = events.len() as int;
    let shape = s.ti_shape@;
    let unfit = fitting::first_unfit(events, shape, count);
    let kept = fitting::all_trimmed(events, shape);
    let strict = fitting::cuts(events, shape, s.partial_boundary, count);
    partial_events_are_not_counted(events, shape, count);
    partial_events_are_not_counted(events, shape, unfit + 1);
    if !fitting::all_empty(events) && unfit >= count && fitting::overlap(kept, shape) {
        let found = choose|found: Option<Seq<i64>>| #[trigger]
            search::scans_for(s, node, kept, targets, found) && match found {
                Some(anchor) => node::receives(s, kept, targets, anchor, strict, a),
                None => node::falls_back(s, node, targets, strict, a),
            };
        let (request, start, budget) = choose|
            request: ScanRequest,
            start: usize,
            budget: usize,
        | #[trigger]
            search::scans_with(s, node, kept, targets, request, start, budget, found);
        let chosen = search::active(kept, kept.len() as int);
        let parts = choose|parts: Seq<Seq<u64>>| #[trigger]
            search::weighs_all(s, kept, chosen, parts) && request.node_weights@ == search::joined(
                parts,
                parts.len() as int,
            );
        assert(search::weighs_all(t, kept, chosen, parts));
        assert(search::requests(t, kept, targets, request));
        assert(search::scans_with(t, node, kept, targets, request, start, budget, found));
        assert(search::scans_for(t, node, kept, targets, found));
        if found is Some {
            let anchor = found->0;
            let base = index::dot(anchor, s.ti_strides());
            assert forall|i: int| 0 <= i < targets.len() implies {
                &&& (#[trigger] b.values@[i]).0 == targets[i]
                &&& retrieval::retrieves(t, kept, targets[i] as int, base, b.values@[i].1)
            } by {
                assert(a.values@[i] == b.values@[i]);
                assert(retrieval::retrieves(s, kept, targets[i] as int, base, a.values@[i].1));
            }
            assert(node::receives(t, kept, targets, anchor, 0, b));
        } else {
            fallbacks_carry_over(s, t, node, targets, a, b);
        }
    } else {
        fallbacks_carry_over(s, t, node, targets, a, b);
    }
}

proof fn fallbacks_carry_over<N: Arithmetic, M: Metric>(
    s: Setup<N, M>,
    t: Setup<N, M>,
    node: int,
    targets: Seq<usize>,
    a: NodeResult,
    b: NodeResult,
)
    requires
        t == (Setup { partial_boundary: true, ..s }),
        node::falls_back(s, node, targets, a.strict_fallback_count as int, a),
        b.values@ == a.values@,
        b.strict_fallback_count == 0,
    ensures
        node::falls_back(t, node, targets, 0, b),
{
    let source = choose|source: usize| #[trigger]
        s.draws(node, source) && node::copies(s.ti_rows(), targets, source as int, a.values@);
    assert(t.draws(node, source));
}

proof fn partial_events_are_not_counted(events: Seq<EventModel>, shape: Seq<i64>, count: int)
    ensures
        fitting::cuts(events, shape, true, count) == 0,
    decreases count,
{
    if count > 0 {
        partial_events_are_not_counted(events, shape, count - 1);
    }
}

/// No variable is compared by its variation, so that values are copied as they are.
pub open spec fn only_copies<N: Arithmetic, M: Metric>(s: Setup<N, M>) -> bool {
    forall|v: int|
        0 <= v < s.variables() ==> #[trigger] s.metric_kinds@[v] != retrieval::VARIATION
}

/// What is copied from the training image is one of its values: each value that a node receives
/// is that of its variable in a cell of the training image.
pub proof fn copied_values_come_from_the_image<N: Arithmetic, M: Metric>(
    s: Setup<N, M>,
    fields: Seq<Seq<u64>>,
    cached: CachedNode,
    node: int,
    r: NodeResult,
    i: int,
)
    requires
        gathering::ready(s, fields, cached, node),
        node::secure(s, fields, cached, node),
        only_copies(s),
        node::node_outcome(s, fields, cached, node, r),
        0 <= i < r.values@.len(),
    ensures
        r.values@[i].0 < s.variables(),
        exists|cell: int|
            0 <= cell < index::size(s.ti_shape@) && r.values@[i].1
                == #[trigger] s.ti_rows()[r.values@[i].0 as int][cell],
{
    let flat = s.model().cell(node);
    let targets = gathering::lacking(fields, flat, s.variables());
    many_variables_can_be_counted(s);
    gathering::lacking_variables_lack_values(fields, flat, s.variables());
    node::nodes_receive_what_they_lack(s, fields, cached, node, r);
    assert(targets[i] < s.variables());
    assert(r.values@[i].0 == targets[i]);
    let v = targets[i] as int;
    let (events, shared) = choose|events: Seq<EventModel>, shared: Seq<int>| #[trigger]
        gathering::has_events(s, fields, cached, node, events, shared) && node::decides(
            s,
            node,
            events,
            targets,
            r,
        ) && r.collapsed_lag_count == gathering::total(shared, shared.len() as int);
    let count = events.len() as int;
    let shape = s.ti_shape@;
    let unfit = fitting::first_unfit(events, shape, count);
    let kept = fitting::all_trimmed(events, shape);
    let strict = fitting::cuts(events, shape, s.partial_boundary, count);
    if !fitting::all_empty(events) && unfit >= count && fitting::overlap(kept, shape) {
        let found = choose|found: Option<Seq<i64>>| #[trigger]
            search::scans_for(s, node, kept, targets, found) && match found {
                Some(anchor) => node::receives(s, kept, targets, anchor, strict, r),
                None => node::falls_back(s, node, targets, strict, r),
            };
        if found is Some {
            let anchor = found->0;
            found_anchors_are_cells(s, node, kept, targets, anchor);
            let base = index::dot(anchor, s.ti_strides());
            assert(retrieval::retrieves(s, kept, v, base, r.values@[i].1));
            assert(s.metric_kinds@[v] != retrieval::VARIATION);
            assert(r.values@[i].1 == s.ti_rows()[v][base]);
        } else {
            assert(node::gives_up(s, node, events, targets));
            fallback_values_come_from_the_image(s, node, targets, strict, r, i);
        }
    } else {
        assert(node::gives_up(s, node, events, targets));
        let cut = r.strict_fallback_count as int;
        fallback_values_come_from_the_image(s, node, targets, cut, r, i);
    }
}

proof fn fallback_values_come_from_the_image<N: Arithmetic, M: Metric>(
    s: Setup<N, M>,
    node: int,
    targets: Seq<usize>,
    strict: int,
    r: NodeResult,
    i: int,
)
    requires
        node::falls_back(s, node, targets, strict, r),
        s.lands(node),
        0 <= i < targets.len(),
    ensures
        exists|cell: int|
            0 <= cell < index::size(s.ti_shape@) && r.values@[i].1
                == #[trigger] s.ti_rows()[targets[i] as int][cell],
{
    let source = choose|source: usize| #[trigger]
        s.draws(node, source) && node::copies(s.ti_rows(), targets, source as int, r.values@);
    assert(source < index::size(s.ti_shape@));
    assert(r.values@[i] == (targets[i], s.ti_rows()[targets[i] as int][source as int]));
}

/// What the scan of a node finds is a cell of the training image.
proof fn found_anchors_are_cells<N: Arithmetic, M: Metric>(
    s: Setup<N, M>,
    node: int,
    events: Seq<EventModel>,
    targets: Seq<usize>,
    anchor: Seq<i64>,
)
    requires
        index::countable(s.ti_shape@),
        fitting::overlap(events, s.ti_shape@),
        events.len() > 0,
        search::scans_for(s, node, events, targets, Some(anchor)),
    ensures
        index::inside(anchor, s.ti_shape@),
        0 <= index::dot(anchor, s.ti_strides()) < index::size(s.ti_shape@),
{
    let (request, start, budget) = choose|
        request: ScanRequest,
        start: usize,
        budget: usize,
    | #[trigger]
        search::scans_with(s, node, events, targets, request, start, budget, Some(anchor));
    let w = search::node_sweep(s, events, start, budget);
    search::common_windows_can_be_scanned(s, events, start, budget);
    scan::found_anchors_are_in_the_window(
        w,
        search::measure(*s.metric, *s.ti, request),
        anchor,
    );
    fitting::common_windows_admit_every_event(events, s.ti_shape@, anchor, 0);
    index::cells_have_positions(anchor, s.ti_shape@);
}

/// Copies from a training image without gaps are numbers, so the simulation does not break off.
pub proof fn copies_from_complete_images_never_break_off<N: Arithmetic, M: Metric>(
    s: Setup<N, M>,
    cache: Seq<CachedNode>,
    initial: Seq<Seq<u64>>,
    variable: usize,
    flat: usize,
)
    requires
        underway(s, cache, initial),
        mps_engine::secured(s, cache, initial),
        only_copies(s),
        !image::incomplete(s.ti_rows()),
    ensures
        !mps_engine::breaks_off(s, cache, initial, variable, flat),
{
    if mps_engine::breaks_off(s, cache, initial, variable, flat) {
        let (level, p, results) = choose|
            level: int,
            p: Progress,
            results: Seq<NodeResult>,
        | #[trigger]
            mps_engine::breaks_at(s, cache, initial, level, p, results, variable, flat);
        let (i, j) = choose|i: int, j: int| #[trigger]
            mps_engine::first_nan(results, i, j) && results[i].values@[j].0 == variable
                && results[i].flat == flat;
        sizes_are_kept(s, cache, initial, level, p);
        long_paths_can_be_counted(s, cache, initial);
        mps_engine::level_nodes_are_of_the_level(cache, level, cache.len() as int);
        let nodes = mps_engine::level_nodes(cache, level);
        let node = nodes[i] as int;
        assert(nodes[i] < cache.len());
        mps_engine::cached_nodes_are_usable(s, initial, cache, node);
        assert(node::node_outcome(s, p.fields, cache[node], node, results[i]));
        copied_values_come_from_the_image(s, p.fields, cache[node], node, results[i], j);
        let v = results[i].values@[j].0 as int;
        let cell = choose|cell: int|
            0 <= cell < index::size(s.ti_shape@) && results[i].values@[j].1
                == #[trigger] s.ti_rows()[v][cell];
        assert(s.ti_rows()[v].len() == index::size(s.ti_shape@));
        assert(word::nan(s.ti_rows()[v][cell]));
    }
}

/// A simulation that copies from a training image without gaps, and runs on one thread,
/// succeeds.
pub proof fn copies_from_complete_images_succeed<N: Arithmetic, M: Metric>(
    s: Setup<N, M>,
    initial: Seq<Seq<u64>>,
    num_threads: usize,
    result: Result<SimulationOutput, String>,
)
    requires
        s.consistent(initial),
        mps_engine::runnable(s, initial),
        only_copies(s),
        !image::incomplete(s.ti_rows()),
        mps_engine::threads_for(num_threads, s.path@.len() as int) == 1,
        mps_engine::simulates(s, initial, num_threads, result),
    ensures
        result is Ok,
{
    if result is Err {
        let text = result->Err_0@;
        let (cache, variable, flat) = choose|
            cache: Seq<CachedNode>,
            variable: usize,
            flat: usize,
        | #[trigger]
            mps_engine::breaks_off(s, cache, initial, variable, flat) && mps_engine::surveys(
                s,
                cache,
            ) && text == messages::nan_message(variable, flat);
        copies_from_complete_images_never_break_off(s, cache, initial, variable, flat);
    }
}

/// A simulation tells of inputs that do not match each other exactly where they do not, and of a
/// training image without a complete cell exactly where the inputs match and it has none.
pub proof fn failures_are_told_exactly<N: Arithmetic, M: Metric>(
    s: Setup<N, M>,
    initial: Seq<Seq<u64>>,
    num_threads: usize,
    result: Result<SimulationOutput, String>,
)
    requires
        mps_engine::simulates(s, initial, num_threads, result),
    ensures
        (result matches Err(text) && text@ == messages::shape_message()) <==> !s.consistent(
            initial,
        ),
        (result matches Err(text) && text@ == messages::undefined_message()) <==> s.consistent(
            initial,
        ) && !s.resolvable(),
{
    messages::messages_are_told_apart(0, 0, Seq::empty());
    if result is Err && s.consistent(initial) && s.resolvable() {
        let text = result->Err_0@;
        if mps_engine::reports_nan(s, initial, text) {
            let (cache, variable, flat) = choose|
                cache: Seq<CachedNode>,
                variable: usize,
                flat: usize,
            | #[trigger]
                mps_engine::breaks_off(s, cache, initial, variable, flat) && mps_engine::surveys(
                    s,
                    cache,
                ) && text == messages::nan_message(variable, flat);
            messages::messages_are_told_apart(variable, flat, Seq::empty());
        } else {
            let reason = choose|reason: Seq<char>| text == #[trigger] messages::pool_message(
                reason,
            );
            messages::messages_are_told_apart(0, 0, reason);
        }
    }
}

} // verus!
