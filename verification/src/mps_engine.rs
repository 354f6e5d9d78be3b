//! The simulation of a whole path, level by level.
//!
//! Nodes of one level do not depend on each other. They are simulated from the same fields,
//! possibly by several threads, and their values are written in the order of the path once
//! all of them are there.

use crate::arithmetic::Arithmetic;
use crate::gathering;
use crate::grid::{self, ValueGrid};
use crate::image;
use crate::index;
use crate::messages;
use crate::neighbors::{self, CachedNode};
use crate::node::{self, NodeResult};
use crate::pool::{self, Pool};
use crate::setup::{Metric, Setup};
use crate::word;
use vstd::prelude::*;

verus! {

/// What a simulation comes to.
pub struct SimulationOutput {
    /// The simulated fields, one row per variable.
    pub fields: ValueGrid,
    /// How many events were cut although partial events were not asked for.
    pub strict_fallback_count: usize,
    /// How many levels the path has.
    pub level_count: usize,
    /// How many nodes the widest level has.
    pub max_ready_width: usize,
    /// How many threads the simulation ran on: one where the path is short.
    pub used_threads: usize,
    /// How many values of events shared a lag with an earlier one.
    pub collapsed_lag_count: usize,
}

/// The shortest path that is worth more than one thread.
pub const PARALLEL_PATH: usize = 512;

// ---------------------------------------------------------------------------------------
// The levels
// ---------------------------------------------------------------------------------------

/// One more than the highest level of the first `count` nodes, and 0 where there is none.
pub open spec fn level_count_of(cache: Seq<CachedNode>, count: int) -> int
    decreases count,
{
    if count <= 0 {
        0
    } else {
        vstd::math::max(level_count_of(cache, count - 1), cache[count - 1].level + 1)
    }
}

/// The nodes of a level among the first `count`, in the order of the path.
pub open spec fn nodes_at(cache: Seq<CachedNode>, level: int, count: int) -> Seq<usize>
    decreases count,
{
    if count <= 0 {
        Seq::empty()
    } else if cache[count - 1].level == level {
        nodes_at(cache, level, count - 1).push((count - 1) as usize)
    } else {
        nodes_at(cache, level, count - 1)
    }
}

/// All nodes of a level, in the order of the path.
pub open spec fn level_nodes(cache: Seq<CachedNode>, level: int) -> Seq<usize> {
    nodes_at(cache, level, cache.len() as int)
}

/// How many nodes the widest of the first `levels` levels has.
pub open spec fn widest(cache: Seq<CachedNode>, levels: int) -> int
    decreases levels,
{
    if levels <= 0 {
        0
    } else {
        vstd::math::max(widest(cache, levels - 1), level_nodes(cache, levels - 1).len() as int)
    }
}

/// How many threads a path gets.
pub open spec fn threads_for(num_threads: usize, path_len: int) -> usize {
    if num_threads > 1 && path_len >= PARALLEL_PATH {
        num_threads
    } else {
        1
    }
}

/// How many threads a path of `nodes` nodes gets.
pub fn thread_count(num_threads: usize, nodes: usize) -> (r: usize)
    ensures
        r == threads_for(num_threads, nodes as int),
{
    if num_threads > 1 && nodes >= PARALLEL_PATH {
        num_threads
    } else {
        1
    }
}

fn sort_into_levels(cache: &Vec<CachedNode>) -> (levels: Vec<Vec<usize>>)
    requires
        forall|i: int| 0 <= i < cache@.len() ==> (#[trigger] cache@[i]).level <= i,
    ensures
        levels@.len() == level_count_of(cache@, cache@.len() as int),
        forall|l: int|
            0 <= l < levels@.len() ==> (#[trigger] levels@[l])@ == level_nodes(cache@, l),
{
    let mut count: usize = 0;
    let mut i: usize = 0;
    while i < cache.len()
        invariant
            i <= cache@.len(),
            forall|i: int| 0 <= i < cache@.len() ==> (#[trigger] cache@[i]).level <= i,
            count <= i,
            count == level_count_of(cache@, i as int),
            forall|j: int| 0 <= j < i ==> (#[trigger] cache@[j]).level < count,
        decreases cache@.len() - i,
    {
        let above: usize = cache[i].level + 1;
        if above > count {
            count = above;
        }
        i = i + 1;
    }
    let mut levels: Vec<Vec<usize>> = Vec::new();
    let mut l: usize = 0;
    while l < count
        invariant
            l <= count,
            levels@.len() == l,
            forall|m: int| 0 <= m < l ==> (#[trigger] levels@[m])@ == nodes_at(cache@, m, 0),
        decreases count - l,
    {
        levels.push(Vec::new());
        l = l + 1;
    }
    let mut node: usize = 0;
    while node < cache.len()
        invariant
            node <= cache@.len(),
            count == levels@.len(),
            forall|j: int| 0 <= j < cache@.len() ==> (#[trigger] cache@[j]).level < count,
            forall|m: int|
                0 <= m < levels@.len() ==> (#[trigger] levels@[m])@ == nodes_at(
                    cache@,
                    m,
                    node as int,
                ),
        decreases cache@.len() - node,
    {
        let ghost before = levels@;
        let level: usize = cache[node].level;
        levels[level].push(node);
        assert forall|m: int| 0 <= m < levels@.len() implies (#[trigger] levels@[m])@ == nodes_at(
            cache@,
            m,
            node + 1,
        ) by {
            assert(before[m]@ == nodes_at(cache@, m, node as int));
        }
        node = node + 1;
    }
    levels
}

fn widest_level(levels: &Vec<Vec<usize>>, Ghost(cache): Ghost<Seq<CachedNode>>) -> (width: usize)
    requires
        forall|l: int|
            0 <= l < levels@.len() ==> (#[trigger] levels@[l])@ == level_nodes(cache, l),
    ensures
        width == widest(cache, levels@.len() as int),
{
    let mut width: usize = 0;
    let mut l: usize = 0;
    while l < levels.len()
        invariant
            l <= levels@.len(),
            forall|l: int|
                0 <= l < levels@.len() ==> (#[trigger] levels@[l])@ == level_nodes(cache, l),
            width == widest(cache, l as int),
        decreases levels@.len() - l,
    {
        assert(levels@[l as int]@ == level_nodes(cache, l as int));
        if levels[l].len() > width {
            width = levels[l].len();
        }
        l = l + 1;
    }
    width
}

// ---------------------------------------------------------------------------------------
// The run
// ---------------------------------------------------------------------------------------

/// How far a simulation has come: the fields, how many events were cut although partial
/// events were not asked for, and how many values shared a lag with an earlier one.
#[verifier::ext_equal]
pub struct Progress {
    pub fields: Seq<Seq<u64>>,
    pub strict: int,
    pub collapsed: int,
}

/// Where a simulation starts.
pub open spec fn beginning(fields: Seq<Seq<u64>>) -> Progress {
    Progress { fields, strict: 0, collapsed: 0 }
}

/// The results are outcomes of simulating nodes, all of them from the same fields.
pub open spec fn evaluates<N: Arithmetic, M: Metric>(
    s: Setup<N, M>,
    cache: Seq<CachedNode>,
    fields: Seq<Seq<u64>>,
    nodes: Seq<usize>,
    results: Seq<NodeResult>,
) -> bool {
    &&& results.len() == nodes.len()
    &&& forall|i: int|
        0 <= i < nodes.len() ==> node::node_outcome(
            s,
            fields,
            cache[nodes[i] as int],
            nodes[i] as int,
            #[trigger] results[i],
        )
}

/// The fields after the first `count` values of a node were written.
pub open spec fn written(fields: Seq<Seq<u64>>, r: NodeResult, count: int) -> Seq<Seq<u64>>
    decreases count,
{
    if count <= 0 {
        fields
    } else {
        grid::with_value(
            written(fields, r, count - 1),
            r.values@[count - 1].0 as int,
            r.flat as int,
            r.values@[count - 1].1,
        )
    }
}

/// How far a simulation has come after one more result was written.
pub open spec fn after(p: Progress, r: NodeResult) -> Progress {
    Progress {
        fields: written(p.fields, r, r.values@.len() as int),
        strict: p.strict + r.strict_fallback_count,
        collapsed: p.collapsed + r.collapsed_lag_count,
    }
}

/// How far a simulation has come after the first `count` results were written.
pub open spec fn committed(p: Progress, results: Seq<NodeResult>, count: int) -> Progress
    decreases count,
{
    if count <= 0 {
        p
    } else {
        after(committed(p, results, count - 1), results[count - 1])
    }
}

/// The first `count` values of a node are numbers.
pub open spec fn numeric(r: NodeResult, count: int) -> bool {
    forall|j: int| 0 <= j < count ==> !word::nan((#[trigger] r.values@[j]).1)
}

/// The values of the first `count` results are numbers.
pub open spec fn all_numeric(results: Seq<NodeResult>, count: int) -> bool {
    forall|i: int|
        0 <= i < count ==> numeric(#[trigger] results[i], results[i].values@.len() as int)
}

/// `results` may come of a level and lead from `p` to `q`.
pub open spec fn advances_by<N: Arithmetic, M: Metric>(
    s: Setup<N, M>,
    cache: Seq<CachedNode>,
    level: int,
    p: Progress,
    q: Progress,
    results: Seq<NodeResult>,
) -> bool {
    &&& evaluates(s, cache, p.fields, level_nodes(cache, level), results)
    &&& all_numeric(results, results.len() as int)
    &&& q == committed(p, results, results.len() as int)
}

/// A level may lead from `p` to `q`.
pub open spec fn advances<N: Arithmetic, M: Metric>(
    s: Setup<N, M>,
    cache: Seq<CachedNode>,
    level: int,
    p: Progress,
    q: Progress,
) -> bool {
    exists|results: Seq<NodeResult>| #[trigger] advances_by(s, cache, level, p, q, results)
}

/// The first `levels` levels may lead from the initial fields to `p`.
pub open spec fn reached<N: Arithmetic, M: Metric>(
    s: Setup<N, M>,
    cache: Seq<CachedNode>,
    initial: Seq<Seq<u64>>,
    levels: int,
    p: Progress,
) -> bool
    decreases levels,
{
    if levels <= 0 {
        p == beginning(initial)
    } else {
        exists|q: Progress|
            reached(s, cache, initial, levels - 1, q) && #[trigger] advances(
                s,
                cache,
                levels - 1,
                q,
                p,
            )
    }
}

/// The first value that is no number is the one at place `j` of the result at place `i`.
pub open spec fn first_nan(results: Seq<NodeResult>, i: int, j: int) -> bool {
    &&& 0 <= i < results.len()
    &&& 0 <= j < results[i].values@.len()
    &&& all_numeric(results, i)
    &&& numeric(results[i], j)
    &&& word::nan(results[i].values@[j].1)
}

/// After `level` levels that led to `p`, the next level may come to `results`, with a value
/// that is no number for the given variable and cell.
pub open spec fn breaks_at<N: Arithmetic, M: Metric>(
    s: Setup<N, M>,
    cache: Seq<CachedNode>,
    initial: Seq<Seq<u64>>,
    level: int,
    p: Progress,
    results: Seq<NodeResult>,
    variable: usize,
    flat: usize,
) -> bool {
    &&& 0 <= level < level_count_of(cache, cache.len() as int)
    &&& reached(s, cache, initial, level, p)
    &&& evaluates(s, cache, p.fields, level_nodes(cache, level), results)
    &&& exists|i: int, j: int| #[trigger]
        first_nan(results, i, j) && results[i].values@[j].0 == variable && results[i].flat == flat
}

/// The simulation may break off at a value that is no number, for the given variable and
/// cell.
pub open spec fn breaks_off<N: Arithmetic, M: Metric>(
    s: Setup<N, M>,
    cache: Seq<CachedNode>,
    initial: Seq<Seq<u64>>,
    variable: usize,
    flat: usize,
) -> bool {
    exists|level: int, p: Progress, results: Seq<NodeResult>| #[trigger]
        breaks_at(s, cache, initial, level, p, results, variable, flat)
}

/// `cache` is an outcome of what the nodes of the path look at.
pub open spec fn surveys<N: Arithmetic, M: Metric>(
    s: Setup<N, M>,
    cache: Seq<CachedNode>,
) -> bool {
    exists|all: Seq<int>| #[trigger]
        neighbors::all_reach(*s.arithmetic, s.offsets@, s.max_radius@, all) && s.model().caches(
            all,
            cache,
        )
}

/// `output` is an outcome of the simulation.
pub open spec fn completes<N: Arithmetic, M: Metric>(
    s: Setup<N, M>,
    cache: Seq<CachedNode>,
    initial: Seq<Seq<u64>>,
    num_threads: usize,
    output: SimulationOutput,
) -> bool {
    let levels = level_count_of(cache, cache.len() as int);
    &&& reached(
        s,
        cache,
        initial,
        levels,
        Progress {
            fields: grid::grid_rows(output.fields),
            strict: output.strict_fallback_count as int,
            collapsed: output.collapsed_lag_count as int,
        },
    )
    &&& output.level_count == levels
    &&& output.max_ready_width == widest(cache, levels)
    &&& output.used_threads == threads_for(num_threads, s.path@.len() as int)
}

/// Wherever a node of the path may fall back, there is a cell for it to fall back on.
pub open spec fn secured<N: Arithmetic, M: Metric>(
    s: Setup<N, M>,
    cache: Seq<CachedNode>,
    initial: Seq<Seq<u64>>,
) -> bool {
    forall|level: int, p: Progress, node: int|
        #![trigger reached(s, cache, initial, level, p), cache[node]]
        0 <= node < cache.len() && cache[node].level == level && reached(
            s,
            cache,
            initial,
            level,
            p,
        ) ==> node::secure(s, p.fields, cache[node], node)
}

/// A simulation can be run: the sizes can be multiplied, and inputs that match each other and
/// have a cell to copy describe a simulation, in which every node that falls back has a cell to
/// fall back on.
pub open spec fn runnable<N: Arithmetic, M: Metric>(
    s: Setup<N, M>,
    initial: Seq<Seq<u64>>,
) -> bool {
    &&& s.measurable()
    &&& s.consistent(initial) && s.resolvable() ==> {
        &&& s.sensible()
        &&& forall|cache: Seq<CachedNode>| #[trigger]
            surveys(s, cache) ==> secured(s, cache, initial)
    }
}

/// Inputs that describe a simulation can be run where the numbers of every node draw a cell of
/// the training image, whether or not the node falls back.
pub proof fn landing_numbers_suffice<N: Arithmetic, M: Metric>(
    s: Setup<N, M>,
    initial: Seq<Seq<u64>>,
)
    requires
        s.measurable(),
        s.sensible(),
        forall|i: int|
            0 <= i < s.path@.len() ==> #[trigger] s.drawable(i) && s.lands(i),
    ensures
        runnable(s, initial),
{
    assert forall|cache: Seq<CachedNode>| #[trigger] surveys(s, cache) implies secured(
        s,
        cache,
        initial,
    ) by {
        assert forall|level: int, p: Progress, node: int|
            #![trigger reached(s, cache, initial, level, p), cache[node]]
            0 <= node < cache.len() && cache[node].level == level && reached(
                s,
                cache,
                initial,
                level,
                p,
            ) implies node::secure(s, p.fields, cache[node], node) by {
            assert(s.drawable(node) && s.lands(node));
        }
    }
}

/// A node can be simulated from the given fields.
pub open spec fn calculable<N: Arithmetic, M: Metric>(
    s: &Setup<N, M>,
    cache: &Vec<CachedNode>,
    fields: &ValueGrid,
    node: usize,
) -> bool {
    &&& node < cache@.len()
    &&& gathering::ready(*s, grid::grid_rows(*fields), cache@[node as int], node as int)
    &&& node::secure(*s, grid::grid_rows(*fields), cache@[node as int], node as int)
}

/// `r` is an outcome of simulating a node from the given fields.
pub open spec fn calculates<N: Arithmetic, M: Metric>(
    s: &Setup<N, M>,
    cache: &Vec<CachedNode>,
    fields: &ValueGrid,
    node: usize,
    r: NodeResult,
) -> bool {
    node::node_outcome(*s, grid::grid_rows(*fields), cache@[node as int], node as int, r)
}

/// Simulates the nodes of a level, all of them from the same fields.
fn evaluate_level<N: Arithmetic + Sync, M: Metric + Sync>(
    s: &Setup<N, M>,
    cache: &Vec<CachedNode>,
    fields: &ValueGrid,
    nodes: &Vec<usize>,
    pool: &Option<Pool>,
    finite_all: &[usize],
    ti_has_nan: bool,
) -> (results: Vec<NodeResult>)
    requires
        forall|i: int|
            0 <= i < nodes@.len() ==> calculable(s, cache, fields, #[trigger] nodes@[i]),
        finite_all@ == image::complete_cells(s.ti_rows(), index::size(s.ti_shape@)),
        ti_has_nan == image::incomplete(s.ti_rows()),
    ensures
        evaluates(*s, cache@, grid::grid_rows(*fields), nodes@, results@),
{
    let calculate = |node: usize| -> (r: NodeResult)
        requires
            calculable(s, cache, fields, node),
        ensures
            calculates(s, cache, fields, node, r),
        { node::simulate_node(s, node, &cache[node], fields, finite_all, ti_has_nan) };
    match pool {
        Some(pool) => pool::map_in_pool(&pool.threads, nodes, calculate),
        None => {
            let mut results: Vec<NodeResult> = Vec::new();
            let mut i: usize = 0;
            while i < nodes.len()
                invariant
                    i <= nodes@.len(),
                    forall|i: int|
                        0 <= i < nodes@.len() ==> call_requires(
                            calculate,
                            (#[trigger] nodes@[i],),
                        ),
                    forall|node: usize, r: NodeResult| #[trigger]
                        call_ensures(calculate, (node,), r) ==> calculates(
                            s,
                            cache,
                            fields,
                            node,
                            r,
                        ),
                    results@.len() == i,
                    forall|j: int|
                        0 <= j < i ==> node::node_outcome(
                            *s,
                            grid::grid_rows(*fields),
                            cache@[nodes@[j] as int],
                            nodes@[j] as int,
                            #[trigger] results@[j],
                        ),
                decreases nodes@.len() - i,
            {
                let result: NodeResult = calculate(nodes[i]);
                results.push(result);
                i = i + 1;
            }
            results
        },
    }
}

// ---------------------------------------------------------------------------------------
// The engine
// ---------------------------------------------------------------------------------------

/// A simulation under way.
struct Run {
    fields: ValueGrid,
    strict: usize,
    collapsed: usize,
}

impl View for Run {
    type V = Progress;

    closed spec fn view(&self) -> Progress {
        Progress {
            fields: grid::grid_rows(self.fields),
            strict: self.strict as int,
            collapsed: self.collapsed as int,
        }
    }
}

/// The fields have as many rows and columns as these.
pub open spec fn same_size(fields: Seq<Seq<u64>>, other: Seq<Seq<u64>>) -> bool {
    &&& fields.len() == other.len()
    &&& forall|v: int| 0 <= v < fields.len() ==> (#[trigger] fields[v]).len() == other[v].len()
}

/// The values of a result have a place in the fields.
pub open spec fn placed(fields: Seq<Seq<u64>>, r: NodeResult) -> bool {
    forall|j: int|
        0 <= j < r.values@.len() ==> {
            &&& (#[trigger] r.values@[j]).0 < fields.len()
            &&& r.flat < fields[r.values@[j].0 as int].len()
        }
}

/// Writes the values of a node, up to the first that is no number. Returns the place of
/// that one.
fn write_values(fields: &mut ValueGrid, result: &NodeResult) -> (stopped: Option<usize>)
    requires
        placed(grid::grid_rows(*old(fields)), *result),
    ensures
        same_size(grid::grid_rows(*final(fields)), grid::grid_rows(*old(fields))),
        match stopped {
            None => {
                &&& numeric(*result, result.values@.len() as int)
                &&& grid::grid_rows(*final(fields)) == written(
                    grid::grid_rows(*old(fields)),
                    *result,
                    result.values@.len() as int,
                )
            },
            Some(j) => {
                &&& j < result.values@.len()
                &&& numeric(*result, j as int)
                &&& word::nan(result.values@[j as int].1)
            },
        },
{
    let ghost before = grid::grid_rows(*fields);
    let mut j: usize = 0;
    while j < result.values.len()
        invariant
            j <= result.values@.len(),
            placed(before, *result),
            numeric(*result, j as int),
            grid::grid_rows(*fields) == written(before, *result, j as int),
            before == grid::grid_rows(*old(fields)),
            same_size(grid::grid_rows(*fields), before),
        decreases result.values@.len() - j,
    {
        let (variable, value) = result.values[j];
        assert(result.values@[j as int].0 == variable);
        if word::is_nan(value) {
            return Some(j);
        }
        fields.put(variable, result.flat, value);
        j = j + 1;
    }
    None
}

/// Writes the results of a level, up to the first value that is no number. Returns the
/// variable and the cell of that one.
fn commit(
    run: &mut Run,
    results: &Vec<NodeResult>,
    Ghost(most): Ghost<int>,
    Ghost(done): Ghost<int>,
) -> (stopped: Option<(usize, usize)>)
    requires
        forall|i: int|
            0 <= i < results@.len() ==> {
                &&& placed(old(run)@.fields, #[trigger] results@[i])
                &&& results@[i].strict_fallback_count <= most
                &&& results@[i].collapsed_lag_count <= most
            },
        0 <= done,
        old(run)@.strict <= done * most,
        old(run)@.collapsed <= done * most,
        (done + results@.len()) * most <= usize::MAX,
    ensures
        same_size(final(run)@.fields, old(run)@.fields),
        match stopped {
            None => {
                &&& all_numeric(results@, results@.len() as int)
                &&& final(run)@ == committed(old(run)@, results@, results@.len() as int)
                &&& final(run)@.strict <= (done + results@.len()) * most
                &&& final(run)@.collapsed <= (done + results@.len()) * most
            },
            Some((variable, flat)) => exists|i: int, j: int| #[trigger]
                first_nan(results@, i, j) && results@[i].values@[j].0 == variable
                    && results@[i].flat == flat,
        },
{
    let ghost before = run@;
    let mut i: usize = 0;
    while i < results.len()
        invariant
            i <= results@.len(),
            forall|i: int|
                0 <= i < results@.len() ==> {
                    &&& placed(before.fields, #[trigger] results@[i])
                    &&& results@[i].strict_fallback_count <= most
                    &&& results@[i].collapsed_lag_count <= most
                },
            0 <= done,
            before == old(run)@,
            (done + results@.len()) * most <= usize::MAX,
            same_size(run@.fields, before.fields),
            all_numeric(results@, i as int),
            run@ == committed(before, results@, i as int),
            run@.strict <= (done + i) * most,
            run@.collapsed <= (done + i) * most,
        decreases results@.len() - i,
    {
        let result: &NodeResult = &results[i];
        proof {
            assert(placed(before.fields, results@[i as int]));
            assert((done + i) * most + most == (done + i + 1) * most) by (nonlinear_arith);
            assert((done + i + 1) * most <= (done + results@.len()) * most) by (nonlinear_arith)
                requires
                    i + 1 <= results@.len(),
                    0 <= most,
            ;
        }
        run.strict = run.strict + result.strict_fallback_count;
        run.collapsed = run.collapsed + result.collapsed_lag_count;
        let stopped: Option<usize> = write_values(&mut run.fields, result);
        if let Some(j) = stopped {
            assert(first_nan(results@, i as int, j as int));
            return Some((result.values[j].0, result.flat));
        }
        assert(run@ =~= committed(before, results@, i + 1));
        i = i + 1;
    }
    None
}

/// How many of the first `count` nodes belong to the first `levels` levels.
spec fn settled(cache: Seq<CachedNode>, levels: int, count: int) -> int
    decreases count,
{
    if count <= 0 {
        0
    } else {
        settled(cache, levels, count - 1) + if cache[count - 1].level < levels {
            1int
        } else {
            0int
        }
    }
}

proof fn levels_settle_nodes(cache: Seq<CachedNode>, level: int, count: int)
    requires
        0 <= count,
    ensures
        settled(cache, level + 1, count) == settled(cache, level, count) + nodes_at(
            cache,
            level,
            count,
        ).len(),
        0 <= settled(cache, level, count),
        settled(cache, level + 1, count) <= count,
        level <= 0 ==> settled(cache, level, count) == 0,
    decreases count,
{
    if count > 0 {
        levels_settle_nodes(cache, level, count - 1);
    }
}

/// The nodes of a level are nodes of the path, in order, and of that level; and none is
/// left out.
pub proof fn level_nodes_are_of_the_level(cache: Seq<CachedNode>, level: int, count: int)
    requires
        0 <= count <= cache.len(),
        cache.len() <= usize::MAX,
    ensures
        forall|i: int|
            0 <= i < nodes_at(cache, level, count).len() ==> {
                let node = #[trigger] nodes_at(cache, level, count)[i];
                node < count && cache[node as int].level == level
            },
        forall|i: int, j: int|
            0 <= i < j < nodes_at(cache, level, count).len() ==> #[trigger] nodes_at(
                cache,
                level,
                count,
            )[i] < #[trigger] nodes_at(cache, level, count)[j],
        forall|node: int|
            0 <= node < count && (#[trigger] cache[node]).level == level ==> nodes_at(
                cache,
                level,
                count,
            ).contains(node as usize),
    decreases count,
{
    if count > 0 {
        level_nodes_are_of_the_level(cache, level, count - 1);
        let before = nodes_at(cache, level, count - 1);
        let all = nodes_at(cache, level, count);
        assert forall|node: int|
            0 <= node < count && (#[trigger] cache[node]).level == level implies all.contains(
            node as usize,
        ) by {
            if node < count - 1 {
                let i = choose|i: int| 0 <= i < before.len() && before[i] == node as usize;
                assert(all[i] == node as usize);
            } else {
                assert(all[before.len() as int] == node as usize);
            }
        }
    }
}

/// What the nodes of the path look at lies in the simulation grid.
pub proof fn cached_nodes_are_usable<N: Arithmetic, M: Metric>(
    s: Setup<N, M>,
    fields: Seq<Seq<u64>>,
    cache: Seq<CachedNode>,
    node: int,
)
    requires
        s.consistent(fields),
        s.sensible(),
        surveys(s, cache),
        0 <= node < cache.len(),
    ensures
        gathering::usable(s, cache[node]),
        cache.len() == s.path@.len(),
{
    let model = s.model();
    let all = choose|all: Seq<int>| #[trigger]
        neighbors::all_reach(*s.arithmetic, s.offsets@, s.max_radius@, all) && model.caches(
            all,
            cache,
        );
    assert(model.caches_node(all, neighbors::levels_of(cache), node, cache[node]));
    assert forall|v: int| 0 <= v < s.variables() implies gathering::usable_list(
        s,
        (#[trigger] cache[node].by_variable@[v])@,
    ) by {
        let list = cache[node].by_variable@[v]@;
        assert(neighbors::reaches(*s.arithmetic, s.offsets@, s.max_radius@[v], all[v]));
        assert(model.lists(node, v, all[v], list));
        assert(0 <= model.n_neighbors[v]);
        neighbors::picks_are_eligible(model, node, v, all[v]);
        assert forall|j: int| 0 <= j < list.len() implies {
            &&& (#[trigger] list[j]).flat < index::size(s.sim_shape@)
            &&& list[j].lag@.len() == s.sim_shape@.len()
        } by {
            neighbors::neighbors_lie_in_the_grid(model, node, v, all[v], list, j);
        }
        assert forall|j: int, a: int|
            0 <= j < list.len() && 0 <= a < s.sim_shape@.len() implies -neighbors::MAX_OFFSET
            <= #[trigger] list[j].lag@[a] <= neighbors::MAX_OFFSET by {
            neighbors::neighbors_lie_in_the_grid(model, node, v, all[v], list, j);
        }
    }
}

/// Simulates level after level.
fn run_levels<N: Arithmetic + Sync, M: Metric + Sync>(
    s: &Setup<N, M>,
    cache: &Vec<CachedNode>,
    levels: &Vec<Vec<usize>>,
    initial_fields: &ValueGrid,
    pool: &Option<Pool>,
    finite_all: &[usize],
    ti_has_nan: bool,
) -> (r: Result<Run, (usize, usize)>)
    requires
        s.consistent(grid::grid_rows(*initial_fields)),
        s.resolvable(),
        s.sensible(),
        surveys(*s, cache@),
        secured(*s, cache@, grid::grid_rows(*initial_fields)),
        levels@.len() == level_count_of(cache@, cache@.len() as int),
        forall|l: int|
            0 <= l < levels@.len() ==> (#[trigger] levels@[l])@ == level_nodes(cache@, l),
        finite_all@ == image::complete_cells(s.ti_rows(), index::size(s.ti_shape@)),
        ti_has_nan == image::incomplete(s.ti_rows()),
    ensures
        match r {
            Ok(run) => reached(
                *s,
                cache@,
                grid::grid_rows(*initial_fields),
                levels@.len() as int,
                run@,
            ),
            Err((variable, flat)) => breaks_off(
                *s,
                cache@,
                grid::grid_rows(*initial_fields),
                variable,
                flat,
            ),
        },
{
    let ghost initial = grid::grid_rows(*initial_fields);
    let ghost most = s.variables() * (s.offsets@.len() + 1);
    let node_count: usize = cache.len();
    let mut run: Run = Run { fields: initial_fields.to_owned(), strict: 0, collapsed: 0 };
    proof {
        assert(run@ =~= beginning(initial));
        levels_settle_nodes(cache@, 0, node_count as int);
        assert(0 <= most) by (nonlinear_arith)
            requires
                most == s.variables() * (s.offsets@.len() + 1),
                0 <= s.variables(),
        ;
        assert(0 * most == 0) by (nonlinear_arith);
    }
    let mut l: usize = 0;
    while l < levels.len()
        invariant
            l <= levels@.len(),
            node_count == cache@.len(),
            most == s.variables() * (s.offsets@.len() + 1),
            0 <= most,
            initial == grid::grid_rows(*initial_fields),
            s.consistent(initial),
            s.resolvable(),
            s.sensible(),
            surveys(*s, cache@),
            secured(*s, cache@, initial),
            levels@.len() == level_count_of(cache@, cache@.len() as int),
            forall|l: int|
                0 <= l < levels@.len() ==> (#[trigger] levels@[l])@ == level_nodes(cache@, l),
            finite_all@ == image::complete_cells(s.ti_rows(), index::size(s.ti_shape@)),
            ti_has_nan == image::incomplete(s.ti_rows()),
            same_size(run@.fields, initial),
            reached(*s, cache@, initial, l as int, run@),
            0 <= settled(cache@, l as int, node_count as int),
            run@.strict <= settled(cache@, l as int, node_count as int) * most,
            run@.collapsed <= settled(cache@, l as int, node_count as int) * most,
        decreases levels@.len() - l,
    {
        let ghost before = run@;
        let ghost done = settled(cache@, l as int, node_count as int);
        let nodes: &Vec<usize> = &levels[l];
        proof {
            assert(levels@[l as int]@ == level_nodes(cache@, l as int));
            level_nodes_are_of_the_level(cache@, l as int, node_count as int);
            levels_settle_nodes(cache@, l as int, node_count as int);
            assert(s.consistent(before.fields));
            assert forall|i: int| 0 <= i < nodes@.len() implies calculable(
                s,
                cache,
                &run.fields,
                #[trigger] nodes@[i],
            ) by {
                let node = nodes@[i];
                assert(node == nodes_at(cache@, l as int, node_count as int)[i]);
                cached_nodes_are_usable(*s, initial, cache@, node as int);
                assert(reached(*s, cache@, initial, l as int, before));
                assert(cache@[node as int].level == l);
            }
        }
        let results: Vec<NodeResult> = evaluate_level(
            s,
            cache,
            &run.fields,
            nodes,
            pool,
            finite_all,
            ti_has_nan,
        );
        proof {
            assert forall|i: int| 0 <= i < results@.len() implies {
                &&& placed(before.fields, #[trigger] results@[i])
                &&& results@[i].strict_fallback_count <= most
                &&& results@[i].collapsed_lag_count <= most
            } by {
                let node = nodes@[i];
                assert(node == nodes_at(cache@, l as int, node_count as int)[i]);
                results_have_a_place(*s, before.fields, cache@, node as int, results@[i]);
            }
            if node_count > 0 {
                cached_nodes_are_usable(*s, initial, cache@, 0);
            }
            assert((done + results@.len()) * most <= node_count * most) by (nonlinear_arith)
                requires
                    done + results@.len() <= node_count,
                    0 <= most,
            ;
            assert(0 * most == 0) by (nonlinear_arith);
        }
        let stopped: Option<(usize, usize)> = commit(&mut run, &results, Ghost(most), Ghost(done));
        if let Some((variable, flat)) = stopped {
            assert(breaks_at(
                *s,
                cache@,
                initial,
                l as int,
                before,
                results@,
                variable,
                flat,
            ));
            return Err((variable, flat));
        }
        proof {
            assert(advances_by(*s, cache@, l as int, before, run@, results@));
            assert(advances(*s, cache@, l + 1 - 1, before, run@));
            levels_settle_nodes(cache@, l + 1, node_count as int);
        }
        l = l + 1;
    }
    Ok(run)
}

/// The values of a node have a place in the fields, and its counts are bounded.
pub proof fn results_have_a_place<N: Arithmetic, M: Metric>(
    s: Setup<N, M>,
    fields: Seq<Seq<u64>>,
    cache: Seq<CachedNode>,
    node: int,
    r: NodeResult,
)
    requires
        s.consistent(fields),
        s.sensible(),
        surveys(s, cache),
        0 <= node < cache.len(),
        node::node_outcome(s, fields, cache[node], node, r),
    ensures
        placed(fields, r),
        r.strict_fallback_count <= s.variables() * (s.offsets@.len() + 1),
        r.collapsed_lag_count <= s.variables() * (s.offsets@.len() + 1),
{
    let variables = s.variables();
    let most = s.offsets@.len() as int;
    assert(variables <= variables * (most + 1)) by (nonlinear_arith)
        requires
            0 <= variables,
            0 <= most,
    ;
    cached_nodes_are_usable(s, fields, cache, node);
    node::node_counts_are_bounded(s, fields, cache[node], node, r);
    node::nodes_receive_what_they_lack(s, fields, cache[node], node, r);
    let flat = s.model().cell(node);
    gathering::lacking_variables_lack_values(fields, flat, variables);
    assert(index::inside(s.model().path[node]@, s.sim_shape@));
    index::cells_have_positions(s.path@[node]@, s.sim_shape@);
    let targets = gathering::lacking(fields, flat, variables);
    assert forall|j: int| 0 <= j < r.values@.len() implies {
        &&& (#[trigger] r.values@[j]).0 < fields.len()
        &&& r.flat < fields[r.values@[j].0 as int].len()
    } by {
        assert(targets[j] < variables);
        assert(fields[targets[j] as int].len() == index::size(s.sim_shape@));
    }
}

/// `result` is an outcome of the simulation.
///
/// It fails where the inputs do not match each other in size, where no cell of the training
/// image has a value for every variable, where a value comes out that is no number, and where
/// it takes threads that cannot be had; and nowhere else.
pub open spec fn simulates<N: Arithmetic, M: Metric>(
    s: Setup<N, M>,
    initial: Seq<Seq<u64>>,
    num_threads: usize,
    result: Result<SimulationOutput, String>,
) -> bool {
    match result {
        Ok(output) => {
            &&& s.consistent(initial)
            &&& s.resolvable()
            &&& exists|cache: Seq<CachedNode>| #[trigger]
                surveys(s, cache) && completes(s, cache, initial, num_threads, output)
        },
        Err(text) => {
            ||| !s.consistent(initial) && text@ == messages::shape_message()
            ||| s.consistent(initial) && !s.resolvable() && text@ == messages::undefined_message()
            ||| s.consistent(initial) && s.resolvable() && reports_nan(s, initial, text@)
            ||| s.consistent(initial) && s.resolvable() && threads_for(
                num_threads,
                s.path@.len() as int,
            ) > 1 && exists|reason: Seq<char>| text@ == #[trigger] messages::pool_message(reason)
        },
    }
}

/// The text tells of a value at which the simulation may break off.
pub open spec fn reports_nan<N: Arithmetic, M: Metric>(
    s: Setup<N, M>,
    initial: Seq<Seq<u64>>,
    text: Seq<char>,
) -> bool {
    exists|cache: Seq<CachedNode>, variable: usize, flat: usize| #[trigger]
        breaks_off(s, cache, initial, variable, flat) && surveys(s, cache) && text
            == messages::nan_message(variable, flat)
}

/// What is known once the inputs are found to match: which cells of the training image have a
/// value for every variable, and whether some lack one.
fn check_inputs<N: Arithmetic, M: Metric>(
    s: &Setup<N, M>,
    initial_fields: &ValueGrid,
) -> (r: Result<(Vec<usize>, bool), String>)
    requires
        s.measurable(),
    ensures
        match r {
            Ok((finite_all, ti_has_nan)) => {
                &&& s.consistent(grid::grid_rows(*initial_fields))
                &&& s.resolvable()
                &&& finite_all@ == image::complete_cells(s.ti_rows(), index::size(s.ti_shape@))
                &&& ti_has_nan == image::incomplete(s.ti_rows())
            },
            Err(text) => {
                ||| !s.consistent(grid::grid_rows(*initial_fields)) && text@
                    == messages::shape_message()
                ||| s.consistent(grid::grid_rows(*initial_fields)) && !s.resolvable() && text@
                    == messages::undefined_message()
            },
        },
{
    if !s.is_consistent(initial_fields) {
        return Err(messages::shape_text());
    }
    let ti_size: i64 = index::cell_total(s.ti_shape);
    assert(s.ti_rows()[0].len() == index::size(s.ti_shape@));
    let ti_has_nan: bool = image::is_incomplete(s.ti);
    let finite_all: Vec<usize> = image::jointly_defined(s.ti, ti_size as usize);
    if ti_has_nan && finite_all.len() == 0 {
        return Err(messages::undefined_text());
    }
    Ok((finite_all, ti_has_nan))
}

/// Runs a simulation whose inputs match, on the threads that were asked for.
///
/// Where there are none of them, it fails with the reason. Where they are there, it fails at a
/// value that is no number, and at nothing else.
pub fn run_in_pool<N: Arithmetic + Sync, M: Metric + Sync>(
    s: &Setup<N, M>,
    initial_fields: &ValueGrid,
    num_threads: usize,
    pool: Result<Option<Pool>, rayon::ThreadPoolBuildError>,
    finite_all: &[usize],
    ti_has_nan: bool,
) -> (result: Result<SimulationOutput, String>)
    requires
        s.consistent(grid::grid_rows(*initial_fields)),
        s.resolvable(),
        runnable(*s, grid::grid_rows(*initial_fields)),
        pool::serves(pool, threads_for(num_threads, s.path@.len() as int)),
        finite_all@ == image::complete_cells(s.ti_rows(), index::size(s.ti_shape@)),
        ti_has_nan == image::incomplete(s.ti_rows()),
    ensures
        simulates(*s, grid::grid_rows(*initial_fields), num_threads, result),
        pool is Ok ==> (result matches Err(text) ==> reports_nan(
            *s,
            grid::grid_rows(*initial_fields),
            text@,
        )),
        pool is Err ==> (result matches Err(text) && exists|reason: Seq<char>|
            text@ == #[trigger] messages::pool_message(reason)),
{
    let ghost initial = grid::grid_rows(*initial_fields);
    let pool: Option<Pool> = match pool {
        Ok(pool) => pool,
        Err(error) => {
            let reason: String = pool::pool_error_text(error);
            return Err(messages::pool_text(&reason));
        },
    };
    let used_threads: usize = match &pool {
        Some(pool) => pool.asked,
        None => 1,
    };
    let cache: Vec<CachedNode> = neighbors::build_neighbor_cache(
        s.arithmetic,
        s.path,
        s.sim_shape,
        s.offsets,
        s.conditioned,
        s.n_neighbors,
        s.max_radius,
    );
    assert(surveys(*s, cache@));
    let levels: Vec<Vec<usize>> = sort_into_levels(&cache);
    let max_ready_width: usize = widest_level(&levels, Ghost(cache@));
    match run_levels(s, &cache, &levels, initial_fields, &pool, finite_all, ti_has_nan) {
        Err((variable, flat)) => Err(messages::nan_text(variable, flat)),
        Ok(run) => {
            let output = SimulationOutput {
                fields: run.fields,
                strict_fallback_count: run.strict,
                level_count: levels.len(),
                max_ready_width,
                used_threads,
                collapsed_lag_count: run.collapsed,
            };
            assert(completes(*s, cache@, initial, num_threads, output));
            Ok(output)
        },
    }
}

/// Runs a simulation.
pub fn simulate<N: Arithmetic + Sync, M: Metric + Sync>(
    s: &Setup<N, M>,
    initial_fields: &ValueGrid,
    num_threads: usize,
) -> (result: Result<SimulationOutput, String>)
    requires
        runnable(*s, grid::grid_rows(*initial_fields)),
    ensures
        simulates(*s, grid::grid_rows(*initial_fields), num_threads, result),
{
    match check_inputs(s, initial_fields) {
        Err(text) => Err(text),
        Ok((finite_all, ti_has_nan)) => {
            let used_threads: usize = thread_count(num_threads, s.path.len());
            run_in_pool(
                s,
                initial_fields,
                num_threads,
                pool::open_pool(used_threads),
                &finite_all,
                ti_has_nan,
            )
        },
    }
}

/// The setup of a simulation with these inputs.
pub open spec fn setup_of<'a, N: Arithmetic, M: Metric>(
    arithmetic: &'a N,
    metric: &'a M,
    ti: &'a ValueGrid,
    ti_shape: &'a [i64],
    conditioned: &'a [Vec<u8>],
    sim_shape: &'a [i64],
    path: &'a [Vec<i64>],
    lag_matrices: &'a [Vec<Vec<u64>>],
    u_start: &'a [u64],
    u_fallback: &'a [Vec<u64>],
    offsets: &'a [Vec<i64>],
    n_neighbors: &'a [i64],
    max_radius: &'a [u64],
    variable_weights: &'a [u64],
    metric_kinds: &'a [i64],
    has_nan: &'a [u8],
    d_max: &'a [u64],
    p_norm: &'a [u64],
    threshold: u64,
    scan_fraction: u64,
    distance_power: u64,
    cond_weight: u64,
    partial_boundary: bool,
) -> Setup<'a, N, M> {
    Setup {
        arithmetic,
        metric,
        ti,
        ti_shape,
        conditioned,
        sim_shape,
        path,
        lag_matrices,
        u_start,
        u_fallback,
        offsets,
        n_neighbors,
        max_radius,
        variable_weights,
        metric_kinds,
        has_nan,
        d_max,
        p_norm,
        threshold,
        scan_fraction,
        distance_power,
        cond_weight,
        partial_boundary,
    }
}

/// Runs a complete multiple-point simulation.
///
/// The path and the random numbers are inputs, so a simulation is reproducible. What the
/// nodes of the path look at sorts them into levels: nodes of one level are independent of
/// each other, are simulated on as many as `num_threads` threads where the path is long
/// enough, and are written in the order of the path.
///
/// * `ti`, `ti_shape`: the training image, one row per variable, and its shape;
/// * `initial_fields`, `sim_shape`: the simulation grid, one row per variable, with NaN where
///   a value is to be simulated, and its shape;
/// * `conditioned`: which values are given;
/// * `path`: the nodes to simulate, in order;
/// * `lag_matrices`: for each node, the matrix that maps lags of the simulation grid to lags of
///   the training image; none at all for lags that stay as they are;
/// * `u_start`: for each node, where in its window the scan starts, as a number from 0 to 1;
/// * `u_fallback`: for each node, where in the training image the cell lies that is copied when
///   the event of the node is matched nowhere, as numbers from 0 to 1;
/// * `offsets`: the lags to look at, in order;
/// * `n_neighbors`, `max_radius`: how many cells a node looks at, at most, and how far, per
///   variable; NaN for any distance;
/// * `variable_weights`, `metric_kinds`, `has_nan`, `d_max`, `p_norm`: what distances go by, per
///   variable;
/// * `threshold`: the distance that ends a scan; at most zero where only an exact match does;
/// * `scan_fraction`: how much of the training image a scan looks at;
/// * `distance_power`, `cond_weight`: how weights decay with distance, and what the weight of a
///   given value is multiplied by;
/// * `partial_boundary`: whether partial events are what the caller asks for.
pub fn simulate_engine<N: Arithmetic + Sync, M: Metric + Sync>(
    arithmetic: &N,
    metric: &M,
    ti: &ValueGrid,
    ti_shape: &[i64],
    initial_fields: &ValueGrid,
    conditioned: &[Vec<u8>],
    sim_shape: &[i64],
    path: &[Vec<i64>],
    lag_matrices: &[Vec<Vec<u64>>],
    u_start: &[u64],
    u_fallback: &[Vec<u64>],
    offsets: &[Vec<i64>],
    n_neighbors: &[i64],
    max_radius: &[u64],
    variable_weights: &[u64],
    metric_kinds: &[i64],
    has_nan: &[u8],
    d_max: &[u64],
    p_norm: &[u64],
    threshold: u64,
    scan_fraction: u64,
    distance_power: u64,
    cond_weight: u64,
    partial_boundary: bool,
    num_threads: usize,
) -> (result: Result<SimulationOutput, String>)
    requires
        runnable(
            setup_of(
                arithmetic,
                metric,
                ti,
                ti_shape,
                conditioned,
                sim_shape,
                path,
                lag_matrices,
                u_start,
                u_fallback,
                offsets,
                n_neighbors,
                max_radius,
                variable_weights,
                metric_kinds,
                has_nan,
                d_max,
                p_norm,
                threshold,
                scan_fraction,
                distance_power,
                cond_weight,
                partial_boundary,
            ),
            grid::grid_rows(*initial_fields),
        ),
    ensures
        simulates(
            setup_of(
                arithmetic,
                metric,
                ti,
                ti_shape,
                conditioned,
                sim_shape,
                path,
                lag_matrices,
                u_start,
                u_fallback,
                offsets,
                n_neighbors,
                max_radius,
                variable_weights,
                metric_kinds,
                has_nan,
                d_max,
                p_norm,
                threshold,
                scan_fraction,
                distance_power,
                cond_weight,
                partial_boundary,
            ),
            grid::grid_rows(*initial_fields),
            num_threads,
            result,
        ),
{
    let s = Setup {
        arithmetic,
        metric,
        ti,
        ti_shape,
        conditioned,
        sim_shape,
        path,
        lag_matrices,
        u_start,
        u_fallback,
        offsets,
        n_neighbors,
        max_radius,
        variable_weights,
        metric_kinds,
        has_nan,
        d_max,
        p_norm,
        threshold,
        scan_fraction,
        distance_power,
        cond_weight,
        partial_boundary,
    };
    simulate(&s, initial_fields, num_threads)
}

} // verus!
