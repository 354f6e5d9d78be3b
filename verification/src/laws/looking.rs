//! Which cells a node of the path looks at, and which nodes it waits for.

use crate::arithmetic::{self, Arithmetic};
use crate::exactness::{self, Reading};
use crate::index;
use crate::mps_engine;
use crate::neighbors::{self, CachedNode, Neighbor, PathModel};
use crate::setup::{Metric, Setup};
use crate::word;
use vstd::prelude::*;

verus! {

/// The cell at offset `k` from a node.
pub open spec fn target(model: PathModel, node: int, k: int) -> Seq<i64> {
    index::shifted(model.path[node]@, model.offsets[k]@)
}

/// The cell at offset `k` from a node lies in the grid.
pub open spec fn reachable(model: PathModel, node: int, k: int) -> bool {
    forall|a: int|
        0 <= a < model.shape.len() ==> 0 <= #[trigger] model.path[node]@[a] + model.offsets[k]@[a]
            < model.shape[a]
}

/// A variable has a value in the cell at offset `k` when it is the turn of the node: the value is
/// given, whatever the path visits later, or no node lies there from this one on.
pub open spec fn known(model: PathModel, node: int, variable: int, k: int) -> bool {
    let cell = target(model, node, k);
    ||| model.conditioned[variable]@[index::dot(cell, index::strides_of(model.shape))] != 0
    ||| forall|i: int| node <= i < model.path.len() ==> (#[trigger] model.path[i])@ != cell
}

/// The list of a node follows the offsets `ks`, which come in order: entry `j` is the cell at
/// offset `ks[j]`.
pub open spec fn follows_offsets(
    model: PathModel,
    node: int,
    list: Seq<Neighbor>,
    ks: Seq<int>,
) -> bool {
    &&& list.len() == ks.len()
    &&& forall|i: int, j: int| 0 <= i < j < ks.len() ==> #[trigger] ks[i] < #[trigger] ks[j]
    &&& forall|j: int|
        0 <= j < ks.len() ==> {
            &&& 0 <= #[trigger] ks[j] < model.offsets.len()
            &&& list[j].lag@ == model.offsets[ks[j]]@
            &&& list[j].flat == index::dot(
                target(model, node, ks[j]),
                index::strides_of(model.shape),
            )
        }
}

proof fn last_visits_are_last(model: PathModel, count: int, flat: int)
    requires
        0 <= count,
    ensures
        -1 <= model.last_visit(count, flat) < count,
        model.last_visit(count, flat) >= 0 ==> model.cell(model.last_visit(count, flat)) == flat,
        forall|i: int|
            model.last_visit(count, flat) < i < count ==> #[trigger] model.cell(i) != flat,
    decreases count,
{
    if count > 0 && model.cell(count - 1) != flat {
        last_visits_are_last(model, count - 1, flat);
    }
}

proof fn eligible_cells_are_known(model: PathModel, node: int, variable: int, k: int)
    requires
        model.wf(),
        0 <= node < model.path.len(),
        0 <= variable < model.conditioned.len(),
        0 <= k < model.offsets.len(),
    ensures
        model.eligible(node, variable, k) <==> reachable(model, node, k) && known(
            model,
            node,
            variable,
            k,
        ),
{
    let strides = index::strides_of(model.shape);
    let cell = target(model, node, k);
    let flat = index::dot(cell, strides);
    assert(model.in_grid(node, k) == reachable(model, node, k));
    assert(index::inside(model.path[node]@, model.shape));
    assert(model.offsets[k]@.len() == model.shape.len());
    if reachable(model, node, k) {
        assert forall|a: int| 0 <= a < model.shape.len() implies 0 <= #[trigger] cell[a]
            < model.shape[a] by {
            assert(0 <= model.path[node]@[a] + model.offsets[k]@[a] < model.shape[a]);
        }
        last_visits_are_last(model, model.path.len() as int, flat);
        let last = model.last_visit(model.path.len() as int, flat);
        if last >= node {
            assert(index::inside(model.path[last]@, model.shape));
            index::cells_have_distinct_positions(model.path[last]@, cell, model.shape);
        } else {
            assert forall|i: int| node <= i < model.path.len() implies (
            #[trigger] model.path[i])@ != cell by {
                assert(model.cell(i) != flat);
            }
        }
    }
}

proof fn eligible_cells_are_picked(
    model: PathModel,
    node: int,
    variable: int,
    count: int,
    k: int,
)
    requires
        0 <= k < count,
        model.eligible(node, variable, k),
        0 <= model.n_neighbors[variable],
    ensures
        model.picks(node, variable, count).contains(k) || (model.picks(node, variable, count).len()
            == model.n_neighbors[variable] && forall|j: int|
            0 <= j < model.picks(node, variable, count).len() ==> #[trigger] model.picks(
                node,
                variable,
                count,
            )[j] < k),
    decreases count,
{
    let all = model.picks(node, variable, count);
    let before = model.picks(node, variable, count - 1);
    neighbors::picks_are_eligible(model, node, variable, count - 1);
    neighbors::picks_are_eligible(model, node, variable, count);
    if k < count - 1 {
        eligible_cells_are_picked(model, node, variable, count - 1, k);
        if before.contains(k) {
            let j = choose|j: int| 0 <= j < before.len() && before[j] == k;
            assert(all[j] == k);
        }
    } else if before.len() < model.n_neighbors[variable] {
        assert(all[before.len() as int] == k);
    } else {
        assert forall|j: int| 0 <= j < all.len() implies #[trigger] all[j] < k by {
            assert(before[j] < count - 1);
        }
    }
}

/// A node looks at the first cells that are known, as many as it may: each cell of its list lies at
/// an offset within its reach, in the grid, and has a value; the offsets come in order; and a cell
/// at an offset within reach that lies in the grid and has a value is left out only where the list
/// is full of cells at earlier offsets. Given values count as known, whatever the path visits later.
pub proof fn nodes_look_at_the_first_cells_that_are_known(
    model: PathModel,
    reaches: Seq<int>,
    cache: Seq<CachedNode>,
    node: int,
    variable: int,
) -> (ks: Seq<int>)
    requires
        model.wf(),
        model.caches(reaches, cache),
        0 <= node < model.path.len(),
        0 <= variable < model.conditioned.len(),
        0 <= reaches[variable] <= model.offsets.len(),
    ensures
        follows_offsets(model, node, cache[node].by_variable@[variable]@, ks),
        ks.len() <= model.n_neighbors[variable],
        forall|j: int|
            0 <= j < ks.len() ==> #[trigger] ks[j] < reaches[variable] && reachable(
                model,
                node,
                ks[j],
            ) && known(model, node, variable, ks[j]),
        forall|k: int|
            0 <= k < reaches[variable] && #[trigger] reachable(model, node, k) && known(
                model,
                node,
                variable,
                k,
            ) ==> ks.contains(k) || (ks.len() == model.n_neighbors[variable] && forall|j: int|
                0 <= j < ks.len() ==> #[trigger] ks[j] < k),
{
    let reach = reaches[variable];
    let ks = model.picks(node, variable, reach);
    let list = cache[node].by_variable@[variable]@;
    assert(model.caches_node(reaches, neighbors::levels_of(cache), node, cache[node]));
    assert(model.lists(node, variable, reach, list));
    assert(0 <= model.n_neighbors[variable]);
    neighbors::picks_are_eligible(model, node, variable, reach);
    assert forall|j: int| 0 <= j < ks.len() implies {
        &&& 0 <= #[trigger] ks[j] < reach
        &&& reachable(model, node, ks[j])
        &&& known(model, node, variable, ks[j])
        &&& list[j].lag@ == model.offsets[ks[j]]@
        &&& list[j].flat == index::dot(
            target(model, node, ks[j]),
            index::strides_of(model.shape),
        )
    } by {
        assert(model.eligible(node, variable, ks[j]));
        eligible_cells_are_known(model, node, variable, ks[j]);
        assert(list[j].flat == model.flat_at(node, ks[j]));
    }
    assert forall|k: int|
        0 <= k < reach && #[trigger] reachable(model, node, k) && known(
            model,
            node,
            variable,
            k,
        ) implies ks.contains(k) || (ks.len() == model.n_neighbors[variable] && forall|j: int|
            0 <= j < ks.len() ==> #[trigger] ks[j] < k) by {
        eligible_cells_are_known(model, node, variable, k);
        eligible_cells_are_picked(model, node, variable, reach, k);
    }
    ks
}

/// A given value within reach is looked at where there is room for it: the list of the node holds
/// its cell, or is full.
pub proof fn given_values_are_looked_at(
    model: PathModel,
    reaches: Seq<int>,
    cache: Seq<CachedNode>,
    node: int,
    variable: int,
    k: int,
)
    requires
        model.wf(),
        model.caches(reaches, cache),
        0 <= node < model.path.len(),
        0 <= variable < model.conditioned.len(),
        0 <= k < reaches[variable] <= model.offsets.len(),
        reachable(model, node, k),
        model.conditioned[variable]@[index::dot(
            target(model, node, k),
            index::strides_of(model.shape),
        )] != 0,
    ensures
        cache[node].by_variable@[variable]@.len() == model.n_neighbors[variable] || exists|j: int|
            0 <= j < cache[node].by_variable@[variable]@.len() && {
                &&& (#[trigger] cache[node].by_variable@[variable]@[j]).lag@ == model.offsets[k]@
                &&& cache[node].by_variable@[variable]@[j].flat == index::dot(
                    target(model, node, k),
                    index::strides_of(model.shape),
                )
            },
{
    let ks = nodes_look_at_the_first_cells_that_are_known(model, reaches, cache, node, variable);
    assert(known(model, node, variable, k));
    if ks.contains(k) {
        let j = choose|j: int| 0 <= j < ks.len() && ks[j] == k;
        assert(cache[node].by_variable@[variable]@[j].lag@ == model.offsets[k]@);
    }
}

/// The square of component `a` of an offset.
pub open spec fn squares_of(offset: Seq<i64>) -> spec_fn(int) -> int {
    |a: int| offset[a] * offset[a]
}

/// The squared length of an offset.
pub open spec fn square_length(offset: Seq<i64>) -> int {
    exactness::series(squares_of(offset), offset.len() as int)
}

/// The squared lengths of an offset, component by component, are at hand.
pub open spec fn moderate(r: Reading, offset: Seq<i64>) -> bool {
    forall|k: int|
        0 <= k <= offset.len() ==> r.holds(
            #[trigger] exactness::series(squares_of(offset), k) * r.scale,
        )
}

/// Where the operations are exact, the squared length of an offset is the sum of the squares of its
/// components.
pub proof fn lengths_are_euclidean<N: Arithmetic>(
    n: N,
    r: Reading,
    offset: Seq<i64>,
    d: u64,
)
    requires
        r.exact(n),
        forall|a: int|
            0 <= a < offset.len() ==> -neighbors::MAX_OFFSET <= #[trigger] offset[a]
                <= neighbors::MAX_OFFSET,
        moderate(r, offset),
        neighbors::squares(n, offset, d),
    ensures
        r.says(d, square_length(offset) * r.scale),
{
    let f = squares_of(offset);
    let g = crate::laws::lags::scaled(f, r.scale);
    let steps = neighbors::square_steps(n, offset);
    assert forall|i: int, p: u64, q: u64|
        0 <= i < offset.len() && #[trigger] steps(i, p, q) && r.says(
            p,
            exactness::series(g, i),
        ) implies r.says(q, exactness::series(g, i + 1)) by {
        let c = offset[i];
        let s = r.scale;
        let number = choose|number: u64| #[trigger]
            arithmetic::numbers(n, (c * c) as i64, number) && arithmetic::adds(n, p, number, q);
        assert(0 <= c * c <= 3_037_000_499 * 3_037_000_499) by (nonlinear_arith)
            requires
                -3_037_000_499 <= c <= 3_037_000_499,
        ;
        crate::laws::lags::scaled_series(f, s, i);
        crate::laws::lags::scaled_series(f, s, i + 1);
        assert(exactness::series(f, i + 1) == exactness::series(f, i) + c * c);
        squares_do_not_shrink(offset, i);
        assert(r.holds(exactness::series(f, i + 1) * s));
        assert(r.holds(exactness::series(f, i) * s));
        assert(0 <= (c * c) * s <= exactness::series(f, i + 1) * s) by (nonlinear_arith)
            requires
                0 < s,
                0 <= c * c <= exactness::series(f, i + 1),
        ;
        assert(r.says(number, (c * c) * s));
        assert(g(i) == (c * c) * s);
        assert(exactness::series(g, i + 1) == exactness::series(g, i) + g(i));
    }
    exactness::chains_come_to_the_series(r, steps, g, offset.len() as int, d);
    crate::laws::lags::scaled_series(f, r.scale, offset.len() as int);
}

proof fn squares_do_not_shrink(offset: Seq<i64>, count: int)
    ensures
        0 <= exactness::series(squares_of(offset), count),
    decreases count,
{
    if count > 0 {
        squares_do_not_shrink(offset, count - 1);
        let c = offset[count - 1];
        assert(0 <= c * c) by (nonlinear_arith);
    }
}

/// A node looks as far as its radius: the offsets within its reach are those before the first one
/// that is longer than the radius. Where the operations are exact, an offset is longer where its
/// squared length exceeds the square of the radius.
pub proof fn nodes_look_as_far_as_their_radius<N: Arithmetic>(
    n: N,
    r: Reading,
    offsets: Seq<Vec<i64>>,
    radius: u64,
    length: int,
    limit: int,
    reach: int,
)
    requires
        r.exact(n),
        forall|k: int, a: int|
            0 <= k < offsets.len() && 0 <= a < offsets[k]@.len() ==> -neighbors::MAX_OFFSET
                <= #[trigger] offsets[k]@[a] <= neighbors::MAX_OFFSET,
        forall|k: int| 0 <= k < offsets.len() ==> moderate(r, (#[trigger] offsets[k])@),
        r.says(radius, length),
        limit * r.scale == length * length,
        r.holds(limit),
        neighbors::reaches(n, offsets, radius, reach),
    ensures
        0 <= reach <= offsets.len(),
        forall|k: int|
            0 <= k < reach ==> square_length((#[trigger] offsets[k])@) * r.scale * r.scale <= length
                * length,
        reach < offsets.len() ==> square_length(offsets[reach]@) * r.scale * r.scale > length
            * length,
{
    let s = r.scale;
    assert(word::finite(radius));
    let bound = choose|bound: u64| #[trigger]
        arithmetic::multiplies(n, radius, radius, bound) && neighbors::ends_at(
            n,
            offsets,
            bound,
            reach,
        );
    assert(r.product(length, length, limit));
    assert(r.says(bound, limit));
    assert forall|k: int, more: bool|
        0 <= k < offsets.len() && #[trigger] neighbors::exceeds(
            n,
            offsets[k]@,
            bound,
            more,
        ) implies (square_length(offsets[k]@) * s * s > length * length) == more by {
        let d = choose|d: u64| #[trigger]
            neighbors::squares(n, offsets[k]@, d) && word::below(bound, d) == more;
        assert(moderate(r, offsets[k]@));
        assert forall|a: int| 0 <= a < offsets[k]@.len() implies -neighbors::MAX_OFFSET
            <= #[trigger] offsets[k]@[a] <= neighbors::MAX_OFFSET by {}
        lengths_are_euclidean(n, r, offsets[k]@, d);
        let q = square_length(offsets[k]@) * s;
        assert((q * s > limit * s) <==> (q > limit)) by (nonlinear_arith)
            requires
                0 < s,
        ;
    }
    assert forall|k: int| 0 <= k < reach implies square_length((#[trigger] offsets[k])@) * s * s
        <= length * length by {
        assert(neighbors::exceeds(n, offsets[k]@, bound, false));
    }
    if reach < offsets.len() {
        assert(neighbors::exceeds(n, offsets[reach]@, bound, true));
    }
}

/// A given value within the radius of its variable is looked at where there is room for it. The value
/// lies within the radius where its offset is no longer than the radius, and none of the offsets
/// before it is.
pub proof fn given_values_within_the_radius_are_looked_at<N: Arithmetic, M: Metric>(
    s: Setup<N, M>,
    r: Reading,
    cache: Seq<CachedNode>,
    node: int,
    variable: int,
    k: int,
    length: int,
    limit: int,
)
    requires
        r.exact(*s.arithmetic),
        s.model().wf(),
        s.max_radius@.len() == s.conditioned@.len(),
        mps_engine::surveys(s, cache),
        0 <= node < s.path@.len(),
        0 <= variable < s.conditioned@.len(),
        0 <= k < s.offsets@.len(),
        forall|j: int| 0 <= j < s.offsets@.len() ==> moderate(r, (#[trigger] s.offsets@[j])@),
        r.says(s.max_radius@[variable], length),
        limit * r.scale == length * length,
        r.holds(limit),
        forall|j: int|
            0 <= j <= k ==> square_length((#[trigger] s.offsets@[j])@) * r.scale * r.scale <= length
                * length,
        reachable(s.model(), node, k),
        s.conditioned@[variable]@[index::dot(
            target(s.model(), node, k),
            index::strides_of(s.sim_shape@),
        )] != 0,
    ensures
        cache[node].by_variable@[variable]@.len() == s.n_neighbors@[variable] || exists|j: int|
            0 <= j < cache[node].by_variable@[variable]@.len() && {
                &&& (#[trigger] cache[node].by_variable@[variable]@[j]).lag@ == s.offsets@[k]@
                &&& cache[node].by_variable@[variable]@[j].flat == index::dot(
                    target(s.model(), node, k),
                    index::strides_of(s.sim_shape@),
                )
            },
{
    let model = s.model();
    let all = choose|all: Seq<int>| #[trigger]
        neighbors::all_reach(*s.arithmetic, s.offsets@, s.max_radius@, all) && model.caches(
            all,
            cache,
        );
    let reach = all[variable];
    assert(neighbors::reaches(*s.arithmetic, s.offsets@, s.max_radius@[variable], all[variable]));
    assert forall|j: int, a: int|
        0 <= j < s.offsets@.len() && 0 <= a < s.offsets@[j]@.len() implies -neighbors::MAX_OFFSET
        <= #[trigger] s.offsets@[j]@[a] <= neighbors::MAX_OFFSET by {
        assert(model.offsets[j]@.len() == model.shape.len());
        assert(-neighbors::MAX_OFFSET <= model.offsets[j]@[a] <= neighbors::MAX_OFFSET);
    }
    nodes_look_as_far_as_their_radius(
        *s.arithmetic,
        r,
        s.offsets@,
        s.max_radius@[variable],
        length,
        limit,
        reach,
    );
    assert(k < reach) by {
        if reach <= k {
            assert(square_length(s.offsets@[reach]@) * r.scale * r.scale <= length * length);
        }
    }
    given_values_are_looked_at(model, all, cache, node, variable, k);
}

/// Nothing beyond the radius of its variable is looked at.
pub proof fn nothing_beyond_the_radius_is_looked_at<N: Arithmetic, M: Metric>(
    s: Setup<N, M>,
    r: Reading,
    cache: Seq<CachedNode>,
    node: int,
    variable: int,
    length: int,
    limit: int,
    j: int,
)
    requires
        r.exact(*s.arithmetic),
        s.model().wf(),
        s.max_radius@.len() == s.conditioned@.len(),
        mps_engine::surveys(s, cache),
        0 <= node < s.path@.len(),
        0 <= variable < s.conditioned@.len(),
        forall|k: int| 0 <= k < s.offsets@.len() ==> moderate(r, (#[trigger] s.offsets@[k])@),
        r.says(s.max_radius@[variable], length),
        limit * r.scale == length * length,
        r.holds(limit),
        0 <= j < cache[node].by_variable@[variable]@.len(),
    ensures
        square_length(cache[node].by_variable@[variable]@[j].lag@) * r.scale * r.scale <= length
            * length,
{
    let model = s.model();
    let all = choose|all: Seq<int>| #[trigger]
        neighbors::all_reach(*s.arithmetic, s.offsets@, s.max_radius@, all) && model.caches(
            all,
            cache,
        );
    let reach = all[variable];
    assert(neighbors::reaches(*s.arithmetic, s.offsets@, s.max_radius@[variable], all[variable]));
    assert forall|k: int, a: int|
        0 <= k < s.offsets@.len() && 0 <= a < s.offsets@[k]@.len() implies -neighbors::MAX_OFFSET
        <= #[trigger] s.offsets@[k]@[a] <= neighbors::MAX_OFFSET by {
        assert(model.offsets[k]@.len() == model.shape.len());
        assert(-neighbors::MAX_OFFSET <= model.offsets[k]@[a] <= neighbors::MAX_OFFSET);
    }
    nodes_look_as_far_as_their_radius(
        *s.arithmetic,
        r,
        s.offsets@,
        s.max_radius@[variable],
        length,
        limit,
        reach,
    );
    let ks = nodes_look_at_the_first_cells_that_are_known(model, all, cache, node, variable);
    assert(cache[node].by_variable@[variable]@[j].lag@ == model.offsets[ks[j]]@);
    assert(ks[j] < reach);
    assert(square_length(s.offsets@[ks[j]]@) * r.scale * r.scale <= length * length);
}

/// A radius that is no finite number is no limit.
pub proof fn infinite_radii_are_no_limit<N: Arithmetic>(
    n: N,
    offsets: Seq<Vec<i64>>,
    radius: u64,
    reach: int,
)
    requires
        !word::finite(radius),
        neighbors::reaches(n, offsets, radius, reach),
    ensures
        reach == offsets.len(),
{
}

/// A node comes no later than it has to: above the lowest level, it looks at a cell where a node of
/// the level just below lies, for a variable whose value is not given there.
pub proof fn levels_are_no_higher_than_needed(
    model: PathModel,
    reaches: Seq<int>,
    cache: Seq<CachedNode>,
    node: int,
)
    requires
        model.wf(),
        model.caches(reaches, cache),
        0 <= node < cache.len(),
        forall|v: int|
            0 <= v < model.conditioned.len() ==> 0 <= #[trigger] reaches[v] <= model.offsets.len(),
        cache[node].level > 0,
    ensures
        exists|v: int, j: int, earlier: int|
            {
                &&& 0 <= v < model.conditioned.len()
                &&& 0 <= j < cache[node].by_variable@[v]@.len()
                &&& 0 <= earlier < node
                &&& #[trigger] cache[earlier].level == cache[node].level - 1
                &&& (#[trigger] cache[node].by_variable@[v]@[j]).flat == index::dot(
                    model.path[earlier]@,
                    index::strides_of(model.shape),
                )
                &&& model.conditioned[v]@[cache[node].by_variable@[v]@[j].flat as int] == 0
            },
{
    assert(model.caches_node(reaches, neighbors::levels_of(cache), node, cache[node]));
    let (v, j) = choose|v: int, j: int|
        0 <= v < model.conditioned.len() && 0 <= j < model.picks(node, v, reaches[v]).len() && 0
            <= #[trigger] model.awaited(node, v, reaches[v], j) && neighbors::levels_of(
            cache,
        )[model.awaited(node, v, reaches[v], j)] == cache[node].level - 1;
    let earlier = model.awaited(node, v, reaches[v], j);
    let list = cache[node].by_variable@[v]@;
    assert(model.lists(node, v, reaches[v], list));
    let k = model.picks(node, v, reaches[v])[j];
    assert(list[j].flat == model.flat_at(node, k));
    assert(0 <= reaches[v] <= model.offsets.len());
    neighbors::nodes_wait_for_lower_levels(model, reaches, cache, node, v, j);
    last_visits_are_last(model, model.path.len() as int, list[j].flat as int);
    assert(cache[earlier].level == cache[node].level - 1);
}

/// A node that looks at a cell which an earlier node gives a value comes after that node.
pub proof fn nodes_come_after_what_they_look_at(
    model: PathModel,
    reaches: Seq<int>,
    cache: Seq<CachedNode>,
    node: int,
    variable: int,
    j: int,
    earlier: int,
)
    requires
        model.wf(),
        model.caches(reaches, cache),
        0 <= node < cache.len(),
        0 <= variable < model.conditioned.len(),
        0 <= reaches[variable],
        0 <= j < cache[node].by_variable@[variable]@.len(),
        0 <= earlier < model.path.len(),
        cache[node].by_variable@[variable]@[j].flat == index::dot(
            model.path[earlier]@,
            index::strides_of(model.shape),
        ),
        model.conditioned[variable]@[cache[node].by_variable@[variable]@[j].flat as int] == 0,
        forall|i: int| earlier < i < model.path.len() ==> (#[trigger] model.path[i])@
            != model.path[earlier]@,
    ensures
        earlier < node,
        cache[earlier].level < cache[node].level,
{
    let flat = cache[node].by_variable@[variable]@[j].flat as int;
    last_visits_are_last(model, model.path.len() as int, flat);
    let last = model.last_visit(model.path.len() as int, flat);
    assert(model.cell(earlier) == flat);
    if last > earlier {
        assert(index::inside(model.path[last]@, model.shape));
        assert(index::inside(model.path[earlier]@, model.shape));
        index::cells_have_distinct_positions(
            model.path[last]@,
            model.path[earlier]@,
            model.shape,
        );
    }
    if last < earlier {
        assert(model.cell(earlier) != flat);
    }
    neighbors::nodes_wait_for_lower_levels(model, reaches, cache, node, variable, j);
}

} // verus!
