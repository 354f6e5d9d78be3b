//! Which cells each node of the simulation path looks at, and which nodes it has to
//! wait for.

use crate::arithmetic::{self, Arithmetic};
use crate::event;
use crate::index;
use crate::word;
use vstd::prelude::*;

verus! {

/// A cell that a node looks at.
pub struct Neighbor {
    /// The flat position of the cell.
    pub flat: usize,
    /// Where the cell lies, seen from the node.
    pub lag: Vec<i64>,
}

/// What a node of the path looks at, and when it can be simulated.
pub struct CachedNode {
    /// The cells, nearest first, for each variable.
    pub by_variable: Vec<Vec<Neighbor>>,
    /// How many rounds of nodes come before this one.
    pub level: usize,
}

/// A simulation path over a grid.
pub struct PathModel {
    /// The coordinates of the nodes, in the order of the path.
    pub path: Seq<Vec<i64>>,
    /// The shape of the simulation grid.
    pub shape: Seq<i64>,
    /// The lags to look at, in order of preference.
    pub offsets: Seq<Vec<i64>>,
    /// For each variable, the cells whose values are given.
    pub conditioned: Seq<Vec<u8>>,
    /// For each variable, how many cells a node looks at, at most.
    pub n_neighbors: Seq<i64>,
}

impl PathModel {
    /// The path runs through the grid, and the other parts match the grid in size.
    pub open spec fn wf(self) -> bool {
        &&& index::countable(self.shape)
        &&& forall|i: int|
            0 <= i < self.path.len() ==> index::inside((#[trigger] self.path[i])@, self.shape)
        &&& forall|k: int|
            0 <= k < self.offsets.len() ==> (#[trigger] self.offsets[k])@.len()
                == self.shape.len()
        &&& forall|k: int, a: int|
            0 <= k < self.offsets.len() && 0 <= a < self.shape.len() ==> -MAX_OFFSET
                <= #[trigger] self.offsets[k]@[a] <= MAX_OFFSET
        &&& forall|v: int|
            0 <= v < self.conditioned.len() ==> (#[trigger] self.conditioned[v])@.len()
                == index::size(self.shape)
        &&& self.n_neighbors.len() == self.conditioned.len()
        &&& forall|v: int|
            0 <= v < self.n_neighbors.len() ==> 0 <= #[trigger] self.n_neighbors[v]
    }

    /// The flat position of a node.
    pub open spec fn cell(self, node: int) -> int {
        index::dot(self.path[node]@, index::strides_of(self.shape))
    }

    /// The last of the first `count` nodes that lies at `flat`, or -1.
    pub open spec fn last_visit(self, count: int, flat: int) -> int
        decreases count,
    {
        if count <= 0 {
            -1
        } else if self.cell(count - 1) == flat {
            count - 1
        } else {
            self.last_visit(count - 1, flat)
        }
    }

    /// The node that gives a variable its value at `flat`, or -1 where no node does.
    pub open spec fn dependency(self, variable: int, flat: int) -> int {
        if self.conditioned[variable]@[flat] != 0 {
            -1
        } else {
            self.last_visit(self.path.len() as int, flat)
        }
    }

    /// The cell at offset `k` from a node lies in the grid.
    pub open spec fn in_grid(self, node: int, k: int) -> bool {
        forall|a: int|
            0 <= a < self.shape.len() ==> 0 <= #[trigger] self.path[node]@[a]
                + self.offsets[k]@[a] < self.shape[a]
    }

    /// The flat position of the cell at offset `k` from a node.
    pub open spec fn flat_at(self, node: int, k: int) -> int {
        index::dot(
            index::shifted(self.path[node]@, self.offsets[k]@),
            index::strides_of(self.shape),
        )
    }

    /// A node may look at the cell at offset `k`: the cell lies in the grid, and a node that
    /// gives it its value comes earlier in the path.
    pub open spec fn eligible(self, node: int, variable: int, k: int) -> bool {
        self.in_grid(node, k) && self.dependency(variable, self.flat_at(node, k)) < node
    }

    /// The offsets among the first `count` that a node looks at: the first eligible ones, as
    /// many as it may.
    pub open spec fn picks(self, node: int, variable: int, count: int) -> Seq<int>
        decreases count,
    {
        if count <= 0 {
            Seq::empty()
        } else {
            let before = self.picks(node, variable, count - 1);
            if before.len() >= self.n_neighbors[variable] {
                before
            } else if self.eligible(node, variable, count - 1) {
                before.push(count - 1)
            } else {
                before
            }
        }
    }

    /// The node that gives its value to the `j`-th cell that `node` looks at, or -1.
    pub open spec fn awaited(self, node: int, variable: int, reach: int, j: int) -> int {
        self.dependency(variable, self.flat_at(node, self.picks(node, variable, reach)[j]))
    }

    /// `level` is the level of a node: one above the highest level of a node that it waits
    /// for, and 0 where it waits for none.
    pub open spec fn is_level(
        self,
        reaches: Seq<int>,
        levels: Seq<int>,
        node: int,
        level: int,
    ) -> bool {
        &&& 0 <= level
        &&& forall|v: int, j: int|
            0 <= v < self.conditioned.len() && 0 <= j < self.picks(node, v, reaches[v]).len()
                && 0 <= #[trigger] self.awaited(node, v, reaches[v], j) ==> levels[self.awaited(
                node,
                v,
                reaches[v],
                j,
            )] < level
        &&& level > 0 ==> exists|v: int, j: int|
            0 <= v < self.conditioned.len() && 0 <= j < self.picks(node, v, reaches[v]).len()
                && 0 <= #[trigger] self.awaited(node, v, reaches[v], j) && levels[self.awaited(
                node,
                v,
                reaches[v],
                j,
            )] == level - 1
    }

    /// `list` are the cells that a node looks at for one variable.
    pub open spec fn lists(
        self,
        node: int,
        variable: int,
        reach: int,
        list: Seq<Neighbor>,
    ) -> bool {
        let picks = self.picks(node, variable, reach);
        &&& list.len() == picks.len()
        &&& forall|j: int|
            0 <= j < picks.len() ==> {
                &&& (#[trigger] list[j]).flat == self.flat_at(node, picks[j])
                &&& list[j].lag@ == self.offsets[picks[j]]@
            }
    }

    /// `cached` is what a node looks at, where the variables reach `reaches` offsets.
    pub open spec fn caches_node(
        self,
        reaches: Seq<int>,
        levels: Seq<int>,
        node: int,
        cached: CachedNode,
    ) -> bool {
        &&& cached.by_variable@.len() == self.conditioned.len()
        &&& forall|v: int|
            0 <= v < self.conditioned.len() ==> self.lists(
                node,
                v,
                reaches[v],
                (#[trigger] cached.by_variable@[v])@,
            )
        &&& self.is_level(reaches, levels, node, cached.level as int)
    }

    /// `cache` is what the nodes of the path look at, where the variables reach `reaches`
    /// offsets.
    pub open spec fn caches(self, reaches: Seq<int>, cache: Seq<CachedNode>) -> bool {
        &&& cache.len() == self.path.len()
        &&& forall|i: int|
            0 <= i < cache.len() ==> self.caches_node(
                reaches,
                levels_of(cache),
                i,
                #[trigger] cache[i],
            )
    }
}

/// The levels of the nodes.
pub open spec fn levels_of(cache: Seq<CachedNode>) -> Seq<int> {
    Seq::new(cache.len(), |i: int| cache[i].level as int)
}

/// The largest component of an offset whose square fits in an `i64`.
pub const MAX_OFFSET: i64 = 3_037_000_499;

/// The steps of the squared length of an offset.
pub open spec fn square_steps<N: Arithmetic>(
    n: N,
    offset: Seq<i64>,
) -> spec_fn(int, u64, u64) -> bool {
    |i: int, p: u64, q: u64| square_step(n, offset[i], p, q)
}

/// `p + component * component` may come out as `q`.
pub open spec fn square_step<N: Arithmetic>(n: N, component: i64, p: u64, q: u64) -> bool {
    exists|number: u64| #[trigger]
        arithmetic::numbers(n, (component * component) as i64, number) && arithmetic::adds(
            n,
            p,
            number,
            q,
        )
}

/// `d` is an outcome of the squared length of an offset.
pub open spec fn squares<N: Arithmetic>(n: N, offset: Seq<i64>, d: u64) -> bool {
    arithmetic::accumulates(square_steps(n, offset), offset.len() as int, d)
}

/// The squared length of an offset may come out as more than `limit`, or as no more.
pub open spec fn exceeds<N: Arithmetic>(
    n: N,
    offset: Seq<i64>,
    limit: u64,
    more: bool,
) -> bool {
    exists|d: u64| #[trigger] squares(n, offset, d) && word::below(limit, d) == more
}

/// `reach` is an outcome of how many of the offsets lie within a radius: all those before
/// the first one that is longer. A radius that is not finite is no limit.
pub open spec fn reaches<N: Arithmetic>(
    n: N,
    offsets: Seq<Vec<i64>>,
    radius: u64,
    reach: int,
) -> bool {
    if word::finite(radius) {
        exists|limit: u64| #[trigger]
            arithmetic::multiplies(n, radius, radius, limit) && ends_at(n, offsets, limit, reach)
    } else {
        reach == offsets.len()
    }
}

/// The first offset longer than `limit` may come out to be the one at `reach`.
pub open spec fn ends_at<N: Arithmetic>(
    n: N,
    offsets: Seq<Vec<i64>>,
    limit: u64,
    reach: int,
) -> bool {
    &&& 0 <= reach <= offsets.len()
    &&& forall|k: int| 0 <= k < reach ==> exceeds(n, (#[trigger] offsets[k])@, limit, false)
    &&& reach < offsets.len() ==> exceeds(n, offsets[reach]@, limit, true)
}

/// `all` are outcomes of how many of the offsets lie within the radius of each variable.
pub open spec fn all_reach<N: Arithmetic>(
    n: N,
    offsets: Seq<Vec<i64>>,
    max_radius: Seq<u64>,
    all: Seq<int>,
) -> bool {
    &&& all.len() == max_radius.len()
    &&& forall|v: int|
        0 <= v < all.len() ==> reaches(n, offsets, max_radius[v], #[trigger] all[v])
}

/// The path that the arguments of [`build_neighbor_cache`] describe.
pub open spec fn path_model(
    path: &[Vec<i64>],
    sim_shape: &[i64],
    offsets: &[Vec<i64>],
    conditioned: &[Vec<u8>],
    n_neighbors: &[i64],
) -> PathModel {
    PathModel {
        path: path@,
        shape: sim_shape@,
        offsets: offsets@,
        conditioned: conditioned@,
        n_neighbors: n_neighbors@,
    }
}

/// The squared length of an offset.
pub fn squared_length<N: Arithmetic>(n: &N, offset: &Vec<i64>) -> (d: u64)
    requires
        forall|a: int|
            0 <= a < offset@.len() ==> -MAX_OFFSET <= #[trigger] offset@[a] <= MAX_OFFSET,
    ensures
        squares(*n, offset@, d),
{
    let ghost steps = square_steps(*n, offset@);
    let mut total: u64 = word::ZERO;
    let mut i: usize = 0;
    while i < offset.len()
        invariant
            i <= offset@.len(),
            forall|a: int|
                0 <= a < offset@.len() ==> -MAX_OFFSET <= #[trigger] offset@[a] <= MAX_OFFSET,
            steps == square_steps(*n, offset@),
            arithmetic::accumulates(steps, i as int, total),
        decreases offset@.len() - i,
    {
        let component: i64 = offset[i];
        assert(0 <= component * component <= 3_037_000_499 * 3_037_000_499) by (nonlinear_arith)
            requires
                -3_037_000_499 <= component <= 3_037_000_499,
        ;
        let number: u64 = arithmetic::number(n, component * component);
        let next: u64 = arithmetic::plus(n, total, number);
        proof {
            assert(steps(i as int, total, next));
            arithmetic::accumulates_one_more(steps, i as int, total, next);
        }
        total = next;
        i = i + 1;
    }
    total
}

fn offsets_in_reach<N: Arithmetic>(n: &N, offsets: &[Vec<i64>], radius: u64) -> (reach: usize)
    requires
        forall|k: int, a: int|
            0 <= k < offsets@.len() && 0 <= a < offsets@[k]@.len() ==> -MAX_OFFSET
                <= #[trigger] offsets@[k]@[a] <= MAX_OFFSET,
    ensures
        reaches(*n, offsets@, radius, reach as int),
        reach <= offsets@.len(),
{
    if !word::is_finite(radius) {
        return offsets.len();
    }
    let limit: u64 = arithmetic::times(n, radius, radius);
    let mut k: usize = 0;
    while k < offsets.len()
        invariant
            k <= offsets@.len(),
            forall|k: int, a: int|
                0 <= k < offsets@.len() && 0 <= a < offsets@[k]@.len() ==> -MAX_OFFSET
                    <= #[trigger] offsets@[k]@[a] <= MAX_OFFSET,
            word::finite(radius),
            arithmetic::multiplies(*n, radius, radius, limit),
            forall|j: int|
                0 <= j < k ==> exceeds(*n, (#[trigger] offsets@[j])@, limit, false),
        decreases offsets@.len() - k,
    {
        let d: u64 = squared_length(n, &offsets[k]);
        if word::less(limit, d) {
            assert(exceeds(*n, offsets@[k as int]@, limit, true));
            assert(ends_at(*n, offsets@, limit, k as int));
            return k;
        }
        assert(exceeds(*n, offsets@[k as int]@, limit, false));
        k = k + 1;
    }
    assert(ends_at(*n, offsets@, limit, k as int));
    k
}

fn neighbor_coords(coords: &Vec<i64>, offset: &Vec<i64>, shape: &[i64]) -> (r: Option<Vec<i64>>)
    requires
        coords@.len() == shape@.len(),
        offset@.len() == shape@.len(),
    ensures
        r is Some <==> forall|a: int|
            0 <= a < shape@.len() ==> 0 <= #[trigger] coords@[a] + offset@[a] < shape@[a],
        r matches Some(moved) ==> moved@ == index::shifted(coords@, offset@) && index::inside(
            moved@,
            shape@,
        ),
{
    let mut moved: Vec<i64> = Vec::new();
    let mut a: usize = 0;
    while a < shape.len()
        invariant
            a <= shape@.len(),
            coords@.len() == shape@.len(),
            offset@.len() == shape@.len(),
            moved@.len() == a,
            forall|b: int|
                0 <= b < a ==> {
                    &&& 0 <= #[trigger] coords@[b] + offset@[b] < shape@[b]
                    &&& moved@[b] == coords@[b] + offset@[b]
                },
        decreases shape@.len() - a,
    {
        let coordinate: i128 = coords[a] as i128 + offset[a] as i128;
        if coordinate < 0 || coordinate >= shape[a] as i128 {
            assert(!(0 <= coords@[a as int] + offset@[a as int] < shape@[a as int]));
            return None;
        }
        moved.push(coordinate as i64);
        a = a + 1;
    }
    proof {
        assert forall|b: int| 0 <= b < shape@.len() implies 0 <= #[trigger] moved@[b]
            < shape@[b] && moved@[b] == index::shifted(coords@, offset@)[b] by {
            assert(0 <= coords@[b] + offset@[b] < shape@[b]);
        }
        assert(moved@ =~= index::shifted(coords@, offset@));
    }
    Some(moved)
}

fn last_visits(
    path: &[Vec<i64>],
    shape: &[i64],
    strides: &[i64],
    Ghost(model): Ghost<PathModel>,
) -> (visits: Vec<Option<usize>>)
    requires
        model.wf(),
        model.path == path@,
        model.shape == shape@,
        strides@ == index::strides_of(shape@),
    ensures
        visits@.len() == index::size(shape@),
        forall|flat: int|
            0 <= flat < visits@.len() ==> visit_index(#[trigger] visits@[flat])
                == model.last_visit(path@.len() as int, flat),
{
    let count: usize = index::cell_count(shape);
    let mut visits: Vec<Option<usize>> = Vec::new();
    let mut flat: usize = 0;
    while flat < count
        invariant
            flat <= count,
            visits@.len() == flat,
            forall|f: int| 0 <= f < flat ==> #[trigger] visits@[f] is None,
        decreases count - flat,
    {
        visits.push(None);
        flat = flat + 1;
    }
    let mut node: usize = 0;
    while node < path.len()
        invariant
            node <= path@.len(),
            model.wf(),
            model.path == path@,
            model.shape == shape@,
            strides@ == index::strides_of(shape@),
            visits@.len() == index::size(shape@),
            forall|f: int|
                0 <= f < visits@.len() ==> visit_index(#[trigger] visits@[f])
                    == model.last_visit(node as int, f),
        decreases path@.len() - node,
    {
        proof {
            assert(index::inside(model.path[node as int]@, shape@));
            index::cells_have_positions(path@[node as int]@, shape@);
            assert(index::extent(shape@, 0) <= usize::MAX);
        }
        let cell: usize = index::flat_index(&path[node], strides);
        visits.set(cell, Some(node));
        node = node + 1;
    }
    visits
}

/// The index in an optional visit, or -1.
pub open spec fn visit_index(visit: Option<usize>) -> int {
    match visit {
        Some(node) => node as int,
        None => -1,
    }
}

/// The dependencies of one variable on the nodes of a path: where the cells lie, which of
/// them are given, how many of them count, and which node came last to each.
struct Surroundings<'a> {
    path: &'a [Vec<i64>],
    shape: &'a [i64],
    strides: &'a [i64],
    offsets: &'a [Vec<i64>],
    conditioned: &'a Vec<u8>,
    limit: i64,
    visits: &'a Vec<Option<usize>>,
}

spec fn surrounds(s: Surroundings, model: PathModel, variable: int) -> bool {
    &&& model.wf()
    &&& model.path == s.path@
    &&& model.shape == s.shape@
    &&& s.strides@ == index::strides_of(s.shape@)
    &&& model.offsets == s.offsets@
    &&& 0 <= variable < model.conditioned.len()
    &&& model.conditioned[variable] == *s.conditioned
    &&& model.n_neighbors[variable] == s.limit
    &&& s.visits@.len() == index::size(s.shape@)
    &&& forall|flat: int|
        0 <= flat < s.visits@.len() ==> visit_index(#[trigger] s.visits@[flat])
            == model.last_visit(s.path@.len() as int, flat)
}

fn look_around(
    s: &Surroundings,
    reach: usize,
    levels: &Vec<usize>,
    node: usize,
    Ghost(model): Ghost<PathModel>,
    Ghost(variable): Ghost<int>,
) -> (r: (Vec<Neighbor>, usize))
    requires
        surrounds(*s, model, variable),
        reach <= s.offsets@.len(),
        node < s.path@.len(),
        levels@.len() == node,
        forall|i: int| 0 <= i < node ==> #[trigger] levels@[i] <= i,
    ensures
        model.lists(node as int, variable, reach as int, r.0@),
        forall|j: int|
            0 <= j < r.0@.len() && 0 <= #[trigger] model.awaited(
                node as int,
                variable,
                reach as int,
                j,
            ) ==> model.awaited(node as int, variable, reach as int, j) < node
                && levels@[model.awaited(node as int, variable, reach as int, j)] < r.1,
        r.1 > 0 ==> exists|j: int|
            0 <= j < r.0@.len() && 0 <= #[trigger] model.awaited(
                node as int,
                variable,
                reach as int,
                j,
            ) && levels@[model.awaited(node as int, variable, reach as int, j)] == r.1 - 1,
        r.1 <= node,
{
    let mut list: Vec<Neighbor> = Vec::new();
    let mut level: usize = 0;
    let ghost all = model.picks(node as int, variable, reach as int);
    let ghost mut witness: int = 0;
    let mut k: usize = 0;
    while k < reach && (list.len() as u64) < s.limit as u64
        invariant
            k <= reach <= s.offsets@.len(),
            surrounds(*s, model, variable),
            node < s.path@.len(),
            levels@.len() == node,
            forall|i: int| 0 <= i < node ==> #[trigger] levels@[i] <= i,
            model.lists(node as int, variable, k as int, list@),
            forall|j: int|
                0 <= j < list@.len() ==> {
                    let d = model.dependency(variable, (#[trigger] list@[j]).flat as int);
                    d < node && (0 <= d ==> levels@[d] < level)
                },
            level > 0 ==> {
                &&& 0 <= witness < list@.len()
                &&& 0 <= model.dependency(variable, list@[witness].flat as int)
                &&& levels@[model.dependency(variable, list@[witness].flat as int)] == level - 1
            },
            level <= node,
        decreases reach - k,
    {
        assert(index::inside(model.path[node as int]@, s.shape@));
        assert(model.offsets[k as int]@.len() == model.shape.len());
        if let Some(moved) = neighbor_coords(&s.path[node], &s.offsets[k], s.shape) {
            proof {
                index::cells_have_positions(moved@, s.shape@);
                assert(index::extent(s.shape@, 0) <= usize::MAX);
                assert(model.conditioned[variable]@.len() == index::size(s.shape@));
            }
            assert(model.in_grid(node as int, k as int));
            let flat: usize = index::flat_index(&moved, s.strides);
            assert(flat == model.flat_at(node as int, k as int));
            let dependency: Option<usize> = if s.conditioned[flat] != 0 {
                None
            } else {
                s.visits[flat]
            };
            assert(visit_index(dependency) == model.dependency(variable, flat as int));
            let eligible: bool = match dependency {
                Some(earlier) => earlier < node,
                None => true,
            };
            if eligible {
                let neighbor = Neighbor { flat, lag: event::copy_lag(&s.offsets[k]) };
                list.push(neighbor);
                if let Some(earlier) = dependency {
                    let after: usize = levels[earlier] + 1;
                    if after > level {
                        level = after;
                        proof {
                            witness = list@.len() - 1;
                        }
                    }
                }
            }
        } else {
            assert(!model.in_grid(node as int, k as int));
        }
        k = k + 1;
    }
    proof {
        assert(0 <= model.n_neighbors[variable]);
        if k < reach {
            enough_is_enough(model, node as int, variable, k as int, reach as int);
        }
        assert forall|j: int|
            0 <= j < list@.len() && 0 <= #[trigger] model.awaited(
                node as int,
                variable,
                reach as int,
                j,
            ) implies model.awaited(node as int, variable, reach as int, j) < node
            && levels@[model.awaited(node as int, variable, reach as int, j)] < level by {
            assert(list@[j].flat == model.flat_at(node as int, all[j]));
        }
        if level > 0 {
            assert(list@[witness].flat == model.flat_at(node as int, all[witness]));
            assert(0 <= model.awaited(node as int, variable, reach as int, witness));
        }
    }
    (list, level)
}

/// What each node of the path looks at, and the level at which it can be simulated.
///
/// For each variable a node looks at the first of the offsets that lead to a cell of the
/// grid whose value is given, or comes from an earlier node, or from none. It looks at as
/// many as `n_neighbors` says, and at none from the first offset on that is longer than
/// the radius of the variable.
pub fn build_neighbor_cache<N: Arithmetic>(
    n: &N,
    path: &[Vec<i64>],
    sim_shape: &[i64],
    offsets: &[Vec<i64>],
    conditioned: &[Vec<u8>],
    n_neighbors: &[i64],
    max_radius: &[u64],
) -> (cache: Vec<CachedNode>)
    requires
        path_model(path, sim_shape, offsets, conditioned, n_neighbors).wf(),
        max_radius@.len() == conditioned@.len(),
    ensures
        exists|all: Seq<int>| #[trigger]
            all_reach(*n, offsets@, max_radius@, all) && path_model(
                path,
                sim_shape,
                offsets,
                conditioned,
                n_neighbors,
            ).caches(all, cache@),
        forall|i: int| 0 <= i < cache@.len() ==> (#[trigger] cache@[i]).level <= i,
{
    let ghost model = path_model(path, sim_shape, offsets, conditioned, n_neighbors);
    let strides: Vec<i64> = index::c_strides(sim_shape);
    let visits: Vec<Option<usize>> = last_visits(path, sim_shape, &strides, Ghost(model));
    let variable_count: usize = conditioned.len();

    let mut in_reach: Vec<usize> = Vec::new();
    let mut variable: usize = 0;
    while variable < variable_count
        invariant
            variable <= variable_count,
            variable_count == max_radius@.len(),
            model.wf(),
            model.offsets == offsets@,
            in_reach@.len() == variable,
            forall|v: int|
                0 <= v < variable ==> {
                    &&& reaches(*n, offsets@, max_radius@[v], #[trigger] in_reach@[v] as int)
                    &&& in_reach@[v] <= offsets@.len()
                },
        decreases variable_count - variable,
    {
        assert forall|k: int, a: int|
            0 <= k < offsets@.len() && 0 <= a < offsets@[k]@.len() implies -MAX_OFFSET
            <= #[trigger] offsets@[k]@[a] <= MAX_OFFSET by {
            assert(model.offsets[k]@.len() == model.shape.len());
            assert(-MAX_OFFSET <= model.offsets[k]@[a] <= MAX_OFFSET);
        }
        let reach: usize = offsets_in_reach(n, offsets, max_radius[variable]);
        in_reach.push(reach);
        variable = variable + 1;
    }
    let ghost all = Seq::new(in_reach@.len(), |v: int| in_reach@[v] as int);
    assert(all_reach(*n, offsets@, max_radius@, all)) by {
        assert forall|v: int| 0 <= v < all.len() implies reaches(
            *n,
            offsets@,
            max_radius@[v],
            #[trigger] all[v],
        ) by {
            assert(all[v] == in_reach@[v]);
        }
    }

    let mut levels: Vec<usize> = Vec::new();
    let mut cache: Vec<CachedNode> = Vec::new();
    let mut node: usize = 0;
    while node < path.len()
        invariant
            node <= path@.len(),
            model == path_model(path, sim_shape, offsets, conditioned, n_neighbors),
            model.wf(),
            strides@ == index::strides_of(sim_shape@),
            visits@.len() == index::size(sim_shape@),
            forall|flat: int|
                0 <= flat < visits@.len() ==> visit_index(#[trigger] visits@[flat])
                    == model.last_visit(path@.len() as int, flat),
            variable_count == conditioned@.len(),
            in_reach@.len() == variable_count,
            all == Seq::new(in_reach@.len(), |v: int| in_reach@[v] as int),
            forall|v: int| 0 <= v < variable_count ==> #[trigger] in_reach@[v] <= offsets@.len(),
            levels@.len() == node,
            cache@.len() == node,
            forall|i: int| 0 <= i < node ==> #[trigger] levels@[i] <= i,
            forall|i: int| 0 <= i < node ==> #[trigger] cache@[i].level == levels@[i],
            forall|i: int|
                0 <= i < node ==> model.caches_node(
                    all,
                    levels_of(cache@),
                    i,
                    #[trigger] cache@[i],
                ),
            forall|i: int, v: int, j: int|
                0 <= i < node && 0 <= v < variable_count && 0 <= j < model.picks(
                    i,
                    v,
                    all[v],
                ).len() ==> #[trigger] model.awaited(i, v, all[v], j) < i,
        decreases path@.len() - node,
    {
        let mut by_variable: Vec<Vec<Neighbor>> = Vec::new();
        let mut level: usize = 0;
        let ghost mut widest: int = 0;
        let mut v: usize = 0;
        while v < variable_count
            invariant
                v <= variable_count,
                node < path@.len(),
                model == path_model(path, sim_shape, offsets, conditioned, n_neighbors),
                model.wf(),
                strides@ == index::strides_of(sim_shape@),
                visits@.len() == index::size(sim_shape@),
                forall|flat: int|
                    0 <= flat < visits@.len() ==> visit_index(#[trigger] visits@[flat])
                        == model.last_visit(path@.len() as int, flat),
                variable_count == conditioned@.len(),
                in_reach@.len() == variable_count,
                all == Seq::new(in_reach@.len(), |v: int| in_reach@[v] as int),
                forall|v: int|
                    0 <= v < variable_count ==> #[trigger] in_reach@[v] <= offsets@.len(),
                levels@.len() == node,
                forall|i: int| 0 <= i < node ==> #[trigger] levels@[i] <= i,
                by_variable@.len() == v,
                forall|u: int|
                    0 <= u < v ==> model.lists(
                        node as int,
                        u,
                        all[u],
                        (#[trigger] by_variable@[u])@,
                    ),
                forall|u: int, j: int|
                    0 <= u < v && 0 <= j < model.picks(node as int, u, all[u]).len() ==> {
                        let awaited = #[trigger] model.awaited(node as int, u, all[u], j);
                        awaited < node && (0 <= awaited ==> levels@[awaited] < level)
                    },
                level > 0 ==> {
                    &&& 0 <= widest < v
                    &&& exists|j: int|
                        0 <= j < model.picks(node as int, widest, all[widest]).len() && 0
                            <= #[trigger] model.awaited(node as int, widest, all[widest], j)
                            && levels@[model.awaited(node as int, widest, all[widest], j)]
                            == level - 1
                },
                level <= node,
            decreases variable_count - v,
        {
            let surroundings = Surroundings {
                path,
                shape: sim_shape,
                strides: &strides,
                offsets,
                conditioned: &conditioned[v],
                limit: n_neighbors[v],
                visits: &visits,
            };
            let reach: usize = in_reach[v];
            let (list, after) = look_around(
                &surroundings,
                reach,
                &levels,
                node,
                Ghost(model),
                Ghost(v as int),
            );
            assert(all[v as int] == reach);
            by_variable.push(list);
            if after > level {
                level = after;
                proof {
                    widest = v as int;
                }
            }
            v = v + 1;
        }
        let ghost before = cache@;
        levels.push(level);
        cache.push(CachedNode { by_variable, level });
        proof {
            let old_levels = levels_of(before);
            let new_levels = levels_of(cache@);
            assert forall|i: int| 0 <= i <= node implies model.caches_node(
                all,
                new_levels,
                i,
                #[trigger] cache@[i],
            ) by {
                if i < node {
                    assert(model.caches_node(all, old_levels, i, before[i]));
                    levels_may_grow(model, all, old_levels, new_levels, i, cache@[i].level as int);
                } else {
                    assert(new_levels[node as int] == level);
                    assert(cache@[i].by_variable == by_variable);
                    assert(model.is_level(all, new_levels, i, level as int));
                }
            }
        }
        node = node + 1;
    }
    cache
}

proof fn levels_may_grow(
    model: PathModel,
    reaches: Seq<int>,
    old_levels: Seq<int>,
    new_levels: Seq<int>,
    node: int,
    level: int,
)
    requires
        model.is_level(reaches, old_levels, node, level),
        forall|i: int| 0 <= i < node ==> old_levels[i] == #[trigger] new_levels[i],
        forall|v: int, j: int|
            0 <= v < model.conditioned.len() && 0 <= j < model.picks(node, v, reaches[v]).len()
                ==> #[trigger] model.awaited(node, v, reaches[v], j) < node,
    ensures
        model.is_level(reaches, new_levels, node, level),
{
    if level > 0 {
        let (v, j) = choose|v: int, j: int|
            0 <= v < model.conditioned.len() && 0 <= j < model.picks(node, v, reaches[v]).len()
                && 0 <= #[trigger] model.awaited(node, v, reaches[v], j)
                && old_levels[model.awaited(node, v, reaches[v], j)] == level - 1;
        assert(0 <= model.awaited(node, v, reaches[v], j));
    }
}

/// Once a node looks at as many cells as it may, it looks at no more.
proof fn enough_is_enough(model: PathModel, node: int, variable: int, count: int, more: int)
    requires
        0 <= count <= more,
        model.picks(node, variable, count).len() >= model.n_neighbors[variable],
    ensures
        model.picks(node, variable, more) == model.picks(node, variable, count),
    decreases more,
{
    if count < more {
        enough_is_enough(model, node, variable, count, more - 1);
    }
}

/// A node looks at eligible cells only, in the order of the offsets, and at no more than
/// it may.
pub proof fn picks_are_eligible(model: PathModel, node: int, variable: int, count: int)
    requires
        0 <= model.n_neighbors[variable],
        0 <= count,
    ensures
        model.picks(node, variable, count).len() <= count,
        model.picks(node, variable, count).len() <= model.n_neighbors[variable],
        forall|j: int|
            0 <= j < model.picks(node, variable, count).len() ==> {
                let k = #[trigger] model.picks(node, variable, count)[j];
                0 <= k < count && model.eligible(node, variable, k)
            },
        forall|i: int, j: int|
            0 <= i < j < model.picks(node, variable, count).len() ==> #[trigger] model.picks(
                node,
                variable,
                count,
            )[i] < #[trigger] model.picks(node, variable, count)[j],
    decreases count,
{
    if count > 0 {
        picks_are_eligible(model, node, variable, count - 1);
    }
}

/// The cells that a node looks at lie in the grid.
pub proof fn neighbors_lie_in_the_grid(
    model: PathModel,
    node: int,
    variable: int,
    reach: int,
    list: Seq<Neighbor>,
    j: int,
)
    requires
        model.wf(),
        0 <= node < model.path.len(),
        0 <= variable < model.conditioned.len(),
        0 <= reach <= model.offsets.len(),
        model.lists(node, variable, reach, list),
        0 <= j < list.len(),
    ensures
        list[j].flat < index::size(model.shape),
        list[j].lag@.len() == model.shape.len(),
        forall|a: int|
            0 <= a < model.shape.len() ==> -MAX_OFFSET <= #[trigger] list[j].lag@[a] <= MAX_OFFSET,
        list.len() <= model.offsets.len(),
{
    assert(0 <= model.n_neighbors[variable]);
    picks_are_eligible(model, node, variable, reach);
    let k = model.picks(node, variable, reach)[j];
    assert(list[j].flat == model.flat_at(node, k));
    let coords = model.path[node]@;
    let offset = model.offsets[k]@;
    assert(index::inside(model.path[node]@, model.shape));
    let moved = index::shifted(coords, offset);
    assert(model.in_grid(node, k));
    assert forall|a: int| 0 <= a < model.shape.len() implies 0 <= #[trigger] moved[a]
        < model.shape[a] by {
        assert(0 <= coords[a] + offset[a] < model.shape[a]);
    }
    index::cells_have_positions(moved, model.shape);
    assert forall|a: int| 0 <= a < model.shape.len() implies -MAX_OFFSET
        <= #[trigger] list[j].lag@[a] <= MAX_OFFSET by {
        assert(-MAX_OFFSET <= model.offsets[k]@[a] <= MAX_OFFSET);
    }
}

/// A node waits only for nodes that come before it in the path and have a lower level.
pub proof fn nodes_wait_for_lower_levels(
    model: PathModel,
    reaches: Seq<int>,
    cache: Seq<CachedNode>,
    node: int,
    variable: int,
    j: int,
)
    requires
        model.wf(),
        model.caches(reaches, cache),
        0 <= node < cache.len(),
        0 <= variable < model.conditioned.len(),
        0 <= reaches[variable],
        0 <= j < cache[node].by_variable@[variable]@.len(),
    ensures
        ({
            let awaited = model.dependency(
                variable,
                cache[node].by_variable@[variable]@[j].flat as int,
            );
            awaited < node && (0 <= awaited ==> cache[awaited].level < cache[node].level)
        }),
{
    let reach = reaches[variable];
    let picks = model.picks(node, variable, reach);
    assert(0 <= model.n_neighbors[variable]);
    assert(model.caches_node(reaches, levels_of(cache), node, cache[node]));
    let list = cache[node].by_variable@[variable]@;
    assert(model.lists(node, variable, reach, list));
    assert(list[j].flat == model.flat_at(node, picks[j]));
    picks_are_eligible(model, node, variable, reach);
    assert(model.eligible(node, variable, picks[j]));
    let awaited = model.awaited(node, variable, reach, j);
    if 0 <= awaited {
        assert(levels_of(cache)[awaited] < cache[node].level);
    }
}

/// Nodes of one level do not wait for each other: none of them gives its value to a cell
/// that another one looks at.
pub proof fn nodes_of_one_level_are_independent(
    model: PathModel,
    reaches: Seq<int>,
    cache: Seq<CachedNode>,
    node: int,
    other: int,
    variable: int,
    j: int,
)
    requires
        model.wf(),
        model.caches(reaches, cache),
        0 <= node < cache.len(),
        0 <= other < cache.len(),
        cache[node].level == cache[other].level,
        0 <= variable < model.conditioned.len(),
        0 <= reaches[variable],
        0 <= j < cache[node].by_variable@[variable]@.len(),
    ensures
        model.dependency(variable, cache[node].by_variable@[variable]@[j].flat as int) != other,
{
    nodes_wait_for_lower_levels(model, reaches, cache, node, variable, j);
}

/// A node above the lowest level waits for a node of the level below its own.
pub proof fn no_level_is_skipped(
    model: PathModel,
    reaches: Seq<int>,
    cache: Seq<CachedNode>,
    node: int,
)
    requires
        model.wf(),
        model.caches(reaches, cache),
        0 <= node < cache.len(),
        reaches.len() == model.conditioned.len(),
        forall|v: int| 0 <= v < reaches.len() ==> 0 <= #[trigger] reaches[v],
        cache[node].level > 0,
    ensures
        exists|earlier: int|
            0 <= earlier < node && #[trigger] cache[earlier].level == cache[node].level - 1,
{
    assert(model.caches_node(reaches, levels_of(cache), node, cache[node]));
    let (v, j) = choose|v: int, j: int|
        0 <= v < model.conditioned.len() && 0 <= j < model.picks(node, v, reaches[v]).len() && 0
            <= #[trigger] model.awaited(node, v, reaches[v], j) && levels_of(cache)[model.awaited(
            node,
            v,
            reaches[v],
            j,
        )] == cache[node].level - 1;
    let earlier = model.awaited(node, v, reaches[v], j);
    assert(model.lists(node, v, reaches[v], cache[node].by_variable@[v]@));
    nodes_wait_for_lower_levels(model, reaches, cache, node, v, j);
    let list = cache[node].by_variable@[v]@;
    assert(list[j].flat == model.flat_at(node, model.picks(node, v, reaches[v])[j]));
    assert(cache[earlier].level == cache[node].level - 1);
}

} // verus!
