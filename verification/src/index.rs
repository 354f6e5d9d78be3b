//! Row-major indices: strides, flat positions and coordinates.

use vstd::prelude::*;
#[allow(unused_imports)]
use vstd::std_specs::iter::*;

verus! {

/// How many cells one step along axis `axis - 1` passes over: the product of the
/// sizes from `axis` on.
pub open spec fn extent(shape: Seq<i64>, axis: int) -> int
    decreases shape.len() - axis,
{
    if axis >= shape.len() {
        1
    } else {
        shape[axis] * extent(shape, axis + 1)
    }
}

/// How many cells a grid has.
pub open spec fn size(shape: Seq<i64>) -> int {
    extent(shape, 0)
}

/// No size is negative, and the grid and each of its sections can be counted.
pub open spec fn countable(shape: Seq<i64>) -> bool {
    &&& forall|a: int| 0 <= a < shape.len() ==> 0 <= #[trigger] shape[a]
    &&& forall|a: int|
        0 <= a <= shape.len() ==> #[trigger] extent(shape, a) <= i64::MAX && extent(shape, a)
            <= usize::MAX
}

/// The product of the first `count` sizes.
pub open spec fn product(shape: Seq<i64>, count: int) -> int
    decreases count,
{
    if count <= 0 {
        1
    } else {
        product(shape, count - 1) * shape[count - 1]
    }
}

/// The sizes can be multiplied from first to last, whether or not they are those of a grid.
pub open spec fn measurable(shape: Seq<i64>) -> bool {
    &&& forall|k: int|
        0 <= k <= shape.len() ==> i64::MIN <= #[trigger] product(shape, k) <= i64::MAX
    &&& size(shape) <= usize::MAX
}

/// The strides of a row-major grid.
pub open spec fn strides_of(shape: Seq<i64>) -> Seq<i64> {
    Seq::new(shape.len(), |a: int| extent(shape, a + 1) as i64)
}

/// The sum of the first `count` products of `coords` and `strides`.
pub open spec fn dot_first(coords: Seq<i64>, strides: Seq<i64>, count: int) -> int
    decreases count,
{
    if count <= 0 {
        0
    } else {
        dot_first(coords, strides, count - 1) + coords[count - 1] * strides[count - 1]
    }
}

/// The sum of the products of `coords` and `strides`, as far as both go.
pub open spec fn dot(coords: Seq<i64>, strides: Seq<i64>) -> int {
    dot_first(coords, strides, vstd::math::min(coords.len() as int, strides.len() as int))
}

/// Every product and every partial sum of `dot(coords, strides)` fits in an `i64`.
pub open spec fn summable(coords: Seq<i64>, strides: Seq<i64>) -> bool {
    forall|k: int|
        0 <= k < coords.len() && k < strides.len() ==> {
            &&& i64::MIN <= #[trigger] coords[k] * strides[k] <= i64::MAX
            &&& i64::MIN <= dot_first(coords, strides, k + 1) <= i64::MAX
        }
}

/// The coordinates name a cell of the grid.
pub open spec fn inside(coords: Seq<i64>, shape: Seq<i64>) -> bool {
    &&& coords.len() == shape.len()
    &&& forall|a: int| 0 <= a < shape.len() ==> 0 <= #[trigger] coords[a] < shape[a]
}

/// Axis `axis` of the coordinates of the cell at flat position `pos`.
pub open spec fn digit(pos: int, shape: Seq<i64>, axis: int) -> int {
    (pos % extent(shape, axis)) / extent(shape, axis + 1)
}

/// The coordinates of the cell at flat position `pos`.
pub open spec fn coords_of(pos: int, shape: Seq<i64>) -> Seq<i64> {
    Seq::new(shape.len(), |a: int| digit(pos, shape, a) as i64)
}

/// The cell that lies `lag` away from `coords`.
pub open spec fn shifted(coords: Seq<i64>, lag: Seq<i64>) -> Seq<i64> {
    Seq::new(coords.len(), |a: int| (coords[a] + lag[a]) as i64)
}

/// The strides of a row-major grid of the given shape.
pub fn c_strides(shape: &[i64]) -> (strides: Vec<i64>)
    requires
        forall|a: int| 0 <= a < shape@.len() ==> 0 <= #[trigger] shape@[a],
        forall|a: int| 1 <= a <= shape@.len() ==> #[trigger] extent(shape@, a) <= i64::MAX,
    ensures
        strides@ == strides_of(shape@),
{
    let mut strides: Vec<i64> = vec![1i64; shape.len()];
    let mut axis: usize = if shape.len() == 0 { 0 } else { shape.len() - 1 };
    assert forall|a: int| axis <= a < shape@.len() implies strides@[a] == extent(
        shape@,
        a + 1,
    ) by {
        assert(extent(shape@, a + 1) == 1);
    }
    while axis > 0
        invariant
            strides@.len() == shape@.len(),
            shape@.len() == 0 ==> axis == 0,
            shape@.len() > 0 ==> axis < shape@.len(),
            forall|a: int| 0 <= a < shape@.len() ==> 0 <= #[trigger] shape@[a],
            forall|a: int| 1 <= a <= shape@.len() ==> #[trigger] extent(shape@, a) <= i64::MAX,
            forall|a: int| axis <= a < shape@.len() ==> strides@[a] == extent(shape@, a + 1),
        decreases axis,
    {
        proof {
            extent_is_not_negative(shape@, axis as int);
            assert(extent(shape@, axis as int) == shape@[axis as int] * extent(
                shape@,
                axis + 1,
            ));
            assert(shape@[axis as int] * strides@[axis as int] == strides@[axis as int]
                * shape@[axis as int]) by (nonlinear_arith);
        }
        let stride: i64 = strides[axis] * shape[axis];
        axis = axis - 1;
        strides.set(axis, stride);
    }
    assert(strides@ =~= strides_of(shape@));
    strides
}

/// The product of the sizes of a shape.
pub fn cell_total(shape: &[i64]) -> (total: i64)
    requires
        measurable(shape@),
    ensures
        total == size(shape@),
{
    let mut total: i64 = 1;
    let mut axis: usize = 0;
    while axis < shape.len()
        invariant
            axis <= shape@.len(),
            measurable(shape@),
            total == product(shape@, axis as int),
        decreases shape@.len() - axis,
    {
        assert(i64::MIN <= product(shape@, axis + 1) <= i64::MAX);
        total = total * shape[axis];
        axis = axis + 1;
    }
    proof {
        products_make_up_the_size(shape@, shape@.len() as int);
    }
    total
}

/// How many cells a grid of the given shape has.
pub fn cell_count(shape: &[i64]) -> (count: usize)
    requires
        countable(shape@),
    ensures
        count == size(shape@),
{
    let mut total: i64 = 1;
    let mut axis: usize = shape.len();
    while axis > 0
        invariant
            axis <= shape@.len(),
            countable(shape@),
            total == extent(shape@, axis as int),
        decreases axis,
    {
        axis = axis - 1;
        proof {
            extent_is_not_negative(shape@, axis as int);
            assert(extent(shape@, axis as int) <= i64::MAX);
            let e = extent(shape@, axis + 1);
            assert(shape@[axis as int] * e == e * shape@[axis as int]) by (nonlinear_arith);
        }
        total = total * shape[axis];
    }
    proof {
        extent_is_not_negative(shape@, 0);
        assert(extent(shape@, 0) <= usize::MAX);
    }
    total as usize
}

/// The coordinates, counted from `lo`, of the cell at position `pos` of a grid.
pub fn cell_at(lo: &[i64], shape: &[i64], strides: &[i64], pos: usize) -> (coords: Vec<i64>)
    requires
        lo@.len() == shape@.len(),
        countable(shape@),
        strides@ == strides_of(shape@),
        pos < size(shape@),
        forall|a: int| 0 <= a < shape@.len() ==> #[trigger] lo@[a] + shape@[a] <= i64::MAX,
    ensures
        coords@ == shifted(lo@, coords_of(pos as int, shape@)),
{
    let mut coords: Vec<i64> = Vec::new();
    proof {
        assert(extent(shape@, 0) <= i64::MAX);
        vstd::arithmetic::div_mod::lemma_small_mod(pos as nat, size(shape@) as nat);
    }
    let mut rest: i64 = pos as i64;
    let mut axis: usize = 0;
    while axis < shape.len()
        invariant
            axis <= shape@.len(),
            lo@.len() == shape@.len(),
            countable(shape@),
            strides@ == strides_of(shape@),
            pos < size(shape@),
            forall|a: int| 0 <= a < shape@.len() ==> #[trigger] lo@[a] + shape@[a] <= i64::MAX,
            rest == (pos as int) % extent(shape@, axis as int),
            coords@.len() == axis,
            forall|a: int|
                0 <= a < axis ==> #[trigger] coords@[a] == lo@[a] + digit(pos as int, shape@, a),
        decreases shape@.len() - axis,
    {
        proof {
            extent_of_positive_size(shape@, axis as int);
            extent_of_positive_size(shape@, axis + 1);
            assert(extent(shape@, axis + 1) <= i64::MAX);
            digits_are_in_range(pos as int, shape@, axis as int);
            let s = shape@[axis as int] as int;
            let e = extent(shape@, axis + 1);
            assert(extent(shape@, axis as int) == s * e);
            assert(s * e == e * s) by (nonlinear_arith);
            vstd::arithmetic::div_mod::lemma_mod_mod(pos as int, e, s);
            assert(lo@[axis as int] + shape@[axis as int] <= i64::MAX);
            assert(0 <= rest);
        }
        let step: i64 = rest / strides[axis];
        coords.push(lo[axis] + step);
        rest = rest % strides[axis];
        axis = axis + 1;
    }
    proof {
        positions_have_cells(pos as int, shape@);
        let away = coords_of(pos as int, shape@);
        assert forall|a: int| 0 <= a < shape@.len() implies #[trigger] coords@[a]
            == shifted(lo@, away)[a] by {
            assert(0 <= digit(pos as int, shape@, a) < shape@[a]);
            assert(away[a] == digit(pos as int, shape@, a));
        }
        assert(coords@ =~= shifted(lo@, away));
    }
    coords
}

/// The flat distance that a lag covers.
pub fn flat_lag(lag: &[i64], strides: &[i64]) -> (flat: i64)
    requires
        summable(lag@, strides@),
        i64::MIN <= dot(lag@, strides@) <= i64::MAX,
    ensures
        flat == dot(lag@, strides@),
{
    let mut total: i64 = 0;
    let mut k: usize = 0;
    while k < lag.len() && k < strides.len()
        invariant
            0 <= k <= lag@.len(),
            k <= strides@.len(),
            summable(lag@, strides@),
            total == dot_first(lag@, strides@, k as int),
        decreases lag@.len() - k,
    {
        assert(lag@[k as int] * strides@[k as int] <= i64::MAX);
        total = total + lag[k] * strides[k];
        k = k + 1;
    }
    total
}

/// The flat position of the cell with the given coordinates, which need not lie in the grid.
pub fn flat_index(coords: &[i64], strides: &[i64]) -> (flat: usize)
    requires
        summable(coords@, strides@),
    ensures
        flat == dot(coords@, strides@) as usize,
{
    proof {
        sums_fit(coords@, strides@);
    }
    flat_lag(coords, strides) as usize
}

/// [`flat_index`] of coordinates that come one by one.
pub fn flat_index_iter<I: Iterator<Item = i64>>(coords: I, strides: &[i64]) -> (flat: usize)
    requires
        coords.obeys_prophetic_iter_laws(),
        summable(coords.remaining(), strides@),
    ensures
        flat == dot(coords.remaining(), strides@) as usize,
{
    let ghost all = coords.remaining();
    let mut rest = coords;
    let mut total: i64 = 0;
    let mut k: usize = 0;
    while k < strides.len()
        invariant_except_break
            0 <= k <= strides@.len(),
            k <= all.len(),
            rest.obeys_prophetic_iter_laws(),
            rest.remaining() == all.skip(k as int),
            summable(all, strides@),
            total == dot_first(all, strides@, k as int),
        ensures
            total == dot(all, strides@),
        decreases strides@.len() - k,
    {
        match rest.next() {
            Some(coordinate) => {
                assert(coordinate == all[k as int]);
                assert(all[k as int] * strides@[k as int] <= i64::MAX);
                total = total + coordinate * strides[k];
                k = k + 1;
            },
            None => {
                break;
            },
        }
    }
    total as usize
}

/// A cell of a grid has a flat position below the size of the grid, and computing it
/// stays within an `i64`.
pub proof fn cells_have_positions(coords: Seq<i64>, shape: Seq<i64>)
    requires
        countable(shape),
        inside(coords, shape),
    ensures
        summable(coords, strides_of(shape)),
        0 <= dot(coords, strides_of(shape)) < size(shape),
{
    let strides = strides_of(shape);
    assert forall|k: int| 0 <= k < coords.len() && k < strides.len() implies {
        &&& i64::MIN <= #[trigger] coords[k] * strides[k] <= i64::MAX
        &&& i64::MIN <= dot_first(coords, strides, k + 1) <= i64::MAX
    } by {
        partial_positions(coords, shape, k);
        partial_positions(coords, shape, k + 1);
        extent_is_not_negative(shape, k + 1);
        assert(extent(shape, k + 1) <= i64::MAX);
        let e = extent(shape, k + 1);
        assert(0 <= coords[k] * e) by (nonlinear_arith)
            requires
                0 <= coords[k],
                0 <= e,
        ;
        assert(size(shape) <= i64::MAX);
    }
    partial_positions(coords, shape, shape.len() as int);
}

/// The sum over the first `count` axes leaves room for the remaining axes.
proof fn partial_positions(coords: Seq<i64>, shape: Seq<i64>, count: int)
    requires
        countable(shape),
        inside(coords, shape),
        0 <= count <= shape.len(),
    ensures
        0 <= dot_first(coords, strides_of(shape), count) <= size(shape) - extent(shape, count),
        0 < extent(shape, count),
    decreases count,
{
    let strides = strides_of(shape);
    positive_extent(coords, shape, count);
    if count > 0 {
        partial_positions(coords, shape, count - 1);
        let c = coords[count - 1] as int;
        let s = shape[count - 1] as int;
        let e = extent(shape, count);
        assert(extent(shape, count) <= i64::MAX);
        assert(strides[count - 1] == e);
        assert(extent(shape, count - 1) == s * e);
        assert(0 <= c * e <= s * e - e) by (nonlinear_arith)
            requires
                0 <= c < s,
                0 <= e,
        ;
    }
}

proof fn positive_extent(coords: Seq<i64>, shape: Seq<i64>, axis: int)
    requires
        inside(coords, shape),
        0 <= axis,
    ensures
        0 < extent(shape, axis),
    decreases shape.len() - axis,
{
    if axis < shape.len() {
        positive_extent(coords, shape, axis + 1);
        let s = shape[axis] as int;
        let e = extent(shape, axis + 1);
        assert(0 <= coords[axis] < s);
        assert(0 < s * e) by (nonlinear_arith)
            requires
                0 < s,
                0 < e,
        ;
    }
}

proof fn extent_of_positive_size(shape: Seq<i64>, axis: int)
    requires
        forall|a: int| 0 <= a < shape.len() ==> 0 <= #[trigger] shape[a],
        0 < size(shape),
        0 <= axis <= shape.len(),
    ensures
        0 < extent(shape, axis),
        axis > 0 ==> 0 < shape[axis - 1],
    decreases axis,
{
    if axis > 0 {
        extent_of_positive_size(shape, axis - 1);
        extent_is_not_negative(shape, axis);
        let s = shape[axis - 1] as int;
        let e = extent(shape, axis);
        assert(0 < s && 0 < e) by (nonlinear_arith)
            requires
                0 < s * e,
                0 <= s,
                0 <= e,
        ;
    }
}

/// Every position below the size of a grid is that of one of its cells.
pub proof fn positions_have_cells(pos: int, shape: Seq<i64>)
    requires
        countable(shape),
        0 <= pos < size(shape),
    ensures
        inside(coords_of(pos, shape), shape),
        dot(coords_of(pos, shape), strides_of(shape)) == pos,
        forall|a: int|
            0 <= a < shape.len() ==> 0 <= #[trigger] digit(pos, shape, a) < shape[a],
{
    let coords = coords_of(pos, shape);
    assert forall|a: int| 0 <= a < shape.len() implies 0 <= #[trigger] digit(pos, shape, a)
        < shape[a] by {
        digits_are_in_range(pos, shape, a);
    }
    assert forall|a: int| 0 <= a < shape.len() implies 0 <= #[trigger] coords[a] < shape[a] by {
        assert(0 <= digit(pos, shape, a) < shape[a]);
    }
    digits_add_up(pos, shape, shape.len() as int);
    vstd::arithmetic::div_mod::lemma_small_mod(pos as nat, size(shape) as nat);
}

proof fn digits_are_in_range(pos: int, shape: Seq<i64>, a: int)
    requires
        countable(shape),
        0 <= pos < size(shape),
        0 <= a < shape.len(),
    ensures
        0 <= digit(pos, shape, a) < shape[a],
        pos % extent(shape, a) == digit(pos, shape, a) * extent(shape, a + 1) + pos % extent(
            shape,
            a + 1,
        ),
{
    extent_of_positive_size(shape, a);
    extent_of_positive_size(shape, a + 1);
    let s = shape[a] as int;
    let e = extent(shape, a + 1);
    let x = pos % extent(shape, a);
    assert(extent(shape, a) == s * e);
    vstd::arithmetic::div_mod::lemma_fundamental_div_mod(x, e);
    assert(0 <= x < s * e);
    let q = x / e;
    let r = x % e;
    assert(0 <= q < s) by (nonlinear_arith)
        requires
            0 <= x < s * e,
            x == e * q + r,
            0 <= r < e,
            0 < e,
    ;
    assert(s * e == e * s) by (nonlinear_arith);
    vstd::arithmetic::div_mod::lemma_mod_mod(pos, e, s);
    assert(e * q == q * e) by (nonlinear_arith);
}

proof fn digits_add_up(pos: int, shape: Seq<i64>, count: int)
    requires
        countable(shape),
        0 <= pos < size(shape),
        0 <= count <= shape.len(),
    ensures
        dot_first(coords_of(pos, shape), strides_of(shape), count) == pos % size(shape) - pos
            % extent(shape, count),
    decreases count,
{
    if count > 0 {
        digits_add_up(pos, shape, count - 1);
        digits_are_in_range(pos, shape, count - 1);
        assert(extent(shape, count) <= i64::MAX);
        extent_is_not_negative(shape, count);
        assert(coords_of(pos, shape)[count - 1] == digit(pos, shape, count - 1));
        assert(strides_of(shape)[count - 1] == extent(shape, count));
    }
}

/// Distinct cells of a grid have distinct positions.
pub proof fn cells_have_distinct_positions(first: Seq<i64>, second: Seq<i64>, shape: Seq<i64>)
    requires
        countable(shape),
        inside(first, shape),
        inside(second, shape),
        dot(first, strides_of(shape)) == dot(second, strides_of(shape)),
    ensures
        first == second,
{
    position_determines_cell(first, shape);
    position_determines_cell(second, shape);
}

/// The coordinates of a cell can be read off its position.
pub proof fn position_determines_cell(coords: Seq<i64>, shape: Seq<i64>)
    requires
        countable(shape),
        inside(coords, shape),
    ensures
        coords_of(dot(coords, strides_of(shape)), shape) == coords,
{
    let pos = dot(coords, strides_of(shape));
    cells_have_positions(coords, shape);
    assert forall|a: int| 0 <= a < shape.len() implies digit(pos, shape, a)
        == #[trigger] coords[a] by {
        remainder_is_the_tail(coords, shape, a);
        remainder_is_the_tail(coords, shape, a + 1);
        positive_extent(coords, shape, a + 1);
        let e = extent(shape, a + 1);
        let strides = strides_of(shape);
        assert(extent(shape, a + 1) <= i64::MAX);
        assert(strides[a] == e);
        let x = pos % extent(shape, a);
        let y = pos % e;
        assert(dot_first(coords, strides, a + 1) == dot_first(coords, strides, a) + coords[a]
            * strides[a]);
        assert(x == coords[a] * e + y);
        vstd::arithmetic::div_mod::lemma_fundamental_div_mod_converse(
            x,
            e,
            coords[a] as int,
            y,
        );
    }
    assert(coords_of(pos, shape) =~= coords);
}

proof fn remainder_is_the_tail(coords: Seq<i64>, shape: Seq<i64>, axis: int)
    requires
        countable(shape),
        inside(coords, shape),
        0 <= axis <= shape.len(),
    ensures
        dot(coords, strides_of(shape)) % extent(shape, axis) == dot(coords, strides_of(shape))
            - dot_first(coords, strides_of(shape), axis),
        0 <= dot(coords, strides_of(shape)) - dot_first(coords, strides_of(shape), axis) < extent(
            shape,
            axis,
        ),
{
    let strides = strides_of(shape);
    let pos = dot(coords, strides);
    partial_positions(coords, shape, axis);
    tail_is_small(coords, shape, axis);
    head_is_a_multiple(coords, shape, axis);
    let m = choose|m: int| dot_first(coords, strides, axis) == #[trigger] (m * extent(shape, axis));
    let t = pos - dot_first(coords, strides, axis);
    vstd::arithmetic::div_mod::lemma_fundamental_div_mod_converse(pos, extent(shape, axis), m, t);
}

proof fn tail_is_small(coords: Seq<i64>, shape: Seq<i64>, axis: int)
    requires
        countable(shape),
        inside(coords, shape),
        0 <= axis <= shape.len(),
    ensures
        0 <= dot(coords, strides_of(shape)) - dot_first(coords, strides_of(shape), axis) < extent(
            shape,
            axis,
        ),
    decreases shape.len() - axis,
{
    let strides = strides_of(shape);
    if axis < shape.len() {
        tail_is_small(coords, shape, axis + 1);
        let c = coords[axis] as int;
        let s = shape[axis] as int;
        let e = extent(shape, axis + 1);
        assert(extent(shape, axis + 1) <= i64::MAX);
        positive_extent(coords, shape, axis + 1);
        assert(strides[axis] == e);
        assert(dot_first(coords, strides, axis + 1) == dot_first(coords, strides, axis) + c * e);
        assert(0 <= c * e <= s * e - e) by (nonlinear_arith)
            requires
                0 <= c < s,
                0 <= e,
        ;
    }
}

proof fn head_is_a_multiple(coords: Seq<i64>, shape: Seq<i64>, axis: int)
    requires
        countable(shape),
        inside(coords, shape),
        0 <= axis <= shape.len(),
    ensures
        exists|m: int|
            dot_first(coords, strides_of(shape), axis) == #[trigger] (m * extent(shape, axis)),
    decreases axis,
{
    let strides = strides_of(shape);
    if axis == 0 {
        assert(dot_first(coords, strides, 0) == 0 * extent(shape, 0));
    } else {
        head_is_a_multiple(coords, shape, axis - 1);
        let m = choose|m: int|
            dot_first(coords, strides, axis - 1) == #[trigger] (m * extent(shape, axis - 1));
        let c = coords[axis - 1] as int;
        let s = shape[axis - 1] as int;
        let e = extent(shape, axis);
        assert(extent(shape, axis) <= i64::MAX);
        positive_extent(coords, shape, axis);
        assert(strides[axis - 1] == e);
        assert(m * (s * e) + c * e == (m * s + c) * e) by (nonlinear_arith);
        assert(dot_first(coords, strides, axis) == (m * s + c) * e);
    }
}

/// The position of a shifted cell is the sum of the position and the flat lag.
pub proof fn positions_shift_by_the_flat_lag(
    coords: Seq<i64>,
    lag: Seq<i64>,
    strides: Seq<i64>,
    count: int,
)
    requires
        coords.len() == lag.len(),
        0 <= count <= coords.len(),
        forall|a: int|
            0 <= a < coords.len() ==> i64::MIN <= #[trigger] coords[a] + lag[a] <= i64::MAX,
    ensures
        dot_first(shifted(coords, lag), strides, count) == dot_first(coords, strides, count)
            + dot_first(lag, strides, count),
    decreases count,
{
    if count > 0 {
        positions_shift_by_the_flat_lag(coords, lag, strides, count - 1);
        let a = count - 1;
        assert(shifted(coords, lag)[a] == coords[a] + lag[a]);
        assert((coords[a] + lag[a]) * strides[a] == coords[a] * strides[a] + lag[a] * strides[a])
            by (nonlinear_arith);
    }
}

proof fn sums_fit(coords: Seq<i64>, strides: Seq<i64>)
    requires
        summable(coords, strides),
    ensures
        i64::MIN <= dot(coords, strides) <= i64::MAX,
{
    let count = vstd::math::min(coords.len() as int, strides.len() as int);
    if count > 0 {
        assert(coords[count - 1] * strides[count - 1] <= i64::MAX);
        assert(i64::MIN <= dot_first(coords, strides, count - 1 + 1) <= i64::MAX);
    }
}

/// The lag is shorter than the grid along every axis.
pub open spec fn within(lag: Seq<i64>, shape: Seq<i64>) -> bool {
    &&& lag.len() == shape.len()
    &&& forall|a: int| 0 <= a < shape.len() ==> -shape[a] < #[trigger] lag[a] < shape[a]
}

/// Computing the flat distance of a lag that is shorter than the grid stays within an
/// `i64`.
pub proof fn short_lags_have_flat_distances(lag: Seq<i64>, shape: Seq<i64>)
    requires
        countable(shape),
        within(lag, shape),
    ensures
        summable(lag, strides_of(shape)),
        -size(shape) < dot(lag, strides_of(shape)) < size(shape),
{
    let strides = strides_of(shape);
    assert(size(shape) <= i64::MAX);
    assert forall|k: int| 0 <= k < lag.len() && k < strides.len() implies {
        &&& i64::MIN <= #[trigger] lag[k] * strides[k] <= i64::MAX
        &&& i64::MIN <= dot_first(lag, strides, k + 1) <= i64::MAX
    } by {
        partial_flat_distances(lag, shape, k);
        partial_flat_distances(lag, shape, k + 1);
        let c = lag[k] as int;
        let s = shape[k] as int;
        let e = extent(shape, k + 1);
        assert(extent(shape, k + 1) <= i64::MAX && extent(shape, k) <= i64::MAX);
        assert(strides[k] == e);
        assert(extent(shape, k) == s * e);
        assert(-(s * e) <= c * e <= s * e) by (nonlinear_arith)
            requires
                -s < c < s,
                0 <= e,
        ;
    }
    partial_flat_distances(lag, shape, shape.len() as int);
}

proof fn partial_flat_distances(lag: Seq<i64>, shape: Seq<i64>, count: int)
    requires
        countable(shape),
        within(lag, shape),
        0 <= count <= shape.len(),
    ensures
        -(size(shape) - extent(shape, count)) <= dot_first(lag, strides_of(shape), count)
            <= size(shape) - extent(shape, count),
        0 < extent(shape, count),
    decreases count,
{
    let strides = strides_of(shape);
    let least = Seq::new(shape.len(), |a: int| 0i64);
    assert forall|a: int| 0 <= a < shape.len() implies 0 <= #[trigger] least[a] < shape[a] by {
        assert(-shape[a] < lag[a] < shape[a]);
    }
    positive_extent(least, shape, count);
    if count > 0 {
        partial_flat_distances(lag, shape, count - 1);
        let c = lag[count - 1] as int;
        let s = shape[count - 1] as int;
        let e = extent(shape, count);
        assert(extent(shape, count) <= i64::MAX);
        assert(strides[count - 1] == e);
        assert(extent(shape, count - 1) == s * e);
        assert(-(s * e - e) <= c * e <= s * e - e) by (nonlinear_arith)
            requires
                -s < c < s,
                0 <= e,
        ;
    }
}

/// A grid that is no longer along any axis has no more cells.
pub proof fn smaller_grids_are_countable(smaller: Seq<i64>, shape: Seq<i64>)
    requires
        countable(shape),
        smaller.len() == shape.len(),
        forall|a: int| 0 <= a < shape.len() ==> 0 <= #[trigger] smaller[a] <= shape[a],
    ensures
        countable(smaller),
        size(smaller) <= size(shape),
{
    assert forall|a: int| 0 <= a <= smaller.len() implies #[trigger] extent(smaller, a)
        <= i64::MAX && extent(smaller, a) <= usize::MAX by {
        smaller_extents(smaller, shape, a);
        assert(extent(shape, a) <= i64::MAX);
    }
    smaller_extents(smaller, shape, 0);
}

proof fn smaller_extents(smaller: Seq<i64>, shape: Seq<i64>, axis: int)
    requires
        countable(shape),
        smaller.len() == shape.len(),
        forall|a: int| 0 <= a < shape.len() ==> 0 <= #[trigger] smaller[a] <= shape[a],
        0 <= axis <= shape.len(),
    ensures
        0 <= extent(smaller, axis) <= extent(shape, axis),
    decreases shape.len() - axis,
{
    if axis < shape.len() {
        smaller_extents(smaller, shape, axis + 1);
        let t = smaller[axis] as int;
        let s = shape[axis] as int;
        let d = extent(smaller, axis + 1);
        let e = extent(shape, axis + 1);
        assert(0 <= t * d <= s * e) by (nonlinear_arith)
            requires
                0 <= t <= s,
                0 <= d <= e,
        ;
    }
}

/// A grid that is not empty along any axis has a cell.
pub proof fn positive_shapes_have_cells(shape: Seq<i64>)
    requires
        forall|a: int| 0 <= a < shape.len() ==> 0 < #[trigger] shape[a],
    ensures
        0 < size(shape),
{
    let least = Seq::new(shape.len(), |a: int| 0i64);
    assert forall|a: int| 0 <= a < shape.len() implies 0 <= #[trigger] least[a] < shape[a] by {
        assert(0 < shape[a]);
    }
    positive_extent(least, shape, 0);
}

/// Multiplied with the extent of the axes that are left, the product of the first sizes is the
/// size of the grid.
pub proof fn products_make_up_the_size(shape: Seq<i64>, count: int)
    requires
        0 <= count <= shape.len(),
    ensures
        product(shape, count) * extent(shape, count) == size(shape),
    decreases count,
{
    if count > 0 {
        products_make_up_the_size(shape, count - 1);
        let before = product(shape, count - 1);
        let s = shape[count - 1] as int;
        let e = extent(shape, count);
        assert(extent(shape, count - 1) == s * e);
        assert(before * (s * e) == (before * s) * e) by (nonlinear_arith);
    }
}

/// The number of cells of a grid is not negative.
pub proof fn sizes_are_not_negative(shape: Seq<i64>)
    requires
        countable(shape),
    ensures
        0 <= size(shape),
{
    extent_is_not_negative(shape, 0);
}

proof fn extent_is_not_negative(shape: Seq<i64>, axis: int)
    requires
        forall|a: int| 0 <= a < shape.len() ==> 0 <= #[trigger] shape[a],
        0 <= axis,
    ensures
        0 <= extent(shape, axis),
    decreases shape.len() - axis,
{
    if axis < shape.len() {
        extent_is_not_negative(shape, axis + 1);
        let s = shape[axis];
        let e = extent(shape, axis + 1);
        assert(0 <= s * e) by (nonlinear_arith)
            requires
                0 <= s,
                0 <= e,
        ;
    }
}

} // verus!
