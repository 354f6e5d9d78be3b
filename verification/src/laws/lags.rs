//! How lags are brought into the training image.

use crate::arithmetic::{self, Arithmetic};
use crate::event;
use crate::exactness::{self, Reading};
use vstd::prelude::*;

verus! {

/// What column `c` of a row contributes to the image of a lag.
pub open spec fn contribution(row: Seq<int>, lag: Seq<i64>) -> spec_fn(int) -> int {
    |c: int| row[c] * lag[c]
}

/// The same in units of a reading.
pub open spec fn scaled(f: spec_fn(int) -> int, scale: int) -> spec_fn(int) -> int {
    |c: int| f(c) * scale
}

/// The matrix holds the integers `entries`, row by row.
pub open spec fn holds_integers(
    r: Reading,
    matrix: Seq<Vec<u64>>,
    entries: Seq<Seq<int>>,
    axes: int,
) -> bool {
    &&& matrix.len() == axes
    &&& entries.len() == axes
    &&& forall|a: int, c: int|
        #![trigger entries[a][c]]
        0 <= a < axes && 0 <= c < axes ==> r.says(matrix[a]@[c], entries[a][c] * r.scale)
}

/// What the entries and the components of a lag come to is at hand.
pub open spec fn moderate(r: Reading, entries: Seq<Seq<int>>, lag: Seq<i64>) -> bool {
    &&& forall|c: int| 0 <= c < lag.len() ==> r.holds(#[trigger] lag[c] * r.scale)
    &&& forall|a: int, c: int|
        #![trigger entries[a][c]]
        0 <= a < lag.len() && 0 <= c < lag.len() ==> r.holds(entries[a][c] * lag[c] * r.scale)
    &&& forall|a: int|
        0 <= a < lag.len() ==> exactness::summable(
            r,
            scaled(contribution(#[trigger] entries[a], lag), r.scale),
            lag.len() as int,
        )
}

/// Every factor of a scaled series can be taken out.
pub proof fn scaled_series(f: spec_fn(int) -> int, scale: int, count: int)
    ensures
        exactness::series(scaled(f, scale), count) == exactness::series(f, count) * scale,
    decreases count,
{
    if count > 0 {
        scaled_series(f, scale, count - 1);
        let a = exactness::series(f, count - 1);
        let b = f(count - 1);
        assert((a + b) * scale == a * scale + b * scale) by (nonlinear_arith);
    } else {
        assert(0 * scale == 0);
    }
}

/// A lag is multiplied by the matrix: where the operations are exact, each component of the mapped
/// lag is the product of its row of the matrix and the lag.
pub proof fn lags_are_multiplied_by_the_matrix<N: Arithmetic>(
    n: N,
    r: Reading,
    matrix: Seq<Vec<u64>>,
    entries: Seq<Seq<int>>,
    lag: Seq<i64>,
    mapped: Seq<i64>,
    a: int,
)
    requires
        r.exact(n),
        holds_integers(r, matrix, entries, lag.len() as int),
        moderate(r, entries, lag),
        event::maps_lag(n, matrix, lag, mapped),
        0 <= a < lag.len(),
        i64::MIN <= exactness::series(contribution(entries[a], lag), lag.len() as int) <= i64::MAX,
    ensures
        mapped.len() == lag.len(),
        mapped[a] == exactness::series(contribution(entries[a], lag), lag.len() as int),
{
    let axes = lag.len() as int;
    let row = matrix[a]@;
    let plain = contribution(entries[a], lag);
    let f = scaled(plain, r.scale);
    assert(event::maps_component(n, row, lag, mapped[a]));
    let steps = event::mapping_steps(n, row, lag);
    let total = choose|total: u64|
        {
            &&& arithmetic::accumulates(steps, axes, total)
            &&& #[trigger] arithmetic::rounds(n, total, mapped[a])
        };
    assert(exactness::summable(r, scaled(contribution(entries[a], lag), r.scale), axes));
    assert forall|i: int, p: u64, q: u64|
        0 <= i < axes && #[trigger] steps(i, p, q) && r.says(
            p,
            exactness::series(f, i),
        ) implies r.says(q, exactness::series(f, i + 1)) by {
        let (number, product) = choose|number: u64, product: u64|
            {
                &&& #[trigger] arithmetic::numbers(n, lag[i], number)
                &&& #[trigger] arithmetic::multiplies(n, number, row[i], product)
                &&& arithmetic::adds(n, p, product, q)
            };
        let e = entries[a][i];
        let l = lag[i] as int;
        assert(r.holds(lag[i] * r.scale));
        assert(r.says(number, l * r.scale));
        assert(r.says(matrix[a]@[i], e * r.scale));
        assert(r.product(l * r.scale, e * r.scale, e * l * r.scale)) by (nonlinear_arith)
            requires
                r.product(l * r.scale, e * r.scale, e * l * r.scale) == ((e * l * r.scale) * r.scale
                    == (l * r.scale) * (e * r.scale)),
        ;
        assert(r.holds(entries[a][i] * lag[i] * r.scale));
        assert(r.says(product, e * l * r.scale));
        assert(f(i) == e * l * r.scale);
        assert(exactness::series(f, i + 1) == exactness::series(f, i) + f(i));
        assert(r.holds(exactness::series(f, i + 1)));
    }
    exactness::chains_come_to_the_series(r, steps, f, axes, total);
    scaled_series(plain, r.scale, axes);
}

/// A matrix whose only entry is a 1 in row `row` and column `column` sends every lag to the lag
/// whose component `row` is the component `column` of the lag, and whose other components are 0.
pub proof fn unit_matrices_move_one_component<N: Arithmetic>(
    n: N,
    r: Reading,
    matrix: Seq<Vec<u64>>,
    row: int,
    column: int,
    lag: Seq<i64>,
    mapped: Seq<i64>,
)
    requires
        r.exact(n),
        0 <= row < lag.len(),
        0 <= column < lag.len(),
        matrix.len() == lag.len(),
        forall|a: int, c: int|
            #![trigger matrix[a]@[c]]
            0 <= a < lag.len() && 0 <= c < lag.len() ==> r.says(
                matrix[a]@[c],
                if a == row && c == column {
                    r.scale
                } else {
                    0
                },
            ),
        forall|c: int| 0 <= c < lag.len() ==> r.holds(#[trigger] lag[c] * r.scale),
        event::maps_lag(n, matrix, lag, mapped),
    ensures
        mapped.len() == lag.len(),
        mapped[row] == lag[column],
        forall|a: int| 0 <= a < lag.len() && a != row ==> #[trigger] mapped[a] == 0,
{
    let axes = lag.len() as int;
    let entries = Seq::new(
        lag.len(),
        |a: int|
            Seq::new(
                lag.len(),
                |c: int|
                    if a == row && c == column {
                        1int
                    } else {
                        0int
                    },
            ),
    );
    assert forall|a: int, c: int|
        #![trigger entries[a][c]]
        0 <= a < axes && 0 <= c < axes implies r.says(matrix[a]@[c], entries[a][c] * r.scale) by {
        assert(1 * r.scale == r.scale && 0 * r.scale == 0);
    }
    assert forall|a: int, c: int|
        #![trigger entries[a][c]]
        0 <= a < axes && 0 <= c < axes implies r.holds(entries[a][c] * lag[c] * r.scale) by {
        assert(r.holds(lag[c] * r.scale));
        assert(1 * lag[c] == lag[c] && 0 * lag[c] == 0);
    }
    assert forall|a: int| 0 <= a < axes implies {
        &&& exactness::summable(
            r,
            scaled(contribution(#[trigger] entries[a], lag), r.scale),
            axes,
        )
        &&& exactness::series(contribution(entries[a], lag), axes) == if a == row {
            lag[column] as int
        } else {
            0
        }
    } by {
        let plain = contribution(entries[a], lag);
        let f = scaled(plain, r.scale);
        assert forall|c: int| 0 <= c < axes && c != column implies #[trigger] f(c) == 0 by {
            assert(entries[a][c] == 0);
            assert(0 * lag[c] == 0 && 0 * r.scale == 0);
        }
        assert forall|c: int| 0 <= c < axes && c != column implies #[trigger] plain(c) == 0 by {
            assert(entries[a][c] == 0);
            assert(0 * lag[c] == 0);
        }
        assert(entries[a][column] == if a == row {
            1int
        } else {
            0
        });
        assert(1 * lag[column] == lag[column] && 0 * lag[column] == 0);
        assert(r.holds(lag[column] * r.scale));
        assert forall|k: int| 0 <= k <= axes implies r.holds(
            #[trigger] exactness::series(f, k),
        ) by {
            exactness::lonely_series(f, k, column);
            assert(f(column) == (entries[a][column] * lag[column]) * r.scale);
        }
        exactness::lonely_series(plain, axes, column);
        assert(plain(column) == entries[a][column] * lag[column]);
    }
    assert(moderate(r, entries, lag));
    assert forall|a: int| 0 <= a < axes implies #[trigger] mapped[a] == if a == row {
        lag[column]
    } else {
        0
    } by {
        assert(exactness::series(contribution(entries[a], lag), axes) == if a == row {
            lag[column] as int
        } else {
            0
        });
        lags_are_multiplied_by_the_matrix(n, r, matrix, entries, lag, mapped, a);
    }
}

/// A component of a mapped lag depends on its own row of the matrix only: what it may come to
/// under one matrix, it may come to under any other with that row.
pub proof fn components_depend_on_their_row<N: Arithmetic>(
    n: N,
    matrix: Seq<Vec<u64>>,
    other: Seq<Vec<u64>>,
    lag: Seq<i64>,
    mapped: Seq<i64>,
    moved: Seq<i64>,
    a: int,
)
    requires
        event::maps_lag(n, matrix, lag, mapped),
        event::maps_lag(n, other, lag, moved),
        0 <= a < lag.len(),
        matrix[a]@ == other[a]@,
    ensures
        event::maps_lag(n, other, lag, moved.update(a, mapped[a])),
{
    let mixed = moved.update(a, mapped[a]);
    assert forall|b: int| 0 <= b < lag.len() implies event::maps_component(
        n,
        other[b]@,
        lag,
        #[trigger] mixed[b],
    ) by {
        if b == a {
            assert(event::maps_component(n, matrix[a]@, lag, mapped[a]));
        } else {
            assert(event::maps_component(n, other[b]@, lag, moved[b]));
        }
    }
}

/// Where the product of a row and a lag is no integer, the mapped lag takes the nearest one: where the
/// operations are exact, a component lies within a half of what its row of the matrix makes of the
/// lag. Here `entries` are what the matrix holds, in units of the reading.
pub proof fn mapped_lags_are_the_nearest<N: Arithmetic>(
    n: N,
    r: Reading,
    matrix: Seq<Vec<u64>>,
    entries: Seq<Seq<int>>,
    lag: Seq<i64>,
    mapped: Seq<i64>,
    a: int,
)
    requires
        r.exact(n),
        0 <= a < lag.len(),
        forall|c: int|
            0 <= c < lag.len() ==> {
                &&& r.says(matrix[a]@[c], #[trigger] entries[a][c])
                &&& r.holds(lag[c] * r.scale)
                &&& r.holds(entries[a][c] * lag[c])
            },
        exactness::summable(r, contribution(entries[a], lag), lag.len() as int),
        i64::MIN * r.scale <= exactness::series(contribution(entries[a], lag), lag.len() as int)
            <= i64::MAX * r.scale,
        event::maps_lag(n, matrix, lag, mapped),
    ensures
        mapped.len() == lag.len(),
        -r.scale <= 2 * (mapped[a] * r.scale - exactness::series(
            contribution(entries[a], lag),
            lag.len() as int,
        )) <= r.scale,
{
    let axes = lag.len() as int;
    let row = matrix[a]@;
    let f = contribution(entries[a], lag);
    assert(event::maps_component(n, row, lag, mapped[a]));
    let steps = event::mapping_steps(n, row, lag);
    let total = choose|total: u64|
        {
            &&& arithmetic::accumulates(steps, axes, total)
            &&& #[trigger] arithmetic::rounds(n, total, mapped[a])
        };
    assert forall|i: int, p: u64, q: u64|
        0 <= i < axes && #[trigger] steps(i, p, q) && r.says(
            p,
            exactness::series(f, i),
        ) implies r.says(q, exactness::series(f, i + 1)) by {
        let (number, product) = choose|number: u64, product: u64|
            {
                &&& #[trigger] arithmetic::numbers(n, lag[i], number)
                &&& #[trigger] arithmetic::multiplies(n, number, row[i], product)
                &&& arithmetic::adds(n, p, product, q)
            };
        let e = entries[a][i];
        let l = lag[i] as int;
        let s = r.scale;
        assert(r.says(number, l * s));
        assert((e * l) * s == (l * s) * e) by (nonlinear_arith);
        assert(r.product(l * s, e, e * l));
        assert(r.says(product, e * l));
        assert(f(i) == e * l);
        assert(exactness::series(f, i + 1) == exactness::series(f, i) + f(i));
        assert(r.holds(exactness::series(f, i + 1)));
    }
    exactness::chains_come_to_the_series(r, steps, f, axes, total);
}

} // verus!
