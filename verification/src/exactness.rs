//! What words stand for, and where the rounding operations are exact.
//!
//! A reading lets words stand for fractions with a common denominator. Binary64 numbers have such
//! a reading, under which sums, products, quotients, roots and powers are exact wherever the exact
//! result has a place among the numbers. What the crate computes with rounding is what it is meant
//! to be where the operations are exact: the laws that say so are stated through readings.

use crate::arithmetic::{self, Arithmetic};
use crate::word;
use vstd::arithmetic::power::pow;
use vstd::prelude::*;

verus! {

/// A reading: `reads(w, x)` says that the word `w` stands for `x / scale`. Fractions are at hand
/// up to `limit / scale`.
pub struct Reading {
    pub reads: spec_fn(u64, int) -> bool,
    pub scale: int,
    pub limit: int,
}

impl Reading {
    /// The word stands for `x / scale`.
    pub open spec fn says(self, w: u64, x: int) -> bool {
        (self.reads)(w, x)
    }

    /// The fraction `x / scale` is at hand.
    pub open spec fn holds(self, x: int) -> bool {
        -self.limit <= x <= self.limit
    }

    /// Words stand for one fraction at most, and compare as their fractions do.
    pub open spec fn orderly(self) -> bool {
        &&& 0 < self.scale <= self.limit
        &&& self.says(word::ZERO, 0)
        &&& self.says(word::ONE, self.scale)
        &&& forall|w: u64, x: int, y: int|
            #[trigger] self.says(w, x) && #[trigger] self.says(w, y) ==> x == y
        &&& forall|w: u64, x: int| #[trigger] self.says(w, x) ==> word::finite(w)
        &&& forall|v: u64, w: u64, x: int, y: int|
            #[trigger] self.says(v, x) && #[trigger] self.says(w, y) ==> {
                &&& word::below(v, w) <==> x < y
                &&& word::same(v, w) <==> x == y
            }
        &&& forall|w: u64, x: int| #[trigger]
            self.says(w, x) ==> self.says(word::negated(w), -x) && self.says(
                word::absolute_of(w),
                size_of(x),
            )
    }

    /// Sums, differences and products are exact.
    pub open spec fn exact_sums<N: Arithmetic>(self, n: N) -> bool {
        &&& forall|a: u64, b: u64, r: u64, x: int, y: int|
            #[trigger] arithmetic::adds(n, a, b, r) && #[trigger] self.says(a, x)
                && #[trigger] self.says(b, y) && self.holds(x + y) ==> self.says(r, x + y)
        &&& forall|a: u64, b: u64, r: u64, x: int, y: int|
            #[trigger] arithmetic::subtracts(n, a, b, r) && #[trigger] self.says(a, x)
                && #[trigger] self.says(b, y) && self.holds(x - y) ==> self.says(r, x - y)
    }

    /// Products and quotients are exact where they are at hand.
    pub open spec fn exact_products<N: Arithmetic>(self, n: N) -> bool {
        &&& forall|a: u64, b: u64, r: u64, x: int, y: int, z: int|
            #[trigger] arithmetic::multiplies(n, a, b, r) && #[trigger] self.says(a, x)
                && #[trigger] self.says(b, y) && #[trigger] self.product(x, y, z) && self.holds(z)
                ==> self.says(r, z)
        &&& forall|a: u64, b: u64, r: u64, x: int, y: int, z: int|
            #[trigger] arithmetic::divides(n, a, b, r) && #[trigger] self.says(a, x)
                && #[trigger] self.says(b, y) && y != 0 && #[trigger] self.product(z, y, x)
                && self.holds(z) ==> self.says(r, z)
    }

    /// `z / scale` is the product of `x / scale` and `y / scale`.
    pub open spec fn product(self, x: int, y: int, z: int) -> bool {
        z * self.scale == x * y
    }

    /// `z / scale` is the power of `x / scale` to the exponent `k`.
    pub open spec fn raised(self, x: int, k: nat, z: int) -> bool {
        z * pow(self.scale, k) == pow(x, k) * self.scale
    }

    /// Roots and powers to whole exponents are exact where they are at hand.
    pub open spec fn exact_powers<N: Arithmetic>(self, n: N) -> bool {
        &&& forall|a: u64, r: u64, x: int, z: int|
            #[trigger] arithmetic::roots(n, a, r) && #[trigger] self.says(a, x) && 0 <= z
                && #[trigger] self.product(z, z, x) && self.holds(z) ==> self.says(r, z)
        &&& forall|a: u64, b: u64, r: u64, x: int, k: nat, z: int|
            #[trigger] arithmetic::powers(n, a, b, r) && #[trigger] self.says(a, x) && self.says(
                b,
                k * self.scale,
            ) && #[trigger] self.raised(x, k, z) && self.holds(z) ==> self.says(r, z)
        &&& forall|a: u64, b: u64, r: u64, x: int, k: nat, z: int|
            #[trigger] arithmetic::powers(n, a, b, r) && #[trigger] self.says(a, x) && x != 0
                && self.says(b, -(k * self.scale)) && #[trigger] self.raised_down(x, k, z)
                && self.holds(z) ==> self.says(r, z)
        &&& forall|a: u64, b: u64, r: u64, x: int, y: int, k: nat, z: int|
            #[trigger] arithmetic::powers(n, a, b, r) && #[trigger] self.says(a, x)
                && #[trigger] self.says(b, y) && 0 < k && y * k == self.scale && 0 <= z
                && #[trigger] self.raised(z, k, x) && self.holds(z) ==> self.says(r, z)
    }

    /// `z / scale` is the power of `x / scale` to the exponent `-k`.
    pub open spec fn raised_down(self, x: int, k: nat, z: int) -> bool {
        z * pow(x, k) == pow(self.scale, k) * self.scale
    }

    /// Integers become numbers without loss, and numbers integers: the nearest, or the one without
    /// the fraction.
    pub open spec fn exact_integers<N: Arithmetic>(self, n: N) -> bool {
        &&& forall|i: i64, r: u64| #[trigger]
            arithmetic::numbers(n, i, r) && self.holds(i * self.scale) ==> self.says(
                r,
                i * self.scale,
            )
        &&& forall|c: usize, r: u64| #[trigger]
            arithmetic::counts(n, c, r) && self.holds(c * self.scale) ==> self.says(
                r,
                c * self.scale,
            )
        &&& forall|a: u64, r: i64, i: int| #[trigger]
            arithmetic::rounds(n, a, r) && #[trigger] self.says(a, i * self.scale) && i64::MIN <= i
                <= i64::MAX ==> r == i
        &&& forall|a: u64, r: i64, x: int| #[trigger]
            arithmetic::rounds(n, a, r) && #[trigger] self.says(a, x) && i64::MIN * self.scale <= x
                <= i64::MAX * self.scale ==> -self.scale <= 2 * (r * self.scale - x) <= self.scale
        &&& forall|a: u64, r: i64, x: int| #[trigger]
            arithmetic::cuts_to(n, a, r) && #[trigger] self.says(a, x) && 0 <= x ==> r * self.scale
                <= x < (r + 1) * self.scale
        &&& forall|a: u64, r: usize, x: int| #[trigger]
            arithmetic::truncates(n, a, r) && #[trigger] self.says(a, x) && 0 <= x ==> r
                * self.scale <= x < (r + 1) * self.scale
    }

    /// The rounding operations are exact wherever their results are at hand.
    pub open spec fn exact<N: Arithmetic>(self, n: N) -> bool {
        &&& self.orderly()
        &&& self.exact_sums(n)
        &&& self.exact_products(n)
        &&& self.exact_powers(n)
        &&& self.exact_integers(n)
    }
}

/// The absolute value.
pub open spec fn size_of(x: int) -> int {
    if x < 0 {
        -x
    } else {
        x
    }
}

/// `f(0) + .. + f(count - 1)`.
pub open spec fn series(f: spec_fn(int) -> int, count: int) -> int
    decreases count,
{
    if count <= 0 {
        0
    } else {
        series(f, count - 1) + f(count - 1)
    }
}

/// Every beginning of the series is at hand.
pub open spec fn summable(r: Reading, f: spec_fn(int) -> int, count: int) -> bool {
    forall|k: int| 0 <= k <= count ==> r.holds(#[trigger] series(f, k))
}

/// A chain of steps that add `f(i)` comes to the series.
pub proof fn chains_come_to_the_series(
    r: Reading,
    step: spec_fn(int, u64, u64) -> bool,
    f: spec_fn(int) -> int,
    count: int,
    total: u64,
)
    requires
        r.says(word::ZERO, 0),
        arithmetic::accumulates(step, count, total),
        forall|i: int, p: u64, q: u64|
            0 <= i < count && #[trigger] step(i, p, q) && r.says(p, series(f, i)) ==> r.says(
                q,
                series(f, i + 1),
            ),
    ensures
        r.says(total, series(f, count)),
    decreases count,
{
    if count > 0 {
        let p = choose|p: u64|
            arithmetic::accumulates(step, count - 1, p) && #[trigger] step(count - 1, p, total);
        chains_come_to_the_series(r, step, f, count - 1, p);
        assert(step(count - 1, p, total));
    }
}

/// Where addition is exact, adding up comes to the series.
pub proof fn sums_come_to_the_series<N: Arithmetic>(
    n: N,
    r: Reading,
    xs: Seq<u64>,
    f: spec_fn(int) -> int,
    total: u64,
)
    requires
        r.exact(n),
        arithmetic::sums(n, xs, total),
        forall|i: int| 0 <= i < xs.len() ==> r.says(#[trigger] xs[i], f(i)),
        summable(r, f, xs.len() as int),
    ensures
        r.says(total, series(f, xs.len() as int)),
{
    let steps = arithmetic::sum_steps(n, xs);
    assert forall|i: int, p: u64, q: u64|
        0 <= i < xs.len() && #[trigger] steps(i, p, q) && r.says(p, series(f, i)) implies r.says(
        q,
        series(f, i + 1),
    ) by {
        assert(arithmetic::adds(n, p, xs[i], q));
        assert(r.says(xs[i], f(i)));
        assert(series(f, i + 1) == series(f, i) + f(i));
    }
    chains_come_to_the_series(r, steps, f, xs.len() as int, total);
}

/// Series of equal parts are equal.
pub proof fn series_alike(f: spec_fn(int) -> int, g: spec_fn(int) -> int, count: int)
    requires
        forall|i: int| 0 <= i < count ==> #[trigger] f(i) == g(i),
    ensures
        series(f, count) == series(g, count),
    decreases count,
{
    if count > 0 {
        series_alike(f, g, count - 1);
        assert(f(count - 1) == g(count - 1));
    }
}

/// A series with one part that is not zero comes to that part.
pub proof fn lonely_series(f: spec_fn(int) -> int, count: int, c: int)
    requires
        forall|i: int| 0 <= i < count && i != c ==> #[trigger] f(i) == 0,
    ensures
        series(f, count) == if 0 <= c < count {
            f(c)
        } else {
            0
        },
    decreases count,
{
    if count > 0 {
        lonely_series(f, count - 1, c);
        if count - 1 != c {
            assert(f(count - 1) == 0);
        }
    }
}

} // verus!
