//! The rounding operations on binary64 words, and what it means to chain them.

use crate::word;
use vstd::prelude::*;

verus! {

/// The operations on binary64 words that round.
///
/// Nothing is promised of a result. Each operation is known only by the relation
/// between its arguments and its outcomes (see [`adds`] and those after it), and
/// what the crate computes is stated through those relations.
pub trait Arithmetic {
    /// `a + b`.
    fn plus(&self, a: u64, b: u64) -> u64;

    /// `a - b`.
    fn minus(&self, a: u64, b: u64) -> u64;

    /// `a * b`.
    fn times(&self, a: u64, b: u64) -> u64;

    /// `a / b`.
    fn over(&self, a: u64, b: u64) -> u64;

    /// The square root of `a`.
    fn root(&self, a: u64) -> u64;

    /// `a` to the power `b`.
    fn power(&self, a: u64, b: u64) -> u64;

    /// The number nearest to an integer.
    fn number(&self, i: i64) -> u64;

    /// The number nearest to a count.
    fn count(&self, c: usize) -> u64;

    /// The integer nearest to `a`, halves going to the even neighbour.
    fn nearest(&self, a: u64) -> i64;

    /// `a` without its fraction.
    fn cut(&self, a: u64) -> i64;

    /// `a` without its fraction, and 0 where `a` is negative.
    fn whole(&self, a: u64) -> usize;
}

/// `r` is an outcome of `a + b`.
pub open spec fn adds<N: Arithmetic>(n: N, a: u64, b: u64, r: u64) -> bool {
    call_ensures(N::plus, (&n, a, b), r)
}

/// `r` is an outcome of `a - b`.
pub open spec fn subtracts<N: Arithmetic>(n: N, a: u64, b: u64, r: u64) -> bool {
    call_ensures(N::minus, (&n, a, b), r)
}

/// `r` is an outcome of `a * b`.
pub open spec fn multiplies<N: Arithmetic>(n: N, a: u64, b: u64, r: u64) -> bool {
    call_ensures(N::times, (&n, a, b), r)
}

/// `r` is an outcome of `a / b`.
pub open spec fn divides<N: Arithmetic>(n: N, a: u64, b: u64, r: u64) -> bool {
    call_ensures(N::over, (&n, a, b), r)
}

/// `r` is an outcome of the square root of `a`.
pub open spec fn roots<N: Arithmetic>(n: N, a: u64, r: u64) -> bool {
    call_ensures(N::root, (&n, a), r)
}

/// `r` is an outcome of `a` to the power `b`.
pub open spec fn powers<N: Arithmetic>(n: N, a: u64, b: u64, r: u64) -> bool {
    call_ensures(N::power, (&n, a, b), r)
}

/// `r` is an outcome of turning the integer `i` into a number.
pub open spec fn numbers<N: Arithmetic>(n: N, i: i64, r: u64) -> bool {
    call_ensures(N::number, (&n, i), r)
}

/// `r` is an outcome of turning the count `c` into a number.
pub open spec fn counts<N: Arithmetic>(n: N, c: usize, r: u64) -> bool {
    call_ensures(N::count, (&n, c), r)
}

/// `r` is an outcome of rounding `a` to an integer.
pub open spec fn rounds<N: Arithmetic>(n: N, a: u64, r: i64) -> bool {
    call_ensures(N::nearest, (&n, a), r)
}

/// `r` is an outcome of cutting off the fraction of `a`.
pub open spec fn cuts_to<N: Arithmetic>(n: N, a: u64, r: i64) -> bool {
    call_ensures(N::cut, (&n, a), r)
}

/// `r` is an outcome of cutting off the fraction of `a`, and 0 for what is negative.
pub open spec fn truncates<N: Arithmetic>(n: N, a: u64, r: usize) -> bool {
    call_ensures(N::whole, (&n, a), r)
}

/// `a + b`.
pub fn plus<N: Arithmetic>(n: &N, a: u64, b: u64) -> (r: u64)
    ensures
        adds(*n, a, b, r),
{
    n.plus(a, b)
}

/// `a - b`.
pub fn minus<N: Arithmetic>(n: &N, a: u64, b: u64) -> (r: u64)
    ensures
        subtracts(*n, a, b, r),
{
    n.minus(a, b)
}

/// `a * b`.
pub fn times<N: Arithmetic>(n: &N, a: u64, b: u64) -> (r: u64)
    ensures
        multiplies(*n, a, b, r),
{
    n.times(a, b)
}

/// `a / b`.
pub fn over<N: Arithmetic>(n: &N, a: u64, b: u64) -> (r: u64)
    ensures
        divides(*n, a, b, r),
{
    n.over(a, b)
}

/// The square root of `a`.
pub fn root<N: Arithmetic>(n: &N, a: u64) -> (r: u64)
    ensures
        roots(*n, a, r),
{
    n.root(a)
}

/// `a` to the power `b`.
pub fn power<N: Arithmetic>(n: &N, a: u64, b: u64) -> (r: u64)
    ensures
        powers(*n, a, b, r),
{
    n.power(a, b)
}

/// The number nearest to an integer.
pub fn number<N: Arithmetic>(n: &N, i: i64) -> (r: u64)
    ensures
        numbers(*n, i, r),
{
    n.number(i)
}

/// The number nearest to a count.
pub fn count<N: Arithmetic>(n: &N, c: usize) -> (r: u64)
    ensures
        counts(*n, c, r),
{
    n.count(c)
}

/// The integer nearest to `a`.
pub fn nearest<N: Arithmetic>(n: &N, a: u64) -> (r: i64)
    ensures
        rounds(*n, a, r),
{
    n.nearest(a)
}

/// `a` without its fraction.
pub fn cut<N: Arithmetic>(n: &N, a: u64) -> (r: i64)
    ensures
        cuts_to(*n, a, r),
{
    n.cut(a)
}

/// `a` without its fraction, and 0 where `a` is negative.
pub fn whole<N: Arithmetic>(n: &N, a: u64) -> (r: usize)
    ensures
        truncates(*n, a, r),
{
    n.whole(a)
}

/// Every operation has at most one outcome for given arguments.
pub open spec fn functional<N: Arithmetic>(n: N) -> bool {
    &&& forall|a: u64, b: u64, r: u64, s: u64|
        #[trigger] adds(n, a, b, r) && #[trigger] adds(n, a, b, s) ==> r == s
    &&& forall|a: u64, b: u64, r: u64, s: u64|
        #[trigger] subtracts(n, a, b, r) && #[trigger] subtracts(n, a, b, s) ==> r == s
    &&& forall|a: u64, b: u64, r: u64, s: u64|
        #[trigger] multiplies(n, a, b, r) && #[trigger] multiplies(n, a, b, s) ==> r == s
    &&& forall|a: u64, b: u64, r: u64, s: u64|
        #[trigger] divides(n, a, b, r) && #[trigger] divides(n, a, b, s) ==> r == s
    &&& forall|a: u64, r: u64, s: u64| #[trigger]
        roots(n, a, r) && #[trigger] roots(n, a, s) ==> r == s
    &&& forall|a: u64, b: u64, r: u64, s: u64|
        #[trigger] powers(n, a, b, r) && #[trigger] powers(n, a, b, s) ==> r == s
    &&& forall|i: i64, r: u64, s: u64| #[trigger]
        numbers(n, i, r) && #[trigger] numbers(n, i, s) ==> r == s
    &&& forall|c: usize, r: u64, s: u64| #[trigger]
        counts(n, c, r) && #[trigger] counts(n, c, s) ==> r == s
    &&& forall|a: u64, r: i64, s: i64| #[trigger]
        rounds(n, a, r) && #[trigger] rounds(n, a, s) ==> r == s
    &&& forall|a: u64, r: i64, s: i64| #[trigger]
        cuts_to(n, a, r) && #[trigger] cuts_to(n, a, s) ==> r == s
    &&& forall|a: u64, r: usize, s: usize| #[trigger]
        truncates(n, a, r) && #[trigger] truncates(n, a, s) ==> r == s
}

/// `r` is an outcome of `fraction` of `count`, without what is left over.
pub open spec fn takes_part<N: Arithmetic>(n: N, fraction: u64, count: usize, r: usize) -> bool {
    exists|number: u64, product: u64|
        {
            &&& #[trigger] counts(n, count, number)
            &&& #[trigger] multiplies(n, fraction, number, product)
            &&& truncates(n, product, r)
        }
}

/// `fraction` of `count`, without what is left over.
pub fn part_of<N: Arithmetic>(n: &N, fraction: u64, count: usize) -> (r: usize)
    ensures
        takes_part(*n, fraction, count, r),
{
    let number: u64 = self::count(n, count);
    let product: u64 = times(n, fraction, number);
    whole(n, product)
}

/// `r` is an outcome of `fraction` of `size`, without what is left over.
pub open spec fn takes_share<N: Arithmetic>(n: N, fraction: u64, size: i64, r: i64) -> bool {
    exists|number: u64, product: u64|
        {
            &&& #[trigger] numbers(n, size, number)
            &&& #[trigger] multiplies(n, fraction, number, product)
            &&& cuts_to(n, product, r)
        }
}

/// `fraction` of `size`, without what is left over.
pub fn share_of<N: Arithmetic>(n: &N, fraction: u64, size: i64) -> (r: i64)
    ensures
        takes_share(*n, fraction, size, r),
{
    let number: u64 = self::number(n, size);
    let product: u64 = times(n, fraction, number);
    cut(n, product)
}

/// `r` is reached from zero in `count` steps, where `step(i, p, q)` says that step
/// `i` may lead from `p` to `q`.
pub open spec fn accumulates(step: spec_fn(int, u64, u64) -> bool, count: int, r: u64) -> bool
    decreases count,
{
    if count <= 0 {
        r == word::ZERO
    } else {
        exists|p: u64| accumulates(step, count - 1, p) && #[trigger] step(count - 1, p, r)
    }
}

/// The steps that add up `xs` from left to right.
pub open spec fn sum_steps<N: Arithmetic>(n: N, xs: Seq<u64>) -> spec_fn(int, u64, u64) -> bool {
    |i: int, p: u64, q: u64| adds(n, p, xs[i], q)
}

/// `r` is an outcome of adding up `xs` from left to right, starting at zero.
pub open spec fn sums<N: Arithmetic>(n: N, xs: Seq<u64>, r: u64) -> bool {
    accumulates(sum_steps(n, xs), xs.len() as int, r)
}

/// Adds up numbers from left to right, starting at zero.
pub fn sum<N: Arithmetic>(n: &N, xs: &[u64]) -> (r: u64)
    ensures
        sums(*n, xs@, r),
{
    let mut total: u64 = word::ZERO;
    let ghost steps = sum_steps(*n, xs@);
    let mut i: usize = 0;
    while i < xs.len()
        invariant
            0 <= i <= xs@.len(),
            steps == sum_steps(*n, xs@),
            accumulates(steps, i as int, total),
        decreases xs@.len() - i,
    {
        let next: u64 = plus(n, total, xs[i]);
        proof {
            accumulates_one_more(steps, i as int, total, next);
        }
        total = next;
        i = i + 1;
    }
    total
}

/// A chain can be continued by one step.
pub proof fn accumulates_one_more(
    step: spec_fn(int, u64, u64) -> bool,
    count: int,
    p: u64,
    r: u64,
)
    requires
        0 <= count,
        accumulates(step, count, p),
        step(count, p, r),
    ensures
        accumulates(step, count + 1, r),
{
    assert(step(count + 1 - 1, p, r));
}

/// A chain may be described by any steps that admit its own.
pub proof fn accumulates_under(
    step: spec_fn(int, u64, u64) -> bool,
    weaker: spec_fn(int, u64, u64) -> bool,
    count: int,
    r: u64,
)
    requires
        accumulates(step, count, r),
        forall|i: int, p: u64, q: u64|
            0 <= i < count && #[trigger] step(i, p, q) ==> weaker(i, p, q),
    ensures
        accumulates(weaker, count, r),
    decreases count,
{
    if count > 0 {
        let p = choose|p: u64| accumulates(step, count - 1, p) && #[trigger] step(count - 1, p, r);
        accumulates_under(step, weaker, count - 1, p);
        assert(weaker(count - 1, p, r));
    }
}

/// One more number can be added to a sum.
pub proof fn sums_one_more<N: Arithmetic>(n: N, xs: Seq<u64>, total: u64, x: u64, r: u64)
    requires
        sums(n, xs, total),
        adds(n, total, x, r),
    ensures
        sums(n, xs.push(x), r),
{
    let steps = sum_steps(n, xs.push(x));
    accumulates_under(sum_steps(n, xs), steps, xs.len() as int, total);
    assert(steps(xs.len() as int, total, r));
    accumulates_one_more(steps, xs.len() as int, total, r);
}

/// Where addition has one outcome, so has adding up.
pub proof fn sums_agree<N: Arithmetic>(n: N, xs: Seq<u64>, r: u64, s: u64)
    requires
        functional(n),
        sums(n, xs, r),
        sums(n, xs, s),
    ensures
        r == s,
{
    let steps = sum_steps(n, xs);
    assert forall|i: int, p: u64, q: u64, t: u64|
        0 <= i < xs.len() && #[trigger] steps(i, p, q) && #[trigger] steps(i, p, t) implies q
        == t by {
        assert(adds(n, p, xs[i], q) && adds(n, p, xs[i], t));
    }
    accumulations_agree(steps, steps, xs.len() as int, r, s);
}

/// Chains whose steps have at most one outcome agree.
pub proof fn accumulations_agree(
    step: spec_fn(int, u64, u64) -> bool,
    other: spec_fn(int, u64, u64) -> bool,
    count: int,
    r: u64,
    s: u64,
)
    requires
        accumulates(step, count, r),
        accumulates(other, count, s),
        forall|i: int, p: u64, q: u64, t: u64|
            0 <= i < count && #[trigger] step(i, p, q) && #[trigger] other(i, p, t) ==> q == t,
    ensures
        r == s,
    decreases count,
{
    if count > 0 {
        let p = choose|p: u64| accumulates(step, count - 1, p) && #[trigger] step(count - 1, p, r);
        let q = choose|q: u64|
            accumulates(other, count - 1, q) && #[trigger] other(count - 1, q, s);
        accumulations_agree(step, other, count - 1, p, q);
    }
}

} // verus!
