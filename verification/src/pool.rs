//! Threads: the parts of `rayon` that a simulation runs on.

use rayon::prelude::{IntoParallelRefIterator, ParallelIterator};
use vstd::prelude::*;

verus! {

/// The thread pool of `rayon`.
#[verifier::external_type_specification]
#[verifier::external_body]
pub struct ExThreadPool(rayon::ThreadPool);

/// The error of `rayon` where a pool cannot be built.
#[verifier::external_type_specification]
#[verifier::external_body]
pub struct ExThreadPoolBuildError(rayon::ThreadPoolBuildError);

/// A pool, and the number of threads that it was asked for.
pub struct Pool {
    /// The threads.
    pub threads: rayon::ThreadPool,
    /// How many of them were asked for.
    pub asked: usize,
}

/// Calls `ThreadPoolBuilder::build` of `rayon`, and asks for the given number of threads.
///
/// A pool is taken to be the one that was asked for that number. Whether the threads can be had,
/// and how many of them `rayon` starts, is up to the machine, so nothing is said of that.
#[verifier::external_body]
pub(crate) fn build_pool(num_threads: usize) -> (pool: Result<
    Pool,
    rayon::ThreadPoolBuildError,
>)
    ensures
        pool matches Ok(p) ==> p.asked == num_threads,
{
    match rayon::ThreadPoolBuilder::new().num_threads(num_threads).build() {
        Ok(threads) => Ok(Pool { threads, asked: num_threads }),
        Err(error) => Err(error),
    }
}

/// `pool` is what comes of asking for as many threads: none is needed for one thread, and for
/// more of them it is a pool that was asked for that number, or the reason why there is none.
pub open spec fn serves(
    pool: Result<Option<Pool>, rayon::ThreadPoolBuildError>,
    num_threads: usize,
) -> bool {
    match pool {
        Ok(None) => num_threads == 1,
        Ok(Some(p)) => num_threads > 1 && p.asked == num_threads,
        Err(_) => num_threads > 1,
    }
}

/// Asks for threads, where more than one is wanted.
pub fn open_pool(num_threads: usize) -> (pool: Result<Option<Pool>, rayon::ThreadPoolBuildError>)
    requires
        num_threads > 0,
    ensures
        serves(pool, num_threads),
{
    if num_threads > 1 {
        match build_pool(num_threads) {
            Ok(pool) => Ok(Some(pool)),
            Err(error) => Err(error),
        }
    } else {
        Ok(None)
    }
}

/// Displays an error of `rayon`.
///
/// The text is up to `rayon` and the machine, so nothing is said of it.
#[verifier::external_body]
pub(crate) fn pool_error_text(error: rayon::ThreadPoolBuildError) -> (text: String) {
    error.to_string()
}

/// Calls `install` of a `rayon` pool, and in it `par_iter`, `map` and `collect`.
///
/// They are taken to apply `f` to each item, and to return the results in the order of the
/// items, whichever thread comes to them and when.
#[verifier::external_body]
pub(crate) fn map_in_pool<R: Send, F: Fn(usize) -> R + Sync + Send>(
    pool: &rayon::ThreadPool,
    items: &Vec<usize>,
    f: F,
) -> (results: Vec<R>)
    requires
        forall|i: int| 0 <= i < items@.len() ==> call_requires(f, (#[trigger] items@[i],)),
    ensures
        results@.len() == items@.len(),
        forall|i: int|
            0 <= i < items@.len() ==> call_ensures(f, (items@[i],), #[trigger] results@[i]),
{
    pool.install(|| items.par_iter().map(|item| f(*item)).collect())
}

} // verus!
