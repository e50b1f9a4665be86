//! Work handed out to the thread pool.

use rayon::iter::{IntoParallelIterator, IntoParallelRefIterator, ParallelIterator};

use vstd::prelude::*;

verus! {

/// Calls rayon's `par_iter` on a slice, `map` and `collect` into a `Vec`. Of
/// the three together it is claimed that `f` is called on every item, and that
/// the results come in the order of the items, whichever thread made them.
#[verifier::external_body]
pub(crate) fn par_map<A: Sync, B: Send, F: Fn(&A) -> B + Sync + Send>(
    items: &[A],
    f: F,
) -> (r: Vec<B>)
    requires
        forall|i: int| 0 <= i < items@.len() ==> call_requires(f, (&#[trigger] items@[i],)),
    ensures
        r@.len() == items@.len(),
        forall|i: int|
            0 <= i < items@.len() ==> call_ensures(f, (&items@[i],), #[trigger] r@[i]),
{
    items.par_iter().map(f).collect()
}

/// A thread pool of rayon.
#[verifier::external_type_specification]
#[verifier::external_body]
pub struct ExThreadPool(rayon::ThreadPool);

/// Calls rayon's `into_par_iter` on a range and `try_for_each`. Of the two
/// together it is claimed that success means that `f` succeeded on every index,
/// and that an error is one that `f` gave on some index. Which one, where there
/// are several, is left open, and so is how many indices are tried after one
/// has failed.
#[verifier::external_body]
pub(crate) fn par_try_for_each<E: Send, F: Fn(usize) -> Result<(), E> + Sync + Send>(
    total: usize,
    f: F,
) -> (r: Result<(), E>)
    requires
        forall|i: usize| i < total ==> #[trigger] call_requires(f, (i,)),
    ensures
        match r {
            Ok(u) => forall|i: usize| i < total ==> #[trigger] call_ensures(f, (i,), Ok(u)),
            Err(e) => exists|i: usize| i < total && #[trigger] call_ensures(f, (i,), Err(e)),
        },
{
    (0..total).into_par_iter().try_for_each(f)
}

/// Calls rayon's `current_num_threads`. It is claimed that a pool has a thread,
/// and no more than its counter of sleeping threads has room for.
#[verifier::external_body]
pub(crate) fn current_num_threads() -> (r: usize)
    ensures
        1 <= r <= 65535,
{
    rayon::current_num_threads()
}

/// Calls `current_num_threads` of a rayon `ThreadPool`. It is claimed that a
/// pool has a thread, and no more than its counter of sleeping threads has room
/// for.
#[verifier::external_body]
pub(crate) fn pool_threads(pool: &rayon::ThreadPool) -> (r: usize)
    ensures
        1 <= r <= 65535,
{
    pool.current_num_threads()
}

/// Calls `install` of a rayon `ThreadPool`. It is claimed that `op` is called,
/// on a thread of the pool, and that what it returns is handed back.
#[verifier::external_body]
pub(crate) fn install<R: Send, F: FnOnce() -> R + Send>(pool: &rayon::ThreadPool, op: F) -> (r: R)
    requires
        call_requires(op, ()),
    ensures
        call_ensures(op, (), r),
{
    pool.install(op)
}

} // verus!
