//! The engine's view of the work-stealing thread pool.
//!
//! The pool itself is outside code (rayon); the engine consults it for two
//! facts only: how many workers it runs, and whether the current worker
//! still has pending local work. Both answers depend on runtime state, so
//! nothing is promised of them; every decision the engine takes is proved
//! correct for every possible answer.

use vstd::prelude::*;

verus! {

#[verifier::external_type_specification]
#[verifier::external_body]
pub struct ExThreadPool(rayon::ThreadPool);

/// Relies on rayon::ThreadPool::current_num_threads: the number of worker
/// threads of this pool. The answer is fixed at pool construction, which
/// the engine cannot see, so nothing is promised of it.
#[verifier::external_body]
pub(crate) fn pool_num_threads(pool: &rayon::ThreadPool) -> (r: usize)
{
    pool.current_num_threads()
}

/// Relies on rayon::ThreadPool::current_thread_index: the calling worker's
/// index within the pool, None when the calling thread is not one of the
/// pool's workers. It depends on which thread runs the call, so nothing is
/// promised of it.
#[verifier::external_body]
pub(crate) fn pool_current_thread_index(pool: &rayon::ThreadPool) -> (r: Option<usize>) {
    pool.current_thread_index()
}

/// Relies on rayon::ThreadPool::current_thread_has_pending_tasks: whether
/// the calling worker's local queue holds another task; the answer is None
/// when the calling thread does not belong to the pool. It depends on
/// scheduling, so nothing is promised of it.
#[verifier::external_body]
pub(crate) fn pool_has_pending_tasks(pool: &rayon::ThreadPool) -> (r: Option<bool>)
{
    pool.current_thread_has_pending_tasks()
}

} // verus!
