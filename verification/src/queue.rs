//! The shared queue of a traversal, kept in `crossbeam_deque::Injector`.
//!
//! The functions here take the queue by `&mut`, so that verified code sees
//! each change; whoever shares a traversal between threads puts it behind a
//! lock.

use vstd::prelude::*;
use crossbeam_deque::{Injector, Steal};

verus! {

/// `crossbeam_deque::Injector`, a queue that can be shared between threads
/// and hands out first what came first. Verus sees nothing inside it.
#[verifier::external_type_specification]
#[verifier::external_body]
#[verifier::reject_recursive_types(T)]
pub struct ExInjector<T>(Injector<T>);

/// The work units that a queue holds, the oldest first. A work unit is a
/// file to scan and the file of the translation unit it is scanned for.
pub uninterp spec fn queued(q: Injector<(String, String)>) -> Seq<(Seq<char>, Seq<char>)>;

/// What an attempt to take a work unit from the shared queue came to.
pub enum Stolen {
    /// The oldest work unit, now taken from the queue.
    Task(String, String),
    /// Nothing was taken; the attempt is to be made again.
    Retry,
    /// The queue was empty.
    Empty,
}

/// Calls `Injector::new`. Trusted: the new queue is empty.
#[verifier::external_body]
pub(crate) fn queue_new() -> (q: Injector<(String, String)>)
    ensures
        (queued(q) == Seq::<(Seq<char>, Seq<char>)>::empty()),
{
    Injector::new()
}

/// Calls `Injector::push`. Trusted: the work unit is added behind all that
/// the queue held.
#[verifier::external_body]
pub(crate) fn queue_push(q: &mut Injector<(String, String)>, file: String, context: String)
    ensures
        queued(*final(q)) == queued(*old(q)).push((file@, context@)),
{
    q.push((file, context));
}

/// Calls `Injector::steal`. Trusted: a task that comes back was the oldest
/// in the queue and has left it; the queue is reported empty only when it
/// is; an attempt that is to be repeated has changed nothing.
#[verifier::external_body]
pub(crate) fn queue_steal(q: &mut Injector<(String, String)>) -> (r: Stolen)
    ensures
        match r {
            Stolen::Task(file, context) => {
                &&& queued(*old(q)).len() > 0
                &&& queued(*old(q))[0] == (file@, context@)
                &&& queued(*final(q)) == queued(*old(q)).drop_first()
            },
            Stolen::Retry => queued(*final(q)) == queued(*old(q)),
            Stolen::Empty => queued(*final(q)) == queued(*old(q)) && queued(*old(q)).len() == 0,
        },
{
    match q.steal() {
        Steal::Success((file, context)) => Stolen::Task(file, context),
        Steal::Retry => Stolen::Retry,
        Steal::Empty => Stolen::Empty,
    }
}

} // verus!
