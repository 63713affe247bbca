//! Trusted boundary around the FIFO queue of the `queues` crate, which
//! breadth-first search uses for its discovery order.
//!
//! `fifo_contents` names what a queue holds, front first; the wrappers state
//! over that name what `queues`' source shows of each method.

use vstd::prelude::*;
use queues::IsQueue;

verus! {

#[verifier::external_type_specification]
#[verifier::external_body]
#[verifier::reject_recursive_types(T)]
pub struct ExQueue<T: Clone>(queues::Queue<T>);

/// The elements a FIFO queue holds, oldest (front) first.
pub uninterp spec fn fifo_contents(q: queues::Queue<i64>) -> Seq<i64>;

/// Relies on queues::Queue::new: a fresh queue holds nothing.
#[verifier::external_body]
pub(crate) fn fifo_new() -> (q: queues::Queue<i64>)
    ensures
        fifo_contents(q) == Seq::<i64>::empty(),
{
    queues::Queue::new()
}

/// Relies on queues::Queue::add: appends at the back and always succeeds.
#[verifier::external_body]
pub(crate) fn fifo_add(q: &mut queues::Queue<i64>, x: i64)
    ensures
        fifo_contents(*final(q)) == fifo_contents(*old(q)).push(x),
{
    let _ = q.add(x);
}

/// Relies on queues::Queue::remove: takes the front element; its source
/// returns an error only on an empty queue, which `requires` rules out.
#[verifier::external_body]
pub(crate) fn fifo_remove(q: &mut queues::Queue<i64>) -> (r: i64)
    requires
        fifo_contents(*old(q)).len() > 0,
    ensures
        r == fifo_contents(*old(q))[0],
        fifo_contents(*final(q)) == fifo_contents(*old(q)).drop_first(),
{
    q.remove().unwrap_or(0)
}

/// Relies on queues::Queue::size: the number of elements held.
#[verifier::external_body]
pub(crate) fn fifo_size(q: &queues::Queue<i64>) -> (n: usize)
    ensures
        n == fifo_contents(*q).len(),
{
    q.size()
}

} // verus!
