use queues::IsQueue;
use vstd::prelude::*;

verus! {

#[verifier::external_type_specification]
#[verifier::external_body]
#[verifier::reject_recursive_types(T)]
pub struct ExQueue<T: Clone>(queues::Queue<T>);

/// The coordinates held by a queue, oldest first.
pub uninterp spec fn queue_items(q: queues::Queue<(u32, u32)>) -> Seq<(u32, u32)>;

/// Relies on queues::Queue::new: a new queue is empty.
#[verifier::external_body]
pub(crate) fn queue_new() -> (q: queues::Queue<(u32, u32)>)
    ensures
        queue_items(q) == Seq::<(u32, u32)>::empty(),
{
    queues::Queue::new()
}

/// Relies on queues::IsQueue::add for Queue: the value is pushed at the back.
#[verifier::external_body]
pub(crate) fn queue_add(q: &mut queues::Queue<(u32, u32)>, v: (u32, u32))
    ensures
        queue_items(*final(q)) == queue_items(*old(q)).push(v),
{
    let _ = q.add(v);
}

/// Relies on queues::IsQueue::remove for Queue: it takes the oldest value, or
/// fails on an empty queue and leaves it as it was.
#[verifier::external_body]
pub(crate) fn queue_remove(q: &mut queues::Queue<(u32, u32)>) -> (r: Option<(u32, u32)>)
    ensures
        queue_items(*old(q)).len() == 0 ==> r is None && queue_items(*final(q)) == queue_items(
            *old(q),
        ),
        queue_items(*old(q)).len() > 0 ==> r == Some(queue_items(*old(q))[0]) && queue_items(
            *final(q),
        ) == queue_items(*old(q)).drop_first(),
{
    q.remove().ok()
}

/// Relies on queues::IsQueue::size for Queue: the number of values held.
#[verifier::external_body]
pub(crate) fn queue_size(q: &queues::Queue<(u32, u32)>) -> (r: usize)
    ensures
        r == queue_items(*q).len(),
{
    q.size()
}

} // verus!
