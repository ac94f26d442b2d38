//! The resolver's work queue of pending (name, range) requests.
//!
//! The queue is crossbeam's `SegQueue`, taken on trust behind the
//! `queue_items` abstraction: the items it holds, oldest first (the
//! queue is FIFO, as its documentation shows).

use vstd::prelude::*;

verus! {

#[verifier::external_type_specification]
#[verifier::external_body]
#[verifier::reject_recursive_types(T)]
pub struct ExSegQueue<T>(crossbeam::queue::SegQueue<T>);

/// The requests in the queue, oldest first.
pub uninterp spec fn queue_items(q: crossbeam::queue::SegQueue<(String, String)>) -> Seq<
    (String, String),
>;

/// Relies on `crossbeam::queue::SegQueue::new`: an empty queue.
#[verifier::external_body]
pub fn queue_new() -> (q: crossbeam::queue::SegQueue<(String, String)>)
    ensures
        queue_items(q) == Seq::<(String, String)>::empty(),
{
    crossbeam::queue::SegQueue::new()
}

/// Relies on `crossbeam::queue::SegQueue::push_mut`: appends at the
/// back.
#[verifier::external_body]
pub fn queue_push(q: &mut crossbeam::queue::SegQueue<(String, String)>, name: String, range: String)
    ensures
        queue_items(*final(q)) == queue_items(*old(q)).push((name, range)),
{
    q.push_mut((name, range));
}

/// Relies on `crossbeam::queue::SegQueue::pop_mut`: removes and returns
/// the oldest item; `None` exactly on the empty queue.
#[verifier::external_body]
pub fn queue_pop(q: &mut crossbeam::queue::SegQueue<(String, String)>) -> (r: Option<
    (String, String),
>)
    ensures
        match r {
            Some(item) => queue_items(*old(q)).len() > 0 && item == queue_items(*old(q))[0]
                && queue_items(*final(q)) == queue_items(*old(q)).drop_first(),
            None => queue_items(*old(q)).len() == 0 && queue_items(*final(q)) == queue_items(
                *old(q),
            ),
        },
{
    q.pop_mut()
}

} // verus!
