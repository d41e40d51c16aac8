use vstd::prelude::*;
use smallvec::SmallVec;
use crate::order::Order;

verus! {

/// A queue of orders, front first, stored in a `SmallVec` that keeps its
/// first eight orders inline.
#[verifier::external_body]
pub struct OrderQueue {
    items: SmallVec<[Order; 8]>,
}

/// The orders a queue holds, front first.
pub uninterp spec fn queue_items(q: OrderQueue) -> Seq<Order>;

/// Relies on `SmallVec::new`: a vector with no elements.
#[verifier::external_body]
pub(crate) fn queue_new() -> (r: OrderQueue)
    ensures
        queue_items(r) == Seq::<Order>::empty(),
{
    OrderQueue { items: SmallVec::new() }
}

/// Relies on `SmallVec::len`: the number of elements stored.
#[verifier::external_body]
pub(crate) fn queue_len(q: &OrderQueue) -> (r: usize)
    ensures
        r == queue_items(*q).len(),
{
    q.items.len()
}

/// Relies on `SmallVec`'s `Index`, through its slice: the element at `i`.
#[verifier::external_body]
pub(crate) fn queue_get(q: &OrderQueue, i: usize) -> (r: &Order)
    requires
        i < queue_items(*q).len(),
    ensures
        *r == queue_items(*q)[i as int],
{
    &q.items[i]
}

/// Relies on `SmallVec::remove`: takes out the element at `i` and shifts
/// the rest left; it panics only when `i` is out of bounds.
#[verifier::external_body]
pub(crate) fn queue_remove(q: &mut OrderQueue, i: usize) -> (r: Order)
    requires
        i < queue_items(*old(q)).len(),
    ensures
        r == queue_items(*old(q))[i as int],
        queue_items(*final(q)) == queue_items(*old(q)).remove(i as int),
{
    q.items.remove(i)
}

/// Relies on `SmallVec::insert`: puts `o` at `i` and shifts the rest right;
/// it panics only when `i` exceeds the length.
#[verifier::external_body]
pub(crate) fn queue_insert(q: &mut OrderQueue, i: usize, o: Order)
    requires
        i <= queue_items(*old(q)).len(),
    ensures
        queue_items(*final(q)) == queue_items(*old(q)).insert(i as int, o),
{
    q.items.insert(i, o)
}

} // verus!
