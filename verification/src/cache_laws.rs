//! What the cache of blocks does over several calls.

use vstd::prelude::*;
use crate::buffer_manager::{order_after, pages_after};

verus! {

/// A block that is put is held with its bytes. Every other block stays as it was, except that the
/// one that came first leaves where the cache is full.
pub proof fn only_the_first_block_leaves(
    pages: Map<u64, Seq<u8>>,
    order: Seq<u64>,
    capacity: int,
    id: u64,
    data: Seq<u8>,
    other: u64,
)
    requires
        capacity > 0,
        order.len() <= capacity,
        other != id,
    ensures
        ({
            let after = pages_after(pages, order, capacity, id, data);
            let leaves = order.len() == capacity && other == order[0];
            &&& after.contains_key(id) && after[id] == data
            &&& after.contains_key(other) <==> pages.contains_key(other) && !leaves
            &&& after.contains_key(other) ==> after[other] == pages[other]
        }),
{
}

/// Blocks leave in the order in which they came: a new one comes last, and the others keep their
/// places behind each other.
pub proof fn blocks_leave_as_they_came(order: Seq<u64>, capacity: int, id: u64, i: int)
    requires
        capacity > 0,
        order.len() <= capacity,
        0 <= i < order.len(),
    ensures
        ({
            let after = order_after(order, capacity, id);
            let gone: int = if order.len() == capacity {
                1
            } else {
                0
            };
            &&& after.len() == order.len() - gone + 1
            &&& after.len() <= capacity
            &&& after.last() == id
            &&& i >= gone ==> after[i - gone] == order[i]
        }),
{
}

/// A block that is put into an empty cache is the only one.
pub proof fn first_block_is_the_only_one(capacity: int, id: u64)
    requires
        capacity > 0,
    ensures
        order_after(Seq::empty(), capacity, id) == seq![id],
{
    assert(order_after(Seq::empty(), capacity, id) =~= seq![id]);
}

} // verus!
