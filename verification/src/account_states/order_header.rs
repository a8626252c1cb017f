use vstd::prelude::*;
use crate::account_states::order::{Order, order_of};
use crate::key::{Key, zero_key};

verus! {

/// A slot of a side: an order and its neighbours in the side's list (for a
/// free slot, `next` is the next free slot).
#[derive(Clone, Copy, Debug)]
pub struct OrderHeader {
    pub order: Order,
    pub next: u16,
    pub prev: u16,
}

/// An unused slot.
pub open spec fn empty_header() -> OrderHeader {
    OrderHeader { order: order_of(0, 0, zero_key(), zero_key(), zero_key()), next: 0, prev: 0 }
}

impl OrderHeader {
    pub fn new() -> (h: OrderHeader)
        ensures
            h == empty_header(),
    {
        OrderHeader {
            order: Order::new(0, 0, Key::zero(), Key::zero(), Key::zero()),
            next: 0,
            prev: 0,
        }
    }
}

} // verus!
