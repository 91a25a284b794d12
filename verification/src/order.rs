//! Resting orders and the side they rest on.

use vstd::prelude::*;

verus! {

/// The side of the book an order rests on.
#[derive(Debug, Clone, Copy, PartialEq, Eq, Structural)]
pub enum BidOrAsk {
    Bid,
    Ask,
}

/// What an [`Order`] holds, as plain values.
pub struct OrderView {
    /// The binary64 bit pattern of the order's size.
    pub size: u64,
    pub bid_or_ask: BidOrAsk,
}

/// One resting order: a size and a side.
///
/// The size is carried as the bit pattern of a binary64 number and is never
/// interpreted: any pattern is accepted and handed back unchanged.
#[derive(Debug)]
pub struct Order {
    size: u64,
    bid_or_ask: BidOrAsk,
}

impl View for Order {
    type V = OrderView;

    closed spec fn view(&self) -> OrderView {
        OrderView { size: self.size, bid_or_ask: self.bid_or_ask }
    }
}

impl Order {
    /// An order of the given side and size, where `size` is the bit pattern
    /// of a binary64 number. No size is rejected.
    pub fn new(bid_or_ask: BidOrAsk, size: u64) -> (order: Order)
        ensures
            order@ == (OrderView { size, bid_or_ask }),
    {
        Order { bid_or_ask, size }
    }

    /// The binary64 bit pattern of the order's size.
    pub fn size(&self) -> (size: u64)
        ensures
            size == self@.size,
    {
        self.size
    }

    /// The side this order rests on.
    pub fn bid_or_ask(&self) -> (side: BidOrAsk)
        ensures
            side == self@.bid_or_ask,
    {
        self.bid_or_ask
    }
}

} // verus!
