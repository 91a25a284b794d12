//! Price levels: the orders resting at one exact price.

use vstd::prelude::*;
use crate::order::{Order, OrderView};
use crate::price::{Price, PriceView};

verus! {

/// What a [`Limit`] holds: its price and its orders, first arrival first.
pub struct LimitView {
    pub price: PriceView,
    pub orders: Seq<OrderView>,
}

impl LimitView {
    /// The level at `price` that holds no order yet.
    pub open spec fn new(price: PriceView) -> LimitView {
        LimitView { price, orders: Seq::empty() }
    }

    /// This level with `order` behind the orders already in it.
    pub open spec fn add_order(self, order: OrderView) -> LimitView {
        LimitView { price: self.price, orders: self.orders.push(order) }
    }
}

/// All orders resting at one price, in the order in which they arrived.
#[derive(Debug)]
pub struct Limit {
    price: Price,
    orders: Vec<Order>,
}

impl View for Limit {
    type V = LimitView;

    closed spec fn view(&self) -> LimitView {
        LimitView { price: self.price@, orders: self.orders@.map_values(|order: Order| order@) }
    }
}

impl Limit {
    /// An empty level at `price`.
    pub fn new(price: Price) -> (limit: Limit)
        ensures
            limit@ == LimitView::new(price@),
    {
        let limit = Limit { price, orders: Vec::new() };
        assert(limit@.orders =~= Seq::empty());
        limit
    }

    /// Appends `order` behind the orders already resting here. Nothing is
    /// merged, dropped or reordered, and there is no bound on how many orders
    /// a level holds.
    pub fn add_order(&mut self, order: Order)
        ensures
            final(self)@ == old(self)@.add_order(order@),
    {
        self.orders.push(order);
        assert(self@.orders =~= old(self)@.orders.push(order@));
    }

    /// The price of this level.
    pub fn price(&self) -> (price: Price)
        ensures
            price@ == self@.price,
    {
        self.price
    }

    /// The number of orders resting here.
    pub fn len(&self) -> (len: usize)
        ensures
            len == self@.orders.len(),
    {
        self.orders.len()
    }

    /// The order that arrived after `index` others, if there is one.
    pub fn order(&self, index: usize) -> (order: Option<&Order>)
        ensures
            match order {
                Some(found) => index < self@.orders.len() && found@ == self@.orders[index as int],
                None => index >= self@.orders.len(),
            },
    {
        if index < self.orders.len() {
            Some(&self.orders[index])
        } else {
            None
        }
    }
}

} // verus!
