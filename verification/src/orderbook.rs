//! The book: two independent collections of price levels, one per side.

use std::collections::HashMap;
use vstd::prelude::*;
use vstd::relations::injective_on;
use vstd::set_lib::lemma_map_size;
use crate::limit::{Limit, LimitView};
use crate::order::{BidOrAsk, Order, OrderView};
use crate::price::{quantize, Price, PriceView};

verus! {

/// The levels of one side, by price.
pub type Levels = Map<PriceView, LimitView>;

/// `levels` after `order` has come to rest at `price`: in the level that is
/// there, or else in a new one.
pub open spec fn with_order(levels: Levels, price: PriceView, order: OrderView) -> Levels {
    if levels.contains_key(price) {
        levels.insert(price, levels[price].add_order(order))
    } else {
        levels.insert(price, LimitView::new(price).add_order(order))
    }
}

/// The levels of one side are sound when there are finitely many, each is
/// filed under its own price, which is well formed, none is empty, and
/// every order in them is on that side.
pub open spec fn side_wf(levels: Levels, side: BidOrAsk) -> bool {
    &&& levels.dom().finite()
    &&& forall|price: PriceView| #[trigger]
        levels.contains_key(price) ==> {
            &&& price.wf()
            &&& levels[price].price == price
            &&& levels[price].orders.len() > 0
            &&& forall|i: int|
                0 <= i < levels[price].orders.len() ==> (
                #[trigger] levels[price].orders[i]).bid_or_ask == side
        }
}

/// What an [`Orderbook`] holds: the levels of each side.
pub struct BookView {
    pub bids: Levels,
    pub asks: Levels,
}

impl BookView {
    /// The book without any level.
    pub open spec fn empty() -> BookView {
        BookView { bids: Map::empty(), asks: Map::empty() }
    }

    /// Both sides are sound.
    pub open spec fn wf(self) -> bool {
        &&& side_wf(self.bids, BidOrAsk::Bid)
        &&& side_wf(self.asks, BidOrAsk::Ask)
    }

    /// The levels of `side`.
    pub open spec fn levels(self, side: BidOrAsk) -> Levels {
        match side {
            BidOrAsk::Bid => self.bids,
            BidOrAsk::Ask => self.asks,
        }
    }

    /// The orders resting at `price` on `side`, first arrival first; none
    /// where the side has no level at that price.
    pub open spec fn orders_at(self, side: BidOrAsk, price: PriceView) -> Seq<OrderView> {
        if self.levels(side).contains_key(price) {
            self.levels(side)[price].orders
        } else {
            Seq::empty()
        }
    }

    /// The book after `order` has come to rest at `price` on its own side.
    pub open spec fn add_order(self, price: PriceView, order: OrderView) -> BookView {
        match order.bid_or_ask {
            BidOrAsk::Bid => BookView {
                bids: with_order(self.bids, price, order),
                asks: self.asks,
            },
            BidOrAsk::Ask => BookView {
                bids: self.bids,
                asks: with_order(self.asks, price, order),
            },
        }
    }

    /// Resting an order at a well-formed price keeps a sound book sound.
    pub proof fn lemma_add_order_wf(self, price: PriceView, order: OrderView)
        requires
            self.wf(),
            price.wf(),
        ensures
            self.add_order(price, order).wf(),
    {
        let side = order.bid_or_ask;
        let before = self.levels(side);
        let after = self.add_order(price, order).levels(side);
        assert(after.dom() =~= before.dom().insert(price));
        let orders = after[price].orders;
        assert forall|i: int| 0 <= i < orders.len() implies (#[trigger] orders[i]).bid_or_ask
            == side by {
            if before.contains_key(price) && i < before[price].orders.len() {
                assert(orders[i] == before[price].orders[i]);
            }
        }
    }

    /// Nothing leaves the book. After an order has come to rest, every level
    /// that was there is still there, at the same price, and the orders it
    /// held are still in it, in their places and ahead of any newcomer.
    pub proof fn lemma_nothing_leaves(
        self,
        price: PriceView,
        order: OrderView,
        side: BidOrAsk,
        other: PriceView,
    )
        requires
            self.levels(side).contains_key(other),
        ensures
            ({
                let before = self.levels(side)[other];
                let after = self.add_order(price, order).levels(side);
                &&& after.contains_key(other)
                &&& after[other].price == before.price
                &&& before.orders.is_prefix_of(after[other].orders)
            }),
    {
        let before = self.levels(side)[other];
        let after = self.add_order(price, order).levels(side);
        assert(before.orders.is_prefix_of(before.orders));
        assert(before.orders.is_prefix_of(before.orders.push(order)));
    }

    /// The two sides are independent. An order changes the levels of its
    /// own side only; a bid and an ask at one price rest in two levels, one
    /// on each side; and it does not matter which of the two came first.
    pub proof fn lemma_sides_independent(self, price: PriceView, bid: OrderView, ask: OrderView)
        requires
            bid.bid_or_ask == BidOrAsk::Bid,
            ask.bid_or_ask == BidOrAsk::Ask,
        ensures
            self.add_order(price, bid).asks == self.asks,
            self.add_order(price, ask).bids == self.bids,
            self.add_order(price, bid).add_order(price, ask) == self.add_order(
                price,
                ask,
            ).add_order(price, bid),
            ({
                let both = self.add_order(price, bid).add_order(price, ask);
                &&& both.bids.contains_key(price)
                &&& both.asks.contains_key(price)
                &&& both.bids[price].orders.last() == bid
                &&& both.asks[price].orders.last() == ask
            }),
    {
    }

    /// Orders of one side at one price gather in one level, in the order in
    /// which they came: three orders that come to rest at one price stand
    /// behind the orders that were there, in one level, and no other level
    /// of the side changes.
    pub proof fn lemma_orders_aggregate(
        self,
        price: PriceView,
        first: OrderView,
        second: OrderView,
        third: OrderView,
    )
        requires
            self.wf(),
            first.bid_or_ask == second.bid_or_ask,
            second.bid_or_ask == third.bid_or_ask,
        ensures
            ({
                let side = first.bid_or_ask;
                let once = self.add_order(price, first);
                let before = self.levels(side);
                let after = once.add_order(price, second).add_order(price, third).levels(side);
                let opened: nat = if before.contains_key(price) {
                    0
                } else {
                    1
                };
                &&& after.dom() == before.dom().insert(price)
                &&& after.len() == before.len() + opened
                &&& after[price].price == price
                &&& after[price].orders == self.orders_at(side, price) + seq![first, second, third]
                &&& forall|other: PriceView|
                    other != price && before.contains_key(other) ==> #[trigger] after[other]
                        == before[other]
            }),
    {
        let side = first.bid_or_ask;
        let before = self.levels(side);
        let after = self.add_order(price, first).add_order(price, second).add_order(
            price,
            third,
        ).levels(side);
        assert(after.dom() =~= before.dom().insert(price));
        assert(after[price].orders =~= self.orders_at(side, price) + seq![first, second, third]);
    }

    /// A level is created once. The first order at a price without a level
    /// opens exactly one level, which holds that order alone; a second order
    /// at the same price and side opens none and comes to rest behind the
    /// first.
    pub proof fn lemma_level_created_once(
        self,
        price: PriceView,
        first: OrderView,
        second: OrderView,
    )
        requires
            self.wf(),
            first.bid_or_ask == second.bid_or_ask,
            !self.levels(first.bid_or_ask).contains_key(price),
        ensures
            ({
                let side = first.bid_or_ask;
                let once = self.add_order(price, first);
                let twice = once.add_order(price, second);
                &&& once.levels(side).dom() == self.levels(side).dom().insert(price)
                &&& once.levels(side).len() == self.levels(side).len() + 1
                &&& once.levels(side)[price].orders == seq![first]
                &&& twice.levels(side).dom() == once.levels(side).dom()
                &&& twice.levels(side).len() == once.levels(side).len()
                &&& twice.levels(side)[price].orders == seq![first, second]
            }),
    {
        let side = first.bid_or_ask;
        let once = self.add_order(price, first);
        let twice = once.add_order(price, second);
        assert(once.levels(side).dom() =~= self.levels(side).dom().insert(price));
        assert(twice.levels(side).dom() =~= once.levels(side).dom());
        assert(once.levels(side)[price].orders =~= seq![first]);
        assert(twice.levels(side)[price].orders =~= seq![first, second]);
    }
}

/// The book. Each side files its levels under the keys of their prices.
#[derive(Debug)]
pub struct Orderbook {
    asks: HashMap<u128, Limit>,
    bids: HashMap<u128, Limit>,
}

/// Every stored level is filed under the key of its own price, holds an
/// order, and holds orders of `side` only.
spec fn stored_wf(stored: Map<u128, Limit>, side: BidOrAsk) -> bool {
    forall|key: u128| #[trigger]
        stored.contains_key(key) ==> {
            let limit = stored[key]@;
            &&& limit.price.wf()
            &&& limit.price.key() == key
            &&& limit.orders.len() > 0
            &&& forall|i: int|
                0 <= i < limit.orders.len() ==> (#[trigger] limit.orders[i]).bid_or_ask == side
        }
}

/// The levels that a side stores, by price.
spec fn stored_levels(stored: Map<u128, Limit>) -> Levels {
    Map::new(
        |price: PriceView|
            {
                &&& price.wf()
                &&& stored.contains_key(price.key() as u128)
                &&& stored[price.key() as u128]@.price == price
            },
        |price: PriceView| stored[price.key() as u128]@,
    )
}

/// What a side stores is sound as levels, and has as many levels as keys.
proof fn lemma_stored_levels(stored: Map<u128, Limit>, side: BidOrAsk)
    requires
        stored_wf(stored, side),
        stored.dom().finite(),
    ensures
        side_wf(stored_levels(stored), side),
        stored_levels(stored).len() == stored.len(),
{
    let price_of = |key: u128| stored[key]@.price;
    let keys = stored.dom();
    let prices = stored_levels(stored).dom();
    assert(injective_on(price_of, keys));
    assert forall|price: PriceView| prices.contains(price) implies keys.map(price_of).contains(
        price,
    ) by {
        let key = price.key() as u128;
        assert(keys.contains(key) && price_of(key) == price);
    }
    assert(keys.map(price_of) =~= prices);
    lemma_map_size(keys, prices, price_of);
}

/// Rests `order` in the stored level at `price`, or in a new one where no
/// level is stored there yet.
fn add_to_side(stored: &mut HashMap<u128, Limit>, price: Price, order: Order)
    requires
        stored_wf(old(stored)@, order@.bid_or_ask),
    ensures
        stored_wf(final(stored)@, order@.bid_or_ask),
        stored_levels(final(stored)@) == with_order(stored_levels(old(stored)@), price@, order@),
{
    let limit = stored.entry(price.key()).or_insert(Limit::new(price));
    limit.add_order(order);
    proof {
        let before = stored_levels(old(stored)@);
        assert forall|other: PriceView| other.wf() implies (other.key() == price@.key() <==> other
            == price@) by {
            other.lemma_key_injective(price@);
        }
        assert(stored_levels(stored@) =~= with_order(before, price@, order@));
    }
}

impl View for Orderbook {
    type V = BookView;

    closed spec fn view(&self) -> BookView {
        BookView { bids: stored_levels(self.bids@), asks: stored_levels(self.asks@) }
    }
}

impl Orderbook {
    #[verifier::type_invariant]
    spec fn inv(self) -> bool {
        &&& stored_wf(self.bids@, BidOrAsk::Bid)
        &&& stored_wf(self.asks@, BidOrAsk::Ask)
    }

    /// A book without any level.
    pub fn new() -> (book: Orderbook)
        ensures
            book@ == BookView::empty(),
            book@.wf(),
    {
        let book = Orderbook { asks: HashMap::new(), bids: HashMap::new() };
        assert(book@.bids =~= Map::empty());
        assert(book@.asks =~= Map::empty());
        book
    }

    /// Quantizes the price whose binary64 bit pattern is `price` and rests
    /// `order` there, on the side that the order names. A level is opened
    /// where the side has none at that price. No price and no order is
    /// rejected.
    pub fn add_order(&mut self, price: u64, order: Order)
        ensures
            final(self)@ == old(self)@.add_order(quantize(price), order@),
            final(self)@.wf(),
    {
        proof {
            use_type_invariant(&*self);
        }
        let price = Price::new(price);
        // The side is taken out of the book while it changes, and put back.
        let mut stored: HashMap<u128, Limit> = HashMap::new();
        match order.bid_or_ask() {
            BidOrAsk::Bid => {
                std::mem::swap(&mut stored, &mut self.bids);
                add_to_side(&mut stored, price, order);
                self.bids = stored;
            },
            BidOrAsk::Ask => {
                std::mem::swap(&mut stored, &mut self.asks);
                add_to_side(&mut stored, price, order);
                self.asks = stored;
            },
        }
        proof {
            lemma_stored_levels(self.bids@, BidOrAsk::Bid);
            lemma_stored_levels(self.asks@, BidOrAsk::Ask);
        }
    }

    /// The number of levels on `side`.
    pub fn level_count(&self, side: BidOrAsk) -> (count: usize)
        ensures
            count == self@.levels(side).len(),
            self@.wf(),
    {
        proof {
            use_type_invariant(self);
            lemma_stored_levels(self.bids@, BidOrAsk::Bid);
            lemma_stored_levels(self.asks@, BidOrAsk::Ask);
        }
        match side {
            BidOrAsk::Bid => self.bids.len(),
            BidOrAsk::Ask => self.asks.len(),
        }
    }

    /// The level at `price` on `side`, if an order has ever rested there.
    pub fn limit(&self, side: BidOrAsk, price: &Price) -> (found: Option<&Limit>)
        ensures
            match found {
                Some(limit) => self@.levels(side).contains_key(price@) && limit@ == self@.levels(
                    side,
                )[price@],
                None => !self@.levels(side).contains_key(price@),
            },
            self@.wf(),
    {
        proof {
            use_type_invariant(self);
            lemma_stored_levels(self.bids@, BidOrAsk::Bid);
            lemma_stored_levels(self.asks@, BidOrAsk::Ask);
        }
        let key = price.key();
        let found = match side {
            BidOrAsk::Bid => self.bids.get(&key),
            BidOrAsk::Ask => self.asks.get(&key),
        };
        proof {
            if let Some(limit) = found {
                limit@.price.lemma_key_injective(price@);
            }
        }
        found
    }
}

} // verus!
