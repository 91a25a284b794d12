use matching_engine::limit::Limit;
use matching_engine::order::{BidOrAsk, Order};
use matching_engine::orderbook::Orderbook;
use matching_engine::price::Price;

fn add(book: &mut Orderbook, price: f64, side: BidOrAsk, size: f64) {
    book.add_order(price.to_bits(), Order::new(side, size.to_bits()));
}

fn level(book: &Orderbook, side: BidOrAsk, price: f64) -> Option<&Limit> {
    book.limit(side, &Price::new(price.to_bits()))
}

fn sizes(limit: &Limit) -> Vec<f64> {
    (0..limit.len()).map(|i| f64::from_bits(limit.order(i).unwrap().size())).collect()
}

#[test]
fn new_book_is_empty() {
    let book = Orderbook::new();
    assert_eq!(book.level_count(BidOrAsk::Bid), 0);
    assert_eq!(book.level_count(BidOrAsk::Ask), 0);
    assert!(level(&book, BidOrAsk::Bid, 98.25).is_none());
    assert!(level(&book, BidOrAsk::Ask, 98.25).is_none());
}

#[test]
fn side_independence() {
    let mut book = Orderbook::new();
    add(&mut book, 100.0, BidOrAsk::Bid, 1.0);
    add(&mut book, 100.0, BidOrAsk::Ask, 2.0);
    assert_eq!(book.level_count(BidOrAsk::Bid), 1);
    assert_eq!(book.level_count(BidOrAsk::Ask), 1);
    let bid = level(&book, BidOrAsk::Bid, 100.0).unwrap();
    let ask = level(&book, BidOrAsk::Ask, 100.0).unwrap();
    assert_eq!(sizes(bid), vec![1.0]);
    assert_eq!(sizes(ask), vec![2.0]);
    assert_eq!(bid.order(0).unwrap().bid_or_ask(), BidOrAsk::Bid);
    assert_eq!(ask.order(0).unwrap().bid_or_ask(), BidOrAsk::Ask);
    assert_eq!(bid.price(), ask.price());
}

#[test]
fn level_aggregation() {
    let mut book = Orderbook::new();
    add(&mut book, 50.5, BidOrAsk::Bid, 1.0);
    add(&mut book, 50.5, BidOrAsk::Bid, 2.0);
    add(&mut book, 50.5, BidOrAsk::Bid, 3.0);
    assert_eq!(book.level_count(BidOrAsk::Bid), 1);
    assert_eq!(book.level_count(BidOrAsk::Ask), 0);
    let limit = level(&book, BidOrAsk::Bid, 50.5).unwrap();
    assert_eq!(limit.len(), 3);
    assert_eq!(sizes(limit), vec![1.0, 2.0, 3.0]);
    assert_eq!(limit.price().integral(), 50);
    assert_eq!(limit.price().fractional(), 50_000);
}

#[test]
fn level_creation_idempotence() {
    let mut book = Orderbook::new();
    add(&mut book, 12.5, BidOrAsk::Ask, 4.0);
    assert_eq!(book.level_count(BidOrAsk::Ask), 0 + 1);
    assert_eq!(sizes(level(&book, BidOrAsk::Ask, 12.5).unwrap()), vec![4.0]);
    add(&mut book, 12.5, BidOrAsk::Ask, 6.0);
    assert_eq!(book.level_count(BidOrAsk::Ask), 1);
    assert_eq!(sizes(level(&book, BidOrAsk::Ask, 12.5).unwrap()), vec![4.0, 6.0]);
    assert_eq!(book.level_count(BidOrAsk::Bid), 0);
}

#[test]
fn end_to_end() {
    let mut book = Orderbook::new();

    add(&mut book, 98.25, BidOrAsk::Bid, 5.0);
    assert_eq!(book.level_count(BidOrAsk::Bid), 1);
    let limit = level(&book, BidOrAsk::Bid, 98.25).unwrap();
    assert_eq!(limit.price().integral(), 98);
    assert_eq!(limit.price().fractional(), 25_000);
    assert_eq!(limit.price().scalar(), 100_000);
    assert_eq!(sizes(limit), vec![5.0]);

    add(&mut book, 98.25, BidOrAsk::Bid, 2.5);
    assert_eq!(book.level_count(BidOrAsk::Bid), 1);
    assert_eq!(sizes(level(&book, BidOrAsk::Bid, 98.25).unwrap()), vec![5.0, 2.5]);

    add(&mut book, 98.25, BidOrAsk::Ask, 1.0);
    assert_eq!(book.level_count(BidOrAsk::Ask), 1);
    let ask = level(&book, BidOrAsk::Ask, 98.25).unwrap();
    assert_eq!(sizes(ask), vec![1.0]);
    assert_eq!(ask.price().integral(), 98);
    assert_eq!(ask.price().fractional(), 25_000);
    assert_eq!(book.level_count(BidOrAsk::Bid), 1);
    assert_eq!(sizes(level(&book, BidOrAsk::Bid, 98.25).unwrap()), vec![5.0, 2.5]);
}

#[test]
fn different_prices_open_different_levels() {
    let mut book = Orderbook::new();
    add(&mut book, 98.25, BidOrAsk::Bid, 1.0);
    add(&mut book, 98.26, BidOrAsk::Bid, 2.0);
    add(&mut book, 99.25, BidOrAsk::Bid, 3.0);
    add(&mut book, 98.25, BidOrAsk::Bid, 4.0);
    assert_eq!(book.level_count(BidOrAsk::Bid), 3);
    assert_eq!(sizes(level(&book, BidOrAsk::Bid, 98.25).unwrap()), vec![1.0, 4.0]);
    assert_eq!(sizes(level(&book, BidOrAsk::Bid, 98.26).unwrap()), vec![2.0]);
    assert_eq!(sizes(level(&book, BidOrAsk::Bid, 99.25).unwrap()), vec![3.0]);
    assert!(level(&book, BidOrAsk::Bid, 98.27).is_none());
    assert!(level(&book, BidOrAsk::Ask, 98.25).is_none());
}

#[test]
fn prices_that_quantize_alike_share_a_level() {
    let mut book = Orderbook::new();
    add(&mut book, 10.000001, BidOrAsk::Bid, 1.0);
    add(&mut book, 10.000009, BidOrAsk::Bid, 2.0);
    add(&mut book, 10.0, BidOrAsk::Bid, 3.0);
    assert_eq!(book.level_count(BidOrAsk::Bid), 1);
    assert_eq!(sizes(level(&book, BidOrAsk::Bid, 10.0).unwrap()), vec![1.0, 2.0, 3.0]);
}

#[test]
fn whole_and_fractional_parts_do_not_collide() {
    let mut book = Orderbook::new();
    // 1 whole and 0 units against 0 whole and 1 unit.
    add(&mut book, 1.0, BidOrAsk::Ask, 1.0);
    add(&mut book, 0.00001, BidOrAsk::Ask, 2.0);
    add(&mut book, 25000.0, BidOrAsk::Ask, 3.0);
    add(&mut book, 0.25, BidOrAsk::Ask, 4.0);
    assert_eq!(book.level_count(BidOrAsk::Ask), 4);
    assert_eq!(sizes(level(&book, BidOrAsk::Ask, 1.0).unwrap()), vec![1.0]);
    assert_eq!(sizes(level(&book, BidOrAsk::Ask, 0.00001).unwrap()), vec![2.0]);
    assert_eq!(sizes(level(&book, BidOrAsk::Ask, 25000.0).unwrap()), vec![3.0]);
    assert_eq!(sizes(level(&book, BidOrAsk::Ask, 0.25).unwrap()), vec![4.0]);
}

#[test]
fn order_of_sides_does_not_matter() {
    let mut bid_first = Orderbook::new();
    add(&mut bid_first, 77.5, BidOrAsk::Bid, 1.0);
    add(&mut bid_first, 77.5, BidOrAsk::Ask, 2.0);
    let mut ask_first = Orderbook::new();
    add(&mut ask_first, 77.5, BidOrAsk::Ask, 2.0);
    add(&mut ask_first, 77.5, BidOrAsk::Bid, 1.0);
    for side in [BidOrAsk::Bid, BidOrAsk::Ask] {
        assert_eq!(bid_first.level_count(side), 1);
        assert_eq!(ask_first.level_count(side), 1);
        assert_eq!(
            sizes(level(&bid_first, side, 77.5).unwrap()),
            sizes(level(&ask_first, side, 77.5).unwrap())
        );
    }
}

#[test]
fn earlier_orders_keep_their_places() {
    let mut book = Orderbook::new();
    add(&mut book, 20.0, BidOrAsk::Bid, 1.0);
    add(&mut book, 21.0, BidOrAsk::Bid, 2.0);
    let mut expected_at_20 = vec![1.0];
    for step in 0..50u32 {
        let size = f64::from(step) + 3.0;
        let price = if step % 3 == 0 { 20.0 } else { 22.0 + f64::from(step) };
        add(&mut book, price, BidOrAsk::Bid, size);
        if step % 3 == 0 {
            expected_at_20.push(size);
        }
        assert_eq!(sizes(level(&book, BidOrAsk::Bid, 20.0).unwrap()), expected_at_20);
        assert_eq!(sizes(level(&book, BidOrAsk::Bid, 21.0).unwrap()), vec![2.0]);
    }
    assert_eq!(book.level_count(BidOrAsk::Bid), 2 + 33);
}

#[test]
fn orders_join_a_level_that_is_there() {
    let mut book = Orderbook::new();
    add(&mut book, 50.5, BidOrAsk::Ask, 9.0);
    add(&mut book, 60.5, BidOrAsk::Ask, 8.0);
    add(&mut book, 50.5, BidOrAsk::Ask, 1.0);
    add(&mut book, 50.5, BidOrAsk::Ask, 2.0);
    add(&mut book, 50.5, BidOrAsk::Ask, 3.0);
    assert_eq!(book.level_count(BidOrAsk::Ask), 2);
    assert_eq!(sizes(level(&book, BidOrAsk::Ask, 50.5).unwrap()), vec![9.0, 1.0, 2.0, 3.0]);
    assert_eq!(sizes(level(&book, BidOrAsk::Ask, 60.5).unwrap()), vec![8.0]);
}

#[test]
fn crossed_books_are_kept_as_they_are() {
    let mut book = Orderbook::new();
    add(&mut book, 105.0, BidOrAsk::Bid, 1.0);
    add(&mut book, 95.0, BidOrAsk::Ask, 1.0);
    assert_eq!(book.level_count(BidOrAsk::Bid), 1);
    assert_eq!(book.level_count(BidOrAsk::Ask), 1);
    assert!(level(&book, BidOrAsk::Bid, 105.0).is_some());
    assert!(level(&book, BidOrAsk::Ask, 95.0).is_some());
}

#[test]
fn nothing_is_rejected() {
    let mut book = Orderbook::new();
    add(&mut book, -5.2, BidOrAsk::Bid, -1.0);
    add(&mut book, 0.0, BidOrAsk::Bid, 0.0);
    add(&mut book, f64::NAN, BidOrAsk::Bid, f64::NAN);
    add(&mut book, f64::INFINITY, BidOrAsk::Bid, f64::INFINITY);
    add(&mut book, 1.0e300, BidOrAsk::Bid, 1.0);
    // Negative prices, zero and NaN all quantize to zero; the two large ones saturate.
    assert_eq!(book.level_count(BidOrAsk::Bid), 2);
    let zero = level(&book, BidOrAsk::Bid, 0.0).unwrap();
    assert_eq!(zero.len(), 3);
    assert_eq!(zero.order(0).unwrap().size(), (-1.0f64).to_bits());
    assert_eq!(zero.order(1).unwrap().size(), 0f64.to_bits());
    assert_eq!(zero.order(2).unwrap().size(), f64::NAN.to_bits());
    let top = level(&book, BidOrAsk::Bid, f64::INFINITY).unwrap();
    assert_eq!(sizes(top), vec![f64::INFINITY, 1.0]);
    assert_eq!(top.price().integral(), u64::MAX);
}

#[test]
fn many_levels_on_both_sides() {
    let mut book = Orderbook::new();
    for step in 0..500u32 {
        let price = 100.0 + f64::from(step) * 0.25;
        add(&mut book, price, BidOrAsk::Bid, f64::from(step));
        add(&mut book, price, BidOrAsk::Ask, f64::from(step) + 0.5);
        add(&mut book, price, BidOrAsk::Bid, f64::from(step) + 1000.0);
    }
    assert_eq!(book.level_count(BidOrAsk::Bid), 500);
    assert_eq!(book.level_count(BidOrAsk::Ask), 500);
    for step in 0..500u32 {
        let price = 100.0 + f64::from(step) * 0.25;
        let bids = level(&book, BidOrAsk::Bid, price).unwrap();
        assert_eq!(sizes(bids), vec![f64::from(step), f64::from(step) + 1000.0]);
        let asks = level(&book, BidOrAsk::Ask, price).unwrap();
        assert_eq!(sizes(asks), vec![f64::from(step) + 0.5]);
        assert_eq!(bids.price(), Price::new(price.to_bits()));
    }
}

#[test]
fn book_can_be_printed() {
    let mut book = Orderbook::new();
    add(&mut book, 98.25, BidOrAsk::Bid, 5.0);
    let printed = format!("{:?}", book);
    assert!(printed.contains("Orderbook"));
    assert!(printed.contains("25000"));
}
