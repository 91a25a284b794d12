use matching_engine::limit::Limit;
use matching_engine::order::{BidOrAsk, Order};
use matching_engine::price::Price;

#[test]
fn order_keeps_its_side_and_size() {
    let order = Order::new(BidOrAsk::Bid, 5.0f64.to_bits());
    assert_eq!(order.bid_or_ask(), BidOrAsk::Bid);
    assert_eq!(f64::from_bits(order.size()), 5.0);
    let order = Order::new(BidOrAsk::Ask, 2.5f64.to_bits());
    assert_eq!(order.bid_or_ask(), BidOrAsk::Ask);
    assert_eq!(f64::from_bits(order.size()), 2.5);
}

#[test]
fn order_size_is_not_validated() {
    for size in [0.0, -1.0, f64::INFINITY, f64::MIN_POSITIVE, -0.0] {
        let order = Order::new(BidOrAsk::Bid, f64::to_bits(size));
        assert_eq!(order.size(), size.to_bits());
    }
    let order = Order::new(BidOrAsk::Ask, f64::NAN.to_bits());
    assert!(f64::from_bits(order.size()).is_nan());
    assert_eq!(order.size(), f64::NAN.to_bits());
}

#[test]
fn sides_differ() {
    assert_ne!(BidOrAsk::Bid, BidOrAsk::Ask);
    assert_eq!(format!("{:?}", BidOrAsk::Bid), "Bid");
    assert_eq!(format!("{:?}", BidOrAsk::Ask), "Ask");
}

#[test]
fn new_limit_is_empty() {
    let price = Price::new(50.5f64.to_bits());
    let limit = Limit::new(price);
    assert_eq!(limit.price(), price);
    assert_eq!(limit.len(), 0);
    assert!(limit.order(0).is_none());
}

#[test]
fn limit_keeps_orders_in_arrival_order() {
    let mut limit = Limit::new(Price::new(50.5f64.to_bits()));
    limit.add_order(Order::new(BidOrAsk::Bid, 3.0f64.to_bits()));
    limit.add_order(Order::new(BidOrAsk::Bid, 1.0f64.to_bits()));
    limit.add_order(Order::new(BidOrAsk::Bid, 2.0f64.to_bits()));
    assert_eq!(limit.len(), 3);
    let sizes: Vec<f64> = (0..3).map(|i| f64::from_bits(limit.order(i).unwrap().size())).collect();
    assert_eq!(sizes, vec![3.0, 1.0, 2.0]);
    assert!(limit.order(3).is_none());
    assert!(limit.order(usize::MAX).is_none());
    assert_eq!(limit.price(), Price::new(50.5f64.to_bits()));
}

#[test]
fn limit_neither_merges_nor_drops_equal_orders() {
    let mut limit = Limit::new(Price::new(1.0f64.to_bits()));
    for _ in 0..4 {
        limit.add_order(Order::new(BidOrAsk::Ask, 7.0f64.to_bits()));
    }
    assert_eq!(limit.len(), 4);
    for i in 0..4 {
        let order = limit.order(i).unwrap();
        assert_eq!(order.bid_or_ask(), BidOrAsk::Ask);
        assert_eq!(f64::from_bits(order.size()), 7.0);
    }
}
