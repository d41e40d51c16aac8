use orderbook_core::{Order, OrderBook, OrderSide, OrderType};

fn order(id: u64, side: OrderSide, ty: OrderType, qty: u64, price: u64, ts: u64) -> Order {
    Order::new(id, "B".to_string(), side, ty, qty, price, ts, 0)
}

#[test]
fn book_fifo_within_level() {
    let mut b = OrderBook::new("B".to_string());
    assert!(b.add_order(order(1, OrderSide::Sell, OrderType::Limit, 3, 100, 1)).is_empty());
    assert!(b.add_order(order(2, OrderSide::Sell, OrderType::Limit, 3, 100, 2)).is_empty());
    assert!(b.add_order(order(3, OrderSide::Sell, OrderType::Limit, 3, 99, 3)).is_empty());
    let t = b.add_order(order(4, OrderSide::Buy, OrderType::Limit, 7, 100, 4));
    let makers: Vec<u64> = t.iter().map(|t| t.sell_order_id).collect();
    assert_eq!(makers, vec![3, 1, 2]);
    let prices: Vec<u64> = t.iter().map(|t| t.price).collect();
    assert_eq!(prices, vec![99, 100, 100]);
    assert_eq!(t[2].quantity, 1);
    assert_eq!(b.get_order(2).unwrap().quantity, 2);
    assert_eq!(b.last_price(), Some(100));
    assert_eq!(b.filled_lots(), 7);
    assert_eq!(b.get_spread(), 0);
    assert_eq!(b.symbol(), "B");
    assert_eq!(b.resting_count(), 1);
    assert_eq!(b.last_admitted(), (4, 4));
}

#[test]
fn book_conserves_quantity_on_partial_limit() {
    let mut b = OrderBook::new("B".to_string());
    b.add_order(order(1, OrderSide::Buy, OrderType::Limit, 4, 50, 0));
    let t = b.add_order(order(2, OrderSide::Sell, OrderType::Limit, 10, 50, 0));
    let traded: u64 = t.iter().map(|t| t.quantity).sum();
    let rested = b.get_order(2).unwrap().quantity;
    assert_eq!(traded + rested, 10);
    assert_eq!(b.best_ask(), Some(50));
    assert_eq!(b.best_bid(), None);
}

#[test]
fn book_depth_aggregates_levels() {
    let mut b = OrderBook::new("B".to_string());
    b.add_order(order(1, OrderSide::Buy, OrderType::Limit, 4, 50, 0));
    b.add_order(order(2, OrderSide::Buy, OrderType::Limit, 6, 50, 0));
    b.add_order(order(3, OrderSide::Buy, OrderType::Limit, 1, 49, 0));
    let (bids, asks) = b.depth(10);
    let v: Vec<_> = bids.iter().map(|l| (l.price, l.quantity, l.orders)).collect();
    assert_eq!(v, vec![(50, 10, 2), (49, 1, 1)]);
    assert!(asks.is_empty());
    assert_eq!(b.get_spread(), 0);
}
