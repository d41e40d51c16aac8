use orderbook_core::{EngineError, OrderSide, OrderType, Trade, TradingEngine, TICKS_PER_UNIT};

fn u(x: u64) -> u64 {
    x * TICKS_PER_UNIT
}

fn engine_with(symbol: &str) -> TradingEngine {
    let mut e = TradingEngine::new();
    e.add_symbol(symbol);
    e
}

fn place(e: &mut TradingEngine, side: OrderSide, ty: OrderType, qty: u64, price: u64) -> Vec<Trade> {
    e.place_order("X", side, ty, qty, price, 7, 0).unwrap()
}

fn summary(t: &[Trade]) -> Vec<(u64, u64, u64, u64)> {
    t.iter().map(|t| (t.buy_order_id, t.sell_order_id, t.price, t.quantity)).collect()
}

#[test]
fn simple_cross() {
    let mut e = engine_with("X");
    assert!(place(&mut e, OrderSide::Sell, OrderType::Limit, u(10), u(100)).is_empty());
    let t = place(&mut e, OrderSide::Buy, OrderType::Limit, u(4), u(101));
    assert_eq!(summary(&t), vec![(2, 1, u(100), u(4))]);
    assert_eq!(t[0].symbol, "X");
    let d = e.get_orderbook("X", 20).unwrap();
    assert_eq!(d.asks.len(), 1);
    assert_eq!((d.asks[0].price, d.asks[0].quantity, d.asks[0].orders), (u(100), u(6) as u128, 1));
    assert!(d.bids.is_empty());
    assert_eq!(d.last_price, Some(u(100)));
    assert_eq!(d.total_volume, 4);
    let b = e.book("X").unwrap();
    let rest = b.get_order(1).unwrap();
    assert_eq!(rest.quantity, u(6));
    assert!(b.get_order(2).is_none());
}

#[test]
fn price_time_priority() {
    let mut e = engine_with("X");
    place(&mut e, OrderSide::Sell, OrderType::Limit, u(5), u(100));
    place(&mut e, OrderSide::Sell, OrderType::Limit, u(5), u(100));
    place(&mut e, OrderSide::Sell, OrderType::Limit, u(5), u(101));
    let t = place(&mut e, OrderSide::Buy, OrderType::Market, u(7), 0);
    assert_eq!(summary(&t), vec![(4, 1, u(100), u(5)), (4, 2, u(100), u(2))]);
    let b = e.book("X").unwrap();
    assert!(b.get_order(1).is_none());
    assert_eq!(b.get_order(2).unwrap().quantity, u(3));
    assert_eq!(b.get_order(3).unwrap().quantity, u(5));
    let d = e.get_orderbook("X", 20).unwrap();
    let asks: Vec<_> = d.asks.iter().map(|l| (l.price, l.quantity, l.orders)).collect();
    assert_eq!(asks, vec![(u(100), u(3) as u128, 1), (u(101), u(5) as u128, 1)]);
}

#[test]
fn market_residue_is_discarded() {
    let mut e = engine_with("X");
    place(&mut e, OrderSide::Sell, OrderType::Limit, u(3), u(50));
    let t = place(&mut e, OrderSide::Buy, OrderType::Market, u(10), 0);
    assert_eq!(summary(&t), vec![(2, 1, u(50), u(3))]);
    let d = e.get_orderbook("X", 20).unwrap();
    assert_eq!(d.total_volume, 3);
    assert!(d.bids.is_empty());
    assert!(d.asks.is_empty());
    assert!(e.book("X").unwrap().get_order(2).is_none());
}

#[test]
fn limit_rests_on_empty_book() {
    let mut e = engine_with("X");
    let t = place(&mut e, OrderSide::Buy, OrderType::Limit, u(5), u(99));
    assert!(t.is_empty());
    let d = e.get_orderbook("X", 20).unwrap();
    assert_eq!((d.bids[0].price, d.bids[0].quantity, d.bids[0].orders), (u(99), u(5) as u128, 1));
    assert_eq!(d.spread, 0);
    let b = e.book("X").unwrap();
    assert_eq!(b.best_bid(), Some(u(99)));
    assert_eq!(b.best_ask(), None);
}

#[test]
fn walking_multiple_levels() {
    let mut e = engine_with("X");
    place(&mut e, OrderSide::Sell, OrderType::Limit, u(2), u(100));
    place(&mut e, OrderSide::Sell, OrderType::Limit, u(3), u(101));
    place(&mut e, OrderSide::Sell, OrderType::Limit, u(1), u(102));
    let t = place(&mut e, OrderSide::Buy, OrderType::Limit, u(10), 1_015_000);
    assert_eq!(summary(&t), vec![(4, 1, u(100), u(2)), (4, 2, u(101), u(3))]);
    let d = e.get_orderbook("X", 20).unwrap();
    assert_eq!(d.bids.len(), 1);
    assert_eq!((d.bids[0].price, d.bids[0].quantity), (1_015_000, u(5) as u128));
    assert_eq!(d.asks.len(), 1);
    assert_eq!((d.asks[0].price, d.asks[0].quantity), (u(102), u(1) as u128));
    assert_eq!(d.spread, 5_000);
    assert_eq!(d.last_price, Some(u(101)));
    assert_eq!(d.total_volume, 5);
}

#[test]
fn invalid_input_is_rejected() {
    let mut e = engine_with("X");
    assert_eq!(
        e.place_order("X", OrderSide::Buy, OrderType::Limit, 0, u(100), 1, 0).unwrap_err(),
        EngineError::InvalidOrder
    );
    assert_eq!(
        e.place_order("X", OrderSide::Sell, OrderType::Limit, u(1), 0, 1, 0).unwrap_err(),
        EngineError::InvalidOrder
    );
    assert_eq!(
        e.place_order("X", OrderSide::Buy, OrderType::Market, 0, 0, 1, 0).unwrap_err(),
        EngineError::InvalidOrder
    );
    let d = e.get_orderbook("X", 20).unwrap();
    assert!(d.bids.is_empty() && d.asks.is_empty());
    assert_eq!(e.get_stats().processed_orders, 0);
    // the rejected orders took no id
    place(&mut e, OrderSide::Buy, OrderType::Limit, u(1), u(10));
    assert!(e.book("X").unwrap().get_order(1).is_some());
}

#[test]
fn unknown_symbol_is_rejected() {
    let mut e = engine_with("X");
    assert_eq!(
        e.place_order("Y", OrderSide::Buy, OrderType::Limit, u(1), u(1), 1, 0).unwrap_err(),
        EngineError::UnknownSymbol
    );
    assert_eq!(e.get_orderbook("Y", 20).err(), Some(EngineError::UnknownSymbol));
    assert!(e.book("Y").is_none());
}

#[test]
fn add_symbol_is_idempotent() {
    let mut e = engine_with("X");
    place(&mut e, OrderSide::Buy, OrderType::Limit, u(1), u(10));
    e.add_symbol("X");
    e.add_symbol("Z");
    assert_eq!(e.get_stats().active_symbols, 2);
    assert_eq!(e.get_orderbook("X", 20).unwrap().bids.len(), 1);
}

#[test]
fn market_sell_on_empty_bids_trades_nothing() {
    let mut e = engine_with("X");
    let t = place(&mut e, OrderSide::Sell, OrderType::Market, u(3), 0);
    assert!(t.is_empty());
    let d = e.get_orderbook("X", 20).unwrap();
    assert!(d.bids.is_empty() && d.asks.is_empty());
    assert_eq!(d.last_price, None);
}

#[test]
fn exact_match_removes_both_and_the_level() {
    let mut e = engine_with("X");
    place(&mut e, OrderSide::Buy, OrderType::Limit, u(4), u(100));
    let t = place(&mut e, OrderSide::Sell, OrderType::Limit, u(4), u(100));
    assert_eq!(summary(&t), vec![(1, 2, u(100), u(4))]);
    let b = e.book("X").unwrap();
    assert_eq!(b.best_bid(), None);
    assert_eq!(b.best_ask(), None);
    assert!(b.get_order(1).is_none() && b.get_order(2).is_none());
}

#[test]
fn self_cross_at_equal_price_trades() {
    let mut e = engine_with("X");
    e.place_order("X", OrderSide::Sell, OrderType::Limit, u(2), u(100), 42, 0).unwrap();
    let t = e.place_order("X", OrderSide::Buy, OrderType::Limit, u(2), u(100), 42, 0).unwrap();
    assert_eq!(summary(&t), vec![(2, 1, u(100), u(2))]);
}

#[test]
fn passive_limit_adds_its_quantity_at_its_tick() {
    let mut e = engine_with("X");
    place(&mut e, OrderSide::Sell, OrderType::Limit, u(1), u(105));
    place(&mut e, OrderSide::Buy, OrderType::Limit, u(2), u(100));
    let t = place(&mut e, OrderSide::Buy, OrderType::Limit, u(3), u(100));
    assert!(t.is_empty());
    let d = e.get_orderbook("X", 20).unwrap();
    assert_eq!((d.bids[0].price, d.bids[0].quantity, d.bids[0].orders), (u(100), u(5) as u128, 2));
    assert_eq!(d.spread, u(5));
}

#[test]
fn sell_sweeps_bids_highest_first_at_maker_prices() {
    let mut e = engine_with("X");
    place(&mut e, OrderSide::Buy, OrderType::Limit, u(1), u(98));
    place(&mut e, OrderSide::Buy, OrderType::Limit, u(1), u(99));
    place(&mut e, OrderSide::Buy, OrderType::Limit, u(1), u(97));
    let t = place(&mut e, OrderSide::Sell, OrderType::Limit, u(3), u(98));
    assert_eq!(summary(&t), vec![(2, 4, u(99), u(1)), (1, 4, u(98), u(1))]);
    let b = e.book("X").unwrap();
    assert_eq!(b.best_bid(), Some(u(97)));
    assert_eq!(b.best_ask(), Some(u(98)));
    assert_eq!(b.get_order(4).unwrap().quantity, u(1));
}

#[test]
fn trade_ids_increase_and_counters_add_up() {
    let mut e = engine_with("X");
    place(&mut e, OrderSide::Sell, OrderType::Limit, u(1), u(10));
    place(&mut e, OrderSide::Sell, OrderType::Limit, u(1), u(11));
    let a = place(&mut e, OrderSide::Buy, OrderType::Market, u(1), 0);
    let b = place(&mut e, OrderSide::Buy, OrderType::Market, u(1), 0);
    assert_eq!(a[0].id, 1);
    assert_eq!(b[0].id, 2);
    let s = e.get_stats();
    assert_eq!((s.processed_orders, s.total_trades, s.active_symbols), (4, 2, 1));
    assert_eq!(e.book("X").unwrap().next_trade_id(), 3);
}

#[test]
fn fractional_quantities_truncate_volume() {
    let mut e = engine_with("X");
    place(&mut e, OrderSide::Sell, OrderType::Limit, 15_000, u(10));
    let t = place(&mut e, OrderSide::Buy, OrderType::Market, 15_000, 0);
    assert_eq!(t[0].quantity, 15_000);
    let b = e.book("X").unwrap();
    assert_eq!(b.filled_lots(), 15_000);
    assert_eq!(b.total_volume(), 1);
}

#[test]
fn volume_truncates_each_fill() {
    let mut e = engine_with("X");
    place(&mut e, OrderSide::Sell, OrderType::Limit, 5_000, u(10));
    place(&mut e, OrderSide::Sell, OrderType::Limit, 5_000, u(10));
    place(&mut e, OrderSide::Buy, OrderType::Market, 5_000, 0);
    place(&mut e, OrderSide::Buy, OrderType::Market, 5_000, 0);
    let b = e.book("X").unwrap();
    assert_eq!(b.filled_lots(), 10_000);
    assert_eq!(b.total_volume(), 0);
    assert_eq!(e.get_orderbook("X", 20).unwrap().total_volume, 0);
}

#[test]
fn trade_ids_are_unique_across_symbols() {
    let mut e = engine_with("X");
    e.add_symbol("Y");
    e.place_order("X", OrderSide::Sell, OrderType::Limit, u(2), u(10), 1, 0).unwrap();
    e.place_order("Y", OrderSide::Sell, OrderType::Limit, u(2), u(10), 1, 0).unwrap();
    let a = e.place_order("X", OrderSide::Buy, OrderType::Market, u(1), 0, 1, 0).unwrap();
    let b = e.place_order("Y", OrderSide::Buy, OrderType::Market, u(1), 0, 1, 0).unwrap();
    let c = e.place_order("X", OrderSide::Buy, OrderType::Market, u(1), 0, 1, 0).unwrap();
    assert_eq!((a[0].id, b[0].id, c[0].id), (1, 2, 3));
}

#[test]
fn admission_clock_never_goes_back() {
    let mut e = engine_with("X");
    e.place_order("X", OrderSide::Sell, OrderType::Limit, u(1), u(10), 1, 50).unwrap();
    let t = e.place_order("X", OrderSide::Buy, OrderType::Market, u(1), 0, 1, 20).unwrap();
    assert_eq!(t[0].timestamp, 50);
}

#[test]
fn depth_is_capped() {
    let mut e = engine_with("X");
    for p in 1..=5u64 {
        place(&mut e, OrderSide::Buy, OrderType::Limit, u(1), u(p));
        place(&mut e, OrderSide::Sell, OrderType::Limit, u(1), u(10 + p));
    }
    let d = e.get_orderbook("X", 2).unwrap();
    let bids: Vec<_> = d.bids.iter().map(|l| l.price).collect();
    let asks: Vec<_> = d.asks.iter().map(|l| l.price).collect();
    assert_eq!(bids, vec![u(5), u(4)]);
    assert_eq!(asks, vec![u(11), u(12)]);
}

#[test]
fn book_never_crossed_after_mixed_submits() {
    let mut e = engine_with("X");
    let mut seed: u64 = 12345;
    for _ in 0..300 {
        seed = seed.wrapping_mul(6364136223846793005).wrapping_add(1442695040888963407);
        let side = if (seed >> 33) % 2 == 0 { OrderSide::Buy } else { OrderSide::Sell };
        let ty = if (seed >> 40) % 5 == 0 { OrderType::Market } else { OrderType::Limit };
        let qty = 1 + (seed >> 20) % 50_000;
        let price = u(95) + (seed >> 45) % u(10);
        e.place_order("X", side, ty, qty, price, 1, 0).unwrap();
        let b = e.book("X").unwrap();
        if let (Some(bid), Some(ask)) = (b.best_bid(), b.best_ask()) {
            assert!(bid < ask);
        }
        let d = e.get_orderbook("X", usize::MAX).unwrap();
        for l in d.bids.iter().chain(d.asks.iter()) {
            assert!(l.orders >= 1 && l.quantity > 0);
        }
        for w in d.bids.windows(2) {
            assert!(w[0].price > w[1].price);
        }
        for w in d.asks.windows(2) {
            assert!(w[0].price < w[1].price);
        }
    }
}
