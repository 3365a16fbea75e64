use orderbook::book::Orderbook;
use orderbook::price_key::price_to_key;
use orderbook::types::{Order, OrderResponse, OrderSide, OrderType};

fn key(whole: u64) -> u64 {
    price_to_key(whole, 0).unwrap()
}

fn limit(id: &str, side: OrderSide, price: u64, qty: u64) -> Order {
    Order {
        id: id.to_string(),
        user_id: "u".to_string(),
        side,
        order_type: OrderType::LimitOrder,
        price: Some(price),
        quantity: qty,
        remaining_quantity: qty,
        timestamp: 1,
    }
}

fn market(id: &str, side: OrderSide, qty: u64) -> Order {
    Order {
        id: id.to_string(),
        user_id: "u".to_string(),
        side,
        order_type: OrderType::MarketOrder,
        price: None,
        quantity: qty,
        remaining_quantity: qty,
        timestamp: 1,
    }
}

#[test]
fn rest_then_fill_across_two_levels() {
    let mut book = Orderbook::new();
    assert!(matches!(
        book.add_order(limit("s1", OrderSide::Sell, key(101), 10), 10),
        OrderResponse::Placed { .. }
    ));
    assert!(matches!(
        book.add_order(limit("s2", OrderSide::Sell, key(102), 5), 11),
        OrderResponse::Placed { .. }
    ));
    let r = book.add_order(market("b1", OrderSide::Buy, 12), 12);
    match r {
        OrderResponse::Filled { order_id, filled_quantity, trades } => {
            assert_eq!(order_id, "b1");
            assert_eq!(filled_quantity, 12);
            assert_eq!(trades.len(), 2);
            assert_eq!(trades[0].price, key(101));
            assert_eq!(trades[0].quantity, 10);
            assert_eq!(trades[0].buy_order_id, "b1");
            assert_eq!(trades[0].sell_order_id, "s1");
            assert_eq!(trades[1].price, key(102));
            assert_eq!(trades[1].quantity, 2);
            assert_eq!(trades[1].sell_order_id, "s2");
            assert_eq!(trades[0].timestamp, 12);
            assert_eq!(trades[1].timestamp, 12);
        }
        _ => panic!("expected Filled"),
    }
    let snap = book.get_snapshot();
    assert_eq!(snap.bids, vec![]);
    assert_eq!(snap.asks, vec![(key(102), 3)]);
}

#[test]
fn market_rejects_with_no_liquidity() {
    let mut book = Orderbook::new();
    let r = book.add_order(market("b1", OrderSide::Buy, 5), 1);
    match r {
        OrderResponse::Error { message } => {
            assert_eq!(message, "No matching orders available");
        }
        _ => panic!("expected Error"),
    }
    let snap = book.get_snapshot();
    assert_eq!(snap.bids, vec![]);
    assert_eq!(snap.asks, vec![]);
}

#[test]
fn market_insufficient_liquidity_leaves_book_unchanged() {
    let mut book = Orderbook::new();
    book.add_order(limit("s1", OrderSide::Sell, key(100), 3), 1);
    let r = book.add_order(market("b1", OrderSide::Buy, 5), 2);
    match r {
        OrderResponse::Error { message } => {
            assert_eq!(message, "Insufficient liquidity for market order");
        }
        _ => panic!("expected Error"),
    }
    let snap = book.get_snapshot();
    assert_eq!(snap.asks, vec![(key(100), 3)]);
    assert_eq!(snap.bids, vec![]);
}

#[test]
fn partial_limit_fill_rests_residual() {
    let mut book = Orderbook::new();
    book.add_order(limit("s1", OrderSide::Sell, key(100), 3), 1);
    let r = book.add_order(limit("b1", OrderSide::Buy, key(100), 10), 2);
    match r {
        OrderResponse::PartiallyFilled { order_id, filled_quantity, remaining_quantity, trades } => {
            assert_eq!(order_id, "b1");
            assert_eq!(filled_quantity, 3);
            assert_eq!(remaining_quantity, 7);
            assert_eq!(trades.len(), 1);
            assert_eq!(trades[0].price, key(100));
            assert_eq!(trades[0].quantity, 3);
        }
        _ => panic!("expected PartiallyFilled"),
    }
    let snap = book.get_snapshot();
    assert_eq!(snap.bids, vec![(key(100), 7)]);
    assert_eq!(snap.asks, vec![]);
}

#[test]
fn limit_does_not_cross() {
    let mut book = Orderbook::new();
    book.add_order(limit("s1", OrderSide::Sell, key(105), 4), 1);
    let r = book.add_order(limit("b1", OrderSide::Buy, key(104), 3), 2);
    match r {
        OrderResponse::Placed { order_id } => assert_eq!(order_id, "b1"),
        _ => panic!("expected Placed"),
    }
    let snap = book.get_snapshot();
    assert_eq!(snap.bids, vec![(key(104), 3)]);
    assert_eq!(snap.asks, vec![(key(105), 4)]);
}

#[test]
fn time_priority_within_a_level() {
    let mut book = Orderbook::new();
    book.add_order(limit("A", OrderSide::Buy, key(100), 5), 1);
    book.add_order(limit("B", OrderSide::Buy, key(100), 5), 2);
    let r = book.add_order(limit("s1", OrderSide::Sell, key(100), 5), 3);
    match r {
        OrderResponse::Filled { filled_quantity, trades, .. } => {
            assert_eq!(filled_quantity, 5);
            assert_eq!(trades.len(), 1);
            assert_eq!(trades[0].price, key(100));
            assert_eq!(trades[0].quantity, 5);
            assert_eq!(trades[0].buy_order_id, "A");
            assert_eq!(trades[0].sell_order_id, "s1");
        }
        _ => panic!("expected Filled"),
    }
    let snap = book.get_snapshot();
    assert_eq!(snap.bids, vec![(key(100), 5)]);
    // the remaining bid is B: a second sell matches it
    let r2 = book.add_order(limit("s2", OrderSide::Sell, key(100), 5), 4);
    match r2 {
        OrderResponse::Filled { trades, .. } => {
            assert_eq!(trades.len(), 1);
            assert_eq!(trades[0].buy_order_id, "B");
        }
        _ => panic!("expected Filled"),
    }
}

#[test]
fn maker_price_rule() {
    let mut book = Orderbook::new();
    book.add_order(limit("s1", OrderSide::Sell, key(100), 2), 1);
    let r = book.add_order(limit("b1", OrderSide::Buy, key(110), 2), 2);
    match r {
        OrderResponse::Filled { filled_quantity, trades, .. } => {
            assert_eq!(filled_quantity, 2);
            assert_eq!(trades.len(), 1);
            assert_eq!(trades[0].price, key(100));
            assert_eq!(trades[0].quantity, 2);
        }
        _ => panic!("expected Filled"),
    }
}

#[test]
fn unmatchable_limit_adds_exactly_its_quantity() {
    let mut book = Orderbook::new();
    book.add_order(limit("b0", OrderSide::Buy, key(104), 2), 1);
    let r = book.add_order(limit("b1", OrderSide::Buy, key(104), 3), 2);
    assert!(matches!(r, OrderResponse::Placed { .. }));
    let snap = book.get_snapshot();
    assert_eq!(snap.bids, vec![(key(104), 5)]);
    assert_eq!(snap.asks, vec![]);
}

#[test]
fn self_matching_pair_empties_both_sides() {
    let mut book = Orderbook::new();
    let r1 = book.add_order(limit("b1", OrderSide::Buy, key(100), 7), 1);
    assert!(matches!(r1, OrderResponse::Placed { .. }));
    let r2 = book.add_order(limit("s1", OrderSide::Sell, key(100), 7), 2);
    match r2 {
        OrderResponse::Filled { filled_quantity, trades, .. } => {
            assert_eq!(filled_quantity, 7);
            assert_eq!(trades.len(), 1);
            assert_eq!(trades[0].price, key(100));
            assert_eq!(trades[0].quantity, 7);
            assert_eq!(trades[0].buy_order_id, "b1");
            assert_eq!(trades[0].sell_order_id, "s1");
        }
        _ => panic!("expected Filled"),
    }
    let snap = book.get_snapshot();
    assert_eq!(snap.bids, vec![]);
    assert_eq!(snap.asks, vec![]);
}

#[test]
fn limit_without_price_is_rejected() {
    let mut book = Orderbook::new();
    let mut o = limit("b1", OrderSide::Buy, key(100), 1);
    o.price = None;
    let r = book.add_order(o, 1);
    match r {
        OrderResponse::Error { message } => assert_eq!(message, "limit order must have price"),
        _ => panic!("expected Error"),
    }
}

#[test]
fn zero_quantity_market_is_rejected() {
    let mut book = Orderbook::new();
    book.add_order(limit("s1", OrderSide::Sell, key(100), 2), 1);
    let r = book.add_order(market("b1", OrderSide::Buy, 0), 2);
    match r {
        OrderResponse::Error { message } => assert_eq!(message, "No matching orders available"),
        _ => panic!("expected Error"),
    }
    let snap = book.get_snapshot();
    assert_eq!(snap.asks, vec![(key(100), 2)]);
}

#[test]
fn sell_market_walks_bids_from_the_top() {
    let mut book = Orderbook::new();
    book.add_order(limit("b1", OrderSide::Buy, key(99), 4), 1);
    book.add_order(limit("b2", OrderSide::Buy, key(101), 2), 2);
    let r = book.add_order(market("s1", OrderSide::Sell, 5), 3);
    match r {
        OrderResponse::Filled { filled_quantity, trades, .. } => {
            assert_eq!(filled_quantity, 5);
            assert_eq!(trades.len(), 2);
            assert_eq!(trades[0].price, key(101));
            assert_eq!(trades[0].quantity, 2);
            assert_eq!(trades[0].buy_order_id, "b2");
            assert_eq!(trades[0].sell_order_id, "s1");
            assert_eq!(trades[1].price, key(99));
            assert_eq!(trades[1].quantity, 3);
        }
        _ => panic!("expected Filled"),
    }
    let snap = book.get_snapshot();
    assert_eq!(snap.bids, vec![(key(99), 1)]);
}

#[test]
fn snapshot_orders_best_price_first() {
    let mut book = Orderbook::new();
    book.add_order(limit("b1", OrderSide::Buy, key(98), 1), 1);
    book.add_order(limit("b2", OrderSide::Buy, key(100), 2), 2);
    book.add_order(limit("b3", OrderSide::Buy, key(99), 3), 3);
    book.add_order(limit("s1", OrderSide::Sell, key(103), 1), 4);
    book.add_order(limit("s2", OrderSide::Sell, key(101), 2), 5);
    book.add_order(limit("s3", OrderSide::Sell, key(102), 3), 6);
    let snap = book.get_snapshot();
    assert_eq!(snap.bids, vec![(key(100), 2), (key(99), 3), (key(98), 1)]);
    assert_eq!(snap.asks, vec![(key(101), 2), (key(102), 3), (key(103), 1)]);
}

#[test]
fn add_to_book_rests_and_indexes() {
    let mut book = Orderbook::new();
    book.add_to_book(limit("b1", OrderSide::Buy, key(100), 4));
    let snap = book.get_snapshot();
    assert_eq!(snap.bids, vec![(key(100), 4)]);
}

#[test]
fn match_limit_order_leaves_residual_to_caller() {
    let mut book = Orderbook::new();
    book.add_order(limit("s1", OrderSide::Sell, key(100), 3), 1);
    let mut taker = limit("b1", OrderSide::Buy, key(100), 5);
    let trades = book.match_limit_order(&mut taker, 2);
    assert_eq!(trades.len(), 1);
    assert_eq!(trades[0].quantity, 3);
    assert_eq!(taker.remaining_quantity, 2);
    // the taker was not rested by the matcher itself
    let snap = book.get_snapshot();
    assert_eq!(snap.bids, vec![]);
    assert_eq!(snap.asks, vec![]);
}

#[test]
fn match_market_order_reports_shortfall_in_remaining() {
    let mut book = Orderbook::new();
    book.add_order(limit("s1", OrderSide::Sell, key(100), 3), 1);
    let mut taker = market("b1", OrderSide::Buy, 5);
    let trades = book.match_market_order(&mut taker, 2);
    assert_eq!(trades.len(), 1);
    assert_eq!(trades[0].quantity, 3);
    assert_eq!(taker.remaining_quantity, 2);
}

#[test]
fn trade_ids_are_fresh_per_emission() {
    let mut book = Orderbook::new();
    book.add_order(limit("s1", OrderSide::Sell, key(100), 1), 1);
    book.add_order(limit("s2", OrderSide::Sell, key(101), 1), 2);
    let r = book.add_order(market("b1", OrderSide::Buy, 2), 3);
    match r {
        OrderResponse::Filled { trades, .. } => {
            assert_eq!(trades.len(), 2);
            assert_ne!(trades[0].id, trades[1].id);
        }
        _ => panic!("expected Filled"),
    }
}
