use ferrox::book::BookError;
use ferrox::matching::{MatchingEngine, MatchingError, OrderStatus};
use ferrox::order::{Order, Side};

const TEST_CAPACITY: u32 = 1_024;

fn engine() -> MatchingEngine {
    MatchingEngine::with_capacity(TEST_CAPACITY)
}

fn bid(id: u64, price: i64, qty: u64, ts: u64) -> Order {
    Order::new(id, id, Side::Bid, price, qty, ts).unwrap()
}

fn ask(id: u64, price: i64, qty: u64, ts: u64) -> Order {
    Order::new(id, id, Side::Ask, price, qty, ts).unwrap()
}

fn bid_trader(id: u64, trader_id: u64, price: i64, qty: u64, ts: u64) -> Order {
    Order::new(id, trader_id, Side::Bid, price, qty, ts).unwrap()
}

fn ask_trader(id: u64, trader_id: u64, price: i64, qty: u64, ts: u64) -> Order {
    Order::new(id, trader_id, Side::Ask, price, qty, ts).unwrap()
}

#[test]
fn no_match_resting() {
    let mut engine = engine();

    let result = engine.add_order(bid(1, 100, 10, 1)).unwrap();
    assert_eq!(result.status, OrderStatus::Resting);
    assert!(result.fills.is_empty());

    let result = engine.add_order(ask(2, 105, 10, 2)).unwrap();
    assert_eq!(result.status, OrderStatus::Resting);
    assert!(result.fills.is_empty());

    assert_eq!(engine.book().best_bid(), Some(100));
    assert_eq!(engine.book().best_ask(), Some(105));
    assert_eq!(engine.book().order_count(), 2);
}

#[test]
fn full_fill_equal_quantities() {
    let mut engine = engine();
    engine.add_order(ask(1, 100, 10, 1)).unwrap();

    let result = engine.add_order(bid(2, 100, 10, 2)).unwrap();
    assert_eq!(result.status, OrderStatus::FullyFilled);
    assert_eq!(result.fills.len(), 1);
    assert_eq!(result.fills[0].quantity, 10);
    assert_eq!(result.fills[0].price, 100);
    assert_eq!(result.fills[0].taker_order_id, 2);
    assert_eq!(result.fills[0].maker_order_id, 1);
    assert!(result.fills[0].maker_fully_filled);

    assert_eq!(engine.book().order_count(), 0);
}

#[test]
fn partial_fill_taker_has_more() {
    let mut engine = engine();
    engine.add_order(ask(1, 100, 5, 1)).unwrap();

    let result = engine.add_order(bid(2, 100, 10, 2)).unwrap();
    assert_eq!(result.status, OrderStatus::PartiallyFilled);
    assert_eq!(result.fills.len(), 1);
    assert_eq!(result.fills[0].quantity, 5);
    assert!(result.fills[0].maker_fully_filled);

    assert_eq!(engine.book().best_bid(), Some(100));
    assert_eq!(engine.book().order_count(), 1);
}

#[test]
fn partial_fill_maker_has_more() {
    let mut engine = engine();
    engine.add_order(bid(1, 100, 20, 1)).unwrap();

    let result = engine.add_order(ask(2, 100, 5, 2)).unwrap();
    assert_eq!(result.status, OrderStatus::FullyFilled);
    assert_eq!(result.fills.len(), 1);
    assert_eq!(result.fills[0].quantity, 5);
    assert!(!result.fills[0].maker_fully_filled);

    assert_eq!(engine.book().order_count(), 1);
    assert_eq!(engine.book().best_bid(), Some(100));
}

#[test]
fn multi_level_matching() {
    let mut engine = engine();
    engine.add_order(ask(1, 100, 5, 1)).unwrap();
    engine.add_order(ask(2, 101, 5, 2)).unwrap();
    engine.add_order(ask(3, 102, 5, 3)).unwrap();

    let result = engine.add_order(bid(4, 102, 12, 4)).unwrap();
    assert_eq!(result.status, OrderStatus::FullyFilled);
    assert_eq!(result.fills.len(), 3);

    assert_eq!(result.fills[0].price, 100);
    assert_eq!(result.fills[0].quantity, 5);
    assert_eq!(result.fills[1].price, 101);
    assert_eq!(result.fills[1].quantity, 5);
    assert_eq!(result.fills[2].price, 102);
    assert_eq!(result.fills[2].quantity, 2);
    assert!(!result.fills[2].maker_fully_filled);

    assert_eq!(engine.book().order_count(), 1);
    assert_eq!(engine.book().best_ask(), Some(102));
}

#[test]
fn fifo_within_price_level() {
    let mut engine = engine();
    engine.add_order(ask(1, 100, 10, 1)).unwrap();
    engine.add_order(ask(2, 100, 10, 2)).unwrap();
    engine.add_order(ask(3, 100, 10, 3)).unwrap();

    let result = engine.add_order(bid(4, 100, 15, 4)).unwrap();
    assert_eq!(result.fills.len(), 2);
    assert_eq!(result.fills[0].maker_order_id, 1);
    assert_eq!(result.fills[0].quantity, 10);
    assert_eq!(result.fills[1].maker_order_id, 2);
    assert_eq!(result.fills[1].quantity, 5);
}

#[test]
fn fill_price_is_maker_price() {
    let mut engine = engine();
    engine.add_order(ask(1, 100, 10, 1)).unwrap();

    let result = engine.add_order(bid(2, 110, 10, 2)).unwrap();
    assert_eq!(result.fills[0].price, 100);
}

#[test]
fn ask_taker_matches_bids() {
    let mut engine = engine();
    engine.add_order(bid(1, 102, 10, 1)).unwrap();
    engine.add_order(bid(2, 101, 10, 2)).unwrap();

    let result = engine.add_order(ask(3, 101, 15, 3)).unwrap();
    assert_eq!(result.fills.len(), 2);
    assert_eq!(result.fills[0].maker_order_id, 1);
    assert_eq!(result.fills[0].price, 102);
    assert_eq!(result.fills[0].quantity, 10);
    assert_eq!(result.fills[1].maker_order_id, 2);
    assert_eq!(result.fills[1].price, 101);
    assert_eq!(result.fills[1].quantity, 5);

    assert_eq!(result.status, OrderStatus::FullyFilled);
}

#[test]
fn cancel_resting_order() {
    let mut engine = engine();
    engine.add_order(bid(1, 100, 10, 1)).unwrap();

    let cancelled = engine.cancel_order(1).unwrap();
    assert_eq!(cancelled.id, 1);
    assert_eq!(engine.book().order_count(), 0);
}

#[test]
fn cancel_nonexistent_fails() {
    let mut engine = engine();
    let err = engine.cancel_order(999).unwrap_err();
    assert_eq!(err, MatchingError::Book(BookError::OrderNotFound(999)));
}

#[test]
fn matching_zero_quantity_rejected() {
    let mut engine = engine();
    let order = Order {
        id: 1,
        trader_id: 1,
        side: Side::Bid,
        price: 100,
        quantity: 0,
        timestamp: 1,
    };
    let err = engine.add_order(order).unwrap_err();
    assert_eq!(err, MatchingError::ZeroQuantity);
}

#[test]
fn empty_book_no_match() {
    let mut engine = engine();
    let result = engine.add_order(bid(1, 100, 10, 1)).unwrap();
    assert_eq!(result.status, OrderStatus::Resting);
    assert!(result.fills.is_empty());
}

#[test]
fn bid_below_best_ask_no_match() {
    let mut engine = engine();
    engine.add_order(ask(1, 105, 10, 1)).unwrap();

    let result = engine.add_order(bid(2, 100, 10, 2)).unwrap();
    assert_eq!(result.status, OrderStatus::Resting);
    assert!(result.fills.is_empty());
    assert_eq!(engine.book().order_count(), 2);
}

#[test]
fn self_trade_prevented_cancel_newest() {
    let mut engine = engine();
    engine.add_order(ask_trader(1, 1, 100, 10, 1)).unwrap();

    let result = engine.add_order(bid_trader(2, 1, 100, 10, 2)).unwrap();
    assert_eq!(result.status, OrderStatus::CancelledSelfTrade);
    assert!(result.fills.is_empty());

    assert_eq!(engine.book().order_count(), 1);
    assert_eq!(engine.book().best_ask(), Some(100));
}

#[test]
fn self_trade_different_traders_allowed() {
    let mut engine = engine();
    engine.add_order(ask_trader(1, 1, 100, 10, 1)).unwrap();

    let result = engine.add_order(bid_trader(2, 2, 100, 10, 2)).unwrap();
    assert_eq!(result.status, OrderStatus::FullyFilled);
    assert_eq!(result.fills.len(), 1);
    assert_eq!(result.fills[0].quantity, 10);
    assert_eq!(engine.book().order_count(), 0);
}

#[test]
fn self_trade_partial_fill_then_cancel() {
    let mut engine = engine();
    engine.add_order(ask_trader(1, 10, 100, 5, 1)).unwrap();
    engine.add_order(ask_trader(2, 20, 101, 10, 2)).unwrap();

    // Fills against trader A, then hits own ask â€” cancelled
    let result = engine.add_order(bid_trader(3, 20, 101, 15, 3)).unwrap();
    assert_eq!(result.status, OrderStatus::CancelledSelfTrade);
    assert_eq!(result.fills.len(), 1);
    assert_eq!(result.fills[0].maker_order_id, 1);
    assert_eq!(result.fills[0].quantity, 5);

    assert_eq!(engine.book().order_count(), 1);
    assert_eq!(engine.book().best_ask(), Some(101));
}

#[test]
fn self_trade_multiple_resting_same_trader() {
    let mut engine = engine();
    engine.add_order(ask_trader(1, 1, 100, 10, 1)).unwrap();
    engine.add_order(ask_trader(2, 1, 101, 10, 2)).unwrap();

    let result = engine.add_order(bid_trader(3, 1, 105, 30, 3)).unwrap();
    assert_eq!(result.status, OrderStatus::CancelledSelfTrade);
    assert!(result.fills.is_empty());

    assert_eq!(engine.book().order_count(), 2);
}

#[test]
fn scenario_multi_level_sweep_leaves_residual() {
    let mut engine = engine();
    engine.add_order(ask(1, 100, 5, 1)).unwrap();
    engine.add_order(ask(2, 101, 5, 2)).unwrap();
    engine.add_order(ask(3, 102, 5, 3)).unwrap();
    let result = engine.add_order(bid(4, 102, 12, 4)).unwrap();
    let qtys: Vec<u64> = result.fills.iter().map(|f| f.quantity).collect();
    let prices: Vec<i64> = result.fills.iter().map(|f| f.price).collect();
    assert_eq!(qtys, vec![5, 5, 2]);
    assert_eq!(prices, vec![100, 101, 102]);
    assert!(!result.fills[2].maker_fully_filled);
    let rest = engine.book().all_resting_orders();
    assert_eq!(rest.len(), 1);
    assert_eq!(rest[0].id, 3);
    assert_eq!(rest[0].quantity, 3);
    assert_eq!(rest[0].price, 102);
}

#[test]
fn scenario_fifo_leaves_third_untouched() {
    let mut engine = engine();
    engine.add_order(ask(1, 100, 10, 1)).unwrap();
    engine.add_order(ask(2, 100, 10, 2)).unwrap();
    engine.add_order(ask(3, 100, 10, 3)).unwrap();
    engine.add_order(bid(4, 100, 15, 4)).unwrap();
    let rest = engine.book().all_resting_orders();
    assert_eq!(rest.len(), 2);
    assert_eq!((rest[0].id, rest[0].quantity), (2, 5));
    assert_eq!((rest[1].id, rest[1].quantity), (3, 10));
}

#[test]
fn quantity_is_conserved() {
    for (maker_qty, taker_qty) in [(1u64, 1u64), (7, 3), (3, 7), (1000, 999)] {
        let mut engine = engine();
        engine.add_order(Order::new(1, 1, Side::Ask, 50, maker_qty, 1).unwrap()).unwrap();
        let result = engine.add_order(Order::new(2, 2, Side::Bid, 50, taker_qty, 2).unwrap()).unwrap();
        let filled: u64 = result.fills.iter().map(|f| f.quantity).sum();
        let residual = match result.status {
            OrderStatus::FullyFilled => 0,
            _ => engine.book().all_resting_orders().iter().filter(|o| o.id == 2).map(|o| o.quantity).sum(),
        };
        assert_eq!(filled + residual, taker_qty);
        assert!(result.fills.iter().all(|f| f.quantity > 0));
    }
}

#[test]
fn book_never_crosses_over_a_stream() {
    let mut engine = engine();
    let mut id = 0u64;
    for round in 0..60u64 {
        id += 1;
        let side = if (round * 7) % 3 == 0 { Side::Ask } else { Side::Bid };
        let price = 90 + ((round * 13) % 21) as i64;
        let _ = engine.add_order(Order::new(id, id % 5, side, price, 1 + (round % 9), id).unwrap());
        if round % 4 == 3 {
            let _ = engine.cancel_order(id - 2);
        }
        if let (Some(b), Some(a)) = (engine.book().best_bid(), engine.book().best_ask()) {
            assert!(b < a);
        }
        assert_eq!(engine.book().arena_count() as usize, engine.book().order_count());
    }
}

#[test]
fn self_trade_emits_no_fill_against_same_trader() {
    let mut engine = engine();
    engine.add_order(Order::new(1, 42, Side::Ask, 10, 5, 1).unwrap()).unwrap();
    let result = engine.add_order(Order::new(2, 42, Side::Bid, 10, 5, 2).unwrap()).unwrap();
    assert!(result.fills.is_empty());
    assert_eq!(result.status, OrderStatus::CancelledSelfTrade);
    assert_eq!(result.order_id, 2);
}

#[test]
fn residual_duplicate_id_is_reported() {
    let mut engine = engine();
    engine.add_order(bid(1, 100, 10, 1)).unwrap();
    let err = engine.add_order(Order::new(1, 9, Side::Bid, 99, 5, 2).unwrap()).unwrap_err();
    assert_eq!(err, MatchingError::Book(BookError::DuplicateOrderId(1)));
}
