use ferrox::book::{BookError, OrderBook};
use ferrox::order::{Order, Side};

fn bid(id: u64, price: i64, qty: u64, ts: u64) -> Order {
    Order::new(id, 1, Side::Bid, price, qty, ts).unwrap()
}

fn ask(id: u64, price: i64, qty: u64, ts: u64) -> Order {
    Order::new(id, 1, Side::Ask, price, qty, ts).unwrap()
}

#[test]
fn insert_and_best_prices() {
    let mut book = OrderBook::new();
    book.insert_order(bid(1, 100, 10, 1)).unwrap();
    book.insert_order(bid(2, 102, 10, 2)).unwrap();
    book.insert_order(ask(3, 105, 10, 3)).unwrap();
    book.insert_order(ask(4, 103, 10, 4)).unwrap();

    assert_eq!(book.best_bid(), Some(102));
    assert_eq!(book.best_ask(), Some(103));
    assert_eq!(book.order_count(), 4);
}

#[test]
fn duplicate_id_rejected() {
    let mut book = OrderBook::new();
    book.insert_order(bid(1, 100, 10, 1)).unwrap();
    let err = book.insert_order(ask(1, 105, 5, 2)).unwrap_err();
    assert_eq!(err, BookError::DuplicateOrderId(1));
}

#[test]
fn cancel_order_updates_best() {
    let mut book = OrderBook::new();
    book.insert_order(bid(1, 100, 10, 1)).unwrap();
    book.insert_order(bid(2, 102, 10, 2)).unwrap();

    let cancelled = book.cancel_order(2).unwrap();
    assert_eq!(cancelled.id, 2);
    assert_eq!(book.best_bid(), Some(100));
    assert_eq!(book.order_count(), 1);
}

#[test]
fn cancel_last_order_clears_best() {
    let mut book = OrderBook::new();
    book.insert_order(ask(1, 105, 10, 1)).unwrap();
    book.cancel_order(1).unwrap();

    assert_eq!(book.best_ask(), None);
    assert_eq!(book.order_count(), 0);
}

#[test]
fn cancel_nonexistent_order() {
    let mut book = OrderBook::new();
    let err = book.cancel_order(999).unwrap_err();
    assert_eq!(err, BookError::OrderNotFound(999));
}

#[test]
fn fifo_ordering_within_level() {
    let mut book = OrderBook::new();
    book.insert_order(bid(1, 100, 10, 1)).unwrap();
    book.insert_order(bid(2, 100, 20, 2)).unwrap();
    book.insert_order(bid(3, 100, 30, 3)).unwrap();

    let front = book.peek_front(Side::Bid, 100).unwrap();
    assert_eq!(front.id, 1);
}

#[test]
fn reduce_front_partial() {
    let mut book = OrderBook::new();
    book.insert_order(ask(1, 105, 100, 1)).unwrap();

    let remaining = book.reduce_front_quantity(Side::Ask, 105, 40).unwrap();
    assert_eq!(remaining, 60);
    assert_eq!(book.order_count(), 1);

    let front = book.peek_front(Side::Ask, 105).unwrap();
    assert_eq!(front.quantity, 60);
}

#[test]
fn reduce_front_full_removes_order() {
    let mut book = OrderBook::new();
    book.insert_order(ask(1, 105, 100, 1)).unwrap();
    book.insert_order(ask(2, 105, 50, 2)).unwrap();

    let remaining = book.reduce_front_quantity(Side::Ask, 105, 100).unwrap();
    assert_eq!(remaining, 0);
    assert_eq!(book.order_count(), 1);

    let front = book.peek_front(Side::Ask, 105).unwrap();
    assert_eq!(front.id, 2);
}

#[test]
fn reduce_front_removes_empty_level() {
    let mut book = OrderBook::new();
    book.insert_order(ask(1, 105, 100, 1)).unwrap();
    book.insert_order(ask(2, 110, 50, 2)).unwrap();

    book.reduce_front_quantity(Side::Ask, 105, 100).unwrap();
    assert_eq!(book.best_ask(), Some(110));
}

#[test]
fn fill_exceeds_quantity_error() {
    let mut book = OrderBook::new();
    book.insert_order(bid(1, 100, 10, 1)).unwrap();

    let err = book.reduce_front_quantity(Side::Bid, 100, 20).unwrap_err();
    assert_eq!(err, BookError::FillExceedsQuantity { available: 10, requested: 20 });
}

#[test]
fn empty_book_defaults() {
    let book = OrderBook::new();
    assert_eq!(book.best_bid(), None);
    assert_eq!(book.best_ask(), None);
    assert_eq!(book.order_count(), 0);
    assert!(book.peek_front(Side::Bid, 100).is_none());
}

#[test]
fn arena_full_rejects_insert() {
    let mut book = OrderBook::with_capacity(2);
    book.insert_order(bid(1, 100, 10, 1)).unwrap();
    book.insert_order(bid(2, 101, 10, 2)).unwrap();
    let err = book.insert_order(bid(3, 102, 10, 3)).unwrap_err();
    assert_eq!(err, BookError::ArenaFull);
    assert_eq!(book.order_count(), 2);
}

#[test]
fn cancel_frees_slot_for_reuse() {
    let mut book = OrderBook::with_capacity(2);
    book.insert_order(bid(1, 100, 10, 1)).unwrap();
    book.insert_order(bid(2, 101, 10, 2)).unwrap();
    assert_eq!(book.insert_order(bid(3, 102, 10, 3)).unwrap_err(), BookError::ArenaFull);

    book.cancel_order(1).unwrap();
    book.insert_order(bid(3, 102, 10, 3)).unwrap();
    assert_eq!(book.order_count(), 2);
    assert_eq!(book.best_bid(), Some(102));
}

#[test]
fn cancel_middle_of_level() {
    let mut book = OrderBook::with_capacity(8);
    book.insert_order(bid(1, 100, 10, 1)).unwrap();
    book.insert_order(bid(2, 100, 20, 2)).unwrap();
    book.insert_order(bid(3, 100, 30, 3)).unwrap();

    book.cancel_order(2).unwrap();
    assert_eq!(book.order_count(), 2);

    let front = book.peek_front(Side::Bid, 100).unwrap();
    assert_eq!(front.id, 1);

    book.reduce_front_quantity(Side::Bid, 100, 10).unwrap();
    let front = book.peek_front(Side::Bid, 100).unwrap();
    assert_eq!(front.id, 3);
}

#[test]
fn reduce_front_missing_level() {
    let mut book = OrderBook::with_capacity(8);
    book.insert_order(bid(1, 100, 10, 1)).unwrap();
    assert_eq!(book.reduce_front_quantity(Side::Ask, 100, 1).unwrap_err(), BookError::PriceLevelNotFound(100));
    assert_eq!(book.reduce_front_quantity(Side::Bid, 99, 1).unwrap_err(), BookError::PriceLevelNotFound(99));
}

#[test]
fn occupancy_tracks_index_size() {
    let mut book = OrderBook::with_capacity(8);
    for id in 1..=5u64 {
        book.insert_order(bid(id, 100 + id as i64, 10, id)).unwrap();
        assert_eq!(book.arena_count() as usize, book.order_count());
    }
    book.cancel_order(3).unwrap();
    assert_eq!(book.arena_count() as usize, book.order_count());
    book.reduce_front_quantity(Side::Bid, 105, 10).unwrap();
    assert_eq!(book.arena_count() as usize, book.order_count());
    assert_eq!(book.order_count(), 3);
    assert_eq!(book.best_bid(), Some(104));
}

#[test]
fn all_resting_orders_listed_by_side_price_time() {
    let mut book = OrderBook::with_capacity(8);
    book.insert_order(ask(1, 110, 5, 10)).unwrap();
    book.insert_order(bid(2, 100, 5, 20)).unwrap();
    book.insert_order(bid(3, 98, 5, 30)).unwrap();
    book.insert_order(bid(4, 100, 5, 5)).unwrap();
    let ids: Vec<u64> = book.all_resting_orders().iter().map(|o| o.id).collect();
    assert_eq!(ids, vec![3, 4, 2, 1]);
}
