use ferrox::arena::{Arena, ArenaError, OrderNode, PriceLevel, ARENA_NULL};
use ferrox::order::{Order, Side};

fn make_order(id: u64, price: i64, qty: u64) -> Order {
    Order::new(id, id, Side::Bid, price, qty, id).unwrap()
}

#[test]
fn ordernode_roundtrip() {
    let order = Order::new(1, 2, Side::Ask, 100, 50, 999).unwrap();
    let node = OrderNode::from_order(&order);
    let back = node.to_order();
    assert_eq!(back, order);
}

#[test]
fn arena_alloc_dealloc_cycle() {
    let mut arena = Arena::new(4);
    let i0 = arena.allocate(&make_order(1, 100, 10)).unwrap();
    let i1 = arena.allocate(&make_order(2, 101, 20)).unwrap();
    let i2 = arena.allocate(&make_order(3, 102, 30)).unwrap();
    let i3 = arena.allocate(&make_order(4, 103, 40)).unwrap();

    assert_eq!(arena.count(), 4);
    assert_eq!(i0, 0);
    assert_eq!(i1, 1);
    assert_eq!(i2, 2);
    assert_eq!(i3, 3);

    arena.dealloc(i1);
    arena.dealloc(i3);
    assert_eq!(arena.count(), 2);

    let i4 = arena.allocate(&make_order(5, 104, 50)).unwrap();
    let i5 = arena.allocate(&make_order(6, 105, 60)).unwrap();
    assert_eq!(arena.count(), 4);
    assert_eq!(i4, 3);
    assert_eq!(i5, 1);
}

#[test]
fn arena_full() {
    let mut arena = Arena::new(2);
    arena.allocate(&make_order(1, 100, 10)).unwrap();
    arena.allocate(&make_order(2, 101, 20)).unwrap();
    assert_eq!(arena.allocate(&make_order(3, 102, 30)).unwrap_err(), ArenaError::Full);
}

#[test]
fn arena_zero_capacity() {
    let mut arena = Arena::new(0);
    assert_eq!(arena.allocate(&make_order(1, 100, 10)).unwrap_err(), ArenaError::Full);
}

#[test]
fn push_back_builds_list() {
    let mut arena = Arena::new(8);
    let mut level = PriceLevel::new();

    let i0 = arena.allocate(&make_order(1, 100, 10)).unwrap();
    let i1 = arena.allocate(&make_order(2, 100, 20)).unwrap();
    let i2 = arena.allocate(&make_order(3, 100, 30)).unwrap();

    arena.push_back(&mut level, i0);
    arena.push_back(&mut level, i1);
    arena.push_back(&mut level, i2);

    assert_eq!(level.head, i0);
    assert_eq!(level.tail, i2);
    assert_eq!(level.count, 3);
    assert_eq!(level.qty, 60);

    assert_eq!(arena.get(i0).prev, ARENA_NULL);
    assert_eq!(arena.get(i0).next, i1);
    assert_eq!(arena.get(i1).prev, i0);
    assert_eq!(arena.get(i1).next, i2);
    assert_eq!(arena.get(i2).prev, i1);
    assert_eq!(arena.get(i2).next, ARENA_NULL);
}

#[test]
fn pop_front_drains_list() {
    let mut arena = Arena::new(8);
    let mut level = PriceLevel::new();

    let i0 = arena.allocate(&make_order(1, 100, 10)).unwrap();
    let i1 = arena.allocate(&make_order(2, 100, 20)).unwrap();
    let i2 = arena.allocate(&make_order(3, 100, 30)).unwrap();

    arena.push_back(&mut level, i0);
    arena.push_back(&mut level, i1);
    arena.push_back(&mut level, i2);

    let popped = arena.pop_front(&mut level).unwrap();
    assert_eq!(popped, i0);
    assert_eq!(level.head, i1);
    assert_eq!(level.count, 2);
    assert_eq!(level.qty, 50);
    assert_eq!(arena.get(i1).prev, ARENA_NULL);

    let popped = arena.pop_front(&mut level).unwrap();
    assert_eq!(popped, i1);
    assert_eq!(level.head, i2);
    assert_eq!(level.count, 1);

    let popped = arena.pop_front(&mut level).unwrap();
    assert_eq!(popped, i2);
    assert_eq!(level.head, ARENA_NULL);
    assert_eq!(level.tail, ARENA_NULL);
    assert_eq!(level.count, 0);
    assert_eq!(level.qty, 0);

    assert!(arena.pop_front(&mut level).is_none());
}

#[test]
fn remove_head() {
    let mut arena = Arena::new(8);
    let mut level = PriceLevel::new();

    let i0 = arena.allocate(&make_order(1, 100, 10)).unwrap();
    let i1 = arena.allocate(&make_order(2, 100, 20)).unwrap();
    let i2 = arena.allocate(&make_order(3, 100, 30)).unwrap();
    arena.push_back(&mut level, i0);
    arena.push_back(&mut level, i1);
    arena.push_back(&mut level, i2);

    arena.remove(&mut level, i0);
    assert_eq!(level.head, i1);
    assert_eq!(level.tail, i2);
    assert_eq!(level.count, 2);
    assert_eq!(level.qty, 50);
    assert_eq!(arena.get(i1).prev, ARENA_NULL);
}

#[test]
fn remove_tail() {
    let mut arena = Arena::new(8);
    let mut level = PriceLevel::new();

    let i0 = arena.allocate(&make_order(1, 100, 10)).unwrap();
    let i1 = arena.allocate(&make_order(2, 100, 20)).unwrap();
    let i2 = arena.allocate(&make_order(3, 100, 30)).unwrap();
    arena.push_back(&mut level, i0);
    arena.push_back(&mut level, i1);
    arena.push_back(&mut level, i2);

    arena.remove(&mut level, i2);
    assert_eq!(level.head, i0);
    assert_eq!(level.tail, i1);
    assert_eq!(level.count, 2);
    assert_eq!(level.qty, 30);
    assert_eq!(arena.get(i1).next, ARENA_NULL);
}

#[test]
fn remove_middle() {
    let mut arena = Arena::new(8);
    let mut level = PriceLevel::new();

    let i0 = arena.allocate(&make_order(1, 100, 10)).unwrap();
    let i1 = arena.allocate(&make_order(2, 100, 20)).unwrap();
    let i2 = arena.allocate(&make_order(3, 100, 30)).unwrap();
    arena.push_back(&mut level, i0);
    arena.push_back(&mut level, i1);
    arena.push_back(&mut level, i2);

    arena.remove(&mut level, i1);
    assert_eq!(level.head, i0);
    assert_eq!(level.tail, i2);
    assert_eq!(level.count, 2);
    assert_eq!(level.qty, 40);
    assert_eq!(arena.get(i0).next, i2);
    assert_eq!(arena.get(i2).prev, i0);
}

#[test]
fn remove_only_node() {
    let mut arena = Arena::new(8);
    let mut level = PriceLevel::new();

    let i0 = arena.allocate(&make_order(1, 100, 10)).unwrap();
    arena.push_back(&mut level, i0);

    arena.remove(&mut level, i0);
    assert_eq!(level.head, ARENA_NULL);
    assert_eq!(level.tail, ARENA_NULL);
    assert_eq!(level.count, 0);
    assert_eq!(level.qty, 0);
}

#[test]
fn walk_forward_and_backward() {
    let mut arena = Arena::new(8);
    let mut level = PriceLevel::new();
    let ids: Vec<u64> = (1..=5).collect();
    for &id in &ids {
        let idx = arena.allocate(&make_order(id, 100, id)).unwrap();
        arena.push_back(&mut level, idx);
    }

    let mut forward = Vec::new();
    let mut cur = level.head;
    while cur != ARENA_NULL {
        forward.push(arena.get(cur).id);
        cur = arena.get(cur).next;
    }
    assert_eq!(forward, ids);

    let mut backward = Vec::new();
    cur = level.tail;
    while cur != ARENA_NULL {
        backward.push(arena.get(cur).id);
        cur = arena.get(cur).prev;
    }
    let reversed: Vec<u64> = ids.iter().rev().copied().collect();
    assert_eq!(backward, reversed);
}

#[test]
fn alloc_after_dealloc_reuses_slots() {
    let mut arena = Arena::new(3);
    let mut level = PriceLevel::new();

    let i0 = arena.allocate(&make_order(1, 100, 10)).unwrap();
    let i1 = arena.allocate(&make_order(2, 100, 20)).unwrap();
    let i2 = arena.allocate(&make_order(3, 100, 30)).unwrap();
    arena.push_back(&mut level, i0);
    arena.push_back(&mut level, i1);
    arena.push_back(&mut level, i2);

    arena.remove(&mut level, i1);
    arena.dealloc(i1);

    let i3 = arena.allocate(&make_order(4, 100, 40)).unwrap();
    assert_eq!(i3, i1);
    assert_eq!(arena.get(i3).id, 4);
    assert_eq!(arena.count(), 3);
}

#[test]
fn ordernode_is_one_cache_line_in_size() {
    assert_eq!(std::mem::size_of::<OrderNode>(), 64);
}

#[test]
fn arena_default_capacity_value() {
    assert_eq!(Arena::default_capacity(), 1_048_576);
    assert_eq!(Arena::new(5).capacity(), 5);
}
