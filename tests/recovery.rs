use ferrox::matching::MatchingEngine;
use ferrox::order::{Order, Side};
use ferrox::protocol::EngineCommand;
use ferrox::recovery::recover;
use ferrox::snapshot::Snapshot;
use ferrox::wal::{Wal, DEFAULT_INITIAL_SIZE};

fn bid(id: u64, price: i64, qty: u64) -> Order {
    Order::new(id, id, Side::Bid, price, qty, id).unwrap()
}

fn ask(id: u64, price: i64, qty: u64) -> Order {
    Order::new(id, id, Side::Ask, price, qty, id).unwrap()
}

fn log_of(cmds: &[EngineCommand]) -> Vec<u8> {
    let mut wal = Wal::open(Vec::new(), DEFAULT_INITIAL_SIZE);
    for c in cmds {
        wal.append(c).unwrap();
    }
    wal.region().to_vec()
}

#[test]
fn fresh_start_no_files() {
    let (engine, wal) = recover(None, &[], 1024).unwrap();
    assert_eq!(engine.book().order_count(), 0);
    assert_eq!(wal.record_count(), 0);
}

#[test]
fn wal_only_recovery() {
    let region = log_of(&[
        EngineCommand::NewOrder(bid(1, 100, 10)),
        EngineCommand::NewOrder(ask(2, 110, 20)),
        EngineCommand::NewOrder(bid(3, 98, 30)),
    ]);
    let (engine, wal) = recover(None, &region, 1024).unwrap();
    assert_eq!(engine.book().order_count(), 3);
    assert_eq!(engine.book().best_bid(), Some(100));
    assert_eq!(engine.book().best_ask(), Some(110));
    assert_eq!(wal.record_count(), 3);
}

#[test]
fn snapshot_only_recovery() {
    let mut engine = MatchingEngine::with_capacity(1024);
    engine.add_order(bid(1, 100, 10)).unwrap();
    engine.add_order(ask(2, 110, 20)).unwrap();
    let snap = Snapshot::capture(&engine, 2);

    let (recovered, wal) = recover(Some(snap), &[], 1024).unwrap();
    assert_eq!(recovered.book().order_count(), 2);
    assert_eq!(recovered.book().best_bid(), Some(100));
    assert_eq!(recovered.book().best_ask(), Some(110));
    assert_eq!(wal.record_count(), 0);
}

#[test]
fn snapshot_plus_wal_recovery() {
    let mut engine = MatchingEngine::with_capacity(1024);
    engine.add_order(bid(1, 100, 10)).unwrap();
    engine.add_order(ask(2, 110, 20)).unwrap();
    let snap = Snapshot::capture(&engine, 2);

    let region = log_of(&[
        EngineCommand::NewOrder(bid(1, 100, 10)),
        EngineCommand::NewOrder(ask(2, 110, 20)),
        EngineCommand::NewOrder(bid(3, 98, 30)),
    ]);

    let (recovered, wal) = recover(Some(snap), &region, 1024).unwrap();
    assert_eq!(recovered.book().order_count(), 3);
    assert_eq!(recovered.book().best_bid(), Some(100));
    assert_eq!(wal.record_count(), 3);
}

#[test]
fn recovery_matches_full_replay() {
    let orders = vec![bid(1, 100, 10), ask(2, 110, 20), bid(3, 98, 30), ask(4, 105, 15)];

    let mut full_engine = MatchingEngine::with_capacity(1024);
    for o in &orders {
        full_engine.add_order(o.clone()).unwrap();
    }

    let mut partial = MatchingEngine::with_capacity(1024);
    partial.add_order(orders[0].clone()).unwrap();
    partial.add_order(orders[1].clone()).unwrap();
    let snap = Snapshot::capture(&partial, 2);

    let cmds: Vec<EngineCommand> = orders.iter().map(|o| EngineCommand::NewOrder(o.clone())).collect();
    let (recovered, _) = recover(Some(snap), &log_of(&cmds), 1024).unwrap();

    let full_orders = full_engine.book().all_resting_orders();
    let recovered_orders = recovered.book().all_resting_orders();
    assert_eq!(full_orders.len(), recovered_orders.len());
    for (f, r) in full_orders.iter().zip(recovered_orders.iter()) {
        assert_eq!(f.id, r.id);
        assert_eq!(f.price, r.price);
        assert_eq!(f.quantity, r.quantity);
        assert_eq!(f.side, r.side);
    }
}

#[test]
fn truncated_wal_recovery() {
    let region = log_of(&[
        EngineCommand::NewOrder(bid(1, 100, 10)),
        EngineCommand::NewOrder(ask(2, 110, 20)),
        EngineCommand::NewOrder(bid(3, 98, 30)),
    ]);
    let (engine, wal) = recover(None, &region, 1024).unwrap();
    assert_eq!(engine.book().order_count(), 3);
    assert_eq!(wal.record_count(), 3);
}

#[test]
fn deterministic_replay() {
    let orders = vec![bid(1, 100, 10), ask(2, 110, 20), bid(3, 98, 30), ask(4, 105, 15), bid(5, 108, 25)];
    let cmds: Vec<EngineCommand> = orders.iter().map(|o| EngineCommand::NewOrder(o.clone())).collect();

    let (engine1, _) = recover(None, &log_of(&cmds), 1024).unwrap();
    let (engine2, _) = recover(None, &log_of(&cmds), 1024).unwrap();

    let orders1 = engine1.book().all_resting_orders();
    let orders2 = engine2.book().all_resting_orders();
    assert_eq!(orders1.len(), orders2.len());
    for (a, b) in orders1.iter().zip(orders2.iter()) {
        assert_eq!(a.id, b.id);
        assert_eq!(a.price, b.price);
        assert_eq!(a.quantity, b.quantity);
        assert_eq!(a.side, b.side);
    }
}

#[test]
fn recovery_with_cancels() {
    let region = log_of(&[
        EngineCommand::NewOrder(bid(1, 100, 10)),
        EngineCommand::NewOrder(ask(2, 110, 20)),
        EngineCommand::CancelOrder { order_id: 1 },
    ]);
    let (engine, wal) = recover(None, &region, 1024).unwrap();
    assert_eq!(engine.book().order_count(), 1);
    assert_eq!(engine.book().best_bid(), None);
    assert_eq!(engine.book().best_ask(), Some(110));
    assert_eq!(wal.record_count(), 3);
}

#[test]
fn scenario_snapshot_then_five_operations() {
    let mut engine = MatchingEngine::with_capacity(1024);
    engine.add_order(bid(1, 100, 10)).unwrap();
    engine.add_order(ask(2, 110, 20)).unwrap();
    let snap = Snapshot::capture(&engine, 2);

    let region = log_of(&[
        EngineCommand::NewOrder(bid(1, 100, 10)),
        EngineCommand::NewOrder(ask(2, 110, 20)),
        EngineCommand::NewOrder(bid(3, 98, 30)),
        EngineCommand::CancelOrder { order_id: 1 },
        EngineCommand::NewOrder(ask(4, 111, 5)),
    ]);
    let (recovered, wal) = recover(Some(snap), &region, 1024).unwrap();
    let ids: Vec<u64> = recovered.book().all_resting_orders().iter().map(|o| o.id).collect();
    assert_eq!(ids, vec![3, 2, 4]);
    assert_eq!(recovered.book().best_bid(), Some(98));
    assert_eq!(recovered.book().best_ask(), Some(110));
    assert_eq!(wal.record_count(), 5);
}

#[test]
fn corrupt_tail_is_cut_on_recovery() {
    let mut wal = Wal::open(Vec::new(), DEFAULT_INITIAL_SIZE);
    for o in [bid(1, 100, 10), bid(2, 99, 10), bid(3, 98, 10)] {
        wal.append(&EngineCommand::NewOrder(o)).unwrap();
    }
    let b = wal.region()[48 + 4];
    wal.set_byte(48 + 4, b ^ 0x01);
    let (engine, wal) = recover(None, &wal.region().to_vec(), 1024).unwrap();
    assert_eq!(engine.book().order_count(), 1);
    assert_eq!(wal.record_count(), 1);
    assert_eq!(wal.write_pos(), 48);
}
