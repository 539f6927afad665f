use ferrox::order::{Order, Side};
use ferrox::protocol::{EngineCommand, MSG_NEW_ORDER, NEW_ORDER_SIZE};
use ferrox::wal::{align_up, Wal, WalError, DEFAULT_INITIAL_SIZE, HEADER_SIZE};

fn make_order(id: u64) -> Order {
    Order { id, trader_id: 1, side: Side::Bid, price: 15005, quantity: 100, timestamp: 1_000_000 }
}

fn new_order_cmd(id: u64) -> EngineCommand {
    EngineCommand::NewOrder(make_order(id))
}

fn cancel_cmd(id: u64) -> EngineCommand {
    EngineCommand::CancelOrder { order_id: id }
}

fn open_new() -> Wal {
    Wal::open(Vec::new(), DEFAULT_INITIAL_SIZE)
}

fn reopen(wal: &Wal) -> Wal {
    Wal::open(wal.region().to_vec(), DEFAULT_INITIAL_SIZE)
}

#[test]
fn create_new_wal() {
    let wal = open_new();
    assert_eq!(wal.record_count(), 0);
    assert_eq!(wal.write_pos(), 0);
    assert_eq!(wal.mapped_size(), DEFAULT_INITIAL_SIZE);
}

#[test]
fn append_single_new_order() {
    let mut wal = open_new();
    let seq = wal.append(&new_order_cmd(1)).unwrap();
    assert_eq!(seq, 1);
    assert_eq!(wal.record_count(), 1);
    assert_eq!(wal.write_pos(), 48);
}

#[test]
fn append_cancel_order() {
    let mut wal = open_new();
    let seq = wal.append(&cancel_cmd(42)).unwrap();
    assert_eq!(seq, 1);
    assert_eq!(wal.write_pos(), 24);
}

#[test]
fn append_multiple_records() {
    let mut wal = open_new();
    for i in 1..=100 {
        let seq = wal.append(&new_order_cmd(i)).unwrap();
        assert_eq!(seq, i);
    }
    assert_eq!(wal.record_count(), 100);
    assert_eq!(wal.write_pos(), 100 * 48);
}

#[test]
fn iterate_all_records() {
    let mut wal = open_new();
    wal.append(&new_order_cmd(10)).unwrap();
    wal.append(&cancel_cmd(10)).unwrap();
    wal.append(&new_order_cmd(20)).unwrap();

    let records = wal.records_from(0).unwrap();
    assert_eq!(records.len(), 3);

    assert_eq!(records[0].0, 1);
    match &records[0].1 {
        EngineCommand::NewOrder(o) => assert_eq!(o.id, 10),
        _ => panic!("expected NewOrder"),
    }

    assert_eq!(records[1].0, 2);
    assert_eq!(records[1].1, EngineCommand::CancelOrder { order_id: 10 });

    assert_eq!(records[2].0, 3);
    match &records[2].1 {
        EngineCommand::NewOrder(o) => assert_eq!(o.id, 20),
        _ => panic!("expected NewOrder"),
    }
}

#[test]
fn iterate_from_offset() {
    let mut wal = open_new();
    for i in 1..=10 {
        wal.append(&new_order_cmd(i)).unwrap();
    }
    let records = wal.records_from(5).unwrap();
    assert_eq!(records.len(), 5);
    assert_eq!(records[0].0, 6);
    assert_eq!(records[4].0, 10);
}

#[test]
fn iterate_empty_wal() {
    let wal = open_new();
    let records = wal.records_from(0).unwrap();
    assert!(records.is_empty());
}

#[test]
fn reopen_preserves_state() {
    let mut wal = open_new();
    wal.append(&new_order_cmd(1)).unwrap();
    wal.append(&new_order_cmd(2)).unwrap();
    wal.append(&cancel_cmd(1)).unwrap();

    let wal = reopen(&wal);
    assert_eq!(wal.record_count(), 3);
    assert_eq!(wal.write_pos(), 48 + 48 + 24);

    let records = wal.records_from(0).unwrap();
    assert_eq!(records.len(), 3);
}

#[test]
fn record_format_on_disk() {
    let mut wal = open_new();
    wal.append(&new_order_cmd(42)).unwrap();
    let region = wal.region();

    let payload_len = u32::from_le_bytes(region[0..4].try_into().unwrap());
    assert_eq!(payload_len, NEW_ORDER_SIZE as u32);

    let stored_crc = u32::from_le_bytes(region[4..8].try_into().unwrap());
    let computed_crc = crc32fast::hash(&region[8..8 + NEW_ORDER_SIZE]);
    assert_eq!(stored_crc, computed_crc);

    assert_eq!(region[8], MSG_NEW_ORDER);
}

#[test]
fn corrupt_crc_detected() {
    let mut wal = open_new();
    wal.append(&new_order_cmd(1)).unwrap();
    wal.append(&new_order_cmd(2)).unwrap();

    let b = wal.region()[48 + 4];
    wal.set_byte(48 + 4, b ^ 0xFF);

    let mut iter = wal.iter_from(0);
    assert!(iter.next(&wal).unwrap().is_ok());
    let err = iter.next(&wal).unwrap().unwrap_err();
    assert_eq!(err, WalError::Corruption { offset: 48 });
}

#[test]
fn corrupt_payload_detected() {
    let mut wal = open_new();
    wal.append(&new_order_cmd(1)).unwrap();

    let b = wal.region()[HEADER_SIZE + 5];
    wal.set_byte(HEADER_SIZE + 5, b ^ 0xFF);

    let mut iter = wal.iter_from(0);
    let err = iter.next(&wal).unwrap().unwrap_err();
    assert_eq!(err, WalError::Corruption { offset: 0 });
}

#[test]
fn reopen_detects_truncated_record() {
    let mut wal = open_new();
    wal.append(&new_order_cmd(1)).unwrap();
    wal.append(&new_order_cmd(2)).unwrap();

    // A crash left only the length prefix of a third record.
    let pos = wal.write_pos() as usize;
    for (k, b) in 40u32.to_le_bytes().iter().enumerate() {
        wal.set_byte(pos + k, *b);
    }

    let wal = reopen(&wal);
    assert_eq!(wal.record_count(), 2);
}

#[test]
fn reopen_detects_corrupt_record() {
    let mut wal = open_new();
    wal.append(&new_order_cmd(1)).unwrap();
    wal.append(&new_order_cmd(2)).unwrap();
    wal.append(&new_order_cmd(3)).unwrap();

    let b = wal.region()[48 + 4];
    wal.set_byte(48 + 4, b ^ 0xFF);

    let wal = reopen(&wal);
    assert_eq!(wal.record_count(), 1);
    assert_eq!(wal.write_pos(), 48);
}

#[test]
fn scenario_single_bit_flip_in_second_crc() {
    let mut wal = open_new();
    for i in 1..=3 {
        wal.append(&new_order_cmd(i)).unwrap();
    }
    let b = wal.region()[48 + 4];
    wal.set_byte(48 + 4, b ^ 0x01);
    let wal = reopen(&wal);
    assert_eq!(wal.record_count(), 1);
    assert_eq!(wal.write_pos(), 48);
}

#[test]
fn truncate_to_discards_records() {
    let mut wal = open_new();
    wal.append(&new_order_cmd(1)).unwrap();
    wal.append(&new_order_cmd(2)).unwrap();
    wal.append(&new_order_cmd(3)).unwrap();

    wal.truncate_to(48, 1).unwrap();
    assert_eq!(wal.record_count(), 1);
    assert_eq!(wal.write_pos(), 48);

    let records = wal.records_from(0).unwrap();
    assert_eq!(records.len(), 1);
    assert!(wal.region()[48..144].iter().all(|b| *b == 0));
}

#[test]
fn remap_on_growth() {
    let mut wal = Wal::open(Vec::new(), 256);
    assert_eq!(wal.mapped_size(), 256);

    for i in 1..=10 {
        wal.append(&new_order_cmd(i)).unwrap();
    }

    assert!(wal.mapped_size() > 256);
    assert_eq!(wal.mapped_size(), 512);
    assert_eq!(wal.record_count(), 10);

    let records = wal.records_from(0).unwrap();
    assert_eq!(records.len(), 10);
}

#[test]
fn mixed_new_order_and_cancel() {
    let mut wal = open_new();
    wal.append(&new_order_cmd(1)).unwrap();
    wal.append(&new_order_cmd(2)).unwrap();
    wal.append(&cancel_cmd(1)).unwrap();
    wal.append(&new_order_cmd(3)).unwrap();

    let records = wal.records_from(0).unwrap();
    assert_eq!(records.len(), 4);

    assert!(matches!(records[0].1, EngineCommand::NewOrder(_)));
    assert!(matches!(records[1].1, EngineCommand::NewOrder(_)));
    assert!(matches!(records[2].1, EngineCommand::CancelOrder { .. }));
    assert!(matches!(records[3].1, EngineCommand::NewOrder(_)));

    assert_eq!(wal.write_pos(), 168);
}

#[test]
fn new_order_preserves_fields() {
    let order = Order { id: 999, trader_id: 42, side: Side::Ask, price: -12345, quantity: u64::MAX, timestamp: 0 };

    let mut wal = open_new();
    wal.append(&EngineCommand::NewOrder(order)).unwrap();

    let records = wal.records_from(0).unwrap();
    match &records[0].1 {
        EngineCommand::NewOrder(o) => {
            assert_eq!(o.id, 999);
            assert_eq!(o.trader_id, 42);
            assert_eq!(o.side, Side::Ask);
            assert_eq!(o.price, -12345);
            assert_eq!(o.quantity, u64::MAX);
        },
        _ => panic!("expected NewOrder"),
    }
}

#[test]
fn round_trip_drops_only_timestamp() {
    let cmds = vec![new_order_cmd(1), cancel_cmd(9), new_order_cmd(2)];
    let mut wal = open_new();
    for c in &cmds {
        wal.append(c).unwrap();
    }
    let records = wal.records_from(0).unwrap();
    let expected: Vec<(u64, EngineCommand)> = cmds
        .iter()
        .enumerate()
        .map(|(i, c)| {
            let c = match c {
                EngineCommand::NewOrder(o) => EngineCommand::NewOrder(Order { timestamp: 0, ..*o }),
                other => *other,
            };
            (i as u64 + 1, c)
        })
        .collect();
    assert_eq!(records, expected);
}

#[test]
fn align_up_rounds_to_eight() {
    assert_eq!(align_up(0), 0);
    assert_eq!(align_up(1), 8);
    assert_eq!(align_up(48), 48);
    assert_eq!(align_up(49), 56);
}
