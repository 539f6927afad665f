use ferrox::matching::Fill;
use ferrox::order::{Order, Side};
use ferrox::protocol::{
    decode_cancel_order, decode_execution_report, decode_message, decode_new_order, decode_side,
    encode_cancel_order, encode_execution_report, encode_new_order, encode_side, message_size,
    EngineCommand, ProtocolError, CANCEL_ORDER_SIZE, EXECUTION_REPORT_SIZE, MSG_CANCEL_ORDER,
    MSG_NEW_ORDER, NEW_ORDER_SIZE,
};
use ferrox::protocol::reports_for;

#[test]
fn roundtrip_new_order_bid() {
    let order = Order {
        id: 42,
        trader_id: 7,
        side: Side::Bid,
        price: 15005,
        quantity: 100,
        timestamp: 0,
    };

    let mut buf = [0u8; NEW_ORDER_SIZE];
    encode_new_order(&mut buf, &order).unwrap();

    let decoded = decode_new_order(&buf).unwrap();
    assert_eq!(decoded.id, 42);
    assert_eq!(decoded.trader_id, 7);
    assert_eq!(decoded.side, Side::Bid);
    assert_eq!(decoded.price, 15005);
    assert_eq!(decoded.quantity, 100);
    assert_eq!(decoded.timestamp, 0);
}

#[test]
fn roundtrip_new_order_ask() {
    let order = Order {
        id: 99,
        trader_id: 3,
        side: Side::Ask,
        price: -500,
        quantity: 1,
        timestamp: 0,
    };

    let mut buf = [0u8; NEW_ORDER_SIZE];
    encode_new_order(&mut buf, &order).unwrap();

    let decoded = decode_new_order(&buf).unwrap();
    assert_eq!(decoded.side, Side::Ask);
    assert_eq!(decoded.price, -500);
}

#[test]
fn roundtrip_cancel_order() {
    let mut buf = [0u8; CANCEL_ORDER_SIZE];
    encode_cancel_order(&mut buf, 12345).unwrap();

    assert_eq!(buf[0], MSG_CANCEL_ORDER);
    let order_id = decode_cancel_order(&buf).unwrap();
    assert_eq!(order_id, 12345);
}

#[test]
fn roundtrip_execution_report() {
    let fill = Fill {
        taker_order_id: 10,
        maker_order_id: 20,
        price: 9999,
        quantity: 50,
        maker_fully_filled: true,
    };

    let mut buf = [0u8; EXECUTION_REPORT_SIZE];
    encode_execution_report(&mut buf, 1, &fill, 123_456_789).unwrap();

    let report = decode_execution_report(&buf).unwrap();
    assert_eq!(report.seq_num, 1);
    assert_eq!(report.taker_order_id, 10);
    assert_eq!(report.maker_order_id, 20);
    assert_eq!(report.price, 9999);
    assert_eq!(report.quantity, 50);
    assert_eq!(report.timestamp, 123_456_789);
}

#[test]
fn side_mapping_bid_is_zero_ask_is_one() {
    assert_eq!(encode_side(Side::Bid), 0);
    assert_eq!(encode_side(Side::Ask), 1);
    assert_eq!(decode_side(0).unwrap(), Side::Bid);
    assert_eq!(decode_side(1).unwrap(), Side::Ask);
}

#[test]
fn new_order_buffer_too_short() {
    let buf = [0u8; NEW_ORDER_SIZE - 1];
    assert_eq!(decode_new_order(&buf), Err(ProtocolError::BufferTooShort));
}

#[test]
fn cancel_order_buffer_too_short() {
    let buf = [0u8; CANCEL_ORDER_SIZE - 1];
    assert_eq!(
        decode_cancel_order(&buf),
        Err(ProtocolError::BufferTooShort)
    );
}

#[test]
fn execution_report_buffer_too_short() {
    let buf = [0u8; EXECUTION_REPORT_SIZE - 1];
    assert_eq!(
        decode_execution_report(&buf),
        Err(ProtocolError::BufferTooShort)
    );
}

#[test]
fn unknown_message_type() {
    let buf = [0xFF; NEW_ORDER_SIZE];
    assert_eq!(
        decode_message(&buf),
        Err(ProtocolError::UnknownMessageType(0xFF))
    );
}

#[test]
fn invalid_side() {
    let mut buf = [0u8; NEW_ORDER_SIZE];
    buf[0] = MSG_NEW_ORDER;
    buf[1] = 2;
    buf[32..40].copy_from_slice(&100u64.to_le_bytes());
    assert_eq!(decode_new_order(&buf), Err(ProtocolError::InvalidSide(2)));
}

#[test]
fn protocol_zero_quantity_rejected() {
    let mut buf = [0u8; NEW_ORDER_SIZE];
    buf[0] = MSG_NEW_ORDER;
    buf[1] = 0;
    assert_eq!(decode_new_order(&buf), Err(ProtocolError::ZeroQuantity));
}

#[test]
fn encode_new_order_buffer_too_short() {
    let order = Order {
        id: 1,
        trader_id: 1,
        side: Side::Bid,
        price: 100,
        quantity: 10,
        timestamp: 0,
    };
    let mut buf = [0u8; NEW_ORDER_SIZE - 1];
    assert_eq!(
        encode_new_order(&mut buf, &order),
        Err(ProtocolError::BufferTooShort)
    );
}

#[test]
fn encode_execution_report_buffer_too_short() {
    let fill = Fill {
        taker_order_id: 1,
        maker_order_id: 2,
        price: 100,
        quantity: 10,
        maker_fully_filled: true,
    };
    let mut buf = [0u8; EXECUTION_REPORT_SIZE - 1];
    assert_eq!(
        encode_execution_report(&mut buf, 1, &fill, 0),
        Err(ProtocolError::BufferTooShort)
    );
}

#[test]
fn decode_message_dispatches_new_order() {
    let order = Order {
        id: 5,
        trader_id: 3,
        side: Side::Ask,
        price: 200,
        quantity: 50,
        timestamp: 0,
    };

    let mut buf = [0u8; NEW_ORDER_SIZE];
    encode_new_order(&mut buf, &order).unwrap();

    let cmd = decode_message(&buf).unwrap();
    match cmd {
        EngineCommand::NewOrder(o) => {
            assert_eq!(o.id, 5);
            assert_eq!(o.side, Side::Ask);
        }
        _ => panic!("expected NewOrder"),
    }
}

#[test]
fn decode_message_dispatches_cancel() {
    let mut buf = [0u8; CANCEL_ORDER_SIZE];
    encode_cancel_order(&mut buf, 999).unwrap();

    let cmd = decode_message(&buf).unwrap();
    assert_eq!(cmd, EngineCommand::CancelOrder { order_id: 999 });
}

#[test]
fn negative_price_roundtrips() {
    let order = Order {
        id: 1,
        trader_id: 1,
        side: Side::Bid,
        price: i64::MIN,
        quantity: 1,
        timestamp: 0,
    };

    let mut buf = [0u8; NEW_ORDER_SIZE];
    encode_new_order(&mut buf, &order).unwrap();
    let decoded = decode_new_order(&buf).unwrap();
    assert_eq!(decoded.price, i64::MIN);
}

#[test]
fn max_values_roundtrip() {
    let order = Order {
        id: u64::MAX,
        trader_id: u64::MAX,
        side: Side::Ask,
        price: i64::MAX,
        quantity: u64::MAX,
        timestamp: 0,
    };

    let mut buf = [0u8; NEW_ORDER_SIZE];
    encode_new_order(&mut buf, &order).unwrap();
    let decoded = decode_new_order(&buf).unwrap();
    assert_eq!(decoded.id, u64::MAX);
    assert_eq!(decoded.trader_id, u64::MAX);
    assert_eq!(decoded.price, i64::MAX);
    assert_eq!(decoded.quantity, u64::MAX);
}

#[test]
fn reserved_bytes_ignored() {
    let order = Order {
        id: 1,
        trader_id: 1,
        side: Side::Bid,
        price: 100,
        quantity: 10,
        timestamp: 0,
    };

    let mut buf = [0u8; NEW_ORDER_SIZE];
    encode_new_order(&mut buf, &order).unwrap();

    buf[2..8].fill(0xFF);

    let decoded = decode_new_order(&buf).unwrap();
    assert_eq!(decoded.id, 1);
    assert_eq!(decoded.quantity, 10);
}

#[test]
fn message_size_lookup() {
    assert_eq!(message_size(MSG_NEW_ORDER).unwrap(), NEW_ORDER_SIZE);
    assert_eq!(message_size(MSG_CANCEL_ORDER).unwrap(), CANCEL_ORDER_SIZE);
    assert!(message_size(0xFF).is_err());
}

#[test]
fn empty_buffer_returns_error() {
    let buf: &[u8] = &[];
    assert_eq!(decode_message(buf), Err(ProtocolError::BufferTooShort));
}

#[test]
fn engine_command_size() {
    let size = std::mem::size_of::<EngineCommand>();
    assert!(size <= 64, "EngineCommand too large: {size} bytes");
}

#[test]
fn new_order_frame_layout() {
    let order = Order { id: 0x0102, trader_id: 7, side: Side::Ask, price: -2, quantity: 3, timestamp: 99 };
    let mut buf = [0xAAu8; 44];
    assert_eq!(encode_new_order(&mut buf, &order), Ok(NEW_ORDER_SIZE));
    assert_eq!(&buf[0..10], &[1, 1, 0, 0, 0, 0, 0, 0, 0x02, 0x01]);
    assert_eq!(&buf[24..32], &[0xFE, 0xFF, 0xFF, 0xFF, 0xFF, 0xFF, 0xFF, 0xFF]);
    assert_eq!(&buf[40..44], &[0xAA, 0xAA, 0xAA, 0xAA]);
}

#[test]
fn execution_report_frame_layout() {
    let fill = Fill { taker_order_id: 1, maker_order_id: 2, price: 3, quantity: 4, maker_fully_filled: false };
    let mut buf = [0xFFu8; EXECUTION_REPORT_SIZE];
    encode_execution_report(&mut buf, 0x01020304, &fill, 5).unwrap();
    assert_eq!(&buf[0..8], &[3, 0, 0, 0, 4, 3, 2, 1]);
    assert_eq!(buf[40], 5);
}

#[test]
fn cancel_frame_round_trip_and_short_buffer() {
    let mut buf = [0u8; CANCEL_ORDER_SIZE - 1];
    assert_eq!(encode_cancel_order(&mut buf, 5), Err(ProtocolError::BufferTooShort));
    assert_eq!(decode_side(2), Err(ProtocolError::InvalidSide(2)));
}

#[test]
fn reports_are_numbered_on_and_wrap() {
    let fills = vec![
        Fill { taker_order_id: 9, maker_order_id: 1, price: 100, quantity: 5, maker_fully_filled: true },
        Fill { taker_order_id: 9, maker_order_id: 2, price: 101, quantity: 3, maker_fully_filled: false },
    ];
    let (reports, last) = reports_for(u32::MAX, &fills, 77);
    assert_eq!(last, 1);
    assert_eq!(reports.len(), 2);
    let r0 = decode_execution_report(&reports[0]).unwrap();
    let r1 = decode_execution_report(&reports[1]).unwrap();
    assert_eq!((r0.seq_num, r0.maker_order_id, r0.timestamp), (0, 1, 77));
    assert_eq!((r1.seq_num, r1.maker_order_id, r1.price, r1.quantity), (1, 2, 101, 3));
    let (none, same) = reports_for(5, &Vec::new(), 0);
    assert!(none.is_empty());
    assert_eq!(same, 5);
}
