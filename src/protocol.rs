use vstd::prelude::*;

use crate::matching::Fill;
use crate::order::{Order, Side};

verus! {

pub const MSG_NEW_ORDER: u8 = 1;
pub const MSG_CANCEL_ORDER: u8 = 2;
pub const MSG_EXECUTION_REPORT: u8 = 3;

pub const NEW_ORDER_SIZE: usize = 40;
pub const CANCEL_ORDER_SIZE: usize = 16;
pub const EXECUTION_REPORT_SIZE: usize = 48;

/// A command for the matching thread.
#[derive(Debug, Clone, Copy, PartialEq, Eq, Structural)]
pub enum EngineCommand {
    NewOrder(Order),
    CancelOrder { order_id: u64 },
}

#[derive(Debug, Clone, Copy, PartialEq, Eq, Structural)]
pub struct ExecutionReport {
    pub seq_num: u32,
    pub taker_order_id: u64,
    pub maker_order_id: u64,
    pub price: i64,
    pub quantity: u64,
    pub timestamp: u64,
}

#[derive(Debug, Clone, Copy, PartialEq, Eq, Structural)]
pub enum ProtocolError {
    BufferTooShort,
    UnknownMessageType(u8),
    InvalidSide(u8),
    ZeroQuantity,
}

// ---- little-endian integers ----
pub open spec fn le_u32(v: u32) -> Seq<u8> {
    seq![v as u8, (v >> 8u32) as u8, (v >> 16u32) as u8, (v >> 24u32) as u8]
}

pub open spec fn le_u64(v: u64) -> Seq<u8> {
    seq![
        v as u8,
        (v >> 8u64) as u8,
        (v >> 16u64) as u8,
        (v >> 24u64) as u8,
        (v >> 32u64) as u8,
        (v >> 40u64) as u8,
        (v >> 48u64) as u8,
        (v >> 56u64) as u8,
    ]
}

pub open spec fn u32_from(b0: u8, b1: u8, b2: u8, b3: u8) -> u32 {
    (b0 as u32) | ((b1 as u32) << 8u32) | ((b2 as u32) << 16u32) | ((b3 as u32) << 24u32)
}

pub open spec fn u64_from(b0: u8, b1: u8, b2: u8, b3: u8, b4: u8, b5: u8, b6: u8, b7: u8) -> u64 {
    (b0 as u64) | ((b1 as u64) << 8u64) | ((b2 as u64) << 16u64) | ((b3 as u64) << 24u64) | ((b4 as u64)
        << 32u64) | ((b5 as u64) << 40u64) | ((b6 as u64) << 48u64) | ((b7 as u64) << 56u64)
}

/// The little-endian `u32` stored at `off`.
pub open spec fn u32_at(b: Seq<u8>, off: int) -> u32 {
    u32_from(b[off], b[off + 1], b[off + 2], b[off + 3])
}

/// The little-endian `u64` stored at `off`.
pub open spec fn u64_at(b: Seq<u8>, off: int) -> u64 {
    u64_from(b[off], b[off + 1], b[off + 2], b[off + 3], b[off + 4], b[off + 5], b[off + 6], b[off + 7])
}

pub proof fn lemma_u32_round_trip(v: u32)
    ensures
        u32_at(le_u32(v), 0) == v,
{
    let b = le_u32(v);
    assert(u32_from(v as u8, (v >> 8u32) as u8, (v >> 16u32) as u8, (v >> 24u32) as u8) == v) by (bit_vector);
}

pub proof fn lemma_u64_round_trip(v: u64)
    ensures
        u64_at(le_u64(v), 0) == v,
{
    assert(u64_from(
        v as u8,
        (v >> 8u64) as u8,
        (v >> 16u64) as u8,
        (v >> 24u64) as u8,
        (v >> 32u64) as u8,
        (v >> 40u64) as u8,
        (v >> 48u64) as u8,
        (v >> 56u64) as u8,
    ) == v) by (bit_vector);
}

/// The two's-complement bits of a signed value.
pub open spec fn bits_of(v: i64) -> u64 {
    #[verifier::truncate]
    (v as u64)
}

/// The signed value of two's-complement bits.
pub open spec fn signed_of(v: u64) -> i64 {
    #[verifier::truncate]
    (v as i64)
}

pub proof fn lemma_i64_round_trip(v: i64)
    ensures
        signed_of(bits_of(v)) == v,
{
    assert((#[verifier::truncate] ((#[verifier::truncate] (v as u64)) as i64)) == v) by (bit_vector);
}

// ---- frames ----
pub open spec fn side_byte(side: Side) -> u8 {
    match side {
        Side::Bid => 0,
        Side::Ask => 1,
    }
}

pub open spec fn side_of(b: u8) -> Side {
    if b == 0 {
        Side::Bid
    } else {
        Side::Ask
    }
}

/// The 40-byte New Order frame of `o` (its timestamp is not carried).
pub open spec fn new_order_frame(o: Order) -> Seq<u8> {
    seq![MSG_NEW_ORDER, side_byte(o.side), 0u8, 0u8, 0u8, 0u8, 0u8, 0u8] + le_u64(o.id) + le_u64(
        o.trader_id,
    ) + le_u64(bits_of(o.price)) + le_u64(o.quantity)
}

/// The 16-byte Cancel Order frame.
pub open spec fn cancel_frame(order_id: u64) -> Seq<u8> {
    seq![MSG_CANCEL_ORDER, 0u8, 0u8, 0u8, 0u8, 0u8, 0u8, 0u8] + le_u64(order_id)
}

/// The 48-byte Execution Report frame.
pub open spec fn report_frame(seq_num: u32, fill: Fill, timestamp: u64) -> Seq<u8> {
    seq![MSG_EXECUTION_REPORT, 0u8, 0u8, 0u8] + le_u32(seq_num) + le_u64(fill.taker_order_id) + le_u64(
        fill.maker_order_id,
    ) + le_u64(bits_of(fill.price)) + le_u64(fill.quantity) + le_u64(timestamp)
}

pub open spec fn command_frame(c: EngineCommand) -> Seq<u8> {
    match c {
        EngineCommand::NewOrder(o) => new_order_frame(o),
        EngineCommand::CancelOrder { order_id } => cancel_frame(order_id),
    }
}

/// What decoding a New Order frame yields.
pub open spec fn new_order_result(b: Seq<u8>) -> Result<Order, ProtocolError> {
    if b.len() < NEW_ORDER_SIZE {
        Err(ProtocolError::BufferTooShort)
    } else if b[1] > 1 {
        Err(ProtocolError::InvalidSide(b[1]))
    } else if u64_at(b, 32) == 0 {
        Err(ProtocolError::ZeroQuantity)
    } else {
        Ok(
            Order {
                id: u64_at(b, 8),
                trader_id: u64_at(b, 16),
                side: side_of(b[1]),
                price: signed_of(u64_at(b, 24)),
                quantity: u64_at(b, 32),
                timestamp: 0,
            },
        )
    }
}

pub open spec fn cancel_result(b: Seq<u8>) -> Result<u64, ProtocolError> {
    if b.len() < CANCEL_ORDER_SIZE {
        Err(ProtocolError::BufferTooShort)
    } else {
        Ok(u64_at(b, 8))
    }
}

/// What decoding a framed command yields, dispatching on the type byte.
pub open spec fn message_result(b: Seq<u8>) -> Result<EngineCommand, ProtocolError> {
    if b.len() == 0 {
        Err(ProtocolError::BufferTooShort)
    } else if b[0] == MSG_NEW_ORDER {
        match new_order_result(b) {
            Ok(o) => Ok(EngineCommand::NewOrder(o)),
            Err(e) => Err(e),
        }
    } else if b[0] == MSG_CANCEL_ORDER {
        match cancel_result(b) {
            Ok(id) => Ok(EngineCommand::CancelOrder { order_id: id }),
            Err(e) => Err(e),
        }
    } else {
        Err(ProtocolError::UnknownMessageType(b[0]))
    }
}

pub open spec fn report_result(b: Seq<u8>) -> Result<ExecutionReport, ProtocolError> {
    if b.len() < EXECUTION_REPORT_SIZE {
        Err(ProtocolError::BufferTooShort)
    } else {
        Ok(
            ExecutionReport {
                seq_num: u32_at(b, 4),
                taker_order_id: u64_at(b, 8),
                maker_order_id: u64_at(b, 16),
                price: signed_of(u64_at(b, 24)),
                quantity: u64_at(b, 32),
                timestamp: u64_at(b, 40),
            },
        )
    }
}

/// A command as it comes back from its frame: a new order loses its timestamp.
pub open spec fn as_decoded(c: EngineCommand) -> EngineCommand {
    match c {
        EngineCommand::NewOrder(o) => EngineCommand::NewOrder(Order { timestamp: 0, ..o }),
        EngineCommand::CancelOrder { order_id } => c,
    }
}

/// A command that has a frame which decodes: a new order of positive quantity.
pub open spec fn encodable(c: EngineCommand) -> bool {
    match c {
        EngineCommand::NewOrder(o) => o.quantity > 0,
        EngineCommand::CancelOrder { .. } => true,
    }
}

/// Decoding a command's frame gives the command back, less its timestamp.
pub proof fn lemma_command_round_trip(c: EngineCommand)
    requires
        encodable(c),
    ensures
        message_result(command_frame(c)) == Ok::<EngineCommand, ProtocolError>(as_decoded(c)),
        command_frame(c).len() == (match c {
            EngineCommand::NewOrder(_) => NEW_ORDER_SIZE,
            EngineCommand::CancelOrder { .. } => CANCEL_ORDER_SIZE,
        }),
{
    match c {
        EngineCommand::NewOrder(o) => {
            let b = new_order_frame(o);
            lemma_u64_round_trip(o.id);
            lemma_u64_round_trip(o.trader_id);
            lemma_u64_round_trip(bits_of(o.price));
            lemma_u64_round_trip(o.quantity);
            assert(b.subrange(8, 16) =~= le_u64(o.id));
            assert(u64_at(b, 8) == u64_at(le_u64(o.id), 0));
            assert(u64_at(b, 16) == u64_at(le_u64(o.trader_id), 0));
            assert(u64_at(b, 24) == u64_at(le_u64(bits_of(o.price)), 0));
            assert(u64_at(b, 32) == u64_at(le_u64(o.quantity), 0));
            assert(side_of(side_byte(o.side)) == o.side);
            lemma_i64_round_trip(o.price);
        },
        EngineCommand::CancelOrder { order_id } => {
            let b = cancel_frame(order_id);
            lemma_u64_round_trip(order_id);
            assert(u64_at(b, 8) == u64_at(le_u64(order_id), 0));
        },
    }
}

/// Decoding a report's frame gives its fields back.
pub proof fn lemma_report_round_trip(seq_num: u32, fill: Fill, timestamp: u64)
    ensures
        report_result(report_frame(seq_num, fill, timestamp)) == Ok::<ExecutionReport, ProtocolError>(
            ExecutionReport {
                seq_num,
                taker_order_id: fill.taker_order_id,
                maker_order_id: fill.maker_order_id,
                price: fill.price,
                quantity: fill.quantity,
                timestamp,
            },
        ),
{
    let b = report_frame(seq_num, fill, timestamp);
    lemma_u32_round_trip(seq_num);
    lemma_u64_round_trip(fill.taker_order_id);
    lemma_u64_round_trip(fill.maker_order_id);
    lemma_u64_round_trip(bits_of(fill.price));
    lemma_u64_round_trip(fill.quantity);
    lemma_u64_round_trip(timestamp);
    assert(u32_at(b, 4) == u32_at(le_u32(seq_num), 0));
    assert(u64_at(b, 8) == u64_at(le_u64(fill.taker_order_id), 0));
    assert(u64_at(b, 16) == u64_at(le_u64(fill.maker_order_id), 0));
    assert(u64_at(b, 24) == u64_at(le_u64(bits_of(fill.price)), 0));
    assert(u64_at(b, 32) == u64_at(le_u64(fill.quantity), 0));
    assert(u64_at(b, 40) == u64_at(le_u64(timestamp), 0));
    lemma_i64_round_trip(fill.price);
}

// ---- readers and writers ----
pub fn read_u8(buf: &[u8], offset: usize) -> (r: Result<u8, ProtocolError>)
    ensures
        offset < buf@.len() ==> r == Ok::<u8, ProtocolError>(buf@[offset as int]),
        offset >= buf@.len() ==> r == Err::<u8, ProtocolError>(ProtocolError::BufferTooShort),
{
    if offset < buf.len() {
        Ok(buf[offset])
    } else {
        Err(ProtocolError::BufferTooShort)
    }
}

pub fn read_u32(buf: &[u8], offset: usize) -> (r: Result<u32, ProtocolError>)
    ensures
        offset + 4 <= buf@.len() ==> r == Ok::<u32, ProtocolError>(u32_at(buf@, offset as int)),
        offset + 4 > buf@.len() ==> r == Err::<u32, ProtocolError>(ProtocolError::BufferTooShort),
{
    if offset > buf.len() || buf.len() - offset < 4 {
        return Err(ProtocolError::BufferTooShort);
    }
    Ok((buf[offset] as u32) | ((buf[offset + 1] as u32) << 8u32) | ((buf[offset + 2] as u32) << 16u32) | ((
    buf[offset + 3] as u32) << 24u32))
}

pub fn read_u64(buf: &[u8], offset: usize) -> (r: Result<u64, ProtocolError>)
    ensures
        offset + 8 <= buf@.len() ==> r == Ok::<u64, ProtocolError>(u64_at(buf@, offset as int)),
        offset + 8 > buf@.len() ==> r == Err::<u64, ProtocolError>(ProtocolError::BufferTooShort),
{
    if offset > buf.len() || buf.len() - offset < 8 {
        return Err(ProtocolError::BufferTooShort);
    }
    Ok((buf[offset] as u64) | ((buf[offset + 1] as u64) << 8u64) | ((buf[offset + 2] as u64) << 16u64) | ((
    buf[offset + 3] as u64) << 24u64) | ((buf[offset + 4] as u64) << 32u64) | ((buf[offset + 5] as u64)
        << 40u64) | ((buf[offset + 6] as u64) << 48u64) | ((buf[offset + 7] as u64) << 56u64))
}

pub fn read_i64(buf: &[u8], offset: usize) -> (r: Result<i64, ProtocolError>)
    ensures
        offset + 8 <= buf@.len() ==> r == Ok::<i64, ProtocolError>(signed_of(u64_at(buf@, offset as int))),
        offset + 8 > buf@.len() ==> r == Err::<i64, ProtocolError>(ProtocolError::BufferTooShort),
{
    match read_u64(buf, offset) {
        Ok(v) => Ok(v as i64),
        Err(e) => Err(e),
    }
}

pub fn write_u8(buf: &mut [u8], offset: usize, val: u8) -> (r: Result<(), ProtocolError>)
    ensures
        offset < old(buf)@.len() ==> r is Ok && final(buf)@ == old(buf)@.update(offset as int, val),
        offset >= old(buf)@.len() ==> r == Err::<(), ProtocolError>(ProtocolError::BufferTooShort)
            && final(buf)@ == old(buf)@,
{
    if offset >= buf.len() {
        return Err(ProtocolError::BufferTooShort);
    }
    buf[offset] = val;
    Ok(())
}

/// `b` with `bytes` written over it from `off` on.
pub open spec fn overwrite(b: Seq<u8>, off: int, bytes: Seq<u8>) -> Seq<u8> {
    Seq::new(b.len(), |i: int| if off <= i < off + bytes.len() { bytes[i - off] } else { b[i] })
}

pub fn write_u32(buf: &mut [u8], offset: usize, val: u32) -> (r: Result<(), ProtocolError>)
    ensures
        offset + 4 <= old(buf)@.len() ==> r is Ok && final(buf)@ == overwrite(old(buf)@, offset as int, le_u32(val)),
        offset + 4 > old(buf)@.len() ==> r == Err::<(), ProtocolError>(ProtocolError::BufferTooShort)
            && final(buf)@ == old(buf)@,
{
    if offset > buf.len() || buf.len() - offset < 4 {
        return Err(ProtocolError::BufferTooShort);
    }
    buf[offset] = val as u8;
    buf[offset + 1] = (val >> 8u32) as u8;
    buf[offset + 2] = (val >> 16u32) as u8;
    buf[offset + 3] = (val >> 24u32) as u8;
    proof {
        assert(buf@ =~= overwrite(old(buf)@, offset as int, le_u32(val)));
    }
    Ok(())
}

pub fn write_u64(buf: &mut [u8], offset: usize, val: u64) -> (r: Result<(), ProtocolError>)
    ensures
        offset + 8 <= old(buf)@.len() ==> r is Ok && final(buf)@ == overwrite(old(buf)@, offset as int, le_u64(val)),
        offset + 8 > old(buf)@.len() ==> r == Err::<(), ProtocolError>(ProtocolError::BufferTooShort)
            && final(buf)@ == old(buf)@,
{
    if offset > buf.len() || buf.len() - offset < 8 {
        return Err(ProtocolError::BufferTooShort);
    }
    buf[offset] = val as u8;
    buf[offset + 1] = (val >> 8u64) as u8;
    buf[offset + 2] = (val >> 16u64) as u8;
    buf[offset + 3] = (val >> 24u64) as u8;
    buf[offset + 4] = (val >> 32u64) as u8;
    buf[offset + 5] = (val >> 40u64) as u8;
    buf[offset + 6] = (val >> 48u64) as u8;
    buf[offset + 7] = (val >> 56u64) as u8;
    proof {
        assert(buf@ =~= overwrite(old(buf)@, offset as int, le_u64(val)));
    }
    Ok(())
}

pub fn write_i64(buf: &mut [u8], offset: usize, val: i64) -> (r: Result<(), ProtocolError>)
    ensures
        offset + 8 <= old(buf)@.len() ==> r is Ok && final(buf)@ == overwrite(old(buf)@, offset as int, le_u64(bits_of(val))),
        offset + 8 > old(buf)@.len() ==> r == Err::<(), ProtocolError>(ProtocolError::BufferTooShort)
            && final(buf)@ == old(buf)@,
{
    write_u64(buf, offset, val as u64)
}

pub fn decode_side(val: u8) -> (r: Result<Side, ProtocolError>)
    ensures
        val <= 1 ==> r == Ok::<Side, ProtocolError>(side_of(val)),
        val > 1 ==> r == Err::<Side, ProtocolError>(ProtocolError::InvalidSide(val)),
{
    match val {
        0 => Ok(Side::Bid),
        1 => Ok(Side::Ask),
        _ => Err(ProtocolError::InvalidSide(val)),
    }
}

pub fn encode_side(side: Side) -> (r: u8)
    ensures
        r == side_byte(side),
{
    match side {
        Side::Bid => 0,
        Side::Ask => 1,
    }
}

/// Sets the first `n` bytes of `buf` to zero.
fn zero_prefix(buf: &mut [u8], n: usize)
    requires
        n <= old(buf)@.len(),
    ensures
        final(buf)@ == overwrite(old(buf)@, 0, Seq::new(n as nat, |i: int| 0u8)),
{
    let mut i: usize = 0;
    while i < n
        invariant
            i <= n,
            n <= buf@.len(),
            buf@.len() == old(buf)@.len(),
            forall|j: int| 0 <= j < i ==> buf@[j] == 0,
            forall|j: int| i <= j < buf@.len() ==> buf@[j] == old(buf)@[j],
        decreases n - i,
    {
        buf[i] = 0;
        i = i + 1;
    }
    assert(buf@ =~= overwrite(old(buf)@, 0, Seq::new(n as nat, |i: int| 0u8)));
}

/// Decodes a New Order frame; its timestamp is left at zero for ingress to set.
pub fn decode_new_order(buf: &[u8]) -> (r: Result<Order, ProtocolError>)
    ensures
        r == new_order_result(buf@),
{
    if buf.len() < NEW_ORDER_SIZE {
        return Err(ProtocolError::BufferTooShort);
    }
    let side = match read_u8(buf, 1) {
        Ok(b) => match decode_side(b) {
            Ok(s) => s,
            Err(e) => {
                return Err(e);
            },
        },
        Err(e) => {
            return Err(e);
        },
    };
    let order_id = match read_u64(buf, 8) {
        Ok(v) => v,
        Err(e) => {
            return Err(e);
        },
    };
    let trader_id = match read_u64(buf, 16) {
        Ok(v) => v,
        Err(e) => {
            return Err(e);
        },
    };
    let price = match read_i64(buf, 24) {
        Ok(v) => v,
        Err(e) => {
            return Err(e);
        },
    };
    let quantity = match read_u64(buf, 32) {
        Ok(v) => v,
        Err(e) => {
            return Err(e);
        },
    };
    if quantity == 0 {
        return Err(ProtocolError::ZeroQuantity);
    }
    Ok(Order { id: order_id, side, trader_id, price, quantity, timestamp: 0 })
}

/// Writes the New Order frame of `order` into the first 40 bytes of `buf`.
pub fn encode_new_order(buf: &mut [u8], order: &Order) -> (r: Result<usize, ProtocolError>)
    ensures
        old(buf)@.len() < NEW_ORDER_SIZE ==> r == Err::<usize, ProtocolError>(ProtocolError::BufferTooShort)
            && final(buf)@ == old(buf)@,
        old(buf)@.len() >= NEW_ORDER_SIZE ==> r == Ok::<usize, ProtocolError>(NEW_ORDER_SIZE)
            && final(buf)@ == overwrite(old(buf)@, 0, new_order_frame(*order)),
{
    if buf.len() < NEW_ORDER_SIZE {
        return Err(ProtocolError::BufferTooShort);
    }
    zero_prefix(buf, NEW_ORDER_SIZE);
    let _ = write_u8(buf, 0, MSG_NEW_ORDER);
    let _ = write_u8(buf, 1, encode_side(order.side));
    let _ = write_u64(buf, 8, order.id);
    let _ = write_u64(buf, 16, order.trader_id);
    let _ = write_i64(buf, 24, order.price);
    let _ = write_u64(buf, 32, order.quantity);
    proof {
        assert(buf@ =~= overwrite(old(buf)@, 0, new_order_frame(*order)));
    }
    Ok(NEW_ORDER_SIZE)
}

pub fn decode_cancel_order(buf: &[u8]) -> (r: Result<u64, ProtocolError>)
    ensures
        r == cancel_result(buf@),
{
    if buf.len() < CANCEL_ORDER_SIZE {
        return Err(ProtocolError::BufferTooShort);
    }
    read_u64(buf, 8)
}

/// Writes the Cancel Order frame into the first 16 bytes of `buf`.
pub fn encode_cancel_order(buf: &mut [u8], order_id: u64) -> (r: Result<usize, ProtocolError>)
    ensures
        old(buf)@.len() < CANCEL_ORDER_SIZE ==> r == Err::<usize, ProtocolError>(ProtocolError::BufferTooShort)
            && final(buf)@ == old(buf)@,
        old(buf)@.len() >= CANCEL_ORDER_SIZE ==> r == Ok::<usize, ProtocolError>(CANCEL_ORDER_SIZE)
            && final(buf)@ == overwrite(old(buf)@, 0, cancel_frame(order_id)),
{
    if buf.len() < CANCEL_ORDER_SIZE {
        return Err(ProtocolError::BufferTooShort);
    }
    zero_prefix(buf, CANCEL_ORDER_SIZE);
    let _ = write_u8(buf, 0, MSG_CANCEL_ORDER);
    let _ = write_u64(buf, 8, order_id);
    proof {
        assert(buf@ =~= overwrite(old(buf)@, 0, cancel_frame(order_id)));
    }
    Ok(CANCEL_ORDER_SIZE)
}

/// Decodes a framed command by its type byte.
pub fn decode_message(buf: &[u8]) -> (r: Result<EngineCommand, ProtocolError>)
    ensures
        r == message_result(buf@),
{
    let msg_type = match read_u8(buf, 0) {
        Ok(t) => t,
        Err(e) => {
            return Err(e);
        },
    };
    if msg_type == MSG_NEW_ORDER {
        match decode_new_order(buf) {
            Ok(o) => Ok(EngineCommand::NewOrder(o)),
            Err(e) => Err(e),
        }
    } else if msg_type == MSG_CANCEL_ORDER {
        match decode_cancel_order(buf) {
            Ok(id) => Ok(EngineCommand::CancelOrder { order_id: id }),
            Err(e) => Err(e),
        }
    } else {
        Err(ProtocolError::UnknownMessageType(msg_type))
    }
}

/// Size of the frame that a type byte announces.
pub fn message_size(msg_type: u8) -> (r: Result<usize, ProtocolError>)
    ensures
        msg_type == MSG_NEW_ORDER ==> r == Ok::<usize, ProtocolError>(NEW_ORDER_SIZE),
        msg_type == MSG_CANCEL_ORDER ==> r == Ok::<usize, ProtocolError>(CANCEL_ORDER_SIZE),
        msg_type != MSG_NEW_ORDER && msg_type != MSG_CANCEL_ORDER ==> r == Err::<usize, ProtocolError>(
            ProtocolError::UnknownMessageType(msg_type),
        ),
{
    if msg_type == MSG_NEW_ORDER {
        Ok(NEW_ORDER_SIZE)
    } else if msg_type == MSG_CANCEL_ORDER {
        Ok(CANCEL_ORDER_SIZE)
    } else {
        Err(ProtocolError::UnknownMessageType(msg_type))
    }
}

/// Writes the Execution Report frame for `fill` into the first 48 bytes of `buf`.
pub fn encode_execution_report(buf: &mut [u8], seq_num: u32, fill: &Fill, timestamp: u64) -> (r: Result<usize, ProtocolError>)
    ensures
        old(buf)@.len() < EXECUTION_REPORT_SIZE ==> r == Err::<usize, ProtocolError>(ProtocolError::BufferTooShort)
            && final(buf)@ == old(buf)@,
        old(buf)@.len() >= EXECUTION_REPORT_SIZE ==> r == Ok::<usize, ProtocolError>(EXECUTION_REPORT_SIZE)
            && final(buf)@ == overwrite(old(buf)@, 0, report_frame(seq_num, *fill, timestamp)),
{
    if buf.len() < EXECUTION_REPORT_SIZE {
        return Err(ProtocolError::BufferTooShort);
    }
    zero_prefix(buf, EXECUTION_REPORT_SIZE);
    let _ = write_u8(buf, 0, MSG_EXECUTION_REPORT);
    let _ = write_u32(buf, 4, seq_num);
    let _ = write_u64(buf, 8, fill.taker_order_id);
    let _ = write_u64(buf, 16, fill.maker_order_id);
    let _ = write_i64(buf, 24, fill.price);
    let _ = write_u64(buf, 32, fill.quantity);
    let _ = write_u64(buf, 40, timestamp);
    proof {
        assert(buf@ =~= overwrite(old(buf)@, 0, report_frame(seq_num, *fill, timestamp)));
    }
    Ok(EXECUTION_REPORT_SIZE)
}

pub fn decode_execution_report(buf: &[u8]) -> (r: Result<ExecutionReport, ProtocolError>)
    ensures
        r == report_result(buf@),
{
    if buf.len() < EXECUTION_REPORT_SIZE {
        return Err(ProtocolError::BufferTooShort);
    }
    let seq_num = match read_u32(buf, 4) {
        Ok(v) => v,
        Err(e) => {
            return Err(e);
        },
    };
    let taker_order_id = match read_u64(buf, 8) {
        Ok(v) => v,
        Err(e) => {
            return Err(e);
        },
    };
    let maker_order_id = match read_u64(buf, 16) {
        Ok(v) => v,
        Err(e) => {
            return Err(e);
        },
    };
    let price = match read_i64(buf, 24) {
        Ok(v) => v,
        Err(e) => {
            return Err(e);
        },
    };
    let quantity = match read_u64(buf, 32) {
        Ok(v) => v,
        Err(e) => {
            return Err(e);
        },
    };
    let timestamp = match read_u64(buf, 40) {
        Ok(v) => v,
        Err(e) => {
            return Err(e);
        },
    };
    Ok(ExecutionReport { seq_num, taker_order_id, maker_order_id, price, quantity, timestamp })
}

/// The sequence number `k` reports after `seq`, wrapping.
pub open spec fn seq_after(seq: u32, k: int) -> u32 {
    ((seq as int + k) % 0x1_0000_0000) as u32
}

/// The execution report frames for `fills`, numbered on from `seq` (each
/// report takes the next number, wrapping), with the last number used.
pub fn reports_for(seq: u32, fills: &Vec<Fill>, timestamp: u64) -> (r: (Vec<Vec<u8>>, u32))
    ensures
        r.0@.len() == fills@.len(),
        forall|i: int| 0 <= i < fills@.len() ==> #[trigger] r.0@[i]@ == report_frame(seq_after(seq, i + 1), fills@[i], timestamp),
        r.1 == seq_after(seq, fills@.len() as int),
{
    let mut out: Vec<Vec<u8>> = Vec::new();
    let mut n = seq;
    let mut i: usize = 0;
    while i < fills.len()
        invariant
            i <= fills@.len(),
            out@.len() == i,
            n == seq_after(seq, i as int),
            forall|j: int| 0 <= j < i ==> #[trigger] out@[j]@ == report_frame(seq_after(seq, j + 1), fills@[j], timestamp),
        decreases fills@.len() - i,
    {
        n = n.wrapping_add(1);
        let mut buf: Vec<u8> = Vec::new();
        let mut k: usize = 0;
        while k < EXECUTION_REPORT_SIZE
            invariant
                k <= EXECUTION_REPORT_SIZE,
                buf@.len() == k,
            decreases EXECUTION_REPORT_SIZE - k,
        {
            buf.push(0);
            k = k + 1;
        }
        let _ = encode_execution_report(buf.as_mut_slice(), n, &fills[i], timestamp);
        proof {
            assert(n == seq_after(seq, i + 1));
            assert(buf@ =~= report_frame(n, fills@[i as int], timestamp));
        }
        out.push(buf);
        i = i + 1;
    }
    (out, n)
}

} // verus!
