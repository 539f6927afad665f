use vstd::prelude::*;

verus! {

/// Side of the book an order rests on.
#[derive(Debug, Clone, Copy, PartialEq, Eq, Structural, Hash)]
pub enum Side {
    Bid,
    Ask,
}

/// A client's limit order: immutable intent stamped at ingress.
#[derive(Debug, Clone, Copy, PartialEq, Eq, Structural)]
pub struct Order {
    pub id: u64,
    pub trader_id: u64,
    pub side: Side,
    pub price: i64,
    pub quantity: u64,
    pub timestamp: u64,
}

impl Order {
    /// Builds an order; a zero quantity is refused.
    pub fn new(id: u64, trader_id: u64, side: Side, price: i64, quantity: u64, timestamp: u64) -> (r: Option<Order>)
        ensures
            quantity == 0 <==> r is None,
            r matches Some(o) ==> o == (Order { id, trader_id, side, price, quantity, timestamp }),
    {
        if quantity == 0 {
            return None;
        }
        Some(Order { id, trader_id, side, price, quantity, timestamp })
    }
}

} // verus!
