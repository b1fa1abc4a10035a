//! The records of the in-memory order registry: one order per user.
use crate::decimal::Dec;
use vstd::prelude::*;

verus! {

/// The side of a registered order, with the symbol it is for.
pub enum OrderType {
    BUY(String),
    SELL(String),
}

/// A registered order of one user.
pub struct Orderbook {
    pub userid: String,
    pub order_type: OrderType,
    pub price: Dec,
    pub quantity: Dec,
    /// Milliseconds since the Unix epoch.
    pub timestamp: i64,
}

impl Orderbook {
    /// A record with these fields.
    pub fn new(userid: String, order_type: OrderType, price: Dec, quantity: Dec, timestamp: i64) -> (r:
        Orderbook)
        ensures
            r.userid == userid,
            r.order_type == order_type,
            r.price == price,
            r.quantity == quantity,
            r.timestamp == timestamp,
    {
        Orderbook { userid, order_type, price, quantity, timestamp }
    }
}

} // verus!
