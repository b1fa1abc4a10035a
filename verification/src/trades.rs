//! Executed trades and the events published for them.
use crate::decimal::Dec;
use crate::ext::now_millis;
use vstd::prelude::*;

verus! {

/// What is published about one trade.
pub struct TradeEvent {
    pub symbol: String,
    pub price: Dec,
    pub quantity: Dec,
    pub buyuser: String,
    pub selluser: String,
    /// Milliseconds since the Unix epoch.
    pub timestamp: i64,
}

/// One executed trade between a buyer and a seller.
pub struct Trade {
    pub price: Dec,
    pub quantity: Dec,
    pub buyuser: String,
    pub selluser: String,
    pub symbol: String,
    /// Milliseconds since the Unix epoch, taken when the trade was made.
    pub timestamp: i64,
}

impl Trade {
    /// A trade stamped with the current time.
    pub fn new(price: Dec, quantity: Dec, buyuser: String, selluser: String, symbol: String) -> (r:
        Trade)
        ensures
            r.price == price,
            r.quantity == quantity,
            r.buyuser == buyuser,
            r.selluser == selluser,
            r.symbol == symbol,
    {
        Trade { price, quantity, buyuser, timestamp: now_millis(), selluser, symbol }
    }

    /// The event spec of a trade: the same fields.
    pub open spec fn event_of(self) -> TradeEvent {
        TradeEvent {
            symbol: self.symbol,
            price: self.price,
            quantity: self.quantity,
            buyuser: self.buyuser,
            selluser: self.selluser,
            timestamp: self.timestamp,
        }
    }

    /// The event that reports this trade.
    pub fn to_event(&self) -> (r: TradeEvent)
        ensures
            r == self.event_of(),
    {
        TradeEvent {
            symbol: self.symbol.clone(),
            price: self.price,
            quantity: self.quantity,
            buyuser: self.buyuser.clone(),
            selluser: self.selluser.clone(),
            timestamp: self.timestamp,
        }
    }
}

/// The log of executed trades, oldest first.
pub struct Trades {
    trades: Vec<Trade>,
}

impl Trades {
    /// The trades recorded so far, oldest first.
    pub closed spec fn log(self) -> Seq<Trade> {
        self.trades@
    }

    /// An empty log.
    pub fn new() -> (r: Trades)
        ensures
            r.log() == Seq::<Trade>::empty(),
    {
        Trades { trades: Vec::new() }
    }

    /// Appends a trade and returns its event.
    pub fn add_new_trades(&mut self, trade: Trade) -> (event: TradeEvent)
        ensures
            event == trade.event_of(),
            final(self).log() == old(self).log().push(trade),
    {
        let event = trade.to_event();
        self.trades.push(trade);
        event
    }

    /// The number of trades recorded.
    pub fn len(&self) -> (r: usize)
        ensures
            r == self.log().len(),
    {
        self.trades.len()
    }

    /// The trade at `i`, oldest first.
    pub fn get(&self, i: usize) -> (r: &Trade)
        requires
            i < self.log().len(),
        ensures
            *r == self.log()[i as int],
    {
        &self.trades[i]
    }
}

} // verus!
