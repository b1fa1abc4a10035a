//! Trade messages of the exchange price feed, and the mark price they carry.
use crate::decimal::{decimal_parse, Dec};
use vstd::prelude::*;

verus! {

/// A trade message of the price feed. The field names are the feed's own:
/// event type `e`, event time `E`, symbol `s`, trade id `t`, price `p`,
/// quantity `q`, trade time `T`, buyer-is-maker `m`, and `M`.
#[allow(non_snake_case, non_camel_case_types)]
pub struct binancemsg {
    pub e: String,
    pub E: u64,
    pub s: String,
    pub t: u64,
    pub p: String,
    pub q: String,
    pub T: u64,
    pub m: bool,
    pub M: bool,
}

impl binancemsg {
    /// The traded price as a decimal, which becomes the new mark price;
    /// `None` when the price text does not parse.
    pub fn mark_price(&self) -> (r: Option<Dec>)
        ensures
            r == Dec::lift(decimal_parse(self.p@)),
    {
        Dec::parse(self.p.as_str())
    }
}

} // verus!
