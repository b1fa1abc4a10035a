//! The exchange: users, the order book, the trade log, positions and the
//! latest mark price, and what each request does to them.
use crate::decimal::{
    add_spec, div_spec, is_pos, lemma_value_order_trans, mul_spec, sub_spec, value_eq, value_le, Dec,
};
use crate::order::{match_effect, midprice_spec, ordertype_of, Order, OrderBook, Ordertype, MatchError};
use crate::position::{
    close_spec, liquidate_all, margin_spec, revalue_all, LiquidatedPosition, Position, Positions,
    PositionsView,
};
use crate::trades::{TradeEvent, Trades};
use crate::user::{User, Users, UsersView};
use vstd::hash_map::StringHashMap;
use vstd::prelude::*;

verus! {

/// The symbol every order and mark price is for.
pub open spec fn btc() -> Seq<char> {
    seq!['b', 't', 'c']
}

/// The symbol as a string.
fn btc_symbol() -> (r: String)
    ensures
        r@ == btc(),
{
    proof {
        reveal_strlit("btc");
    }
    "btc".to_owned()
}

/// The cap on the funding rate in either direction: 0.0075.
pub open spec fn max_funding_rate() -> Dec {
    Dec::build(75, 4)
}

/// `rate` held within plus or minus the cap.
pub open spec fn clamp_rate(rate: Dec) -> Dec {
    let max = max_funding_rate();
    let min = Dec::build(-75, 4);
    if value_le(max, rate) {
        max
    } else if value_le(rate, min) {
        min
    } else {
        rate
    }
}

/// The funding rate from the mid price and the mark price: the premium
/// `(mid - mark) / mark`, capped at 0.0075 either way.
pub open spec fn funding_rate_spec(mid: Dec, mark: Dec) -> Option<Dec> {
    match sub_spec(mid, mark) {
        Some(d) => match div_spec(d, mark) {
            Some(p) => Some(clamp_rate(p)),
            None => None,
        },
        None => None,
    }
}

/// A liquidated position's remaining equity, when positive, goes back to
/// its user; a user that is gone or whose balance would overflow is skipped.
pub open spec fn refund_one(v: UsersView, l: LiquidatedPosition) -> UsersView {
    let u = l.userid@;
    if v.table.contains_key(u) && is_pos(l.loss) {
        match add_spec(v.table[u].balance, l.loss) {
            Some(b) => UsersView { table: v.table.insert(u, User { balance: b, ..v.table[u] }), ..v },
            None => v,
        }
    } else {
        v
    }
}

/// Refunds for the liquidations `ls`, in order.
pub open spec fn refund_all(v: UsersView, ls: Seq<LiquidatedPosition>) -> UsersView
    decreases ls.len(),
{
    if ls.len() == 0 {
        v
    } else {
        refund_all(refund_one(v, ls[0]), ls.drop_first())
    }
}

/// The checks an order passes before it is matched, in the order they are
/// made: the user exists, the side parses, the leverage is not zero, the
/// margin `quantity * price / leverage` can be computed and is covered by the
/// balance. Gives the side and the balance after the margin is taken, or the
/// message of the first check that fails.
pub open spec fn order_check(
    users: UsersView,
    price: Dec,
    quantity: Dec,
    ordertype: Seq<char>,
    userid: Seq<char>,
    leverage: Dec,
) -> Result<(Ordertype, Dec), Seq<char>> {
    if !users.table.contains_key(userid) {
        Err("user not found "@)
    } else {
        match ordertype_of(ordertype) {
            None => Err("invalid order type"@),
            Some(side) => if leverage.mant() == 0 {
                Err("leverage cannot be zero"@)
            } else {
                match margin_spec(quantity, price, leverage) {
                    None => Err("arithmetic overflow"@),
                    Some(m) => {
                        let balance = users.table[userid].balance;
                        if !value_le(m, balance) {
                            Err("user don't have enough balance"@)
                        } else {
                            match sub_spec(balance, m) {
                                None => Err("arithmetic overflow"@),
                                Some(left) => Ok((side, left)),
                            }
                        }
                    },
                }
            },
        }
    }
}

/// `o` is the order placed for these terms on the exchange's symbol.
pub open spec fn placed_as(o: Order, price: Dec, quantity: Dec, side: Ordertype, userid: Seq<char>, leverage: Dec) -> bool {
    &&& o.price == price
    &&& o.quantity == quantity
    &&& o.ordertype == side
    &&& o.leverage == leverage
    &&& o.userid@ == userid
    &&& o.symbol@ == btc()
}

/// The registry with one user's balance replaced.
pub open spec fn with_balance(v: UsersView, userid: Seq<char>, balance: Dec) -> UsersView {
    UsersView { table: v.table.insert(userid, User { balance, ..v.table[userid] }), ..v }
}

/// What a mark price update reports.
pub struct MarkUpdate {
    /// The positions liquidated, riskiest first.
    pub liquidations: Vec<LiquidatedPosition>,
    /// The funding rate computed, when funding was due and could be computed.
    pub funding_rate: Option<Dec>,
}

/// The whole state of the exchange.
pub struct Exchange {
    pub users: Users,
    pub orderbook: OrderBook,
    pub trades: Trades,
    pub positions: Positions,
    /// The latest mark price by symbol.
    pub latest_mark: StringHashMap<Dec>,
}

/// Holds a rate within plus or minus 0.0075.
fn clamp_funding(rate: Dec) -> (r: Dec)
    ensures
        r == clamp_rate(rate),
{
    let max = Dec::new(75, 4).unwrap();
    let min = max.neg();
    if max.le(&rate) {
        max
    } else if rate.le(&min) {
        min
    } else {
        rate
    }
}

impl Exchange {
    /// An exchange with no users, orders, trades, positions or prices.
    pub fn new() -> (r: Exchange)
        ensures
            r.users@.table == Map::<Seq<char>, User>::empty(),
            r.orderbook.bids() == Seq::<(Dec, Seq<Order>)>::empty(),
            r.orderbook.asks() == Seq::<(Dec, Seq<Order>)>::empty(),
            r.trades.log() == Seq::<crate::trades::Trade>::empty(),
            r.positions@.table == Map::<Seq<char>, Position>::empty(),
            r.latest_mark@ == Map::<Seq<char>, Dec>::empty(),
    {
        Exchange {
            users: Users::new(),
            orderbook: OrderBook::new(),
            trades: Trades::new(),
            positions: Positions::new(),
            latest_mark: StringHashMap::new(),
        }
    }

    /// The balance of a user, or "can't found user".
    pub fn get_balance(&self, userid: &str) -> (r: Result<Dec, String>)
        ensures
            match r {
                Ok(b) => self.users@.table.contains_key(userid@) && b == self.users@.table[userid@].balance,
                Err(e) => !self.users@.table.contains_key(userid@) && e@ == "can't found user"@,
            },
    {
        match self.users.getuser(userid) {
            Some(u) => Ok(u.balance),
            None => Err("can't found user".to_owned()),
        }
    }

    /// Closes a position at the latest mark price and returns its profit;
    /// "mark price not found" when there is none yet, and "error in sending
    /// it to other thread" when the position cannot be closed.
    pub fn close_position(&mut self, positionid: &str) -> (r: Result<Dec, String>)
        ensures
            final(self).users@ == old(self).users@,
            final(self).orderbook.bids() == old(self).orderbook.bids(),
            final(self).orderbook.asks() == old(self).orderbook.asks(),
            final(self).trades.log() == old(self).trades.log(),
            final(self).latest_mark@ == old(self).latest_mark@,
            !old(self).latest_mark@.contains_key(btc()) ==> final(self).positions@ == old(self).positions@
                && (r matches Err(e) && e@ == "mark price not found"@),
            old(self).latest_mark@.contains_key(btc()) ==> match close_spec(
                old(self).positions@,
                positionid@,
                old(self).latest_mark@[btc()],
            ) {
                Some((pnl, closed)) => r == Ok::<Dec, String>(pnl) && final(self).positions@ == (PositionsView {
                    table: old(self).positions@.table.insert(positionid@, closed),
                    ..old(self).positions@
                }),
                None => final(self).positions@ == old(self).positions@ && (r matches Err(e) && e@
                    == "error in sending it to other thread"@),
            },
    {
        proof {
            reveal_strlit("btc");
            assert("btc"@ == btc());
        }
        let mark = match self.latest_mark.get("btc") {
            Some(m) => *m,
            None => return Err("mark price not found".to_owned()),
        };
        match self.positions.close_position(positionid, mark) {
            Some(pnl) => Ok(pnl),
            None => Err("error in sending it to other thread".to_owned()),
        }
    }

    /// The active positions of a user, in the order they were opened.
    pub fn open_positions(&self, userid: &str) -> (r: Vec<Position>)
        ensures
            r@ == crate::position::active(crate::position::user_positions(self.positions@, userid@)),
    {
        self.positions.get_active_positions(userid)
    }

    /// Takes a new mark price: records it, revalues the positions of the
    /// symbol, liquidates those that must be, refunds positive remaining
    /// equity of liquidated positions to their users, and, when funding is
    /// due and the book has a mid price and the mark is positive, computes
    /// the capped funding rate.
    pub fn update_mark_price(&mut self, price: Dec, funding_due: bool) -> (r: MarkUpdate)
        ensures
            final(self).latest_mark@ == old(self).latest_mark@.insert(btc(), price),
            ({
                let p1 = revalue_all(old(self).positions@, old(self).positions@.order, btc(), price);
                let (p2, ls) = liquidate_all(p1, p1.queue);
                &&& final(self).positions@ == (PositionsView { queue: Seq::empty(), ..p2 })
                &&& r.liquidations@ == ls
                &&& final(self).users@ == refund_all(old(self).users@, ls)
            }),
            r.funding_rate == (match midprice_spec(old(self).orderbook.bids(), old(self).orderbook.asks()) {
                Some(mid) => if funding_due && is_pos(price) {
                    funding_rate_spec(mid, price)
                } else {
                    None
                },
                None => None,
            }),
            final(self).orderbook.bids() == old(self).orderbook.bids(),
            final(self).orderbook.asks() == old(self).orderbook.asks(),
            final(self).trades.log() == old(self).trades.log(),
    {
        let symbol = btc_symbol();
        self.latest_mark.insert(symbol.clone(), price);
        self.positions.update_all_position(symbol.as_str(), price);
        let liquidations = self.positions.process_liquidation();
        let ghost u0 = self.users@;
        let ghost ls = liquidations@;
        let ghost marks = self.latest_mark@;
        let ghost pv = self.positions@;
        let mut i: usize = 0;
        assert(ls.skip(0) =~= ls);
        while i < liquidations.len()
            invariant
                liquidations@ == ls,
                i <= ls.len(),
                self.latest_mark@ == marks,
                self.positions@ == pv,
                self.orderbook.bids() == old(self).orderbook.bids(),
                self.orderbook.asks() == old(self).orderbook.asks(),
                self.trades.log() == old(self).trades.log(),
                refund_all(u0, ls) == refund_all(self.users@, ls.skip(i as int)),
            decreases ls.len() - i,
        {
            assert(ls.skip(i as int)[0] == ls[i as int]);
            assert(ls.skip(i as int).drop_first() =~= ls.skip(i as int + 1));
            let liq = &liquidations[i];
            let refund = match self.users.getuser(liq.userid.as_str()) {
                Some(u) => if liq.loss.is_positive() {
                    u.balance.checked_add(&liq.loss)
                } else {
                    None
                },
                None => None,
            };
            match refund {
                Some(b) => {
                    self.users.set_balance(liq.userid.as_str(), b);
                },
                None => {},
            }
            i = i + 1;
        }
        assert(ls.skip(ls.len() as int) =~= Seq::<LiquidatedPosition>::empty());
        let funding_rate = match self.orderbook.midprice() {
            Some(mid) => if funding_due && price.is_positive() {
                match mid.checked_sub(&price) {
                    Some(d) => match d.checked_div(&price) {
                        Some(p) => Some(clamp_funding(p)),
                        None => None,
                    },
                    None => None,
                }
            } else {
                None
            },
            None => None,
        };
        MarkUpdate { liquidations, funding_rate }
    }

    /// Places an order for a user after the checks of `order_check`: the
    /// margin is taken from the balance and the order is matched. Returns
    /// the events of the trades made, or the message of the failed check;
    /// "arithmetic overflow" when matching cannot complete, in which case
    /// nothing changes.
    pub fn create_order(
        &mut self,
        price: Dec,
        quantity: Dec,
        ordertype: &str,
        userid: String,
        leverage: Dec,
    ) -> (r: Result<Vec<TradeEvent>, String>)
        ensures
            final(self).latest_mark@ == old(self).latest_mark@,
            match order_check(old(self).users@, price, quantity, ordertype@, userid@, leverage) {
                Err(msg) => {
                    &&& r matches Err(e) && e@ == msg
                    &&& final(self).users@ == old(self).users@
                    &&& final(self).orderbook.bids() == old(self).orderbook.bids()
                    &&& final(self).orderbook.asks() == old(self).orderbook.asks()
                    &&& final(self).trades.log() == old(self).trades.log()
                    &&& final(self).positions@ == old(self).positions@
                },
                Ok((side, left)) => exists|o: Order|
                    {
                        &&& placed_as(o, price, quantity, side, userid@, leverage)
                        &&& match r {
                            Ok(events) => {
                                &&& match_effect(
                                    old(self).orderbook,
                                    final(self).orderbook,
                                    old(self).trades.log(),
                                    final(self).trades.log(),
                                    old(self).positions@,
                                    final(self).positions@,
                                    o,
                                    Ok(events@),
                                )
                                &&& final(self).users@ == with_balance(old(self).users@, userid@, left)
                            },
                            Err(e) => {
                                &&& e@ == "arithmetic overflow"@
                                &&& match_effect(
                                    old(self).orderbook,
                                    final(self).orderbook,
                                    old(self).trades.log(),
                                    final(self).trades.log(),
                                    old(self).positions@,
                                    final(self).positions@,
                                    o,
                                    Err(MatchError::ArithmeticOverflow),
                                )
                                &&& final(self).users@ == old(self).users@
                            },
                        }
                    },
            },
    {
        let balance = match self.users.getuser(userid.as_str()) {
            Some(u) => u.balance,
            None => return Err("user not found ".to_owned()),
        };
        let side = match Ordertype::from_str(ordertype) {
            Ok(t) => t,
            Err(e) => return Err(e),
        };
        if leverage.is_zero() {
            return Err("leverage cannot be zero".to_owned());
        }
        let margin = match quantity.checked_mul(&price) {
            Some(v) => v.checked_div(&leverage),
            None => None,
        };
        let margin = match margin {
            Some(m) => m,
            None => return Err("arithmetic overflow".to_owned()),
        };
        if !margin.le(&balance) {
            return Err("user don't have enough balance".to_owned());
        }
        let left = match balance.checked_sub(&margin) {
            Some(b) => b,
            None => return Err("arithmetic overflow".to_owned()),
        };
        let order = Order::new(price, quantity, side, leverage, userid.clone(), btc_symbol());
        let ghost o = order;
        match self.orderbook.matching_engine(order, &mut self.trades, &mut self.positions) {
            Ok(events) => {
                self.users.set_balance(userid.as_str(), left);
                assert(placed_as(o, price, quantity, side, userid@, leverage));
                Ok(events)
            },
            Err(_) => {
                assert(placed_as(o, price, quantity, side, userid@, leverage));
                Err("arithmetic overflow".to_owned())
            },
        }
    }

    /// Logs a user in by email, comparing the stored password hash with the
    /// hash of the password given; "invalid credentials" otherwise.
    pub fn login_user(&self, email: &str, password_hash: &str) -> (r: Result<User, String>)
        ensures
            match r {
                Ok(u) => {
                    &&& self.users@.table.contains_key(u.userid@)
                    &&& u == self.users@.table[u.userid@]
                    &&& u.email@ == email@
                    &&& u.password_hash@ == password_hash@
                },
                Err(e) => {
                    &&& e@ == "invalid credentials"@
                    &&& forall|k: Seq<char>|
                        #[trigger] self.users@.table.contains_key(k) && self.users@.table[k].email@ == email@
                            ==> self.users@.table[k].password_hash@ != password_hash@
                },
            },
    {
        match self.users.find_by_email(email) {
            Some(u) => {
                if crate::text::text_eq(u.password_hash.as_str(), password_hash) {
                    Ok(u.duplicate())
                } else {
                    Err("invalid credentials".to_owned())
                }
            },
            None => Err("invalid credentials".to_owned()),
        }
    }
}


/// Refunding a liquidation never takes money: when its remaining equity is
/// not positive nothing changes; when it is positive, only its own user's
/// balance may change, and then to that balance plus the equity. Every
/// other field of every user stays as it was.
pub proof fn lemma_refund_one_adds_positive_equity(v: UsersView, l: LiquidatedPosition)
    ensures
        ({
            let r = refund_one(v, l);
            &&& r.order == v.order
            &&& r.table.dom() == v.table.dom()
            &&& !is_pos(l.loss) ==> r == v
            &&& forall|u: Seq<char>|
                #[trigger] v.table.contains_key(u) ==> r.table[u] == User { balance: r.table[u].balance, ..v.table[u] } && (
                r.table[u].balance == v.table[u].balance || (u == l.userid@ && is_pos(l.loss) && add_spec(
                    v.table[u].balance,
                    l.loss,
                ) == Some(r.table[u].balance)))
        }),
{
    let u0 = l.userid@;
    if v.table.contains_key(u0) && is_pos(l.loss) {
        match add_spec(v.table[u0].balance, l.loss) {
            Some(b) => {
                assert(refund_one(v, l).table.dom() =~= v.table.dom());
            },
            None => {},
        }
    }
}

/// A mark update's refunds never take money: the users stay the same, and a
/// user none of whose liquidated positions had positive remaining equity
/// keeps every field, balance included; any other user changes only in
/// balance.
pub proof fn lemma_refunds_only_add_positive_equity(v: UsersView, ls: Seq<LiquidatedPosition>)
    ensures
        ({
            let r = refund_all(v, ls);
            &&& r.order == v.order
            &&& r.table.dom() == v.table.dom()
            &&& forall|u: Seq<char>|
                #[trigger] v.table.contains_key(u) ==> r.table[u] == User { balance: r.table[u].balance, ..v.table[u] }
            &&& forall|u: Seq<char>|
                #[trigger] v.table.contains_key(u) && (forall|i: int|
                    0 <= i < ls.len() && (#[trigger] ls[i]).userid@ == u ==> !is_pos(ls[i].loss)) ==> r.table[u]
                    == v.table[u]
        }),
    decreases ls.len(),
{
    if ls.len() > 0 {
        let v1 = refund_one(v, ls[0]);
        let rest = ls.drop_first();
        lemma_refund_one_adds_positive_equity(v, ls[0]);
        lemma_refunds_only_add_positive_equity(v1, rest);
        let r = refund_all(v, ls);
        assert(r == refund_all(v1, rest));
        assert forall|u: Seq<char>| #[trigger] v.table.contains_key(u) implies r.table[u] == User {
            balance: r.table[u].balance,
            ..v.table[u]
        } by {
            assert(v1.table.contains_key(u));
        }
        assert forall|u: Seq<char>|
            #[trigger] v.table.contains_key(u) && (forall|i: int|
                0 <= i < ls.len() && (#[trigger] ls[i]).userid@ == u ==> !is_pos(ls[i].loss)) implies r.table[u]
                == v.table[u] by {
            assert(v1.table.contains_key(u));
            if ls[0].userid@ == u {
                assert(!is_pos(ls[0].loss));
            }
            assert(v1.table[u] == v.table[u]);
            assert forall|i: int| 0 <= i < rest.len() && (#[trigger] rest[i]).userid@ == u implies !is_pos(rest[i].loss) by {
                assert(rest[i] == ls[i + 1]);
            }
        }
    }
}

/// The balance check compares the margin, `quantity * price / leverage`,
/// with the balance: for a registered user, a valid side and a non-zero
/// leverage whose margin can be computed, the order is refused for lack of
/// balance exactly when the margin is above the balance; otherwise it passes
/// the checks with the margin taken from the balance, unless that
/// subtraction overflows.
pub proof fn lemma_balance_check_uses_margin(
    users: UsersView,
    price: Dec,
    quantity: Dec,
    ordertype: Seq<char>,
    userid: Seq<char>,
    leverage: Dec,
)
    requires
        users.table.contains_key(userid),
        ordertype_of(ordertype) is Some,
        leverage.mant() != 0,
        mul_spec(quantity, price) is Some,
        div_spec(mul_spec(quantity, price).unwrap(), leverage) is Some,
    ensures
        ({
            let m = div_spec(mul_spec(quantity, price).unwrap(), leverage).unwrap();
            let b = users.table[userid].balance;
            let r = order_check(users, price, quantity, ordertype, userid, leverage);
            &&& (r == Err::<(Ordertype, Dec), Seq<char>>("user don't have enough balance"@)) <==> !value_le(m, b)
            &&& value_le(m, b) ==> r == match sub_spec(b, m) {
                Some(left) => Ok::<(Ordertype, Dec), Seq<char>>((ordertype_of(ordertype).unwrap(), left)),
                None => Err("arithmetic overflow"@),
            }
        }),
{
    reveal_strlit("user don't have enough balance");
    reveal_strlit("arithmetic overflow");
    assert("user don't have enough balance"@ != "arithmetic overflow"@) by {
        assert("user don't have enough balance"@[0] != "arithmetic overflow"@[0]);
    }
}


/// The funding rate is capped: whatever the premium, the rate lies within
/// plus or minus 0.0075, and a premium within that band is the rate itself.
pub proof fn lemma_funding_rate_capped(rate: Dec)
    ensures
        value_le(Dec::build(-75, 4), clamp_rate(rate)),
        value_le(clamp_rate(rate), Dec::build(75, 4)),
        value_le(Dec::build(-75, 4), rate) && value_le(rate, Dec::build(75, 4)) && !value_eq(rate, Dec::build(75, 4))
            && !value_eq(rate, Dec::build(-75, 4)) ==> clamp_rate(rate) == rate,
{
    let max = Dec::build(75, 4);
    let min = Dec::build(-75, 4);
    Dec::lemma_build(75, 4);
    Dec::lemma_build(-75, 4);
    crate::decimal::lemma_pow10_pos(4);
    assert(value_le(min, max));
    lemma_value_order_trans(min, max, rate);
    lemma_value_order_trans(rate, min, max);
    lemma_value_order_trans(min, rate, max);
    lemma_value_order_trans(max, rate, min);
    lemma_value_order_trans(min, min, min);
    lemma_value_order_trans(max, max, max);
    lemma_value_order_trans(rate, max, rate);
    lemma_value_order_trans(rate, min, rate);
}

/// The checks before matching refuse an order for the first failing reason,
/// in this order: an unknown user, a side that is neither buy nor sell, a
/// zero leverage, a margin that cannot be computed, a margin above the
/// balance.
pub proof fn lemma_order_refusals(
    users: UsersView,
    price: Dec,
    quantity: Dec,
    ordertype: Seq<char>,
    userid: Seq<char>,
    leverage: Dec,
)
    ensures
        ({
            let r = order_check(users, price, quantity, ordertype, userid, leverage);
            &&& !users.table.contains_key(userid) ==> r == Err::<(Ordertype, Dec), Seq<char>>("user not found "@)
            &&& users.table.contains_key(userid) && ordertype_of(ordertype) is None ==> r == Err::<
                (Ordertype, Dec),
                Seq<char>,
            >("invalid order type"@)
            &&& users.table.contains_key(userid) && ordertype_of(ordertype) is Some && leverage.mant() == 0 ==> r
                == Err::<(Ordertype, Dec), Seq<char>>("leverage cannot be zero"@)
            &&& r matches Ok((side, _)) ==> users.table.contains_key(userid) && ordertype_of(ordertype) == Some(side)
                && leverage.mant() != 0 && (margin_spec(quantity, price, leverage) matches Some(m) && value_le(
                m,
                users.table[userid].balance,
            ))
        }),
{
}

} // verus!
