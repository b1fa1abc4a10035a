//! Orders and the order book: price levels kept best-first, first-in
//! first-out within a level, and the matching engine.
use crate::decimal::{
    add_spec, at_scale, common_scale, div_spec, fits_at, is_pos, lemma_sub_step, lemma_value_order_trans,
    min_spec, sub_spec, units, value_eq, value_le, value_lt, Dec,
};
use crate::position::{margin_spec, with_opened, Position, Positions, PositionsView};
use crate::trades::{Trade, TradeEvent, Trades};
use std::collections::VecDeque;
use crate::ext::now_millis;
use vstd::prelude::*;
use vstd::string::StrSliceExecFns;

verus! {

/// The side of an order or a position: `Buy` is long, `Sell` is short.
#[derive(Clone, Copy, Debug, PartialEq, Eq, Structural)]
pub enum Ordertype {
    Buy,
    Sell,
}

/// `text` spells `lower` in any mix of ASCII cases, given `upper` as the
/// upper-case spelling.
pub open spec fn spells(text: Seq<char>, lower: Seq<char>, upper: Seq<char>) -> bool {
    &&& text.len() == lower.len()
    &&& forall|i: int| 0 <= i < text.len() ==> #[trigger] text[i] == lower[i] || text[i] == upper[i]
}

/// The side named by `text`, case-insensitively: "buy" or "sell".
pub open spec fn ordertype_of(text: Seq<char>) -> Option<Ordertype> {
    if spells(text, seq!['b', 'u', 'y'], seq!['B', 'U', 'Y']) {
        Some(Ordertype::Buy)
    } else if spells(text, seq!['s', 'e', 'l', 'l'], seq!['S', 'E', 'L', 'L']) {
        Some(Ordertype::Sell)
    } else {
        None
    }
}

/// Whether `text` spells the word given in lower and upper case.
fn spells_word(text: &str, lower: &str, upper: &str) -> (r: bool)
    requires
        lower@.len() == upper@.len(),
    ensures
        r == spells(text@, lower@, upper@),
{
    let n = text.unicode_len();
    let k = lower.unicode_len();
    if n != k {
        return false;
    }
    let mut i: usize = 0;
    while i < n
        invariant
            n == text@.len(),
            n == lower@.len(),
            n == upper@.len(),
            i <= n,
            forall|j: int| 0 <= j < i ==> #[trigger] text@[j] == lower@[j] || text@[j] == upper@[j],
        decreases n - i,
    {
        let c = text.get_char(i);
        if c != lower.get_char(i) && c != upper.get_char(i) {
            return false;
        }
        i = i + 1;
    }
    true
}

impl Ordertype {
    /// Parses a side case-insensitively: text that lowers to "buy" or
    /// "sell" (only ASCII letters lower to those), else the error
    /// "invalid order type".
    pub fn from_str(text: &str) -> (r: Result<Ordertype, String>)
        ensures
            match r {
                Ok(t) => ordertype_of(text@) == Some(t),
                Err(e) => ordertype_of(text@) is None && e@ == "invalid order type"@,
            },
    {
        proof {
            reveal_strlit("buy");
            reveal_strlit("BUY");
            reveal_strlit("sell");
            reveal_strlit("SELL");
        }
        if spells_word(text, "buy", "BUY") {
            assert("buy"@ == seq!['b', 'u', 'y']);
            assert("BUY"@ == seq!['B', 'U', 'Y']);
            Ok(Ordertype::Buy)
        } else if spells_word(text, "sell", "SELL") {
            assert("buy"@ == seq!['b', 'u', 'y']);
            assert("BUY"@ == seq!['B', 'U', 'Y']);
            assert("sell"@ == seq!['s', 'e', 'l', 'l']);
            assert("SELL"@ == seq!['S', 'E', 'L', 'L']);
            Ok(Ordertype::Sell)
        } else {
            assert("buy"@ == seq!['b', 'u', 'y']);
            assert("BUY"@ == seq!['B', 'U', 'Y']);
            assert("sell"@ == seq!['s', 'e', 'l', 'l']);
            assert("SELL"@ == seq!['S', 'E', 'L', 'L']);
            Err("invalid order type".to_owned())
        }
    }
}

/// An order of one user for one symbol.
pub struct Order {
    pub price: Dec,
    pub symbol: String,
    pub quantity: Dec,
    /// Milliseconds since the Unix epoch, taken when the order was made.
    pub timestamp: i64,
    pub ordertype: Ordertype,
    pub userid: String,
    pub leverage: Dec,
}

impl Order {
    /// An order stamped with the current time.
    pub fn new(
        price: Dec,
        quantity: Dec,
        ordertype: Ordertype,
        leverage: Dec,
        userid: String,
        symbol: String,
    ) -> (r: Order)
        ensures
            r.price == price,
            r.quantity == quantity,
            r.ordertype == ordertype,
            r.leverage == leverage,
            r.userid == userid,
            r.symbol == symbol,
    {
        Order {
            price,
            timestamp: now_millis(),
            ordertype,
            userid,
            leverage,
            symbol,
            quantity,
        }
    }
}

impl Order {
    /// A field-for-field copy.
    pub fn duplicate(&self) -> (r: Order)
        ensures
            r == *self,
    {
        Order {
            price: self.price,
            symbol: self.symbol.clone(),
            quantity: self.quantity,
            timestamp: self.timestamp,
            ordertype: self.ordertype,
            userid: self.userid.clone(),
            leverage: self.leverage,
        }
    }
}

/// The orders resting at one price, oldest first.
pub struct Level {
    pub price: Dec,
    pub orders: VecDeque<Order>,
}

/// A side of the book as prices with their orders, best price first.
pub open spec fn levels_of(v: Seq<Level>) -> Seq<(Dec, Seq<Order>)> {
    v.map_values(|l: Level| (l.price, l.orders@))
}

/// On the side of `side` orders, price `a` comes before price `b`: higher
/// bids first, lower asks first.
pub open spec fn better(side: Ordertype, a: Dec, b: Dec) -> bool {
    match side {
        Ordertype::Buy => value_lt(b, a),
        Ordertype::Sell => value_lt(a, b),
    }
}

/// A side of the book is well formed: prices strictly best-first, no empty
/// level, and every order of the side's type at its level's price.
pub open spec fn side_wf(levels: Seq<(Dec, Seq<Order>)>, side: Ordertype) -> bool {
    &&& forall|i: int, j: int|
        0 <= i < j < levels.len() ==> better(side, #[trigger] levels[i].0, #[trigger] levels[j].0)
    &&& forall|i: int| 0 <= i < levels.len() ==> (#[trigger] levels[i]).1.len() > 0
    &&& forall|i: int, j: int|
        0 <= i < levels.len() && 0 <= j < levels[i].1.len() ==> (#[trigger] levels[i].1[j]).ordertype
            == side && value_eq(levels[i].1[j].price, levels[i].0)
}

/// `o` placed on a well-formed side: appended to the level of equal price,
/// or opening a new level where its price belongs.
pub open spec fn place(levels: Seq<(Dec, Seq<Order>)>, o: Order, side: Ordertype) -> Seq<
    (Dec, Seq<Order>),
>
    decreases levels.len(),
{
    if levels.len() == 0 {
        seq![(o.price, seq![o])]
    } else if value_eq(levels[0].0, o.price) {
        seq![(levels[0].0, levels[0].1.push(o))] + levels.drop_first()
    } else if better(side, o.price, levels[0].0) {
        seq![(o.price, seq![o])] + levels
    } else {
        seq![levels[0]] + place(levels.drop_first(), o, side)
    }
}

/// The mid price: the mean of the best ask and the best bid, computed as
/// `(ask + bid) / 2`; `None` when a side is empty or the arithmetic
/// overflows.
pub open spec fn midprice_spec(bids: Seq<(Dec, Seq<Order>)>, asks: Seq<(Dec, Seq<Order>)>) -> Option<
    Dec,
> {
    if bids.len() == 0 || asks.len() == 0 {
        None
    } else {
        match add_spec(asks[0].0, bids[0].0) {
            Some(sum) => div_spec(sum, Dec::build(2, 0)),
            None => None,
        }
    }
}

/// The order book: bids and asks by price level.
pub struct OrderBook {
    bid: Vec<Level>,
    ask: Vec<Level>,
}

impl OrderBook {
    #[verifier::type_invariant]
    spec fn inv(self) -> bool {
        self.wf()
    }

    /// Both sides are well formed.
    pub closed spec fn wf(self) -> bool {
        &&& side_wf(self.bids(), Ordertype::Buy)
        &&& side_wf(self.asks(), Ordertype::Sell)
    }

    /// The bid levels, highest price first.
    pub closed spec fn bids(self) -> Seq<(Dec, Seq<Order>)> {
        levels_of(self.bid@)
    }

    /// The ask levels, lowest price first.
    pub closed spec fn asks(self) -> Seq<(Dec, Seq<Order>)> {
        levels_of(self.ask@)
    }

    /// The levels of `side`.
    pub open spec fn side(self, side: Ordertype) -> Seq<(Dec, Seq<Order>)> {
        match side {
            Ordertype::Buy => self.bids(),
            Ordertype::Sell => self.asks(),
        }
    }

    /// An empty book.
    pub fn new() -> (r: OrderBook)
        ensures
            r.bids() == Seq::<(Dec, Seq<Order>)>::empty(),
            r.asks() == Seq::<(Dec, Seq<Order>)>::empty(),
            r.wf(),
    {
        let r = OrderBook { bid: Vec::new(), ask: Vec::new() };
        assert(r.bids() =~= Seq::<(Dec, Seq<Order>)>::empty());
        assert(r.asks() =~= Seq::<(Dec, Seq<Order>)>::empty());
        r
    }

    /// The bid levels, highest price first.
    pub fn bid_levels(&self) -> (r: &Vec<Level>)
        ensures
            levels_of(r@) == self.bids(),
    {
        &self.bid
    }

    /// The ask levels, lowest price first.
    pub fn ask_levels(&self) -> (r: &Vec<Level>)
        ensures
            levels_of(r@) == self.asks(),
    {
        &self.ask
    }

    /// Places a new order on the side its type names, at the back of the
    /// level of equal price.
    pub fn add_new_order(
        &mut self,
        price: Dec,
        quantity: Dec,
        ordertype: Ordertype,
        leverage: Dec,
        symbol: String,
        userid: String,
    )
        ensures
            final(self).wf(),
            exists|o: Order|
                {
                    &&& o.price == price
                    &&& o.quantity == quantity
                    &&& o.ordertype == ordertype
                    &&& o.leverage == leverage
                    &&& o.symbol == symbol
                    &&& o.userid == userid
                    &&& final(self).side(ordertype) == place(old(self).side(ordertype), o, ordertype)
                },
            final(self).side(opposite(ordertype)) == old(self).side(opposite(ordertype)),
    {
        let order = Order::new(price, quantity, ordertype, leverage, userid, symbol);
        self.place_order(order);
    }

    /// The best bid and the best ask, averaged.
    pub fn midprice(&self) -> (r: Option<Dec>)
        ensures
            r == midprice_spec(self.bids(), self.asks()),
    {
        if self.bid.len() == 0 || self.ask.len() == 0 {
            return None;
        }
        let bestbid = self.bid[0].price;
        let bestask = self.ask[0].price;
        match bestask.checked_add(&bestbid) {
            Some(sum) => sum.checked_div(&Dec::two()),
            None => None,
        }
    }

    /// Places `order` on its side.
    pub(crate) fn place_order(&mut self, order: Order)
        ensures
            final(self).wf(),
            final(self).side(order.ordertype) == place(old(self).side(order.ordertype), order, order.ordertype),
            final(self).side(opposite(order.ordertype)) == old(self).side(opposite(order.ordertype)),
    {
        proof {
            use_type_invariant(&*self);
        }
        let mut this = OrderBook::new();
        std::mem::swap(self, &mut this);
        let OrderBook { mut bid, mut ask } = this;
        let side = order.ordertype;
        match side {
            Ordertype::Buy => {
                place_in(&mut bid, order, side);
            },
            Ordertype::Sell => {
                place_in(&mut ask, order, side);
            },
        }
        *self = OrderBook { bid, ask };
    }
}

/// The other side.
pub open spec fn opposite(side: Ordertype) -> Ordertype {
    match side {
        Ordertype::Buy => Ordertype::Sell,
        Ordertype::Sell => Ordertype::Buy,
    }
}

/// Whether price `a` comes before price `b` on `side`.
fn is_better(side: Ordertype, a: &Dec, b: &Dec) -> (r: bool)
    ensures
        r == better(side, *a, *b),
{
    match side {
        Ordertype::Buy => b.lt(a),
        Ordertype::Sell => a.lt(b),
    }
}

/// Places `order` in a well-formed side.
fn place_in(levels: &mut Vec<Level>, order: Order, side: Ordertype)
    requires
        side_wf(levels_of(old(levels)@), side),
        order.ordertype == side,
    ensures
        levels_of(final(levels)@) == place(levels_of(old(levels)@), order, side),
        side_wf(levels_of(final(levels)@), side),
{
    let ghost lv = levels_of(levels@);
    let mut i: usize = 0;
    while i < levels.len()
        invariant
            i <= levels@.len(),
            levels@ == old(levels)@,
            forall|j: int| 0 <= j < i ==> better(side, #[trigger] levels@[j].price, order.price),
        ensures
            i <= levels@.len(),
            levels@ == old(levels)@,
            forall|j: int| 0 <= j < i ==> better(side, #[trigger] levels@[j].price, order.price),
            i < levels@.len() ==> !better(side, levels@[i as int].price, order.price),
        decreases levels@.len() - i,
    {
        if !is_better(side, &levels[i].price, &order.price) {
            break;
        }
        i = i + 1;
    }
    proof {
        lemma_place_at(lv, order, side, i as int);
    }
    if i < levels.len() && levels[i].price.eq_value(&order.price) {
        let mut level = levels.remove(i);
        level.orders.push_back(order);
        levels.insert(i, level);
        assert(levels_of(levels@) =~= lv.update(i as int, (lv[i as int].0, lv[i as int].1.push(order))));
    } else {
        let price = order.price;
        let mut orders: VecDeque<Order> = VecDeque::new();
        orders.push_back(order);
        levels.insert(i, Level { price, orders });
        assert(levels_of(levels@) =~= lv.insert(i as int, (order.price, seq![order])));
    }
}

/// Where `place` puts an order, given the first level that does not come
/// before its price; and that the side stays well formed.
proof fn lemma_place_at(levels: Seq<(Dec, Seq<Order>)>, o: Order, side: Ordertype, i: int)
    requires
        side_wf(levels, side),
        o.ordertype == side,
        0 <= i <= levels.len(),
        forall|j: int| 0 <= j < i ==> better(side, #[trigger] levels[j].0, o.price),
        i < levels.len() ==> !better(side, levels[i].0, o.price),
    ensures
        i < levels.len() && value_eq(levels[i].0, o.price) ==> place(levels, o, side) == levels.update(
            i,
            (levels[i].0, levels[i].1.push(o)),
        ),
        !(i < levels.len() && value_eq(levels[i].0, o.price)) ==> place(levels, o, side)
            == levels.insert(i, (o.price, seq![o])),
        side_wf(place(levels, o, side), side),
    decreases levels.len(),
{
    lemma_place_shape(levels, o, side, i);
    let r = place(levels, o, side);
    lemma_value_order_trans(o.price, o.price, o.price);
    if i < levels.len() && value_eq(levels[i].0, o.price) {
        assert forall|a: int, b: int| 0 <= a < b < r.len() implies better(side, #[trigger] r[a].0, #[trigger] r[b].0) by {
            assert(r[a].0 == levels[a].0);
            assert(r[b].0 == levels[b].0);
        }
        assert forall|a: int| 0 <= a < r.len() implies (#[trigger] r[a]).1.len() > 0 by {
            if a != i {
                assert(r[a] == levels[a]);
            }
        }
        assert forall|a: int, b: int|
            0 <= a < r.len() && 0 <= b < r[a].1.len() implies (#[trigger] r[a].1[b]).ordertype == side
            && value_eq(r[a].1[b].price, r[a].0) by {
            if a != i {
                assert(r[a] == levels[a]);
            } else if b < levels[i].1.len() {
                assert(r[a].1[b] == levels[i].1[b]);
            }
        }
    } else {
        lemma_better_total(side, o.price, levels, i);
        assert forall|a: int, b: int| 0 <= a < b < r.len() implies better(side, #[trigger] r[a].0, #[trigger] r[b].0) by {
            if b < i {
                assert(r[a] == levels[a]);
                assert(r[b] == levels[b]);
            } else if b == i {
                assert(r[a] == levels[a]);
            } else if a < i {
                assert(r[a] == levels[a]);
                assert(r[b] == levels[b - 1]);
                lemma_better_trans(side, levels[a].0, o.price, levels[b - 1].0);
            } else if a == i {
                assert(r[b] == levels[b - 1]);
            } else {
                assert(r[a] == levels[a - 1]);
                assert(r[b] == levels[b - 1]);
            }
        }
        assert forall|a: int| 0 <= a < r.len() implies (#[trigger] r[a]).1.len() > 0 by {
            if a < i {
                assert(r[a] == levels[a]);
            } else if a > i {
                assert(r[a] == levels[a - 1]);
            }
        }
        assert forall|a: int, b: int|
            0 <= a < r.len() && 0 <= b < r[a].1.len() implies (#[trigger] r[a].1[b]).ordertype == side
            && value_eq(r[a].1[b].price, r[a].0) by {
            if a < i {
                assert(r[a] == levels[a]);
            } else if a > i {
                assert(r[a] == levels[a - 1]);
            }
        }
    }
}

/// Where `place` puts an order.
proof fn lemma_place_shape(levels: Seq<(Dec, Seq<Order>)>, o: Order, side: Ordertype, i: int)
    requires
        0 <= i <= levels.len(),
        forall|j: int| 0 <= j < i ==> better(side, #[trigger] levels[j].0, o.price),
        i < levels.len() ==> !better(side, levels[i].0, o.price),
    ensures
        i < levels.len() && value_eq(levels[i].0, o.price) ==> place(levels, o, side) == levels.update(
            i,
            (levels[i].0, levels[i].1.push(o)),
        ),
        !(i < levels.len() && value_eq(levels[i].0, o.price)) ==> place(levels, o, side)
            == levels.insert(i, (o.price, seq![o])),
    decreases levels.len(),
{
    if levels.len() == 0 {
        assert(levels.insert(i, (o.price, seq![o])) =~= seq![(o.price, seq![o])]);
    } else if i == 0 {
        if value_eq(levels[0].0, o.price) {
            assert(place(levels, o, side) =~= levels.update(0, (levels[0].0, levels[0].1.push(o))));
        } else {
            lemma_strict_of_not_better(side, levels[0].0, o.price);
            assert(place(levels, o, side) =~= levels.insert(0, (o.price, seq![o])));
        }
    } else {
        let rest = levels.drop_first();
        lemma_better_excludes(side, levels[0].0, o.price);
        assert forall|j: int| 0 <= j < i - 1 implies better(side, #[trigger] rest[j].0, o.price) by {
            assert(rest[j] == levels[j + 1]);
        }
        if i < levels.len() {
            assert(rest[i - 1] == levels[i]);
        }
        lemma_place_shape(rest, o, side, i - 1);
        if i < levels.len() && value_eq(levels[i].0, o.price) {
            assert(place(levels, o, side) =~= levels.update(i, (levels[i].0, levels[i].1.push(o))));
        } else {
            assert(place(levels, o, side) =~= levels.insert(i, (o.price, seq![o])));
        }
    }
}

/// A price that comes before another is neither equal to it nor after it.
proof fn lemma_better_excludes(side: Ordertype, a: Dec, b: Dec)
    requires
        better(side, a, b),
    ensures
        !value_eq(a, b),
        !better(side, b, a),
{
    lemma_value_order_trans(a, b, a);
    lemma_value_order_trans(b, a, b);
}

/// Of two unequal prices where the first does not come before the second,
/// the second comes before the first.
proof fn lemma_strict_of_not_better(side: Ordertype, a: Dec, b: Dec)
    requires
        !better(side, a, b),
        !value_eq(a, b),
    ensures
        better(side, b, a),
{
    lemma_value_order_trans(a, b, a);
    lemma_value_order_trans(b, a, b);
}

/// "Comes before" is transitive.
proof fn lemma_better_trans(side: Ordertype, a: Dec, b: Dec, c: Dec)
    requires
        better(side, a, b),
        better(side, b, c),
    ensures
        better(side, a, c),
{
    lemma_value_order_trans(a, b, c);
    lemma_value_order_trans(c, b, a);
    lemma_value_order_trans(b, c, c);
    lemma_value_order_trans(b, a, a);
}

/// A new price that does not match the level where it belongs comes before
/// that level and every later one.
proof fn lemma_better_total(side: Ordertype, p: Dec, levels: Seq<(Dec, Seq<Order>)>, i: int)
    requires
        side_wf(levels, side),
        0 <= i <= levels.len(),
        i < levels.len() ==> !better(side, levels[i].0, p),
        !(i < levels.len() && value_eq(levels[i].0, p)),
    ensures
        forall|j: int| i <= j < levels.len() ==> better(side, p, #[trigger] levels[j].0),
{
    if i < levels.len() {
        lemma_strict_of_not_better(side, levels[i].0, p);
        assert forall|j: int| i <= j < levels.len() implies better(side, p, #[trigger] levels[j].0) by {
            if j > i {
                lemma_better_trans(side, p, levels[i].0, levels[j].0);
            }
        }
    }
}

/// One execution of an incoming order against a resting one.
pub struct Fill {
    /// The resting level's price, at which the trade happens.
    pub price: Dec,
    /// The quantity traded.
    pub quantity: Dec,
    /// The resting order as it was before the execution.
    pub maker: Order,
}

impl Fill {
    /// A field-for-field copy.
    pub fn duplicate(&self) -> (r: Fill)
        ensures
            r == *self,
    {
        Fill { price: self.price, quantity: self.quantity, maker: self.maker.duplicate() }
    }
}

/// What matching against the orders of one level gives.
pub struct OrdersOutcome {
    /// No arithmetic overflowed.
    pub ok: bool,
    /// The incoming quantity still unfilled.
    pub remaining: Dec,
    /// The resting orders that keep a positive quantity, oldest first.
    pub kept: Seq<Order>,
    /// The executions, in order.
    pub fills: Seq<Fill>,
}

/// Matching `rem` against the orders of a level at `price`, oldest first:
/// while `rem` is positive each order trades `min(rem, its quantity)`, and
/// both quantities drop by that much; orders left without a positive
/// quantity leave the level.
pub open spec fn match_orders(orders: Seq<Order>, rem: Dec, price: Dec) -> OrdersOutcome
    decreases orders.len(),
{
    if orders.len() == 0 {
        OrdersOutcome { ok: true, remaining: rem, kept: Seq::empty(), fills: Seq::empty() }
    } else {
        let o = orders[0];
        if !is_pos(rem) {
            let r = match_orders(orders.drop_first(), rem, price);
            OrdersOutcome {
                kept: if is_pos(o.quantity) {
                    seq![o] + r.kept
                } else {
                    r.kept
                },
                ..r
            }
        } else {
            let t = min_spec(rem, o.quantity);
            match (sub_spec(rem, t), sub_spec(o.quantity, t)) {
                (Some(r2), Some(q2)) => {
                    let o2 = Order { quantity: q2, ..o };
                    let r = match_orders(orders.drop_first(), r2, price);
                    OrdersOutcome {
                        ok: r.ok,
                        remaining: r.remaining,
                        kept: if is_pos(q2) {
                            seq![o2] + r.kept
                        } else {
                            r.kept
                        },
                        fills: seq![Fill { price, quantity: t, maker: o }] + r.fills,
                    }
                },
                _ => OrdersOutcome { ok: false, remaining: rem, kept: Seq::empty(), fills: Seq::empty() },
            }
        }
    }
}

/// A resting level at `level_price` trades with an incoming `side` order
/// limited at `limit`: a buy takes asks up to its limit, a sell takes bids
/// down to its limit.
pub open spec fn crosses(side: Ordertype, level_price: Dec, limit: Dec) -> bool {
    match side {
        Ordertype::Buy => !value_lt(limit, level_price),
        Ordertype::Sell => !value_lt(level_price, limit),
    }
}

/// What matching against one side of the book gives.
pub struct LevelsOutcome {
    /// No arithmetic overflowed.
    pub ok: bool,
    /// The incoming quantity still unfilled.
    pub remaining: Dec,
    /// The side afterwards.
    pub levels: Seq<(Dec, Seq<Order>)>,
    /// The executions, in order.
    pub fills: Seq<Fill>,
}

/// Matching an incoming `side` order limited at `limit` for quantity `rem`
/// against the opposite side, best level first, until a level no longer
/// crosses or nothing remains; emptied levels leave the book.
pub open spec fn match_levels(levels: Seq<(Dec, Seq<Order>)>, side: Ordertype, limit: Dec, rem: Dec) -> LevelsOutcome
    decreases levels.len(),
{
    if levels.len() == 0 {
        LevelsOutcome { ok: true, remaining: rem, levels: Seq::empty(), fills: Seq::empty() }
    } else if !crosses(side, levels[0].0, limit) || !is_pos(rem) {
        LevelsOutcome { ok: true, remaining: rem, levels, fills: Seq::empty() }
    } else {
        let m = match_orders(levels[0].1, rem, levels[0].0);
        if !m.ok {
            LevelsOutcome { ok: false, remaining: rem, levels, fills: Seq::empty() }
        } else {
            let r = match_levels(levels.drop_first(), side, limit, m.remaining);
            LevelsOutcome {
                ok: r.ok,
                remaining: r.remaining,
                levels: if m.kept.len() > 0 {
                    seq![(levels[0].0, m.kept)] + r.levels
                } else {
                    r.levels
                },
                fills: m.fills + r.fills,
            }
        }
    }
}

/// Every fill can open both its positions: the incoming order's and the
/// resting order's margins can be computed.
pub open spec fn positions_computable(fills: Seq<Fill>, order: Order) -> bool {
    forall|k: int|
        0 <= k < fills.len() ==> {
            &&& margin_spec((#[trigger] fills[k]).quantity, fills[k].price, order.leverage) is Some
            &&& margin_spec(fills[k].quantity, fills[k].price, fills[k].maker.leverage) is Some
        }
}

/// `ps` holds, for each fill in order, the incoming order's position and then
/// the resting order's position, opened at the fill's price and quantity.
pub open spec fn fill_positions(ps: Seq<Position>, fills: Seq<Fill>, order: Order) -> bool {
    &&& ps.len() == 2 * fills.len()
    &&& forall|k: int|
        0 <= k < fills.len() ==> {
            &&& (#[trigger] ps[2 * k]).opened_as(
                order.symbol@,
                fills[k].quantity,
                fills[k].price,
                order.leverage,
                order.ordertype,
                order.userid@,
            )
            &&& ps[2 * k + 1].opened_as(
                fills[k].maker.symbol@,
                fills[k].quantity,
                fills[k].price,
                fills[k].maker.leverage,
                fills[k].maker.ordertype,
                fills[k].maker.userid@,
            )
        }
}

/// The position book after opening `ps` in order.
pub open spec fn open_all(v: PositionsView, ps: Seq<Position>) -> PositionsView
    decreases ps.len(),
{
    if ps.len() == 0 {
        v
    } else {
        open_all(with_opened(v, ps[0]), ps.drop_first())
    }
}

/// `t` records fill `f` of the incoming `order`: at the fill's price and
/// quantity, for the order's symbol, with the buyer and seller by side.
pub open spec fn trade_of(t: Trade, f: Fill, order: Order) -> bool {
    &&& t.price == f.price
    &&& t.quantity == f.quantity
    &&& t.symbol == order.symbol
    &&& match order.ordertype {
        Ordertype::Buy => t.buyuser == order.userid && t.selluser == f.maker.userid,
        Ordertype::Sell => t.buyuser == f.maker.userid && t.selluser == order.userid,
    }
}

/// Why matching stopped without changing anything.
#[derive(Clone, Copy, Debug, PartialEq, Eq, Structural)]
pub enum MatchError {
    /// A quantity or margin could not be computed: the arithmetic overflowed
    /// or a leverage was zero.
    ArithmeticOverflow,
}

/// Every order has a positive quantity that fits in 96 bits when written
/// at scale `s`.
pub open spec fn orders_fit(os: Seq<Order>, s: nat) -> bool {
    forall|j: int| 0 <= j < os.len() ==> is_pos((#[trigger] os[j]).quantity) && fits_at(os[j].quantity, s)
}

/// Every resting order of the side has a positive quantity that fits in 96
/// bits when written at scale `s`.
pub open spec fn levels_fit(levels: Seq<(Dec, Seq<Order>)>, s: nat) -> bool {
    forall|i: int| 0 <= i < levels.len() ==> orders_fit(#[trigger] levels[i].1, s)
}

/// The total quantity of the fills, in units of `10^-28`.
pub open spec fn filled_units(fs: Seq<Fill>) -> int
    decreases fs.len(),
{
    if fs.len() == 0 {
        0
    } else {
        filled_units(fs.drop_last()) + units(fs.last().quantity)
    }
}

/// Summing over two runs of fills adds their sums.
proof fn lemma_filled_concat(a: Seq<Fill>, b: Seq<Fill>)
    ensures
        filled_units(a + b) == filled_units(a) + filled_units(b),
    decreases b.len(),
{
    if b.len() == 0 {
        assert(a + b =~= a);
    } else {
        lemma_filled_concat(a, b.drop_last());
        assert((a + b).drop_last() =~= a + b.drop_last());
    }
}

/// Matches `rem` against the orders of one level at `price`. When the
/// quantities all fit at scale `s`, what is filled and what is left add up
/// to `rem`.
fn match_level_orders(orders: &VecDeque<Order>, rem: Dec, price: Dec, Ghost(s): Ghost<nat>) -> (r: Option<
    (VecDeque<Order>, Vec<Fill>, Dec),
>)
    ensures
        ({
            let m = match_orders(orders@, rem, price);
            match r {
                None => !m.ok,
                Some((kept, fills, left)) => m.ok && kept@ == m.kept && fills@ == m.fills && left == m.remaining,
            }
        }),
        r matches Some((kept, fills, left)) ==> (is_pos(left) ==> kept@.len() == 0),
        orders_fit(orders@, s) && fits_at(rem, s) ==> (r matches Some((kept, fills, left)) ==> {
            &&& fits_at(left, s)
            &&& units(rem) == units(left) + filled_units(fills@)
        }),
{
    let ghost all = orders@;
    let ghost uni = orders_fit(orders@, s) && fits_at(rem, s);
    let mut kept: VecDeque<Order> = VecDeque::new();
    let mut fills: Vec<Fill> = Vec::new();
    let mut left = rem;
    let mut j: usize = 0;
    assert(all.skip(0) =~= all);
    while j < orders.len()
        invariant
            orders@ == all,
            j <= all.len(),
            ({
                let m = match_orders(all, rem, price);
                let t = match_orders(all.skip(j as int), left, price);
                &&& m.ok == t.ok
                &&& t.ok ==> m.remaining == t.remaining && m.kept == kept@ + t.kept && m.fills == fills@ + t.fills
            }),
            uni == (orders_fit(all, s) && fits_at(rem, s)),
            uni ==> fits_at(left, s),
            is_pos(left) ==> kept@.len() == 0,
            uni ==> units(rem) == units(left) + filled_units(fills@),
        decreases all.len() - j,
    {
        let ghost tail = all.skip(j as int);
        assert(tail[0] == all[j as int]);
        assert(tail.drop_first() =~= all.skip(j as int + 1));
        let o = &orders[j];
        let ghost kept0 = kept@;
        let ghost fills0 = fills@;
        if !left.is_positive() {
            if o.quantity.is_positive() {
                kept.push_back(o.duplicate());
                assert(kept0 + (seq![*o] + match_orders(all.skip(j as int + 1), left, price).kept) =~= kept@
                    + match_orders(all.skip(j as int + 1), left, price).kept);
            }
        } else {
            let t = left.min(o.quantity);
            let r2 = match left.checked_sub(&t) {
                Some(v) => v,
                None => return None,
            };
            let q2 = match o.quantity.checked_sub(&t) {
                Some(v) => v,
                None => return None,
            };
            let ghost fills_before = fills@;
            fills.push(Fill { price, quantity: t, maker: o.duplicate() });
            proof {
                // Whichever quantity is traded in full drops to zero.
                if t == o.quantity {
                    Dec::lemma_build(0, t.scl());
                }
                if t == left {
                    Dec::lemma_build(0, t.scl());
                }
                if uni {
                    let q = o.quantity;
                    assert(*o == all[j as int]);
                    assert(is_pos(q) && fits_at(q, s));
                    if value_lt(q, left) {
                        assert(t == q);
                        lemma_sub_step(left, q, s);
                        assert(r2 == Dec::build(
                            at_scale(left, common_scale(left, q)) - at_scale(q, common_scale(left, q)),
                            common_scale(left, q),
                        ));
                    } else {
                        assert(t == left);
                        assert(r2 == Dec::build(0, left.scl()));
                        assert(units(r2) == 0);
                        assert(at_scale(r2, s) == 0);
                    }
                    assert(fills@.drop_last() =~= fills_before);
                    assert(fills@.last().quantity == t);
                }
            }
            let ghost tl = match_orders(all.skip(j as int + 1), r2, price);
            if q2.is_positive() {
                let mut o2 = o.duplicate();
                o2.quantity = q2;
                kept.push_back(o2);
                assert(kept0 + (seq![o2] + tl.kept) =~= kept@ + tl.kept);
            }
            assert(fills0 + (seq![Fill { price, quantity: t, maker: *o }] + tl.fills) =~= fills@ + tl.fills);
            left = r2;
        }
        j = j + 1;
    }
    assert(all.skip(all.len() as int) =~= Seq::<Order>::empty());
    assert(kept@ + Seq::<Order>::empty() =~= kept@);
    assert(fills@ + Seq::<Fill>::empty() =~= fills@);
    Some((kept, fills, left))
}

/// Whether an incoming `side` order limited at `limit` trades with a level
/// at `level_price`.
fn level_crosses(side: Ordertype, level_price: &Dec, limit: &Dec) -> (r: bool)
    ensures
        r == crosses(side, *level_price, *limit),
{
    match side {
        Ordertype::Buy => !limit.lt(level_price),
        Ordertype::Sell => !level_price.lt(limit),
    }
}

/// Matches quantity `rem` of an incoming `side` order limited at `limit`
/// against `levels`, reading them only. On success returns how many leading
/// levels were consumed, what replaces them, the fills and the quantity
/// left; the side afterwards is the replacement followed by the untouched
/// levels.
fn match_side(levels: &Vec<Level>, side: Ordertype, limit: Dec, rem: Dec, Ghost(s): Ghost<nat>) -> (r: Option<
    (usize, Vec<Level>, Vec<Fill>, Dec),
>)
    ensures
        ({
            let m = match_levels(levels_of(levels@), side, limit, rem);
            match r {
                None => !m.ok,
                Some((n, kept, fills, left)) => {
                    &&& m.ok
                    &&& n <= levels@.len()
                    &&& m.levels == levels_of(kept@) + levels_of(levels@).skip(n as int)
                    &&& m.fills == fills@
                    &&& m.remaining == left
                }
            }
        }),
        r matches Some((n, kept, fills, left)) ==> (is_pos(left) ==> kept@.len() == 0 && (n == levels@.len()
            || !crosses(side, levels@[n as int].price, limit))),
        levels_fit(levels_of(levels@), s) && fits_at(rem, s) ==> (r matches Some((n, kept, fills, left)) ==> {
            &&& fits_at(left, s)
            &&& units(rem) == units(left) + filled_units(fills@)
        }),
{
    let ghost all = levels_of(levels@);
    let ghost uni = levels_fit(levels_of(levels@), s) && fits_at(rem, s);
    let mut kept: Vec<Level> = Vec::new();
    let mut fills: Vec<Fill> = Vec::new();
    let mut left = rem;
    let mut i: usize = 0;
    assert(all.skip(0) =~= all);
    while i < levels.len()
        invariant
            all == levels_of(levels@),
            i <= levels@.len(),
            ({
                let m = match_levels(all, side, limit, rem);
                let t = match_levels(all.skip(i as int), side, limit, left);
                &&& m.ok == t.ok
                &&& t.ok ==> m.remaining == t.remaining && m.levels == levels_of(kept@) + t.levels
                    && m.fills == fills@ + t.fills
            }),
            uni == (levels_fit(all, s) && fits_at(rem, s)),
            uni ==> fits_at(left, s),
            uni ==> units(rem) == units(left) + filled_units(fills@),
            is_pos(left) ==> kept@.len() == 0,
        ensures
            i <= levels@.len(),
            ({
                let m = match_levels(all, side, limit, rem);
                let t = match_levels(all.skip(i as int), side, limit, left);
                &&& m.ok == t.ok
                &&& t.ok ==> m.remaining == t.remaining && m.levels == levels_of(kept@) + t.levels
                    && m.fills == fills@ + t.fills
                &&& t.ok && t.levels == all.skip(i as int) && t.fills == Seq::<Fill>::empty() && t.remaining == left
            }),
            uni ==> fits_at(left, s),
            uni ==> units(rem) == units(left) + filled_units(fills@),
            is_pos(left) ==> kept@.len() == 0,
            is_pos(left) ==> (i == levels@.len() || !crosses(side, levels@[i as int].price, limit)),
        decreases levels@.len() - i,
    {
        let ghost tail = all.skip(i as int);
        assert(tail[0] == all[i as int]);
        assert(tail.drop_first() =~= all.skip(i as int + 1));
        let level = &levels[i];
        if !level_crosses(side, &level.price, &limit) || !left.is_positive() {
            break;
        }
        proof {
            if uni {
                assert(orders_fit(all[i as int].1, s));
                assert(all[i as int].1 == level.orders@);
            }
        }
        let (lk, mut lf, l2) = match match_level_orders(&level.orders, left, level.price, Ghost(s)) {
            Some(x) => x,
            None => return None,
        };
        let ghost kept0 = levels_of(kept@);
        let ghost fills0 = fills@;
        let ghost t1 = match_levels(all.skip(i as int + 1), side, limit, l2);
        if lk.len() > 0 {
            kept.push(Level { price: level.price, orders: lk });
            assert(levels_of(kept@) =~= kept0.push((all[i as int].0, lk@)));
            assert(kept0 + (seq![(all[i as int].0, lk@)] + t1.levels) =~= levels_of(kept@) + t1.levels);
        } else {
            assert(levels_of(kept@) == kept0);
        }
        let ghost lfv = lf@;
        let ghost fb = fills@;
        proof {
            if uni {
                lemma_filled_concat(fb, lfv);
            }
        }
        fills.append(&mut lf);
        assert(fills0 + (lfv + t1.fills) =~= fills@ + t1.fills);
        left = l2;
        i = i + 1;
    }
    proof {
        if i == levels@.len() {
            assert(all.skip(i as int) =~= Seq::<(Dec, Seq<Order>)>::empty());
        }
        let t = match_levels(all.skip(i as int), side, limit, left);
        assert(levels_of(kept@) + t.levels == levels_of(kept@) + all.skip(i as int));
        assert(fills@ + t.fills =~= fills@);
    }
    Some((i, kept, fills, left))
}

/// Orders kept after matching keep their side and price.
proof fn lemma_kept_orders(orders: Seq<Order>, rem: Dec, price: Dec, rest: Ordertype)
    requires
        forall|j: int| 0 <= j < orders.len() ==> (#[trigger] orders[j]).ordertype == rest && value_eq(
            orders[j].price,
            price,
        ),
    ensures
        ({
            let k = match_orders(orders, rem, price).kept;
            forall|j: int| 0 <= j < k.len() ==> (#[trigger] k[j]).ordertype == rest && value_eq(k[j].price, price)
        }),
    decreases orders.len(),
{
    if orders.len() > 0 {
        let tail = orders.drop_first();
        assert forall|j: int| 0 <= j < tail.len() implies (#[trigger] tail[j]).ordertype == rest && value_eq(
            tail[j].price,
            price,
        ) by {
            assert(tail[j] == orders[j + 1]);
        }
        lemma_kept_orders(tail, rem, price, rest);
        if is_pos(rem) {
            let t = min_spec(rem, orders[0].quantity);
            match (sub_spec(rem, t), sub_spec(orders[0].quantity, t)) {
                (Some(r2), Some(q2)) => {
                    lemma_kept_orders(tail, r2, price, rest);
                },
                _ => {},
            }
        }
    }
}

/// Matching keeps the resting side well formed, and leaves only prices it
/// had.
proof fn lemma_match_levels_wf(levels: Seq<(Dec, Seq<Order>)>, side: Ordertype, limit: Dec, rem: Dec)
    requires
        side_wf(levels, opposite(side)),
    ensures
        ({
            let r = match_levels(levels, side, limit, rem).levels;
            &&& side_wf(r, opposite(side))
            &&& forall|a: int| 0 <= a < r.len() ==> exists|b: int| 0 <= b < levels.len() && (#[trigger] r[a]).0 == levels[b].0
        }),
    decreases levels.len(),
{
    let rs = opposite(side);
    if levels.len() == 0 {
    } else if !crosses(side, levels[0].0, limit) || !is_pos(rem) {
        let r = levels;
        assert forall|a: int| 0 <= a < r.len() implies exists|b: int| 0 <= b < levels.len() && (#[trigger] r[a]).0 == levels[b].0 by {
            assert(r[a].0 == levels[a].0);
        }
    } else {
        let m = match_orders(levels[0].1, rem, levels[0].0);
        if m.ok {
            let tail = levels.drop_first();
            assert(side_wf(tail, rs)) by {
                assert forall|a: int, b: int| 0 <= a < b < tail.len() implies better(rs, #[trigger] tail[a].0, #[trigger] tail[b].0) by {
                    assert(tail[a] == levels[a + 1]);
                    assert(tail[b] == levels[b + 1]);
                }
                assert forall|a: int| 0 <= a < tail.len() implies (#[trigger] tail[a]).1.len() > 0 by {
                    assert(tail[a] == levels[a + 1]);
                }
                assert forall|a: int, b: int|
                    0 <= a < tail.len() && 0 <= b < tail[a].1.len() implies (#[trigger] tail[a].1[b]).ordertype == rs
                    && value_eq(tail[a].1[b].price, tail[a].0) by {
                    assert(tail[a] == levels[a + 1]);
                }
            }
            lemma_match_levels_wf(tail, side, limit, m.remaining);
            let rt = match_levels(tail, side, limit, m.remaining).levels;
            let r = match_levels(levels, side, limit, rem).levels;
            assert forall|a: int| 0 <= a < rt.len() implies better(rs, levels[0].0, #[trigger] rt[a].0) by {
                let b = choose|b: int| 0 <= b < tail.len() && rt[a].0 == tail[b].0;
                assert(tail[b] == levels[b + 1]);
            }
            if m.kept.len() > 0 {
                assert forall|j: int| 0 <= j < levels[0].1.len() implies (#[trigger] levels[0].1[j]).ordertype == rs
                    && value_eq(levels[0].1[j].price, levels[0].0) by {
                }
                lemma_kept_orders(levels[0].1, rem, levels[0].0, rs);
                assert(r == seq![(levels[0].0, m.kept)] + rt);
                assert forall|a: int, b: int| 0 <= a < b < r.len() implies better(rs, #[trigger] r[a].0, #[trigger] r[b].0) by {
                    assert(r[b] == rt[b - 1]);
                    if a > 0 {
                        assert(r[a] == rt[a - 1]);
                    }
                }
                assert forall|a: int| 0 <= a < r.len() implies (#[trigger] r[a]).1.len() > 0 by {
                    if a > 0 {
                        assert(r[a] == rt[a - 1]);
                    }
                }
                assert forall|a: int, b: int|
                    0 <= a < r.len() && 0 <= b < r[a].1.len() implies (#[trigger] r[a].1[b]).ordertype == rs
                    && value_eq(r[a].1[b].price, r[a].0) by {
                    if a > 0 {
                        assert(r[a] == rt[a - 1]);
                    }
                }
                assert forall|a: int| 0 <= a < r.len() implies exists|b: int| 0 <= b < levels.len() && (#[trigger] r[a]).0 == levels[b].0 by {
                    if a == 0 {
                        assert(r[a].0 == levels[0].0);
                    } else {
                        assert(r[a] == rt[a - 1]);
                        let b = choose|b: int| 0 <= b < tail.len() && rt[a - 1].0 == tail[b].0;
                        assert(tail[b] == levels[b + 1]);
                    }
                }
            } else {
                assert forall|a: int| 0 <= a < r.len() implies exists|b: int| 0 <= b < levels.len() && (#[trigger] r[a]).0 == levels[b].0 by {
                    let b = choose|b: int| 0 <= b < tail.len() && rt[a].0 == tail[b].0;
                    assert(tail[b] == levels[b + 1]);
                }
            }
        } else {
            let r = levels;
            assert forall|a: int| 0 <= a < r.len() implies exists|b: int| 0 <= b < levels.len() && (#[trigger] r[a]).0 == levels[b].0 by {
                assert(r[a].0 == levels[a].0);
            }
        }
    }
}

/// Opens the two positions of every fill, or reports that one cannot be
/// opened.
fn open_fill_positions(fills: &Vec<Fill>, order: &Order) -> (r: Option<Vec<Position>>)
    ensures
        match r {
            Some(ps) => positions_computable(fills@, *order) && fill_positions(ps@, fills@, *order),
            None => !positions_computable(fills@, *order),
        },
{
    let mut ps: Vec<Position> = Vec::new();
    let mut k: usize = 0;
    while k < fills.len()
        invariant
            k <= fills@.len(),
            ps@.len() == 2 * k,
            forall|j: int|
                0 <= j < k ==> {
                    &&& margin_spec((#[trigger] fills@[j]).quantity, fills@[j].price, order.leverage) is Some
                    &&& margin_spec(fills@[j].quantity, fills@[j].price, fills@[j].maker.leverage) is Some
                },
            forall|j: int|
                0 <= j < k ==> {
                    &&& (#[trigger] ps@[2 * j]).opened_as(
                        order.symbol@,
                        fills@[j].quantity,
                        fills@[j].price,
                        order.leverage,
                        order.ordertype,
                        order.userid@,
                    )
                    &&& ps@[2 * j + 1].opened_as(
                        fills@[j].maker.symbol@,
                        fills@[j].quantity,
                        fills@[j].price,
                        fills@[j].maker.leverage,
                        fills@[j].maker.ordertype,
                        fills@[j].maker.userid@,
                    )
                },
        decreases fills@.len() - k,
    {
        let f = &fills[k];
        let taker = match Position::new(
            order.symbol.clone(),
            f.quantity,
            f.price,
            order.leverage,
            order.ordertype,
            order.userid.clone(),
        ) {
            Some(p) => p,
            None => {
                assert(!positions_computable(fills@, *order)) by {
                    assert(margin_spec(fills@[k as int].quantity, fills@[k as int].price, order.leverage) is None);
                }
                return None;
            },
        };
        let maker = match Position::new(
            f.maker.symbol.clone(),
            f.quantity,
            f.price,
            f.maker.leverage,
            f.maker.ordertype,
            f.maker.userid.clone(),
        ) {
            Some(p) => p,
            None => {
                assert(!positions_computable(fills@, *order)) by {
                    assert(margin_spec(fills@[k as int].quantity, fills@[k as int].price, fills@[k as int].maker.leverage) is None);
                }
                return None;
            },
        };
        let ghost ps0 = ps@;
        ps.push(taker);
        ps.push(maker);
        assert forall|j: int| 0 <= j < k + 1 implies (#[trigger] ps@[2 * j]) == (if j < k {
            ps0[2 * j]
        } else {
            taker
        }) && ps@[2 * j + 1] == (if j < k {
            ps0[2 * j + 1]
        } else {
            maker
        }) by {}
        k = k + 1;
    }
    Some(ps)
}

/// Records a trade for every fill of `order`, returning their events.
fn record_trades(trades: &mut Trades, fills: &Vec<Fill>, order: &Order) -> (events: Vec<TradeEvent>)
    ensures
        ({
            let n0 = old(trades).log().len();
            &&& final(trades).log().len() == n0 + fills@.len()
            &&& final(trades).log().take(n0 as int) == old(trades).log()
            &&& forall|k: int| 0 <= k < fills@.len() ==> trade_of(#[trigger] final(trades).log()[n0 + k], fills@[k], *order)
            &&& events@ == events_of(final(trades).log().skip(n0 as int))
        }),
{
    let ghost log0 = trades.log();
    let mut events: Vec<TradeEvent> = Vec::new();
    let mut k: usize = 0;
    assert(trades.log().take(log0.len() as int) =~= log0);
    assert(events_of(trades.log().skip(log0.len() as int)) =~= events@);
    while k < fills.len()
        invariant
            k <= fills@.len(),
            trades.log().len() == log0.len() + k,
            trades.log().take(log0.len() as int) == log0,
            forall|j: int| 0 <= j < k ==> trade_of(#[trigger] trades.log()[log0.len() + j], fills@[j], *order),
            events@ == events_of(trades.log().skip(log0.len() as int)),
        decreases fills@.len() - k,
    {
        let f = &fills[k];
        let trade = match order.ordertype {
            Ordertype::Buy => Trade::new(
                f.price,
                f.quantity,
                order.userid.clone(),
                f.maker.userid.clone(),
                order.symbol.clone(),
            ),
            Ordertype::Sell => Trade::new(
                f.price,
                f.quantity,
                f.maker.userid.clone(),
                order.userid.clone(),
                order.symbol.clone(),
            ),
        };
        let ghost log1 = trades.log();
        let ghost tr = trade;
        assert(trade_of(tr, fills@[k as int], *order));
        let event = trades.add_new_trades(trade);
        events.push(event);
        assert(trades.log().take(log0.len() as int) =~= log1.take(log0.len() as int));
        assert(trades.log().skip(log0.len() as int) =~= log1.skip(log0.len() as int).push(tr));
        assert(events_of(trades.log().skip(log0.len() as int)) =~= events_of(log1.skip(log0.len() as int)).push(
            tr.event_of(),
        ));
        assert(trades.log()[log0.len() + k] == tr);
        assert forall|j: int| 0 <= j < k implies #[trigger] trades.log()[log0.len() + j] == log1[log0.len() + j] by {}
        k = k + 1;
    }
    events
}

/// Opens the positions `ps` in order.
fn open_positions(positions: &mut Positions, ps: &Vec<Position>)
    ensures
        final(positions)@ == open_all(old(positions)@, ps@),
{
    let ghost pv0 = positions@;
    let mut k: usize = 0;
    assert(ps@.skip(0) =~= ps@);
    while k < ps.len()
        invariant
            k <= ps@.len(),
            open_all(pv0, ps@) == open_all(positions@, ps@.skip(k as int)),
        decreases ps@.len() - k,
    {
        assert(ps@.skip(k as int)[0] == ps@[k as int]);
        assert(ps@.skip(k as int).drop_first() =~= ps@.skip(k as int + 1));
        positions.open_position(ps[k].duplicate());
        k = k + 1;
    }
    assert(ps@.skip(ps@.len() as int) =~= Seq::<Position>::empty());
}

/// Each execution opens a long and a short of the same quantity at the same
/// price: for an order matched against a well-formed side, the two positions
/// of every fill are on opposite sides, for the fill's quantity and price.
pub proof fn lemma_fills_open_opposite_positions(
    levels: Seq<(Dec, Seq<Order>)>,
    order: Order,
    ps: Seq<Position>,
)
    requires
        side_wf(levels, opposite(order.ordertype)),
        fill_positions(ps, match_levels(levels, order.ordertype, order.price, order.quantity).fills, order),
    ensures
        ({
            let f = match_levels(levels, order.ordertype, order.price, order.quantity).fills;
            forall|k: int|
                0 <= k < f.len() ==> {
                    &&& (#[trigger] ps[2 * k]).side == order.ordertype
                    &&& ps[2 * k + 1].side == opposite(order.ordertype)
                    &&& ps[2 * k].quantity == f[k].quantity
                    &&& ps[2 * k + 1].quantity == f[k].quantity
                    &&& ps[2 * k].entry_price == f[k].price
                    &&& ps[2 * k + 1].entry_price == f[k].price
                }
        }),
{
    lemma_price_time_priority(levels, order.ordertype, order.price, order.quantity);
    let f = match_levels(levels, order.ordertype, order.price, order.quantity).fills;
    assert forall|k: int| 0 <= k < f.len() implies {
        &&& (#[trigger] ps[2 * k]).side == order.ordertype
        &&& ps[2 * k + 1].side == opposite(order.ordertype)
    } by {
        assert(f[k].maker.ordertype == opposite(order.ordertype));
    }
}

/// The best bid is below the best ask, when both sides have orders.
pub open spec fn uncrossed(bids: Seq<(Dec, Seq<Order>)>, asks: Seq<(Dec, Seq<Order>)>) -> bool {
    bids.len() == 0 || asks.len() == 0 || value_lt(bids[0].0, asks[0].0)
}

/// The book of a `side` order, seen from that side: its own levels `own`
/// and the opposite `opp` do not cross.
pub open spec fn apart(own: Seq<(Dec, Seq<Order>)>, opp: Seq<(Dec, Seq<Order>)>, side: Ordertype) -> bool {
    own.len() == 0 || opp.len() == 0 || better(side, opp[0].0, own[0].0)
}

/// Placing an order leaves at the head either the old head or the order's
/// own level.
proof fn lemma_place_head(levels: Seq<(Dec, Seq<Order>)>, o: Order, side: Ordertype)
    ensures
        place(levels, o, side).len() > 0,
        place(levels, o, side)[0].0 == o.price || (levels.len() > 0 && place(levels, o, side)[0].0 == levels[0].0),
    decreases levels.len(),
{
}

/// After matching, the book still does not cross: when nothing rests, the
/// opposite side only lost levels; when the order rests, the opposite side
/// starts at a level that did not cross its limit.
proof fn lemma_stays_uncrossed(
    own0: Seq<(Dec, Seq<Order>)>,
    opp0: Seq<(Dec, Seq<Order>)>,
    own1: Seq<(Dec, Seq<Order>)>,
    opp1: Seq<(Dec, Seq<Order>)>,
    side: Ordertype,
    limit: Dec,
    left: Dec,
    n: int,
    lk: Seq<(Dec, Seq<Order>)>,
)
    requires
        side_wf(opp0, opposite(side)),
        apart(own0, opp0, side),
        0 <= n <= opp0.len(),
        opp1 == lk + opp0.skip(n),
        forall|a: int| 0 <= a < opp1.len() ==> exists|b: int| 0 <= b < opp0.len() && (#[trigger] opp1[a]).0 == opp0[b].0,
        !is_pos(left) ==> own1 == own0,
        is_pos(left) ==> lk.len() == 0 && (n == opp0.len() || !crosses(side, opp0[n].0, limit)),
        is_pos(left) ==> exists|o: Order| o.price == limit && own1 == place(own0, o, side),
    ensures
        apart(own1, opp1, side),
{
    if own1.len() > 0 && opp1.len() > 0 {
        if !is_pos(left) {
            let b = choose|b: int| 0 <= b < opp0.len() && opp1[0].0 == opp0[b].0;
            if b > 0 {
                assert(better(opposite(side), opp0[0].0, opp0[b].0));
                lemma_flip(side, opp0[0].0, opp0[b].0);
                lemma_better_trans(side, opp0[b].0, opp0[0].0, own0[0].0);
            }
        } else {
            let o = choose|o: Order| o.price == limit && own1 == place(own0, o, side);
            lemma_place_head(own0, o, side);
            assert(opp1 =~= opp0.skip(n));
            assert(opp1[0] == opp0[n]);
            lemma_flip_cross(side, opp0[n].0, limit);
            if own1[0].0 != o.price {
                if n > 0 {
                    assert(better(opposite(side), opp0[0].0, opp0[n].0));
                    lemma_flip(side, opp0[0].0, opp0[n].0);
                    lemma_better_trans(side, opp0[n].0, opp0[0].0, own0[0].0);
                }
            }
        }
    }
}

/// Coming first on the opposite side is coming last on this one.
proof fn lemma_flip(side: Ordertype, a: Dec, b: Dec)
    ensures
        better(opposite(side), a, b) <==> better(side, b, a),
{
}

/// A level that does not cross a limit is better, on the taker's side, than
/// that limit.
proof fn lemma_flip_cross(side: Ordertype, p: Dec, limit: Dec)
    ensures
        !crosses(side, p, limit) <==> better(side, p, limit),
{
}

/// `o` is what rests of the incoming `order` with `rem` unfilled.
pub open spec fn rests_as(o: Order, order: Order, rem: Dec) -> bool {
    &&& o.price == order.price
    &&& o.quantity == rem
    &&& o.ordertype == order.ordertype
    &&& o.leverage == order.leverage
    &&& o.symbol == order.symbol
    &&& o.userid == order.userid
}

/// What matching `order` does: `b0`, `t0`, `p0` are the book, the trade log
/// and the positions before, `b1`, `t1`, `p1` after, and `r` the result.
/// On error nothing changed, and either the matching or the opening of a
/// position failed. Otherwise the opposite side is what matching leaves, the
/// unfilled rest (if any) rests on the order's side, one trade per fill is
/// appended to the log and its events returned, and the fills' positions
/// are opened.
pub open spec fn match_effect(
    b0: OrderBook,
    b1: OrderBook,
    t0: Seq<Trade>,
    t1: Seq<Trade>,
    p0: PositionsView,
    p1: PositionsView,
    order: Order,
    r: Result<Seq<TradeEvent>, MatchError>,
) -> bool {
    let side = order.ordertype;
    let m = match_levels(b0.side(opposite(side)), side, order.price, order.quantity);
    let n0 = t0.len();
    match r {
        Err(_) => {
            &&& !(m.ok && positions_computable(m.fills, order))
            &&& b1.bids() == b0.bids()
            &&& b1.asks() == b0.asks()
            &&& t1 == t0
            &&& p1 == p0
        },
        Ok(events) => {
            &&& m.ok
            &&& positions_computable(m.fills, order)
            &&& b1.side(opposite(side)) == m.levels
            &&& !is_pos(m.remaining) ==> b1.side(side) == b0.side(side)
            &&& is_pos(m.remaining) ==> exists|o: Order|
                rests_as(o, order, m.remaining) && b1.side(side) == place(b0.side(side), o, side)
            &&& t1.len() == n0 + m.fills.len()
            &&& t1.take(n0 as int) == t0
            &&& forall|k: int| 0 <= k < m.fills.len() ==> trade_of(#[trigger] t1[n0 + k], m.fills[k], order)
            &&& events == events_of(t1.skip(n0 as int))
            &&& exists|ps: Seq<Position>| fill_positions(ps, m.fills, order) && p1 == open_all(p0, ps)
        },
    }
}

/// The events of trades, in order.
pub open spec fn events_of(ts: Seq<Trade>) -> Seq<TradeEvent> {
    ts.map_values(|t: Trade| t.event_of())
}

impl OrderBook {
    /// Replaces the first `n` levels of the side opposite `order` by `kept`,
    /// and rests `left` of the order on its own side when it is positive.
    fn commit_match(&mut self, n: usize, kept: Vec<Level>, left: Dec, order: Order)
        requires
            n <= old(self).side(opposite(order.ordertype)).len(),
            side_wf(levels_of(kept@) + old(self).side(opposite(order.ordertype)).skip(n as int), opposite(order.ordertype)),
        ensures
            final(self).wf(),
            final(self).side(opposite(order.ordertype)) == levels_of(kept@) + old(self).side(
                opposite(order.ordertype),
            ).skip(n as int),
            !is_pos(left) ==> final(self).side(order.ordertype) == old(self).side(order.ordertype),
            is_pos(left) ==> exists|o: Order|
                rests_as(o, order, left) && final(self).side(order.ordertype) == place(
                    old(self).side(order.ordertype),
                    o,
                    order.ordertype,
                ),
    {
        proof {
            use_type_invariant(&*self);
        }
        let side = order.ordertype;
        let mut this = OrderBook::new();
        std::mem::swap(self, &mut this);
        let OrderBook { mut bid, mut ask } = this;
        let ghost old_bid = levels_of(bid@);
        let ghost old_ask = levels_of(ask@);
        match side {
            Ordertype::Buy => {
                let mut rest = ask.split_off(n);
                let mut newside = kept;
                newside.append(&mut rest);
                ask = newside;
                assert(levels_of(ask@) =~= levels_of(kept@) + old_ask.skip(n as int));
            },
            Ordertype::Sell => {
                let mut rest = bid.split_off(n);
                let mut newside = kept;
                newside.append(&mut rest);
                bid = newside;
                assert(levels_of(bid@) =~= levels_of(kept@) + old_bid.skip(n as int));
            },
        }
        if left.is_positive() {
            let ghost o0 = order;
            let rest_order = Order::new(order.price, left, order.ordertype, order.leverage, order.userid, order.symbol);
            let ghost w = rest_order;
            assert(rests_as(w, o0, left));
            match side {
                Ordertype::Buy => {
                    place_in(&mut bid, rest_order, side);
                },
                Ordertype::Sell => {
                    place_in(&mut ask, rest_order, side);
                },
            }
            *self = OrderBook { bid, ask };
            assert(final(self).side(side) == place(old(self).side(side), w, side));
        } else {
            *self = OrderBook { bid, ask };
        }
    }

    /// Matches an incoming order against the opposite side with price-time
    /// priority, records a trade and two positions (the incoming order's,
    /// then the resting order's) per execution, and rests what is left of
    /// the order on its own side. Returns the events of the new trades.
    /// When a quantity or a margin cannot be computed nothing changes and
    /// the error is returned.
    pub fn matching_engine(&mut self, order: Order, trades: &mut Trades, positions: &mut Positions) -> (r: Result<
        Vec<TradeEvent>,
        MatchError,
    >)
        ensures
            final(self).wf(),
            match_effect(
                *old(self),
                *final(self),
                old(trades).log(),
                final(trades).log(),
                old(positions)@,
                final(positions)@,
                order,
                match r {
                    Ok(events) => Ok(events@),
                    Err(e) => Err(e),
                },
            ),
            r is Ok && uncrossed(old(self).bids(), old(self).asks()) ==> uncrossed(
                final(self).bids(),
                final(self).asks(),
            ),
            r is Ok && positive_levels(old(self).bids()) && positive_levels(old(self).asks()) ==> positive_levels(
                final(self).bids(),
            ) && positive_levels(final(self).asks()),
            r is Ok && (exists|s: nat|
                #[trigger] levels_fit(old(self).side(opposite(order.ordertype)), s) && fits_at(order.quantity, s))
                ==> {
                let m = match_levels(
                    old(self).side(opposite(order.ordertype)),
                    order.ordertype,
                    order.price,
                    order.quantity,
                );
                units(order.quantity) == units(m.remaining) + filled_units(m.fills)
            },
    {
        proof {
            use_type_invariant(&*self);
        }
        let side = order.ordertype;
        let ghost resting = opposite(side);
        let ghost s = choose|s: nat| #[trigger] levels_fit(old(self).side(resting), s) && fits_at(order.quantity, s);
        let matched = match side {
            Ordertype::Buy => match_side(&self.ask, side, order.price, order.quantity, Ghost(s)),
            Ordertype::Sell => match_side(&self.bid, side, order.price, order.quantity, Ghost(s)),
        };
        assert(levels_of(self.ask@) == self.asks());
        assert(levels_of(self.bid@) == self.bids());
        let ghost m = match_levels(old(self).side(resting), side, order.price, order.quantity);
        let order_copy = order.duplicate();
        let (n, kept, fills, left) = match matched {
            Some(x) => x,
            None => return Err(MatchError::ArithmeticOverflow),
        };
        // Open every position first, so that a failure changes nothing.
        let ps = match open_fill_positions(&fills, &order) {
            Some(ps) => ps,
            None => return Err(MatchError::ArithmeticOverflow),
        };
        // Commit: the book.
        proof {
            lemma_match_levels_wf(old(self).side(resting), side, order.price, order.quantity);
        }
        let ghost lk = levels_of(kept@);
        let ghost kept_len = kept@.len();
        let ghost own0 = self.side(side);
        let ghost opp0 = self.side(resting);
        self.commit_match(n, kept, left, order);
        proof {
            if uncrossed(old(self).bids(), old(self).asks()) {
                lemma_stays_uncrossed(
                    own0,
                    opp0,
                    self.side(side),
                    self.side(resting),
                    side,
                    order.price,
                    left,
                    n as int,
                    lk,
                );
                match side {
                    Ordertype::Buy => {},
                    Ordertype::Sell => {},
                }
            }
            if positive_levels(own0) && positive_levels(opp0) {
                lemma_match_levels_positive(opp0, side, order.price, order.quantity);
                assert(self.side(resting) == m.levels);
                if is_pos(left) {
                    let o = choose|o: Order| rests_as(o, order, left) && self.side(side) == place(own0, o, side);
                    lemma_place_positive(own0, o, side);
                }
                match side {
                    Ordertype::Buy => {},
                    Ordertype::Sell => {},
                }
            }
        }
        // The trades, their events, and the positions.
        let events = record_trades(trades, &fills, &order_copy);
        open_positions(positions, &ps);
        Ok(events)

    }
}

/// Every resting order of the side has a positive quantity.
pub open spec fn positive_levels(levels: Seq<(Dec, Seq<Order>)>) -> bool {
    forall|i: int, j: int|
        0 <= i < levels.len() && 0 <= j < levels[i].1.len() ==> is_pos((#[trigger] levels[i].1[j]).quantity)
}

/// The orders kept at a level after matching all have positive quantities.
proof fn lemma_kept_positive(orders: Seq<Order>, rem: Dec, price: Dec)
    ensures
        ({
            let k = match_orders(orders, rem, price).kept;
            forall|j: int| 0 <= j < k.len() ==> is_pos((#[trigger] k[j]).quantity)
        }),
    decreases orders.len(),
{
    if orders.len() > 0 {
        let tail = orders.drop_first();
        lemma_kept_positive(tail, rem, price);
        if is_pos(rem) {
            let t = min_spec(rem, orders[0].quantity);
            match (sub_spec(rem, t), sub_spec(orders[0].quantity, t)) {
                (Some(r2), Some(q2)) => {
                    lemma_kept_positive(tail, r2, price);
                    let k = match_orders(orders, rem, price).kept;
                    let kt = match_orders(tail, r2, price).kept;
                    assert forall|j: int| 0 <= j < k.len() implies is_pos((#[trigger] k[j]).quantity) by {
                        if is_pos(q2) && j > 0 {
                            assert(k[j] == kt[j - 1]);
                        }
                    }
                },
                _ => {},
            }
        } else {
            let k = match_orders(orders, rem, price).kept;
            let kt = match_orders(tail, rem, price).kept;
            assert forall|j: int| 0 <= j < k.len() implies is_pos((#[trigger] k[j]).quantity) by {
                if is_pos(orders[0].quantity) && j > 0 {
                    assert(k[j] == kt[j - 1]);
                }
            }
        }
    }
}

/// Matching against a side whose resting quantities are positive leaves
/// them positive.
proof fn lemma_match_levels_positive(levels: Seq<(Dec, Seq<Order>)>, side: Ordertype, limit: Dec, rem: Dec)
    requires
        positive_levels(levels),
    ensures
        positive_levels(match_levels(levels, side, limit, rem).levels),
    decreases levels.len(),
{
    if levels.len() > 0 && crosses(side, levels[0].0, limit) && is_pos(rem) {
        let m = match_orders(levels[0].1, rem, levels[0].0);
        if m.ok {
            let tail = levels.drop_first();
            assert forall|i: int, j: int| 0 <= i < tail.len() && 0 <= j < tail[i].1.len() implies is_pos(
                (#[trigger] tail[i].1[j]).quantity,
            ) by {
                assert(tail[i] == levels[i + 1]);
            }
            lemma_match_levels_positive(tail, side, limit, m.remaining);
            lemma_kept_positive(levels[0].1, rem, levels[0].0);
            let rt = match_levels(tail, side, limit, m.remaining).levels;
            let r = match_levels(levels, side, limit, rem).levels;
            assert forall|i: int, j: int| 0 <= i < r.len() && 0 <= j < r[i].1.len() implies is_pos(
                (#[trigger] r[i].1[j]).quantity,
            ) by {
                if m.kept.len() > 0 {
                    if i == 0 {
                        assert(r[0].1 == m.kept);
                    } else {
                        assert(r[i] == rt[i - 1]);
                    }
                } else {
                    assert(r[i] == rt[i]);
                }
            }
        }
    }
}

/// Placing an order of positive quantity keeps every resting quantity
/// positive.
proof fn lemma_place_positive(levels: Seq<(Dec, Seq<Order>)>, o: Order, side: Ordertype)
    requires
        positive_levels(levels),
        is_pos(o.quantity),
    ensures
        positive_levels(place(levels, o, side)),
    decreases levels.len(),
{
    let r = place(levels, o, side);
    if levels.len() == 0 {
        assert forall|i: int, j: int| 0 <= i < r.len() && 0 <= j < r[i].1.len() implies is_pos(
            (#[trigger] r[i].1[j]).quantity,
        ) by {
            assert(r[0].1 == seq![o]);
        }
    } else if value_eq(levels[0].0, o.price) {
        assert forall|i: int, j: int| 0 <= i < r.len() && 0 <= j < r[i].1.len() implies is_pos(
            (#[trigger] r[i].1[j]).quantity,
        ) by {
            if i == 0 {
                assert(r[0].1 == levels[0].1.push(o));
                if j < levels[0].1.len() {
                    assert(r[0].1[j] == levels[0].1[j]);
                }
            } else {
                assert(r[i] == levels[i]);
            }
        }
    } else if better(side, o.price, levels[0].0) {
        assert forall|i: int, j: int| 0 <= i < r.len() && 0 <= j < r[i].1.len() implies is_pos(
            (#[trigger] r[i].1[j]).quantity,
        ) by {
            if i == 0 {
                assert(r[0].1 == seq![o]);
            } else {
                assert(r[i] == levels[i - 1]);
            }
        }
    } else {
        let tail = levels.drop_first();
        assert forall|i: int, j: int| 0 <= i < tail.len() && 0 <= j < tail[i].1.len() implies is_pos(
            (#[trigger] tail[i].1[j]).quantity,
        ) by {
            assert(tail[i] == levels[i + 1]);
        }
        lemma_place_positive(tail, o, side);
        let rt = place(tail, o, side);
        assert forall|i: int, j: int| 0 <= i < r.len() && 0 <= j < r[i].1.len() implies is_pos(
            (#[trigger] r[i].1[j]).quantity,
        ) by {
            if i == 0 {
                assert(r[0] == levels[0]);
            } else {
                assert(r[i] == rt[i - 1]);
            }
        }
    }
}

/// Every fill of a level is at the level's price, against one of its orders.
proof fn lemma_level_fills(orders: Seq<Order>, rem: Dec, price: Dec)
    ensures
        ({
            let f = match_orders(orders, rem, price).fills;
            forall|k: int| 0 <= k < f.len() ==> (#[trigger] f[k]).price == price && orders.contains(f[k].maker)
        }),
    decreases orders.len(),
{
    if orders.len() > 0 {
        let tail = orders.drop_first();
        lemma_level_fills(tail, rem, price);
        if is_pos(rem) {
            let t = min_spec(rem, orders[0].quantity);
            match (sub_spec(rem, t), sub_spec(orders[0].quantity, t)) {
                (Some(r2), Some(q2)) => {
                    lemma_level_fills(tail, r2, price);
                    let f = match_orders(orders, rem, price).fills;
                    let ft = match_orders(tail, r2, price).fills;
                    assert forall|k: int| 0 <= k < f.len() implies (#[trigger] f[k]).price == price && orders.contains(
                        f[k].maker,
                    ) by {
                        if k == 0 {
                            assert(orders[0] == f[0].maker);
                        } else {
                            assert(f[k] == ft[k - 1]);
                            let j = choose|j: int| 0 <= j < tail.len() && tail[j] == ft[k - 1].maker;
                            assert(orders[j + 1] == tail[j]);
                        }
                    }
                },
                _ => {},
            }
        }
    }
}

/// Price-time priority: an incoming order never trades through its limit,
/// it trades only with resting orders of the other side, each at the price
/// of the level it rests at, and it takes the best prices first: a later
/// fill is never at a better price than an earlier one.
pub proof fn lemma_price_time_priority(levels: Seq<(Dec, Seq<Order>)>, side: Ordertype, limit: Dec, rem: Dec)
    requires
        side_wf(levels, opposite(side)),
    ensures
        ({
            let f = match_levels(levels, side, limit, rem).fills;
            &&& forall|k: int| 0 <= k < f.len() ==> crosses(side, (#[trigger] f[k]).price, limit)
            &&& forall|k: int|
                0 <= k < f.len() ==> (#[trigger] f[k]).maker.ordertype == opposite(side) && value_eq(
                    f[k].maker.price,
                    f[k].price,
                )
            &&& forall|i: int, j: int|
                0 <= i < j < f.len() ==> !better(opposite(side), #[trigger] f[j].price, #[trigger] f[i].price)
            &&& forall|k: int| 0 <= k < f.len() ==> exists|b: int| 0 <= b < levels.len() && (#[trigger] f[k]).price == levels[b].0
        }),
    decreases levels.len(),
{
    let rs = opposite(side);
    if levels.len() > 0 && crosses(side, levels[0].0, limit) && is_pos(rem) {
        let m = match_orders(levels[0].1, rem, levels[0].0);
        if m.ok {
            let tail = levels.drop_first();
            assert(side_wf(tail, rs)) by {
                assert forall|a: int, b: int| 0 <= a < b < tail.len() implies better(rs, #[trigger] tail[a].0, #[trigger] tail[b].0) by {
                    assert(tail[a] == levels[a + 1]);
                    assert(tail[b] == levels[b + 1]);
                }
                assert forall|a: int| 0 <= a < tail.len() implies (#[trigger] tail[a]).1.len() > 0 by {
                    assert(tail[a] == levels[a + 1]);
                }
                assert forall|a: int, b: int|
                    0 <= a < tail.len() && 0 <= b < tail[a].1.len() implies (#[trigger] tail[a].1[b]).ordertype == rs
                    && value_eq(tail[a].1[b].price, tail[a].0) by {
                    assert(tail[a] == levels[a + 1]);
                }
            }
            lemma_price_time_priority(tail, side, limit, m.remaining);
            lemma_level_fills(levels[0].1, rem, levels[0].0);
            let fl = m.fills;
            let ft = match_levels(tail, side, limit, m.remaining).fills;
            let f = match_levels(levels, side, limit, rem).fills;
            assert(f == fl + ft);
            assert forall|k: int| 0 <= k < ft.len() implies better(rs, levels[0].0, (#[trigger] ft[k]).price) by {
                let b = choose|b: int| 0 <= b < tail.len() && ft[k].price == tail[b].0;
                assert(tail[b] == levels[b + 1]);
            }
            assert forall|k: int| 0 <= k < f.len() implies crosses(side, (#[trigger] f[k]).price, limit) by {
                if k >= fl.len() {
                    assert(f[k] == ft[k - fl.len()]);
                }
            }
            assert forall|k: int|
                0 <= k < f.len() implies (#[trigger] f[k]).maker.ordertype == rs && value_eq(f[k].maker.price, f[k].price) by {
                if k >= fl.len() {
                    assert(f[k] == ft[k - fl.len()]);
                } else {
                    let j = choose|j: int| 0 <= j < levels[0].1.len() && levels[0].1[j] == fl[k].maker;
                    assert(levels[0].1[j].ordertype == rs);
                }
            }
            assert forall|i: int, j: int| 0 <= i < j < f.len() implies !better(rs, #[trigger] f[j].price, #[trigger] f[i].price) by {
                if j < fl.len() {
                    lemma_value_order_trans(levels[0].0, levels[0].0, levels[0].0);
                } else if i < fl.len() {
                    assert(f[j] == ft[j - fl.len()]);
                    lemma_better_excludes(rs, levels[0].0, ft[j - fl.len()].price);
                } else {
                    assert(f[j] == ft[j - fl.len()]);
                    assert(f[i] == ft[i - fl.len()]);
                }
            }
            assert forall|k: int| 0 <= k < f.len() implies exists|b: int| 0 <= b < levels.len() && (#[trigger] f[k]).price == levels[b].0 by {
                if k >= fl.len() {
                    assert(f[k] == ft[k - fl.len()]);
                    let b = choose|b: int| 0 <= b < tail.len() && ft[k - fl.len()].price == tail[b].0;
                    assert(tail[b] == levels[b + 1]);
                } else {
                    assert(f[k].price == levels[0].0);
                }
            }
        }
    }
}


/// The mid price averages the highest bid and the lowest ask: when both
/// sides have orders, it is `(a + b) / 2` for the price `b` of a bid level
/// that no bid level is above, and the price `a` of an ask level that no ask
/// level is below.
pub proof fn lemma_midprice_best_prices(book: OrderBook)
    requires
        book.wf(),
        book.bids().len() > 0,
        book.asks().len() > 0,
    ensures
        exists|i: int, j: int|
            #![trigger book.bids()[i], book.asks()[j]]
            {
                &&& 0 <= i < book.bids().len()
                &&& 0 <= j < book.asks().len()
                &&& forall|k: int| 0 <= k < book.bids().len() ==> value_le(#[trigger] book.bids()[k].0, book.bids()[i].0)
                &&& forall|k: int| 0 <= k < book.asks().len() ==> value_le(book.asks()[j].0, #[trigger] book.asks()[k].0)
                &&& midprice_spec(book.bids(), book.asks()) == match add_spec(book.asks()[j].0, book.bids()[i].0) {
                    Some(sum) => div_spec(sum, Dec::build(2, 0)),
                    None => None,
                }
            },
{
    let bids = book.bids();
    let asks = book.asks();
    assert forall|k: int| 0 <= k < bids.len() implies value_le(#[trigger] bids[k].0, bids[0].0) by {
        if k > 0 {
            assert(better(Ordertype::Buy, bids[0].0, bids[k].0));
        }
    }
    assert forall|k: int| 0 <= k < asks.len() implies value_le(asks[0].0, #[trigger] asks[k].0) by {
        if k > 0 {
            assert(better(Ordertype::Sell, asks[0].0, asks[k].0));
        }
    }
    assert(bids[0] == book.bids()[0] && asks[0] == book.asks()[0]);
}

} // verus!
