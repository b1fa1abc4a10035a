//! Isolated-margin positions: margin, unrealized profit and loss, equity,
//! the margin ratio that decides liquidation, and the book of all positions.
use crate::decimal::{
    add_spec, div_spec, is_neg, is_pos, lemma_pow10_pos, lemma_value_order_trans, mul_spec, pow10,
    sub_spec, value_le, value_lt, Dec,
};
use crate::ext::new_id;
use crate::order::Ordertype;
use crate::text::text_eq;
use vstd::hash_map::StringHashMap;
use vstd::prelude::*;

verus! {

/// Margin locked by a position: `quantity * price / leverage`.
pub open spec fn margin_spec(quantity: Dec, price: Dec, leverage: Dec) -> Option<Dec> {
    match mul_spec(quantity, price) {
        Some(notional) => div_spec(notional, leverage),
        None => None,
    }
}

/// Profit of `quantity` entered at `entry` and valued at `mark`: a long
/// gains `(mark - entry) * quantity`, a short `(entry - mark) * quantity`.
pub open spec fn pnl_spec(side: Ordertype, entry: Dec, mark: Dec, quantity: Dec) -> Option<Dec> {
    let diff = match side {
        Ordertype::Buy => sub_spec(mark, entry),
        Ordertype::Sell => sub_spec(entry, mark),
    };
    match diff {
        Some(d) => mul_spec(d, quantity),
        None => None,
    }
}

/// The maintenance rate used for the liquidation price: 0.005.
pub open spec fn maintenance_rate() -> Dec {
    Dec::build(5, 3)
}

/// A value of at most zero is at most any value of at least zero.
proof fn lemma_nonpositive_below(a: Dec, b: Dec)
    requires
        !is_pos(a),
        !is_neg(b),
    ensures
        value_le(a, b),
{
    lemma_pow10_pos(a.scl());
    lemma_pow10_pos(b.scl());
    let pa = pow10(a.scl());
    let pb = pow10(b.scl());
    let (x, y) = (a.mant(), b.mant());
    assert(x * pb <= 0) by (nonlinear_arith)
        requires
            x <= 0,
            pb > 0,
    ;
    assert(y * pa >= 0) by (nonlinear_arith)
        requires
            y >= 0,
            pa > 0,
    ;
}

/// One position of one user.
pub struct Position {
    pub positionid: String,
    pub userid: String,
    pub symbol: String,
    pub side: Ordertype,
    pub quantity: Dec,
    pub entry_price: Dec,
    pub leverage: Dec,
    pub margin: Dec,
    pub un_pnl: Dec,
    pub real_pnl: Dec,
    pub liquidated: bool,
    pub equity: Dec,
}

impl Position {
    /// `self` is a position just opened with these terms: margin locked,
    /// no profit yet, zero equity, not liquidated.
    pub open spec fn opened_as(
        self,
        symbol: Seq<char>,
        quantity: Dec,
        entry_price: Dec,
        leverage: Dec,
        side: Ordertype,
        userid: Seq<char>,
    ) -> bool {
        &&& self.userid@ == userid
        &&& self.symbol@ == symbol
        &&& self.side == side
        &&& self.quantity == quantity
        &&& self.entry_price == entry_price
        &&& self.leverage == leverage
        &&& margin_spec(quantity, entry_price, leverage) == Some(self.margin)
        &&& self.un_pnl == Dec::build(0, 0)
        &&& self.real_pnl == Dec::build(0, 0)
        &&& self.equity == Dec::build(0, 0)
        &&& !self.liquidated
    }

    /// Opens a position with a fresh identifier. `None` when the margin
    /// cannot be computed (the leverage is zero or the arithmetic overflows).
    pub fn new(
        symbol: String,
        quantity: Dec,
        entry_price: Dec,
        leverage: Dec,
        side: Ordertype,
        userid: String,
    ) -> (r: Option<Position>)
        ensures
            r is Some <==> margin_spec(quantity, entry_price, leverage) is Some,
            r matches Some(p) ==> p.opened_as(symbol@, quantity, entry_price, leverage, side, userid@)
                && p.positionid@.len() == 21,
    {
        let notional = match quantity.checked_mul(&entry_price) {
            Some(v) => v,
            None => return None,
        };
        let margin = match notional.checked_div(&leverage) {
            Some(v) => v,
            None => return None,
        };
        Some(
            Position {
                positionid: new_id(),
                userid,
                symbol,
                quantity,
                entry_price,
                leverage,
                un_pnl: Dec::zero(),
                real_pnl: Dec::zero(),
                margin,
                liquidated: false,
                side,
                equity: Dec::zero(),
            },
        )
    }

    /// A field-for-field copy.
    pub fn duplicate(&self) -> (r: Position)
        ensures
            r == *self,
    {
        Position {
            positionid: self.positionid.clone(),
            userid: self.userid.clone(),
            symbol: self.symbol.clone(),
            side: self.side,
            quantity: self.quantity,
            entry_price: self.entry_price,
            leverage: self.leverage,
            margin: self.margin,
            un_pnl: self.un_pnl,
            real_pnl: self.real_pnl,
            liquidated: self.liquidated,
            equity: self.equity,
        }
    }

    /// The position revalued at `mark`: unrealized profit from the entry
    /// price and `equity = margin + un_pnl`.
    pub open spec fn marked(self, mark: Dec) -> Option<Position> {
        match pnl_spec(self.side, self.entry_price, mark, self.quantity) {
            Some(pnl) => match add_spec(self.margin, pnl) {
                Some(equity) => Some(Position { un_pnl: pnl, equity, ..self }),
                None => None,
            },
            None => None,
        }
    }

    /// Revalues the position at `markprice`. Returns `false`, leaving the
    /// position as it was, when the arithmetic overflows.
    pub fn update_unrealized_pnl(&mut self, markprice: Dec) -> (ok: bool)
        ensures
            match old(self).marked(markprice) {
                Some(p) => ok && *final(self) == p,
                None => !ok && *final(self) == *old(self),
            },
    {
        let diff = match self.side {
            Ordertype::Buy => markprice.checked_sub(&self.entry_price),
            Ordertype::Sell => self.entry_price.checked_sub(&markprice),
        };
        let diff = match diff {
            Some(d) => d,
            None => return false,
        };
        let pnl = match diff.checked_mul(&self.quantity) {
            Some(v) => v,
            None => return false,
        };
        let equity = match self.margin.checked_add(&pnl) {
            Some(v) => v,
            None => return false,
        };
        self.un_pnl = pnl;
        self.equity = equity;
        true
    }

    /// The margin ratio `equity / margin`.
    pub open spec fn margin_ratio_spec(self) -> Option<Dec> {
        div_spec(self.equity, self.margin)
    }

    /// The equity is gone while margin is locked: the margin ratio is at
    /// most zero.
    pub open spec fn bankrupt(self) -> bool {
        !is_pos(self.equity) && is_pos(self.margin)
    }

    /// The margin ratio; `None` when the margin is zero or the division
    /// overflows. A position whose equity is gone has a ratio of at most
    /// zero.
    pub fn margin_ratio(&self) -> (r: Option<Dec>)
        ensures
            r == self.margin_ratio_spec(),
            self.bankrupt() ==> (r matches Some(ratio) ==> !is_pos(ratio)),
    {
        self.equity.checked_div(&self.margin)
    }

    /// Whether the position must be liquidated: it is still open, its margin
    /// ratio can be computed, and the ratio is at most
    /// `maintenance_margin_ratio`. `None` when the ratio cannot be computed.
    ///
    /// The ratio is only named, so the case where the equity is gone is
    /// spelled out: there the ratio is at most zero, so such a position is
    /// liquidatable under any threshold that is not negative.
    pub open spec fn liquidatable_spec(self, maintenance_margin_ratio: Dec) -> Option<bool> {
        if self.liquidated {
            Some(false)
        } else {
            match self.margin_ratio_spec() {
                Some(r) => Some(
                    value_le(r, maintenance_margin_ratio) || (self.bankrupt() && !is_neg(
                        maintenance_margin_ratio,
                    )),
                ),
                None => None,
            }
        }
    }

    /// Whether the position must be liquidated.
    pub fn isliquidatable(&self, maintenance_margin_ratio: Dec) -> (r: Option<bool>)
        ensures
            r == self.liquidatable_spec(maintenance_margin_ratio),
    {
        if self.liquidated {
            return Some(false);
        }
        match self.margin_ratio() {
            Some(ratio) => {
                proof {
                    if self.bankrupt() && !is_neg(maintenance_margin_ratio) {
                        lemma_nonpositive_below(ratio, maintenance_margin_ratio);
                    }
                }
                Some(ratio.le(&maintenance_margin_ratio))
            },
            None => None,
        }
    }

    /// The price at which the margin, less the maintenance rate, is used up:
    /// `entry -/+ margin * (1 - 0.005) / quantity` for a long/short.
    pub open spec fn liquidation_price_spec(self) -> Option<Dec> {
        match sub_spec(Dec::build(1, 0), maintenance_rate()) {
            Some(keep) => match mul_spec(self.margin, keep) {
                Some(exit) => match div_spec(exit, self.quantity) {
                    Some(per_unit) => match self.side {
                        Ordertype::Buy => sub_spec(self.entry_price, per_unit),
                        Ordertype::Sell => add_spec(self.entry_price, per_unit),
                    },
                    None => None,
                },
                None => None,
            },
            None => None,
        }
    }

    /// The liquidation price; `None` when the quantity is zero or the
    /// arithmetic overflows.
    pub fn liquidation_price(&self) -> (r: Option<Dec>)
        ensures
            r == self.liquidation_price_spec(),
    {
        let rate = Dec::new(5, 3).unwrap();
        let keep = match Dec::one().checked_sub(&rate) {
            Some(v) => v,
            None => return None,
        };
        let exit = match self.margin.checked_mul(&keep) {
            Some(v) => v,
            None => return None,
        };
        let per_unit = match exit.checked_div(&self.quantity) {
            Some(v) => v,
            None => return None,
        };
        match self.side {
            Ordertype::Buy => self.entry_price.checked_sub(&per_unit),
            Ordertype::Sell => self.entry_price.checked_add(&per_unit),
        }
    }
}

/// A position queued for a liquidation check, with its margin ratio at the
/// time it was queued.
pub struct LiquidationCandidate {
    pub positionid: String,
    pub userid: String,
    pub symbol: String,
    pub margin_ratio: Dec,
}

/// The candidate made from `p` with margin ratio `ratio`.
pub open spec fn candidate_of(p: Position, ratio: Dec) -> LiquidationCandidate {
    LiquidationCandidate {
        positionid: p.positionid,
        userid: p.userid,
        symbol: p.symbol,
        margin_ratio: ratio,
    }
}

impl LiquidationCandidate {
    /// The candidate for `position`; `None` when its margin ratio cannot be
    /// computed.
    pub fn new(position: &Position) -> (r: Option<LiquidationCandidate>)
        ensures
            match position.margin_ratio_spec() {
                Some(ratio) => r == Some(candidate_of(*position, ratio)),
                None => r is None,
            },
    {
        let margin_ratio = match position.margin_ratio() {
            Some(v) => v,
            None => return None,
        };
        Some(
            LiquidationCandidate {
                userid: position.userid.clone(),
                symbol: position.symbol.clone(),
                margin_ratio,
                positionid: position.positionid.clone(),
            },
        )
    }
}

/// What is reported of a liquidated position.
pub struct LiquidatedPosition {
    pub positionid: String,
    pub userid: String,
    pub symbol: String,
    pub side: Ordertype,
    pub quantity: Dec,
    pub entry_price: Dec,
    pub liquidation_price: Dec,
    /// The equity left in the position when it was liquidated.
    pub loss: Dec,
    pub margin_lost: Dec,
    pub leverage: Dec,
}

/// The report for `p` liquidated at `price`.
pub open spec fn report_of(p: Position, price: Dec) -> LiquidatedPosition {
    LiquidatedPosition {
        positionid: p.positionid,
        userid: p.userid,
        symbol: p.symbol,
        side: p.side,
        quantity: p.quantity,
        entry_price: p.entry_price,
        leverage: p.leverage,
        liquidation_price: price,
        loss: p.equity,
        margin_lost: p.margin,
    }
}

/// `p` after liquidation: closed, with no quantity and no equity.
pub open spec fn wiped(p: Position) -> Position {
    Position { liquidated: true, quantity: Dec::build(0, 0), equity: Dec::build(0, 0), ..p }
}

/// Candidates ordered by margin ratio, lowest (riskiest) first.
pub open spec fn ratio_sorted(q: Seq<LiquidationCandidate>) -> bool {
    forall|i: int, j: int|
        0 <= i < j < q.len() ==> value_le(#[trigger] q[i].margin_ratio, #[trigger] q[j].margin_ratio)
}

/// `c` queued after every candidate whose ratio is not above its own, as a
/// priority queue keyed by margin ratio does.
pub open spec fn enqueue(q: Seq<LiquidationCandidate>, c: LiquidationCandidate) -> Seq<
    LiquidationCandidate,
>
    decreases q.len(),
{
    if q.len() == 0 {
        seq![c]
    } else if value_lt(c.margin_ratio, q[0].margin_ratio) {
        seq![c] + q
    } else {
        seq![q[0]] + enqueue(q.drop_first(), c)
    }
}

/// The abstract state of the position book.
pub struct PositionsView {
    /// Every position by its identifier.
    pub table: Map<Seq<char>, Position>,
    /// The identifiers in the order the positions were opened.
    pub order: Seq<Seq<char>>,
    /// Candidates awaiting a liquidation check, riskiest first.
    pub queue: Seq<LiquidationCandidate>,
    /// For each user, the identifiers of the positions opened for them.
    pub by_user: Map<Seq<char>, Seq<Seq<char>>>,
    /// The margin ratio at or below which a position is liquidated: 0.01.
    pub maintenance_margin_ratio: Dec,
}

/// The book after opening `p`.
pub open spec fn with_opened(v: PositionsView, p: Position) -> PositionsView {
    let k = p.positionid@;
    let u = p.userid@;
    let mine = if v.by_user.contains_key(u) {
        v.by_user[u]
    } else {
        Seq::<Seq<char>>::empty()
    };
    PositionsView {
        table: v.table.insert(k, p),
        order: if v.table.contains_key(k) {
            v.order
        } else {
            v.order.push(k)
        },
        by_user: v.by_user.insert(u, mine.push(k)),
        ..v
    }
}

/// The book after revaluing position `k` at `mark`, when it is an open
/// position of `symbol`: its profit and equity are updated (unless the
/// arithmetic overflows), and it is queued when it must be liquidated.
pub open spec fn revalue_one(v: PositionsView, k: Seq<char>, symbol: Seq<char>, mark: Dec) -> PositionsView {
    let p = v.table[k];
    if p.symbol@ == symbol && !p.liquidated {
        match p.marked(mark) {
            Some(p2) => {
                let table = v.table.insert(k, p2);
                if p2.liquidatable_spec(v.maintenance_margin_ratio) == Some(true) {
                    match p2.margin_ratio_spec() {
                        Some(ratio) => PositionsView {
                            table,
                            queue: enqueue(v.queue, candidate_of(p2, ratio)),
                            ..v
                        },
                        None => PositionsView { table, ..v },
                    }
                } else {
                    PositionsView { table, ..v }
                }
            },
            None => v,
        }
    } else {
        v
    }
}

/// The book after revaluing the positions `keys`, in that order.
pub open spec fn revalue_all(v: PositionsView, keys: Seq<Seq<char>>, symbol: Seq<char>, mark: Dec) -> PositionsView
    decreases keys.len(),
{
    if keys.len() == 0 {
        v
    } else {
        revalue_all(revalue_one(v, keys[0], symbol, mark), keys.drop_first(), symbol, mark)
    }
}

/// Handling one candidate: its position, if it still must be liquidated and
/// its liquidation price can be computed, is wiped and reported.
pub open spec fn liquidate_one(v: PositionsView, c: LiquidationCandidate) -> (PositionsView, Seq<
    LiquidatedPosition,
>) {
    let k = c.positionid@;
    if v.table.contains_key(k) && v.table[k].liquidatable_spec(v.maintenance_margin_ratio) == Some(
        true,
    ) {
        let p = v.table[k];
        match p.liquidation_price_spec() {
            Some(price) => (
                PositionsView { table: v.table.insert(k, wiped(p)), ..v },
                seq![report_of(p, price)],
            ),
            None => (v, Seq::empty()),
        }
    } else {
        (v, Seq::empty())
    }
}

/// Handling the candidates `cs` in order; the reports in that order.
pub open spec fn liquidate_all(v: PositionsView, cs: Seq<LiquidationCandidate>) -> (PositionsView, Seq<
    LiquidatedPosition,
>)
    decreases cs.len(),
{
    if cs.len() == 0 {
        (v, Seq::empty())
    } else {
        let (v1, r1) = liquidate_one(v, cs[0]);
        let (v2, r2) = liquidate_all(v1, cs.drop_first());
        (v2, r1 + r2)
    }
}

/// The book of all positions.
pub struct Positions {
    positions: StringHashMap<Position>,
    ids: Vec<String>,
    liquidation_queue: Vec<LiquidationCandidate>,
    user_position: StringHashMap<Vec<String>>,
    maintenance_margin_ratio: Dec,
}

/// The views of a sequence of strings.
pub open spec fn views(s: Seq<String>) -> Seq<Seq<char>> {
    s.map_values(|x: String| x@)
}

impl View for Positions {
    type V = PositionsView;

    closed spec fn view(&self) -> PositionsView {
        parts_view(
            self.positions,
            self.ids@,
            self.liquidation_queue@,
            self.user_position,
            self.maintenance_margin_ratio,
        )
    }
}

/// The abstract state made of the book's parts.
closed spec fn parts_view(
    positions: StringHashMap<Position>,
    ids: Seq<String>,
    queue: Seq<LiquidationCandidate>,
    user_position: StringHashMap<Vec<String>>,
    mmr: Dec,
) -> PositionsView {
    PositionsView {
        table: positions@,
        order: views(ids),
        queue,
        by_user: user_position@.map_values(|v: Vec<String>| views(v@)),
        maintenance_margin_ratio: mmr,
    }
}

/// Revaluing one position keeps the order, the owners, the ratio threshold,
/// the set of positions and their identifiers, and the queue sorted.
proof fn lemma_revalue_one_keeps(v: PositionsView, k: Seq<char>, symbol: Seq<char>, mark: Dec)
    requires
        book_wf(v),
        v.table.contains_key(k),
    ensures
        ({
            let r = revalue_one(v, k, symbol, mark);
            &&& r.order == v.order
            &&& r.by_user == v.by_user
            &&& r.maintenance_margin_ratio == v.maintenance_margin_ratio
            &&& r.table.dom() == v.table.dom()
            &&& book_wf(r)
        }),
{
    let p = v.table[k];
    if p.symbol@ == symbol && !p.liquidated {
        match p.marked(mark) {
            Some(p2) => {
                assert(v.table.insert(k, p2).dom() =~= v.table.dom());
                if p2.liquidatable_spec(v.maintenance_margin_ratio) == Some(true) {
                    match p2.margin_ratio_spec() {
                        Some(ratio) => {
                            lemma_enqueue_sorted(v.queue, candidate_of(p2, ratio));
                        },
                        None => {},
                    }
                }
            },
            None => {},
        }
    }
}

/// Revaluing positions keeps the order, owners and threshold.
proof fn lemma_revalue_all_keeps(v: PositionsView, keys: Seq<Seq<char>>, symbol: Seq<char>, mark: Dec)
    requires
        book_wf(v),
        forall|i: int| 0 <= i < keys.len() ==> v.table.contains_key(#[trigger] keys[i]),
    ensures
        ({
            let r = revalue_all(v, keys, symbol, mark);
            &&& r.order == v.order
            &&& r.by_user == v.by_user
            &&& r.maintenance_margin_ratio == v.maintenance_margin_ratio
            &&& r.table.dom() == v.table.dom()
            &&& book_wf(r)
        }),
    decreases keys.len(),
{
    if keys.len() > 0 {
        lemma_revalue_one_keeps(v, keys[0], symbol, mark);
        let v1 = revalue_one(v, keys[0], symbol, mark);
        assert forall|i: int| 0 <= i < keys.drop_first().len() implies v1.table.contains_key(
            #[trigger] keys.drop_first()[i],
        ) by {
            assert(keys.drop_first()[i] == keys[i + 1]);
        }
        lemma_revalue_all_keeps(v1, keys.drop_first(), symbol, mark);
    }
}

/// Handling candidates keeps the order, owners, threshold, queue, the set of
/// positions and their identifiers.
proof fn lemma_liquidate_all_keeps(v: PositionsView, cs: Seq<LiquidationCandidate>)
    requires
        book_wf(v),
    ensures
        ({
            let r = liquidate_all(v, cs).0;
            &&& r.order == v.order
            &&& r.by_user == v.by_user
            &&& r.queue == v.queue
            &&& r.maintenance_margin_ratio == v.maintenance_margin_ratio
            &&& r.table.dom() == v.table.dom()
            &&& book_wf(r)
        }),
    decreases cs.len(),
{
    if cs.len() > 0 {
        let v1 = liquidate_one(v, cs[0]).0;
        let k = cs[0].positionid@;
        if v.table.contains_key(k) {
            assert(v.table.insert(k, wiped(v.table[k])).dom() =~= v.table.dom());
        }
        lemma_liquidate_all_keeps(v1, cs.drop_first());
    }
}

/// The result of closing position `k` at `price`: its profit and the closed
/// position, or `None` when it does not exist, is already closed, has no
/// positive quantity, or the arithmetic overflows.
pub open spec fn close_spec(v: PositionsView, k: Seq<char>, price: Dec) -> Option<(Dec, Position)> {
    if !v.table.contains_key(k) {
        None
    } else {
        let p = v.table[k];
        if p.liquidated || !is_pos(p.quantity) {
            None
        } else {
            match pnl_spec(p.side, p.entry_price, price, p.quantity) {
                Some(pnl) => match add_spec(p.margin, pnl) {
                    Some(equity) => Some(
                        (pnl, Position { quantity: Dec::build(0, 0), liquidated: true, equity, ..p }),
                    ),
                    None => None,
                },
                None => None,
            }
        }
    }
}

/// The positions filed under the identifiers `ks` that exist, in that order.
pub open spec fn present(table: Map<Seq<char>, Position>, ks: Seq<Seq<char>>) -> Seq<Position>
    decreases ks.len(),
{
    if ks.len() == 0 {
        Seq::empty()
    } else if table.contains_key(ks[0]) {
        seq![table[ks[0]]] + present(table, ks.drop_first())
    } else {
        present(table, ks.drop_first())
    }
}

/// All positions opened for user `u`, in the order they were opened.
pub open spec fn user_positions(v: PositionsView, u: Seq<char>) -> Seq<Position> {
    if v.by_user.contains_key(u) {
        present(v.table, v.by_user[u])
    } else {
        Seq::empty()
    }
}

/// A position is active when it is not closed and has positive quantity.
pub open spec fn is_active(p: Position) -> bool {
    !p.liquidated && is_pos(p.quantity)
}

/// The active positions among `ps`, in order.
pub open spec fn active(ps: Seq<Position>) -> Seq<Position>
    decreases ps.len(),
{
    if ps.len() == 0 {
        Seq::empty()
    } else if is_active(ps[0]) {
        seq![ps[0]] + active(ps.drop_first())
    } else {
        active(ps.drop_first())
    }
}

/// `acc` plus the values `xs`, added left to right as `Sum` does; `None`
/// when an addition overflows.
pub open spec fn sum_from(acc: Dec, xs: Seq<Dec>) -> Option<Dec>
    decreases xs.len(),
{
    if xs.len() == 0 {
        Some(acc)
    } else {
        match add_spec(acc, xs[0]) {
            Some(a) => sum_from(a, xs.drop_first()),
            None => None,
        }
    }
}

/// The margins of `ps`.
pub open spec fn margins(ps: Seq<Position>) -> Seq<Dec> {
    ps.map_values(|p: Position| p.margin)
}

/// The unrealized profits of `ps`.
pub open spec fn profits(ps: Seq<Position>) -> Seq<Dec> {
    ps.map_values(|p: Position| p.un_pnl)
}

/// Adds up `xs` starting from zero.
fn sum_decs(xs: &Vec<Dec>) -> (r: Option<Dec>)
    ensures
        r == sum_from(Dec::build(0, 0), xs@),
{
    let mut acc = Dec::zero();
    let mut i: usize = 0;
    assert(xs@.skip(0) =~= xs@);
    while i < xs.len()
        invariant
            i <= xs@.len(),
            sum_from(Dec::build(0, 0), xs@) == sum_from(acc, xs@.skip(i as int)),
        decreases xs@.len() - i,
    {
        assert(xs@.skip(i as int)[0] == xs@[i as int]);
        assert(xs@.skip(i as int).drop_first() =~= xs@.skip(i as int + 1));
        match acc.checked_add(&xs[i]) {
            Some(a) => {
                acc = a;
            },
            None => {
                return None;
            },
        }
        i = i + 1;
    }
    assert(xs@.skip(xs@.len() as int) =~= Seq::<Dec>::empty());
    Some(acc)
}

/// The order lists each position once, and each position is filed under
/// its own identifier.
pub open spec fn book_wf(v: PositionsView) -> bool {
    &&& v.order.no_duplicates()
    &&& forall|k: Seq<char>| #[trigger] v.table.contains_key(k) <==> v.order.contains(k)
    &&& forall|k: Seq<char>| #[trigger] v.table.contains_key(k) ==> v.table[k].positionid@ == k
    &&& ratio_sorted(v.queue)
}

/// A copy of a list of strings.
fn copy_strings(v: &Vec<String>) -> (r: Vec<String>)
    ensures
        r@ == v@,
{
    let mut r: Vec<String> = Vec::new();
    let mut i: usize = 0;
    while i < v.len()
        invariant
            i <= v@.len(),
            r@ == v@.take(i as int),
        decreases v@.len() - i,
    {
        r.push(v[i].clone());
        assert(v@.take(i as int + 1) == v@.take(i as int).push(v@[i as int]));
        i = i + 1;
    }
    assert(v@.take(v@.len() as int) == v@);
    r
}

/// Enqueuing keeps the queue sorted by ratio.
proof fn lemma_enqueue_sorted(q: Seq<LiquidationCandidate>, c: LiquidationCandidate)
    requires
        ratio_sorted(q),
    ensures
        ratio_sorted(enqueue(q, c)),
        enqueue(q, c).len() == q.len() + 1,
        forall|x: LiquidationCandidate| #[trigger] enqueue(q, c).contains(x) ==> x == c || q.contains(x),
    decreases q.len(),
{
    if q.len() == 0 {
    } else if value_lt(c.margin_ratio, q[0].margin_ratio) {
        let r = seq![c] + q;
        assert forall|i: int, j: int| 0 <= i < j < r.len() implies value_le(
            #[trigger] r[i].margin_ratio,
            #[trigger] r[j].margin_ratio,
        ) by {
            if i == 0 {
                lemma_value_order_trans(c.margin_ratio, q[0].margin_ratio, q[j - 1].margin_ratio);
                if j - 1 > 0 {
                    assert(value_le(q[0].margin_ratio, q[j - 1].margin_ratio));
                }
                lemma_value_order_trans(c.margin_ratio, q[0].margin_ratio, q[0].margin_ratio);
                lemma_value_order_trans(q[0].margin_ratio, q[0].margin_ratio, q[0].margin_ratio);
            } else {
                assert(r[i] == q[i - 1]);
                assert(r[j] == q[j - 1]);
            }
        }
        assert forall|x: LiquidationCandidate| #[trigger] r.contains(x) implies x == c || q.contains(x) by {
            let i = choose|i: int| 0 <= i < r.len() && r[i] == x;
            if i > 0 {
                assert(q[i - 1] == x);
            }
        }
    } else {
        let rest = q.drop_first();
        assert(ratio_sorted(rest)) by {
            assert forall|i: int, j: int| 0 <= i < j < rest.len() implies value_le(
                #[trigger] rest[i].margin_ratio,
                #[trigger] rest[j].margin_ratio,
            ) by {
                assert(rest[i] == q[i + 1]);
                assert(rest[j] == q[j + 1]);
            }
        }
        lemma_enqueue_sorted(rest, c);
        let e = enqueue(rest, c);
        let r = seq![q[0]] + e;
        lemma_value_order_trans(q[0].margin_ratio, c.margin_ratio, c.margin_ratio);
        assert(value_le(q[0].margin_ratio, c.margin_ratio));
        assert forall|i: int, j: int| 0 <= i < j < r.len() implies value_le(
            #[trigger] r[i].margin_ratio,
            #[trigger] r[j].margin_ratio,
        ) by {
            if i == 0 {
                let y = r[j];
                assert(y == e[j - 1]);
                assert(e.contains(y));
                if y != c {
                    assert(rest.contains(y));
                    let t = choose|t: int| 0 <= t < rest.len() && rest[t] == y;
                    assert(q[t + 1] == y);
                }
            } else {
                assert(r[i] == e[i - 1]);
                assert(r[j] == e[j - 1]);
            }
        }
        assert forall|x: LiquidationCandidate| #[trigger] r.contains(x) implies x == c || q.contains(x) by {
            let i = choose|i: int| 0 <= i < r.len() && r[i] == x;
            if i > 0 {
                assert(e[i - 1] == x);
                assert(e.contains(x));
                if x != c {
                    let t = choose|t: int| 0 <= t < rest.len() && rest[t] == x;
                    assert(q[t + 1] == x);
                }
            }
        }
    }
}

/// Queues `c` by its margin ratio.
fn enqueue_exec(q: &mut Vec<LiquidationCandidate>, c: LiquidationCandidate)
    ensures
        final(q)@ == enqueue(old(q)@, c),
{
    let mut i: usize = 0;
    while i < q.len()
        invariant
            i <= q@.len(),
            q@ == old(q)@,
            forall|j: int| 0 <= j < i ==> !value_lt(c.margin_ratio, #[trigger] q@[j].margin_ratio),
        ensures
            i <= q@.len(),
            q@ == old(q)@,
            forall|j: int| 0 <= j < i ==> !value_lt(c.margin_ratio, #[trigger] q@[j].margin_ratio),
            i < q@.len() ==> value_lt(c.margin_ratio, q@[i as int].margin_ratio),
        decreases q@.len() - i,
    {
        if c.margin_ratio.lt(&q[i].margin_ratio) {
            break;
        }
        i = i + 1;
    }
    proof {
        lemma_enqueue_at(q@, c, i as int);
    }
    q.insert(i, c);
}

/// Enqueuing inserts before the first candidate with a higher ratio.
proof fn lemma_enqueue_at(q: Seq<LiquidationCandidate>, c: LiquidationCandidate, i: int)
    requires
        0 <= i <= q.len(),
        forall|j: int| 0 <= j < i ==> !value_lt(c.margin_ratio, #[trigger] q[j].margin_ratio),
        i < q.len() ==> value_lt(c.margin_ratio, q[i].margin_ratio),
    ensures
        enqueue(q, c) == q.insert(i, c),
    decreases q.len(),
{
    if q.len() == 0 {
        assert(q.insert(i, c) =~= seq![c]);
    } else if i == 0 {
        assert(q.insert(0, c) =~= seq![c] + q);
    } else {
        let rest = q.drop_first();
        assert forall|j: int| 0 <= j < i - 1 implies !value_lt(c.margin_ratio, #[trigger] rest[j].margin_ratio) by {
            assert(rest[j] == q[j + 1]);
        }
        if i - 1 < rest.len() {
            assert(rest[i - 1] == q[i]);
        }
        lemma_enqueue_at(rest, c, i - 1);
        assert(!value_lt(c.margin_ratio, q[0].margin_ratio));
        assert(q.insert(i, c) =~= seq![q[0]] + rest.insert(i - 1, c));
    }
}

impl Positions {
    #[verifier::type_invariant]
    spec fn inv(self) -> bool {
        book_wf(self@)
    }

    /// An empty book with maintenance margin ratio 0.01.
    pub fn new() -> (r: Positions)
        ensures
            book_wf(r@),
            r@.table == Map::<Seq<char>, Position>::empty(),
            r@.order == Seq::<Seq<char>>::empty(),
            r@.queue == Seq::<LiquidationCandidate>::empty(),
            r@.by_user == Map::<Seq<char>, Seq<Seq<char>>>::empty(),
            r@.maintenance_margin_ratio == Dec::build(1, 2),
    {
        let r = Positions {
            positions: StringHashMap::new(),
            liquidation_queue: Vec::new(),
            maintenance_margin_ratio: Dec::new(1, 2).unwrap(),
            user_position: StringHashMap::new(),
            ids: Vec::new(),
        };
        assert(r@.by_user =~= Map::<Seq<char>, Seq<Seq<char>>>::empty());
        assert(r@.order =~= Seq::<Seq<char>>::empty());
        r
    }

    /// Revalues every open position of `symbol` at `markprice`, in the order
    /// the positions were opened, and queues each that must be liquidated.
    /// A position whose profit cannot be computed (overflow) is left as it
    /// was.
    pub fn update_all_position(&mut self, symbol: &str, markprice: Dec)
        ensures
            book_wf(final(self)@),
            final(self)@ == revalue_all(old(self)@, old(self)@.order, symbol@, markprice),
    {
        proof {
            use_type_invariant(&*self);
        }
        let mut this = Positions::new();
        std::mem::swap(self, &mut this);
        let Positions { mut positions, ids, mut liquidation_queue, user_position, maintenance_margin_ratio } = this;
        let ghost v0 = old(self)@;
        assert(v0 == parts_view(positions, ids@, liquidation_queue@, user_position, maintenance_margin_ratio));
        assert(v0.order.skip(0) =~= v0.order);
        let mut i: usize = 0;
        while i < ids.len()
            invariant
                views(ids@) == v0.order,
                i <= ids@.len(),
                book_wf(parts_view(positions, ids@, liquidation_queue@, user_position, maintenance_margin_ratio)),
                positions@.dom() == v0.table.dom(),
                parts_view(positions, ids@, liquidation_queue@, user_position, maintenance_margin_ratio).by_user == v0.by_user,
                maintenance_margin_ratio == v0.maintenance_margin_ratio,
                revalue_all(v0, v0.order, symbol@, markprice) == revalue_all(
                    parts_view(positions, ids@, liquidation_queue@, user_position, maintenance_margin_ratio),
                    v0.order.skip(i as int),
                    symbol@,
                    markprice,
                ),
            decreases ids@.len() - i,
        {
            let ghost cur = parts_view(positions, ids@, liquidation_queue@, user_position, maintenance_margin_ratio);
            let ghost k = ids@[i as int]@;
            assert(v0.order[i as int] == k);
            assert(v0.order.contains(k));
            assert(v0.order.skip(i as int)[0] == k);
            assert(v0.order.skip(i as int).drop_first() =~= v0.order.skip(i as int + 1));
            let upd: Option<(Position, Option<LiquidationCandidate>)> = match positions.get(ids[i].as_str()) {
                Some(p) => {
                    if text_eq(p.symbol.as_str(), symbol) && !p.liquidated {
                        let mut p2 = p.duplicate();
                        if p2.update_unrealized_pnl(markprice) {
                            let cand = match p2.isliquidatable(maintenance_margin_ratio) {
                                Some(true) => LiquidationCandidate::new(&p2),
                                _ => None,
                            };
                            Some((p2, cand))
                        } else {
                            None
                        }
                    } else {
                        None
                    }
                },
                None => None,
            };
            proof {
                lemma_revalue_one_keeps(cur, k, symbol@, markprice);
            }
            match upd {
                Some((p2, cand)) => {
                    positions.insert(ids[i].clone(), p2);
                    match cand {
                        Some(c) => {
                            enqueue_exec(&mut liquidation_queue, c);
                        },
                        None => {},
                    }
                },
                None => {},
            }
            assert(parts_view(positions, ids@, liquidation_queue@, user_position, maintenance_margin_ratio)
                == revalue_one(cur, k, symbol@, markprice));
            i = i + 1;
        }
        assert(v0.order.skip(ids@.len() as int) =~= Seq::<Seq<char>>::empty());
        *self = Positions { positions, ids, liquidation_queue, user_position, maintenance_margin_ratio };
    }

    /// Checks the queued candidates, riskiest first, and liquidates each
    /// position that still must be: it is closed with no quantity and no
    /// equity, and reported. A candidate whose position is gone, no longer
    /// liquidatable, or whose liquidation price cannot be computed is
    /// dropped. The queue is left empty.
    pub fn process_liquidation(&mut self) -> (r: Vec<LiquidatedPosition>)
        ensures
            book_wf(final(self)@),
            final(self)@ == (PositionsView {
                queue: Seq::empty(),
                ..liquidate_all(old(self)@, old(self)@.queue).0
            }),
            r@ == liquidate_all(old(self)@, old(self)@.queue).1,
    {
        proof {
            use_type_invariant(&*self);
        }
        let mut this = Positions::new();
        std::mem::swap(self, &mut this);
        let Positions { mut positions, ids, liquidation_queue, user_position, maintenance_margin_ratio } = this;
        let ghost v0 = old(self)@;
        assert(v0 == parts_view(positions, ids@, liquidation_queue@, user_position, maintenance_margin_ratio));
        assert(v0.queue.skip(0) =~= v0.queue);
        let mut out: Vec<LiquidatedPosition> = Vec::new();
        let mut i: usize = 0;
        while i < liquidation_queue.len()
            invariant
                liquidation_queue@ == v0.queue,
                views(ids@) == v0.order,
                i <= liquidation_queue@.len(),
                book_wf(parts_view(positions, ids@, liquidation_queue@, user_position, maintenance_margin_ratio)),
                parts_view(positions, ids@, liquidation_queue@, user_position, maintenance_margin_ratio).by_user == v0.by_user,
                maintenance_margin_ratio == v0.maintenance_margin_ratio,
                liquidate_all(v0, v0.queue).0 == liquidate_all(
                    parts_view(positions, ids@, liquidation_queue@, user_position, maintenance_margin_ratio),
                    v0.queue.skip(i as int),
                ).0,
                liquidate_all(v0, v0.queue).1 == out@ + liquidate_all(
                    parts_view(positions, ids@, liquidation_queue@, user_position, maintenance_margin_ratio),
                    v0.queue.skip(i as int),
                ).1,
            decreases liquidation_queue@.len() - i,
        {
            let ghost cur = parts_view(positions, ids@, liquidation_queue@, user_position, maintenance_margin_ratio);
            let ghost c = v0.queue[i as int];
            assert(v0.queue.skip(i as int)[0] == c);
            assert(v0.queue.skip(i as int).drop_first() =~= v0.queue.skip(i as int + 1));
            let cand = &liquidation_queue[i];
            let rec: Option<(Position, LiquidatedPosition)> = match positions.get(cand.positionid.as_str()) {
                Some(p) => match p.isliquidatable(maintenance_margin_ratio) {
                    Some(true) => match p.liquidation_price() {
                        Some(price) => {
                            let report = LiquidatedPosition {
                                positionid: p.positionid.clone(),
                                userid: p.userid.clone(),
                                symbol: p.symbol.clone(),
                                side: p.side,
                                quantity: p.quantity,
                                entry_price: p.entry_price,
                                leverage: p.leverage,
                                liquidation_price: price,
                                loss: p.equity,
                                margin_lost: p.margin,
                            };
                            let mut w = p.duplicate();
                            w.liquidated = true;
                            w.quantity = Dec::zero();
                            w.equity = Dec::zero();
                            Some((w, report))
                        },
                        None => None,
                    },
                    _ => None,
                },
                None => None,
            };
            let ghost out0 = out@;
            match rec {
                Some((w, report)) => {
                    positions.insert(cand.positionid.clone(), w);
                    out.push(report);
                },
                None => {},
            }
            proof {
                let (v1, r1) = liquidate_one(cur, c);
                assert(parts_view(positions, ids@, liquidation_queue@, user_position, maintenance_margin_ratio) == v1);
                assert(out@ == out0 + r1);
                lemma_liquidate_all_keeps(cur, seq![c]);
                assert(seq![c].drop_first() =~= Seq::<LiquidationCandidate>::empty());
                let rest = v0.queue.skip(i as int + 1);
                assert(liquidate_all(cur, v0.queue.skip(i as int)).1 == r1 + liquidate_all(v1, rest).1);
                assert(out0 + (r1 + liquidate_all(v1, rest).1) =~= (out0 + r1) + liquidate_all(v1, rest).1);
            }
            i = i + 1;
        }
        assert(v0.queue.skip(liquidation_queue@.len() as int) =~= Seq::<LiquidationCandidate>::empty());
        assert(out@ + Seq::<LiquidatedPosition>::empty() =~= out@);
        let empty: Vec<LiquidationCandidate> = Vec::new();
        *self = Positions { positions, ids, liquidation_queue: empty, user_position, maintenance_margin_ratio };
        out
    }

    /// Opens a position for a trade and files it under a fresh identifier,
    /// which it returns. `None`, with nothing changed, when the margin cannot
    /// be computed.
    pub fn add_position(
        &mut self,
        userid: String,
        symbol: String,
        side: Ordertype,
        quantity: Dec,
        trade_price: Dec,
        leverage: Dec,
    ) -> (r: Option<String>)
        ensures
            book_wf(final(self)@),
            match r {
                Some(id) => {
                    &&& margin_spec(quantity, trade_price, leverage) is Some
                    &&& id@.len() == 21
                    &&& final(self)@.table[id@].opened_as(symbol@, quantity, trade_price, leverage, side, userid@)
                    &&& final(self)@ == with_opened(old(self)@, final(self)@.table[id@])
                },
                None => margin_spec(quantity, trade_price, leverage) is None && final(self)@ == old(self)@,
            },
    {
        proof {
            use_type_invariant(&*self);
        }
        let position = match Position::new(symbol, quantity, trade_price, leverage, side, userid) {
            Some(p) => p,
            None => return None,
        };
        let positionid = position.positionid.clone();
        let ghost p = position;
        self.open_position(position);
        assert(final(self)@.table[positionid@] == p);
        Some(positionid)
    }

    /// The position filed under `position_id`.
    pub fn get_position(&self, position_id: &str) -> (r: Option<&Position>)
        ensures
            match r {
                Some(p) => self@.table.contains_key(position_id@) && *p == self@.table[position_id@],
                None => !self@.table.contains_key(position_id@),
            },
    {
        self.positions.get(position_id)
    }

    /// All positions opened for a user, in the order they were opened.
    pub fn get_user_positions(&self, userid: &str) -> (r: Vec<Position>)
        ensures
            r@ == user_positions(self@, userid@),
    {
        let mut out: Vec<Position> = Vec::new();
        match self.user_position.get(userid) {
            Some(position_ids) => {
                let ghost ks = views(position_ids@);
                assert(self@.by_user[userid@] == ks);
                assert(ks.skip(0) =~= ks);
                let mut i: usize = 0;
                while i < position_ids.len()
                    invariant
                        i <= position_ids@.len(),
                        ks == views(position_ids@),
                        present(self.positions@, ks) == out@ + present(self.positions@, ks.skip(i as int)),
                    decreases position_ids@.len() - i,
                {
                    assert(ks.skip(i as int)[0] == position_ids@[i as int]@);
                    assert(ks.skip(i as int).drop_first() =~= ks.skip(i as int + 1));
                    let ghost out0 = out@;
                    match self.positions.get(position_ids[i].as_str()) {
                        Some(p) => {
                            out.push(p.duplicate());
                            assert(out0 + present(self.positions@, ks.skip(i as int)) =~= out@ + present(
                                self.positions@,
                                ks.skip(i as int + 1),
                            ));
                        },
                        None => {},
                    }
                    i = i + 1;
                }
                assert(ks.skip(position_ids@.len() as int) =~= Seq::<Seq<char>>::empty());
                assert(out@ + Seq::<Position>::empty() =~= out@);
            },
            None => {},
        }
        out
    }

    /// The active (open, positive quantity) positions of a user, in the order
    /// they were opened.
    pub fn get_active_positions(&self, userid: &str) -> (r: Vec<Position>)
        ensures
            r@ == active(user_positions(self@, userid@)),
    {
        let all = self.get_user_positions(userid);
        let mut out: Vec<Position> = Vec::new();
        let mut i: usize = 0;
        assert(all@.skip(0) =~= all@);
        while i < all.len()
            invariant
                i <= all@.len(),
                all@ == user_positions(self@, userid@),
                active(all@) == out@ + active(all@.skip(i as int)),
            decreases all@.len() - i,
        {
            assert(all@.skip(i as int)[0] == all@[i as int]);
            assert(all@.skip(i as int).drop_first() =~= all@.skip(i as int + 1));
            let ghost out0 = out@;
            let p = &all[i];
            if !p.liquidated && p.quantity.is_positive() {
                out.push(p.duplicate());
                assert(out0 + active(all@.skip(i as int)) =~= out@ + active(all@.skip(i as int + 1)));
            }
            i = i + 1;
        }
        assert(all@.skip(all@.len() as int) =~= Seq::<Position>::empty());
        assert(out@ + Seq::<Position>::empty() =~= out@);
        out
    }

    /// Closes a position at `close_price`, returning its profit: the
    /// quantity becomes zero, it is marked closed, and its equity is its
    /// margin plus the profit. `None`, with nothing changed, when the
    /// position does not exist, is already closed or empty, or the
    /// arithmetic overflows.
    pub fn close_position(&mut self, position_id: &str, close_price: Dec) -> (r: Option<Dec>)
        ensures
            book_wf(final(self)@),
            match close_spec(old(self)@, position_id@, close_price) {
                Some((pnl, closed)) => r == Some(pnl) && final(self)@ == (PositionsView {
                    table: old(self)@.table.insert(position_id@, closed),
                    ..old(self)@
                }),
                None => r is None && final(self)@ == old(self)@,
            },
    {
        proof {
            use_type_invariant(&*self);
        }
        let closed = match self.positions.get(position_id) {
            Some(p) => {
                if p.liquidated || !p.quantity.is_positive() {
                    return None;
                }
                let mut q = p.duplicate();
                let pnl = match q.side {
                    Ordertype::Buy => close_price.checked_sub(&q.entry_price),
                    Ordertype::Sell => q.entry_price.checked_sub(&close_price),
                };
                let pnl = match pnl {
                    Some(d) => d.checked_mul(&q.quantity),
                    None => None,
                };
                let pnl = match pnl {
                    Some(v) => v,
                    None => return None,
                };
                let equity = match q.margin.checked_add(&pnl) {
                    Some(v) => v,
                    None => return None,
                };
                q.quantity = Dec::zero();
                q.liquidated = true;
                q.equity = equity;
                (pnl, q)
            },
            None => return None,
        };
        let (pnl, q) = closed;
        let mut this = Positions::new();
        std::mem::swap(self, &mut this);
        let Positions { mut positions, ids, liquidation_queue, user_position, maintenance_margin_ratio } = this;
        let ghost v0 = old(self)@;
        assert(v0 == parts_view(positions, ids@, liquidation_queue@, user_position, maintenance_margin_ratio));
        positions.insert(position_id.to_owned(), q);
        assert(positions@.dom() =~= v0.table.dom());
        *self = Positions { positions, ids, liquidation_queue, user_position, maintenance_margin_ratio };
        Some(pnl)
    }

    /// The total margin of a user's active positions; `None` when the sum
    /// overflows.
    pub fn get_user_total_margin(&self, userid: &str) -> (r: Option<Dec>)
        ensures
            r == sum_from(Dec::build(0, 0), margins(active(user_positions(self@, userid@)))),
    {
        let ps = self.get_active_positions(userid);
        let mut xs: Vec<Dec> = Vec::new();
        let mut i: usize = 0;
        while i < ps.len()
            invariant
                i <= ps@.len(),
                xs@ == margins(ps@.take(i as int)),
            decreases ps@.len() - i,
        {
            xs.push(ps[i].margin);
            assert(margins(ps@.take(i as int + 1)) =~= margins(ps@.take(i as int)).push(ps@[i as int].margin));
            i = i + 1;
        }
        assert(ps@.take(ps@.len() as int) =~= ps@);
        sum_decs(&xs)
    }

    /// The total unrealized profit of a user's active positions; `None`
    /// when the sum overflows.
    pub fn get_user_total_pnl(&self, userid: &str) -> (r: Option<Dec>)
        ensures
            r == sum_from(Dec::build(0, 0), profits(active(user_positions(self@, userid@)))),
    {
        let ps = self.get_active_positions(userid);
        let mut xs: Vec<Dec> = Vec::new();
        let mut i: usize = 0;
        while i < ps.len()
            invariant
                i <= ps@.len(),
                xs@ == profits(ps@.take(i as int)),
            decreases ps@.len() - i,
        {
            xs.push(ps[i].un_pnl);
            assert(profits(ps@.take(i as int + 1)) =~= profits(ps@.take(i as int)).push(ps@[i as int].un_pnl));
            i = i + 1;
        }
        assert(ps@.take(ps@.len() as int) =~= ps@);
        sum_decs(&xs)
    }

    /// Files a position that has been opened.
    pub(crate) fn open_position(&mut self, p: Position)
        ensures
            book_wf(final(self)@),
            final(self)@ == with_opened(old(self)@, p),
    {
        proof {
            use_type_invariant(&*self);
        }
        let mut this = Positions::new();
        std::mem::swap(self, &mut this);
        let Positions { mut positions, mut ids, liquidation_queue, mut user_position, maintenance_margin_ratio } = this;
        let ghost v0 = old(self)@;
        let ghost ids0 = ids@;
        let ghost up0 = user_position@;
        let id = p.positionid.clone();
        let uid = p.userid.clone();
        let known = positions.contains_key(id.as_str());
        let mut mine = match user_position.get(uid.as_str()) {
            Some(v) => copy_strings(v),
            None => Vec::new(),
        };
        let ghost mine0 = mine@;
        mine.push(id.clone());
        assert(views(mine@) =~= views(mine0).push(id@));
        user_position.insert(uid, mine);
        if !known {
            ids.push(id.clone());
            assert(views(ids@) =~= views(ids0).push(id@));
        }
        positions.insert(id, p);
        proof {
            let k0 = p.positionid@;
            let f = |v: Vec<String>| views(v@);
            assert(user_position@.map_values(f) =~= up0.map_values(f).insert(p.userid@, views(mine@)));
            let nv = PositionsView {
                table: positions@,
                order: views(ids@),
                queue: liquidation_queue@,
                by_user: user_position@.map_values(f),
                maintenance_margin_ratio,
            };
            let u = p.userid@;
            let mine_v = if v0.by_user.contains_key(u) { v0.by_user[u] } else { Seq::<Seq<char>>::empty() };
            assert(views(mine0) =~= mine_v);
            assert(nv.table == v0.table.insert(k0, p));
            assert(nv.by_user == v0.by_user.insert(u, mine_v.push(k0)));
            assert(nv == with_opened(v0, p));
            let k = p.positionid@;
            if !known {
                assert(!v0.order.contains(k));
                assert(nv.order.no_duplicates()) by {
                    assert forall|i: int, j: int| 0 <= i < j < nv.order.len() implies nv.order[i] != nv.order[j] by {
                        if j == nv.order.len() - 1 {
                            assert(nv.order[i] == v0.order[i]);
                        } else {
                            assert(nv.order[i] == v0.order[i]);
                            assert(nv.order[j] == v0.order[j]);
                        }
                    }
                }
                assert forall|k2: Seq<char>| #[trigger] nv.table.contains_key(k2) <==> nv.order.contains(k2) by {
                    if k2 == k {
                        assert(nv.order[nv.order.len() - 1] == k);
                    } else {
                        if v0.order.contains(k2) {
                            let i = choose|i: int| 0 <= i < v0.order.len() && v0.order[i] == k2;
                            assert(nv.order[i] == k2);
                        }
                        if nv.order.contains(k2) {
                            let i = choose|i: int| 0 <= i < nv.order.len() && nv.order[i] == k2;
                            assert(v0.order[i] == k2);
                        }
                    }
                }
            }
            assert(book_wf(nv));
        }
        *self = Positions { positions, ids, liquidation_queue, user_position, maintenance_margin_ratio };
    }
}

/// Positions are reported at most once and only while open: every position
/// reported by a liquidation pass was open before it and is closed after
/// it, no position is reported twice, and the reports follow the queue's
/// order, so a sorted queue is served riskiest first.
pub proof fn lemma_liquidation_once(v: PositionsView, cs: Seq<LiquidationCandidate>)
    requires
        book_wf(v),
    ensures
        ({
            let w = liquidate_all(v, cs).0;
            let ls = liquidate_all(v, cs).1;
            &&& forall|i: int|
                0 <= i < ls.len() ==> {
                    let k = (#[trigger] ls[i]).positionid@;
                    &&& v.table.contains_key(k)
                    &&& !v.table[k].liquidated
                    &&& w.table.contains_key(k)
                    &&& w.table[k].liquidated
                }
            &&& forall|i: int, j: int| 0 <= i < j < ls.len() ==> (#[trigger] ls[i]).positionid@ != (#[trigger] ls[j]).positionid@
            &&& forall|i: int, j: int|
                0 <= i < j < ls.len() ==> exists|a: int, b: int|
                    0 <= a < b < cs.len() && cs[a].positionid@ == (#[trigger] ls[i]).positionid@ && cs[b].positionid@
                        == (#[trigger] ls[j]).positionid@
            &&& forall|k: Seq<char>|
                #![trigger w.table[k]]
                v.table.contains_key(k) && v.table[k].liquidated ==> w.table.contains_key(k) && w.table[k].liquidated
            &&& forall|i: int| 0 <= i < ls.len() ==> exists|a: int| 0 <= a < cs.len() && cs[a].positionid@ == (#[trigger] ls[i]).positionid@
        }),
    decreases cs.len(),
{
    if cs.len() > 0 {
        let v1 = liquidate_one(v, cs[0]).0;
        let r1 = liquidate_one(v, cs[0]).1;
        let rest = cs.drop_first();
        lemma_liquidate_all_keeps(v, seq![cs[0]]);
        assert(seq![cs[0]].drop_first() =~= Seq::<LiquidationCandidate>::empty());
        assert(seq![cs[0]][0] == cs[0]);
        assert(liquidate_all(v1, Seq::<LiquidationCandidate>::empty()).0 == v1);
        assert(liquidate_all(v, seq![cs[0]]).0 == v1);
        lemma_liquidation_once(v1, rest);
        let w = liquidate_all(v1, rest).0;
        let r2 = liquidate_all(v1, rest).1;
        let ls = r1 + r2;
        let k0 = cs[0].positionid@;
        assert(liquidate_all(v, cs).0 == w);
        assert(liquidate_all(v, cs).1 == ls);
        // Facts about the first step.
        assert forall|k: Seq<char>| v.table.contains_key(k) && v.table[k].liquidated implies v1.table.contains_key(k)
            && #[trigger] v1.table[k].liquidated by {
            if k == k0 {
            }
        }
        assert forall|i: int| 0 <= i < r2.len() implies {
            let k = (#[trigger] r2[i]).positionid@;
            &&& v.table.contains_key(k)
            &&& !v.table[k].liquidated
        } by {
            let k = r2[i].positionid@;
            assert(v1.table.contains_key(k));
            if v.table.contains_key(k) && v.table[k].liquidated {
                assert(v1.table[k].liquidated);
            }
            if k == k0 && r1.len() > 0 {
                assert(v1.table[k0].liquidated);
            }
        }
        assert forall|i: int|
            0 <= i < ls.len() implies {
                let k = (#[trigger] ls[i]).positionid@;
                &&& v.table.contains_key(k)
                &&& !v.table[k].liquidated
                &&& w.table.contains_key(k)
                &&& w.table[k].liquidated
            } by {
            if i < r1.len() {
                assert(ls[i] == r1[0]);
                assert(r1[0].positionid@ == k0);
                assert(v1.table[k0].liquidated);
            } else {
                assert(ls[i] == r2[i - r1.len()]);
            }
        }
        assert forall|i: int, j: int| 0 <= i < j < ls.len() implies (#[trigger] ls[i]).positionid@ != (#[trigger] ls[j]).positionid@ by {
            if i < r1.len() {
                assert(ls[i] == r1[0]);
                assert(ls[j] == r2[j - r1.len()]);
                assert(v1.table[k0].liquidated);
            } else {
                assert(ls[i] == r2[i - r1.len()]);
                assert(ls[j] == r2[j - r1.len()]);
            }
        }
        assert forall|i: int, j: int|
            0 <= i < j < ls.len() implies exists|a: int, b: int|
                0 <= a < b < cs.len() && cs[a].positionid@ == (#[trigger] ls[i]).positionid@ && cs[b].positionid@
                    == (#[trigger] ls[j]).positionid@ by {
            if i < r1.len() {
                assert(ls[i] == r1[0]);
                assert(ls[j] == r2[j - r1.len()]);
                let a = choose|a: int| 0 <= a < rest.len() && rest[a].positionid@ == r2[j - r1.len()].positionid@;
                assert(cs[a + 1] == rest[a]);
                assert(cs[0].positionid@ == ls[i].positionid@);
            } else {
                assert(ls[i] == r2[i - r1.len()]);
                assert(ls[j] == r2[j - r1.len()]);
                let (a, b) = choose|a: int, b: int|
                    0 <= a < b < rest.len() && rest[a].positionid@ == r2[i - r1.len()].positionid@ && rest[b].positionid@
                        == r2[j - r1.len()].positionid@;
                assert(cs[a + 1] == rest[a]);
                assert(cs[b + 1] == rest[b]);
            }
        }
        assert forall|k: Seq<char>| #![trigger w.table[k]] v.table.contains_key(k) && v.table[k].liquidated implies w.table.contains_key(k)
            && w.table[k].liquidated by {
            if k == k0 {
                assert(v.table[k0].liquidatable_spec(v.maintenance_margin_ratio) == Some(false));
                assert(v1 == v);
            } else {
                assert(v1.table.contains_key(k));
                assert(v1.table[k] == v.table[k]);
            }
            assert(v1.table.contains_key(k) && v1.table[k].liquidated);
            let wk = w.table[k];
        }
        assert forall|i: int| 0 <= i < ls.len() implies exists|a: int| 0 <= a < cs.len() && cs[a].positionid@ == (#[trigger] ls[i]).positionid@ by {
            if i < r1.len() {
                assert(ls[i] == r1[0]);
                assert(cs[0].positionid@ == ls[i].positionid@);
            } else {
                assert(ls[i] == r2[i - r1.len()]);
                let a = choose|a: int| 0 <= a < rest.len() && rest[a].positionid@ == r2[i - r1.len()].positionid@;
                assert(cs[a + 1] == rest[a]);
            }
        }
    }
}

/// A position closes once: after it is closed, closing it again, at any
/// price, fails.
pub proof fn lemma_close_once(v: PositionsView, k: Seq<char>, price: Dec, later: Dec)
    requires
        close_spec(v, k, price) is Some,
    ensures
        ({
            let closed = close_spec(v, k, price).unwrap().1;
            close_spec(PositionsView { table: v.table.insert(k, closed), ..v }, k, later) is None
        }),
{
}

/// A closed position is never queued again: revaluing leaves closed
/// positions as they are.
pub proof fn lemma_closed_stay_closed(v: PositionsView, keys: Seq<Seq<char>>, symbol: Seq<char>, mark: Dec)
    ensures
        forall|k: Seq<char>|
            #[trigger] v.table.contains_key(k) && v.table[k].liquidated ==> revalue_all(v, keys, symbol, mark).table.contains_key(k)
                && revalue_all(v, keys, symbol, mark).table[k] == v.table[k],
    decreases keys.len(),
{
    if keys.len() > 0 {
        let v1 = revalue_one(v, keys[0], symbol, mark);
        lemma_closed_stay_closed(v1, keys.drop_first(), symbol, mark);
        assert forall|k: Seq<char>| #[trigger] v.table.contains_key(k) && v.table[k].liquidated implies v1.table.contains_key(k)
            && v1.table[k] == v.table[k] by {
        }
    }
}

/// Enqueuing keeps every queued candidate and adds the new one.
proof fn lemma_enqueue_contains(q: Seq<LiquidationCandidate>, c: LiquidationCandidate)
    ensures
        enqueue(q, c).contains(c),
        forall|x: LiquidationCandidate| q.contains(x) ==> #[trigger] enqueue(q, c).contains(x),
    decreases q.len(),
{
    if q.len() == 0 {
        assert(enqueue(q, c)[0] == c);
    } else if value_lt(c.margin_ratio, q[0].margin_ratio) {
        let r = seq![c] + q;
        assert(r[0] == c);
        assert forall|x: LiquidationCandidate| q.contains(x) implies #[trigger] enqueue(q, c).contains(x) by {
            let i = choose|i: int| 0 <= i < q.len() && q[i] == x;
            assert(r[i + 1] == x);
        }
    } else {
        let rest = q.drop_first();
        lemma_enqueue_contains(rest, c);
        let e = enqueue(rest, c);
        let r = seq![q[0]] + e;
        let j = choose|j: int| 0 <= j < e.len() && e[j] == c;
        assert(r[j + 1] == c);
        assert forall|x: LiquidationCandidate| q.contains(x) implies #[trigger] enqueue(q, c).contains(x) by {
            let i = choose|i: int| 0 <= i < q.len() && q[i] == x;
            if i == 0 {
                assert(r[0] == x);
            } else {
                assert(rest[i - 1] == x);
                assert(rest.contains(x));
                assert(e.contains(x));
                let j2 = choose|j2: int| 0 <= j2 < e.len() && e[j2] == x;
                assert(r[j2 + 1] == x);
            }
        }
    }
}

/// Revaluing position `j` changes no other position, keeps the threshold,
/// and drops no queued candidate.
proof fn lemma_revalue_one_frame(
    v: PositionsView,
    j: Seq<char>,
    symbol: Seq<char>,
    mark: Dec,
    k: Seq<char>,
    c: LiquidationCandidate,
)
    ensures
        ({
            let r = revalue_one(v, j, symbol, mark);
            &&& r.maintenance_margin_ratio == v.maintenance_margin_ratio
            &&& v.table.contains_key(k) ==> r.table.contains_key(k)
            &&& v.table.contains_key(k) && k != j ==> r.table[k] == v.table[k]
            &&& v.queue.contains(c) ==> r.queue.contains(c)
        }),
{
    let p = v.table[j];
    if p.symbol@ == symbol && !p.liquidated {
        match p.marked(mark) {
            Some(p2) => {
                if p2.liquidatable_spec(v.maintenance_margin_ratio) == Some(true) {
                    match p2.margin_ratio_spec() {
                        Some(ratio) => {
                            lemma_enqueue_contains(v.queue, candidate_of(p2, ratio));
                        },
                        None => {},
                    }
                }
            },
            None => {},
        }
    }
}

/// Revaluing positions other than `k` leaves `k` as it is, keeps the
/// threshold, and drops no queued candidate.
proof fn lemma_revalue_all_frame(
    v: PositionsView,
    keys: Seq<Seq<char>>,
    symbol: Seq<char>,
    mark: Dec,
    k: Seq<char>,
    c: LiquidationCandidate,
)
    requires
        !keys.contains(k),
    ensures
        ({
            let r = revalue_all(v, keys, symbol, mark);
            &&& r.maintenance_margin_ratio == v.maintenance_margin_ratio
            &&& v.table.contains_key(k) ==> r.table.contains_key(k) && r.table[k] == v.table[k]
            &&& v.queue.contains(c) ==> r.queue.contains(c)
        }),
    decreases keys.len(),
{
    if keys.len() > 0 {
        let rest = keys.drop_first();
        assert(keys[0] != k);
        assert(!rest.contains(k)) by {
            if rest.contains(k) {
                let i = choose|i: int| 0 <= i < rest.len() && rest[i] == k;
                assert(keys[i + 1] == k);
            }
        }
        lemma_revalue_one_frame(v, keys[0], symbol, mark, k, c);
        lemma_revalue_all_frame(revalue_one(v, keys[0], symbol, mark), rest, symbol, mark, k, c);
    }
}

/// Revaluing distinct positions that include `k`, an open position of the
/// symbol that the mark turns into the liquidatable `q`, leaves `q` in its
/// place and a candidate for it in the queue.
proof fn lemma_revalue_reaches(
    v: PositionsView,
    keys: Seq<Seq<char>>,
    symbol: Seq<char>,
    mark: Dec,
    k: Seq<char>,
    q: Position,
)
    requires
        keys.no_duplicates(),
        keys.contains(k),
        v.table.contains_key(k),
        v.table[k].symbol@ == symbol,
        !v.table[k].liquidated,
        v.table[k].marked(mark) == Some(q),
        q.liquidatable_spec(v.maintenance_margin_ratio) == Some(true),
    ensures
        ({
            let r = revalue_all(v, keys, symbol, mark);
            &&& r.table.contains_key(k)
            &&& r.table[k] == q
            &&& r.queue.contains(candidate_of(q, q.margin_ratio_spec().unwrap()))
            &&& r.maintenance_margin_ratio == v.maintenance_margin_ratio
        }),
    decreases keys.len(),
{
    let rest = keys.drop_first();
    let c = candidate_of(q, q.margin_ratio_spec().unwrap());
    let v1 = revalue_one(v, keys[0], symbol, mark);
    if keys[0] == k {
        lemma_enqueue_contains(v.queue, c);
        assert(v1.table[k] == q);
        assert(v1.queue.contains(c));
        assert(!rest.contains(k)) by {
            if rest.contains(k) {
                let i = choose|i: int| 0 <= i < rest.len() && rest[i] == k;
                assert(keys[i + 1] == keys[0]);
            }
        }
        lemma_revalue_all_frame(v1, rest, symbol, mark, k, c);
    } else {
        lemma_revalue_one_frame(v, keys[0], symbol, mark, k, c);
        assert(rest.contains(k)) by {
            let i = choose|i: int| 0 <= i < keys.len() && keys[i] == k;
            assert(rest[i - 1] == k);
        }
        assert(rest.no_duplicates()) by {
            assert forall|a: int, b: int| 0 <= a < rest.len() && 0 <= b < rest.len() && a != b implies rest[a]
                != rest[b] by {
                assert(rest[a] == keys[a + 1]);
                assert(rest[b] == keys[b + 1]);
            }
        }
        lemma_revalue_reaches(v1, rest, symbol, mark, k, q);
    }
}

/// A liquidated position stays liquidated through any liquidation pass.
proof fn lemma_liquidated_stays(v: PositionsView, cs: Seq<LiquidationCandidate>, k: Seq<char>)
    requires
        v.table.contains_key(k),
        v.table[k].liquidated,
    ensures
        liquidate_all(v, cs).0.table.contains_key(k),
        liquidate_all(v, cs).0.table[k].liquidated,
    decreases cs.len(),
{
    if cs.len() > 0 {
        let v1 = liquidate_one(v, cs[0]).0;
        assert(v1.table.contains_key(k) && v1.table[k].liquidated);
        lemma_liquidated_stays(v1, cs.drop_first(), k);
    }
}

/// A pass over candidates that include one for `k`, where `k` holds the
/// liquidatable `q` (or is already liquidated), leaves `k` liquidated, and
/// reports `q` when it was not liquidated before.
proof fn lemma_candidate_liquidates(
    v: PositionsView,
    cs: Seq<LiquidationCandidate>,
    k: Seq<char>,
    q: Position,
    i: int,
)
    requires
        v.table.contains_key(k),
        v.table[k] == q || v.table[k].liquidated,
        q.positionid@ == k,
        q.liquidatable_spec(v.maintenance_margin_ratio) == Some(true),
        q.liquidation_price_spec() is Some,
        0 <= i < cs.len(),
        cs[i].positionid@ == k,
    ensures
        liquidate_all(v, cs).0.table.contains_key(k),
        liquidate_all(v, cs).0.table[k].liquidated,
        !v.table[k].liquidated ==> exists|j: int|
            0 <= j < liquidate_all(v, cs).1.len() && #[trigger] liquidate_all(v, cs).1[j] == report_of(
                q,
                q.liquidation_price_spec().unwrap(),
            ),
    decreases cs.len(),
{
    let v1 = liquidate_one(v, cs[0]).0;
    let r1 = liquidate_one(v, cs[0]).1;
    let rest = cs.drop_first();
    let ls = liquidate_all(v, cs).1;
    if v.table[k].liquidated {
        lemma_liquidated_stays(v, cs, k);
    } else if cs[0].positionid@ == k {
        assert(v1.table[k] == wiped(q));
        lemma_liquidated_stays(v1, rest, k);
        assert(ls[0] == r1[0]);
    } else {
        assert(v1.table.contains_key(k) && v1.table[k] == v.table[k]);
        assert(rest[i - 1] == cs[i]);
        lemma_candidate_liquidates(v1, rest, k, q, i - 1);
        let r2 = liquidate_all(v1, rest).1;
        let j = choose|j: int|
            0 <= j < r2.len() && #[trigger] r2[j] == report_of(q, q.liquidation_price_spec().unwrap());
        assert(ls[r1.len() + j] == r2[j]);
    }
}

/// A mark update liquidates every position it finds undercollateralized. An
/// open position of the symbol is liquidated and reported once the queued
/// candidates have been handled when its revaluation at the mark succeeds,
/// its new margin ratio can be computed and either is at most the
/// maintenance ratio or its equity is gone (equity not positive under a
/// positive margin, with a threshold that is not negative), and its
/// liquidation price can be computed. Those computations fail only when the
/// arithmetic overflows or a margin or quantity is zero.
pub proof fn lemma_undercollateralized_liquidated(v: PositionsView, symbol: Seq<char>, mark: Dec, k: Seq<char>)
    requires
        book_wf(v),
        v.table.contains_key(k),
        v.table[k].symbol@ == symbol,
        !v.table[k].liquidated,
        v.table[k].marked(mark) is Some,
        ({
            let q = v.table[k].marked(mark).unwrap();
            let mmr = v.maintenance_margin_ratio;
            &&& q.margin_ratio_spec() is Some
            &&& value_le(q.margin_ratio_spec().unwrap(), mmr) || (q.bankrupt() && !is_neg(mmr))
            &&& q.liquidation_price_spec() is Some
        }),
    ensures
        ({
            let q = v.table[k].marked(mark).unwrap();
            let p1 = revalue_all(v, v.order, symbol, mark);
            let (p2, ls) = liquidate_all(p1, p1.queue);
            &&& p2.table.contains_key(k)
            &&& p2.table[k].liquidated
            &&& exists|j: int| 0 <= j < ls.len() && #[trigger] ls[j] == report_of(q, q.liquidation_price_spec().unwrap())
        }),
{
    let q = v.table[k].marked(mark).unwrap();
    assert(q.liquidatable_spec(v.maintenance_margin_ratio) == Some(true));
    assert(v.order.contains(k));
    lemma_revalue_reaches(v, v.order, symbol, mark, k, q);
    let p1 = revalue_all(v, v.order, symbol, mark);
    let c = candidate_of(q, q.margin_ratio_spec().unwrap());
    let i = choose|i: int| 0 <= i < p1.queue.len() && p1.queue[i] == c;
    assert(p1.queue[i].positionid@ == k);
    lemma_candidate_liquidates(p1, p1.queue, k, q, i);
}


/// Position `k` is queued among `cs`, is in the book, must be liquidated and
/// has a computable liquidation price: what a liquidation pass liquidates.
pub open spec fn must_liquidate(v: PositionsView, cs: Seq<LiquidationCandidate>, k: Seq<char>) -> bool {
    &&& exists|i: int| 0 <= i < cs.len() && (#[trigger] cs[i]).positionid@ == k
    &&& v.table.contains_key(k)
    &&& v.table[k].liquidatable_spec(v.maintenance_margin_ratio) == Some(true)
    &&& v.table[k].liquidation_price_spec() is Some
}

/// The report of `p` at its own liquidation price.
pub open spec fn report_now(p: Position) -> LiquidatedPosition {
    report_of(p, p.liquidation_price_spec().unwrap())
}

/// What one liquidation pass over `cs` does, exactly: it wipes the positions
/// that must be liquidated and leaves every other one as it was; it reports
/// each wiped position once, as it was before the pass, and nothing else.
proof fn lemma_pass_exact(v: PositionsView, cs: Seq<LiquidationCandidate>)
    requires
        forall|k: Seq<char>| #[trigger] v.table.contains_key(k) ==> v.table[k].positionid@ == k,
    ensures
        ({
            let (w, ls) = liquidate_all(v, cs);
            &&& w.table.dom() == v.table.dom()
            &&& forall|k: Seq<char>|
                #[trigger] v.table.contains_key(k) ==> (if must_liquidate(v, cs, k) {
                    w.table[k] == wiped(v.table[k])
                } else {
                    w.table[k] == v.table[k]
                })
            &&& forall|k: Seq<char>|
                #[trigger] must_liquidate(v, cs, k) ==> exists|j: int|
                    0 <= j < ls.len() && #[trigger] ls[j] == report_now(v.table[k])
            &&& forall|j: int|
                0 <= j < ls.len() ==> must_liquidate(v, cs, (#[trigger] ls[j]).positionid@) && ls[j] == report_now(
                    v.table[ls[j].positionid@],
                )
            &&& forall|i: int, j: int| 0 <= i < j < ls.len() ==> (#[trigger] ls[i]).positionid@ != (#[trigger] ls[j]).positionid@
        }),
    decreases cs.len(),
{
    let (w, ls) = liquidate_all(v, cs);
    if cs.len() == 0 {
        assert forall|k: Seq<char>| !must_liquidate(v, cs, k) by {}
    } else {
        let c0 = cs[0];
        let k0 = c0.positionid@;
        let rest = cs.drop_first();
        let (v1, r1) = liquidate_one(v, c0);
        let (w2, r2) = liquidate_all(v1, rest);
        assert(w == w2 && ls == r1 + r2);
        let go0 = must_liquidate(v, cs, k0);
        assert(go0 <==> (v.table.contains_key(k0) && v.table[k0].liquidatable_spec(v.maintenance_margin_ratio)
            == Some(true) && v.table[k0].liquidation_price_spec() is Some)) by {
            if v.table.contains_key(k0) && v.table[k0].liquidatable_spec(v.maintenance_margin_ratio) == Some(true)
                && v.table[k0].liquidation_price_spec() is Some {
                assert(cs[0].positionid@ == k0);
            }
        }
        if go0 {
            assert(v1.table == v.table.insert(k0, wiped(v.table[k0])));
            assert(r1 == seq![report_now(v.table[k0])]);
        } else {
            assert(v1 == v && r1 == Seq::<LiquidatedPosition>::empty());
        }
        assert(v1.table.dom() =~= v.table.dom());
        assert(v1.maintenance_margin_ratio == v.maintenance_margin_ratio);
        assert forall|k: Seq<char>| #[trigger] v1.table.contains_key(k) implies v1.table[k].positionid@ == k by {
            if k != k0 {
                assert(v1.table[k] == v.table[k]);
            }
        }
        lemma_pass_exact(v1, rest);
        // The position of the first candidate is not liquidated again.
        assert(!must_liquidate(v1, rest, k0)) by {
            if go0 {
                assert(v1.table[k0].liquidated);
            }
        }
        // Other positions: the same decision over the rest as over all.
        assert forall|k: Seq<char>| k != k0 implies (#[trigger] must_liquidate(v, cs, k) <==> must_liquidate(v1, rest, k)) by {
            if v.table.contains_key(k) {
                assert(v1.table[k] == v.table[k]);
            }
            if exists|i: int| 0 <= i < cs.len() && (#[trigger] cs[i]).positionid@ == k {
                let i = choose|i: int| 0 <= i < cs.len() && (#[trigger] cs[i]).positionid@ == k;
                assert(i > 0);
                assert(rest[i - 1] == cs[i]);
            }
            if exists|i: int| 0 <= i < rest.len() && (#[trigger] rest[i]).positionid@ == k {
                let i = choose|i: int| 0 <= i < rest.len() && (#[trigger] rest[i]).positionid@ == k;
                assert(cs[i + 1] == rest[i]);
            }
        }
        assert forall|k: Seq<char>|
            #[trigger] v.table.contains_key(k) implies (if must_liquidate(v, cs, k) {
                w.table[k] == wiped(v.table[k])
            } else {
                w.table[k] == v.table[k]
            }) by {
            if k != k0 {
                assert(v1.table[k] == v.table[k]);
                assert(must_liquidate(v, cs, k) == must_liquidate(v1, rest, k));
            }
        }
        assert forall|k: Seq<char>| #[trigger] must_liquidate(v, cs, k) implies exists|j: int|
            0 <= j < ls.len() && #[trigger] ls[j] == report_now(v.table[k]) by {
            if k == k0 {
                assert(ls[0] == r1[0]);
            } else {
                assert(must_liquidate(v1, rest, k));
                assert(v1.table[k] == v.table[k]);
                let j = choose|j: int| 0 <= j < r2.len() && #[trigger] r2[j] == report_now(v1.table[k]);
                assert(ls[r1.len() + j] == r2[j]);
            }
        }
        assert forall|j: int| 0 <= j < ls.len() implies must_liquidate(v, cs, (#[trigger] ls[j]).positionid@)
            && ls[j] == report_now(v.table[ls[j].positionid@]) by {
            if j < r1.len() {
                assert(ls[j] == r1[0]);
                assert(r1[0].positionid@ == k0);
            } else {
                let jj = j - r1.len();
                assert(ls[j] == r2[jj]);
                let k = r2[jj].positionid@;
                assert(must_liquidate(v1, rest, k));
                assert(k != k0);
                assert(v1.table[k] == v.table[k]);
                assert(must_liquidate(v, cs, k));
            }
        }
        assert forall|i: int, j: int| 0 <= i < j < ls.len() implies (#[trigger] ls[i]).positionid@ != (#[trigger] ls[j]).positionid@ by {
            if i < r1.len() {
                assert(ls[i] == r1[0]);
                assert(ls[j] == r2[j - r1.len()]);
                assert(must_liquidate(v1, rest, r2[j - r1.len()].positionid@));
            } else {
                assert(ls[i] == r2[i - r1.len()]);
                assert(ls[j] == r2[j - r1.len()]);
            }
        }
    }
}

/// One liquidation pass, exactly: every queued position that must be
/// liquidated (it is in the book, liquidatable, and its liquidation price
/// can be computed) is closed with no quantity and no equity and reported
/// once, as it was before the pass, with its equity as the loss, its margin
/// as the margin lost and its liquidation price; no other position changes
/// and nothing else is reported. The queue is then empty, so a second pass
/// right after reports nothing.
pub proof fn lemma_liquidation_pass(v: PositionsView)
    requires
        book_wf(v),
    ensures
        ({
            let (w, ls) = liquidate_all(v, v.queue);
            let after = PositionsView { queue: Seq::empty(), ..w };
            &&& w.table.dom() == v.table.dom()
            &&& forall|k: Seq<char>|
                #[trigger] v.table.contains_key(k) ==> (if must_liquidate(v, v.queue, k) {
                    w.table[k] == wiped(v.table[k])
                } else {
                    w.table[k] == v.table[k]
                })
            &&& forall|k: Seq<char>|
                #[trigger] must_liquidate(v, v.queue, k) ==> exists|j: int|
                    0 <= j < ls.len() && #[trigger] ls[j] == report_now(v.table[k])
            &&& forall|j: int|
                0 <= j < ls.len() ==> must_liquidate(v, v.queue, (#[trigger] ls[j]).positionid@) && ls[j]
                    == report_now(v.table[ls[j].positionid@])
            &&& forall|i: int, j: int| 0 <= i < j < ls.len() ==> (#[trigger] ls[i]).positionid@ != (#[trigger] ls[j]).positionid@
            &&& liquidate_all(after, after.queue).1 == Seq::<LiquidatedPosition>::empty()
        }),
{
    lemma_pass_exact(v, v.queue);
}


/// Enqueuing adds nothing but the new candidate.
proof fn lemma_enqueue_only(q: Seq<LiquidationCandidate>, c: LiquidationCandidate)
    ensures
        forall|x: LiquidationCandidate| #[trigger] enqueue(q, c).contains(x) ==> q.contains(x) || x == c,
    decreases q.len(),
{
    if q.len() > 0 && !value_lt(c.margin_ratio, q[0].margin_ratio) {
        let rest = q.drop_first();
        lemma_enqueue_only(rest, c);
        let e = enqueue(rest, c);
        let r = seq![q[0]] + e;
        assert forall|x: LiquidationCandidate| #[trigger] enqueue(q, c).contains(x) implies q.contains(x) || x == c by {
            let i = choose|i: int| 0 <= i < r.len() && r[i] == x;
            if i == 0 {
                assert(q[0] == x);
            } else {
                assert(e[i - 1] == x);
                assert(e.contains(x));
                if rest.contains(x) {
                    let j = choose|j: int| 0 <= j < rest.len() && rest[j] == x;
                    assert(q[j + 1] == x);
                }
            }
        }
    } else if q.len() > 0 {
        let r = seq![c] + q;
        assert forall|x: LiquidationCandidate| #[trigger] enqueue(q, c).contains(x) implies q.contains(x) || x == c by {
            let i = choose|i: int| 0 <= i < r.len() && r[i] == x;
            if i > 0 {
                assert(q[i - 1] == x);
            }
        }
    } else {
        assert forall|x: LiquidationCandidate| #[trigger] enqueue(q, c).contains(x) implies q.contains(x) || x == c by {
            assert(enqueue(q, c) == seq![c]);
        }
    }
}

/// Revaluing at a mark for `symbol` touches only open positions of that
/// symbol: every position of another symbol stays as it was, and every
/// candidate in the queue afterwards was queued before or is for a position
/// of that symbol.
pub proof fn lemma_revalue_only_symbol(v: PositionsView, keys: Seq<Seq<char>>, symbol: Seq<char>, mark: Dec)
    ensures
        ({
            let r = revalue_all(v, keys, symbol, mark);
            &&& forall|k: Seq<char>|
                #[trigger] v.table.contains_key(k) && v.table[k].symbol@ != symbol ==> r.table.contains_key(k)
                    && r.table[k] == v.table[k]
            &&& forall|c: LiquidationCandidate| #[trigger] r.queue.contains(c) ==> v.queue.contains(c) || c.symbol@ == symbol
        }),
    decreases keys.len(),
{
    if keys.len() > 0 {
        let j = keys[0];
        let v1 = revalue_one(v, j, symbol, mark);
        let p = v.table[j];
        if p.symbol@ == symbol && !p.liquidated {
            match p.marked(mark) {
                Some(p2) => {
                    if p2.liquidatable_spec(v.maintenance_margin_ratio) == Some(true) {
                        match p2.margin_ratio_spec() {
                            Some(ratio) => {
                                lemma_enqueue_only(v.queue, candidate_of(p2, ratio));
                            },
                            None => {},
                        }
                    }
                },
                None => {},
            }
        }
        assert forall|k: Seq<char>| #[trigger] v.table.contains_key(k) && v.table[k].symbol@ != symbol implies v1.table.contains_key(k)
            && v1.table[k] == v.table[k] && v1.table[k].symbol@ != symbol by {}
        assert forall|c: LiquidationCandidate| #[trigger] v1.queue.contains(c) implies v.queue.contains(c) || c.symbol@ == symbol by {}
        lemma_revalue_only_symbol(v1, keys.drop_first(), symbol, mark);
        let r = revalue_all(v, keys, symbol, mark);
        assert forall|k: Seq<char>| #[trigger] v.table.contains_key(k) && v.table[k].symbol@ != symbol implies r.table.contains_key(k)
            && r.table[k] == v.table[k] by {
            assert(v1.table.contains_key(k) && v1.table[k].symbol@ != symbol);
        }
        let r1 = revalue_all(v1, keys.drop_first(), symbol, mark);
        assert(r == r1);
        assert forall|c: LiquidationCandidate| #[trigger] r.queue.contains(c) implies v.queue.contains(c) || c.symbol@ == symbol by {
            assert(r1.queue.contains(c));
            assert(v1.queue.contains(c) || c.symbol@ == symbol);
            if v1.queue.contains(c) {
                assert(v.queue.contains(c) || c.symbol@ == symbol);
            }
        }
    }
}

/// Closing realizes the price move times the quantity: for a long the close
/// price less the entry price, for a short the entry price less the close
/// price, multiplied by the quantity. The closed position keeps its terms,
/// has no quantity, is marked closed, and holds its margin plus that profit
/// as equity. An open position of positive quantity closes whenever those
/// amounts can be computed.
pub proof fn lemma_close_profit(v: PositionsView, k: Seq<char>, price: Dec)
    ensures
        ({
            let p = v.table[k];
            let move_ = match p.side {
                Ordertype::Buy => sub_spec(price, p.entry_price),
                Ordertype::Sell => sub_spec(p.entry_price, price),
            };
            &&& close_spec(v, k, price) matches Some((pnl, closed)) ==> {
                &&& v.table.contains_key(k)
                &&& !p.liquidated
                &&& is_pos(p.quantity)
                &&& move_ matches Some(d) && mul_spec(d, p.quantity) == Some(pnl)
                &&& add_spec(p.margin, pnl) == Some(closed.equity)
                &&& closed.quantity == Dec::build(0, 0)
                &&& closed.liquidated
                &&& closed.positionid == p.positionid && closed.userid == p.userid && closed.symbol == p.symbol
                &&& closed.side == p.side && closed.entry_price == p.entry_price && closed.leverage == p.leverage
                &&& closed.margin == p.margin
            }
            &&& (v.table.contains_key(k) && !p.liquidated && is_pos(p.quantity) && (move_ matches Some(d) && (
                mul_spec(d, p.quantity) matches Some(pnl) && add_spec(p.margin, pnl) is Some))) ==> close_spec(
                v,
                k,
                price,
            ) is Some
        }),
{
}

} // verus!
