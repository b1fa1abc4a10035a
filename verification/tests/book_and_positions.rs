use perpx::decimal::Dec;
use perpx::inmemory::{OrderType, Orderbook};
use perpx::order::{Order, OrderBook, Ordertype};
use perpx::position::{LiquidationCandidate, Position, Positions};
use perpx::trades::{Trade, Trades};

fn d(text: &str) -> Dec {
    Dec::parse(text).unwrap()
}

fn order(price: &str, qty: &str, side: Ordertype, lev: &str, user: &str) -> Order {
    Order::new(d(price), d(qty), side, d(lev), user.to_string(), "btc".to_string())
}

fn prices(levels: &Vec<perpx::order::Level>) -> Vec<i128> {
    levels.iter().map(|l| l.price.mantissa()).collect()
}

#[test]
fn orders_rest_best_price_first() {
    let mut book = OrderBook::new();
    book.add_new_order(d("100"), d("1"), Ordertype::Buy, d("10"), "btc".into(), "a".into());
    book.add_new_order(d("102"), d("1"), Ordertype::Buy, d("10"), "btc".into(), "b".into());
    book.add_new_order(d("101"), d("1"), Ordertype::Buy, d("10"), "btc".into(), "c".into());
    book.add_new_order(d("105"), d("1"), Ordertype::Sell, d("10"), "btc".into(), "d".into());
    book.add_new_order(d("103"), d("1"), Ordertype::Sell, d("10"), "btc".into(), "e".into());
    assert_eq!(prices(book.bid_levels()), vec![102, 101, 100]);
    assert_eq!(prices(book.ask_levels()), vec![103, 105]);
    // Same price, other scale: joins the level at the back.
    book.add_new_order(d("101.0"), d("2"), Ordertype::Buy, d("10"), "btc".into(), "f".into());
    let lvl = &book.bid_levels()[1];
    assert_eq!(lvl.orders.len(), 2);
    assert_eq!(lvl.orders[1].userid, "f");
    assert_eq!(lvl.price.mantissa(), 101);
}

#[test]
fn midprice_averages_best_bid_and_ask() {
    let mut book = OrderBook::new();
    assert!(book.midprice().is_none());
    book.add_new_order(d("100"), d("1"), Ordertype::Buy, d("10"), "btc".into(), "a".into());
    assert!(book.midprice().is_none());
    book.add_new_order(d("103"), d("1"), Ordertype::Sell, d("10"), "btc".into(), "b".into());
    assert!(book.midprice().unwrap().eq_value(&d("101.5")));
}

#[test]
fn full_fill_opens_a_long_and_a_short() {
    let mut book = OrderBook::new();
    let mut trades = Trades::new();
    let mut positions = Positions::new();
    let ev = book.matching_engine(order("50000.0", "1.0", Ordertype::Buy, "10.0", "user1"), &mut trades, &mut positions).unwrap();
    assert!(ev.is_empty());
    assert_eq!(book.bid_levels().len(), 1);
    let ev = book.matching_engine(order("50000.0", "1.0", Ordertype::Sell, "20.0", "user2"), &mut trades, &mut positions).unwrap();
    assert_eq!(ev.len(), 1);
    assert_eq!(ev[0].buyuser, "user1");
    assert_eq!(ev[0].selluser, "user2");
    assert!(ev[0].price.eq_value(&d("50000")));
    assert!(ev[0].quantity.eq_value(&d("1")));
    assert_eq!(ev[0].symbol, "btc");
    assert!(book.bid_levels().is_empty());
    assert!(book.ask_levels().is_empty());
    assert_eq!(trades.len(), 1);
    let longs = positions.get_user_positions("user2");
    assert_eq!(longs.len(), 1);
    assert_eq!(longs[0].side, Ordertype::Sell);
    // margin = 1.0 * 50000.0 / 20.0
    assert!(longs[0].margin.eq_value(&d("2500")));
    let shorts = positions.get_user_positions("user1");
    assert_eq!(shorts[0].side, Ordertype::Buy);
    assert!(shorts[0].margin.eq_value(&d("5000")));
}

#[test]
fn partial_fill_rests_the_remainder() {
    let mut book = OrderBook::new();
    let mut trades = Trades::new();
    let mut positions = Positions::new();
    book.matching_engine(order("100", "1", Ordertype::Sell, "10", "s1"), &mut trades, &mut positions).unwrap();
    book.matching_engine(order("101", "2", Ordertype::Sell, "10", "s2"), &mut trades, &mut positions).unwrap();
    // A buy at 101 for 4 takes 1 at 100, then 2 at 101, and rests 1 at 101.
    let ev = book.matching_engine(order("101", "4", Ordertype::Buy, "10", "b"), &mut trades, &mut positions).unwrap();
    assert_eq!(ev.len(), 2);
    assert_eq!(ev[0].price.mantissa(), 100);
    assert_eq!(ev[0].quantity.mantissa(), 1);
    assert_eq!(ev[1].price.mantissa(), 101);
    assert_eq!(ev[1].quantity.mantissa(), 2);
    assert!(book.ask_levels().is_empty());
    assert_eq!(book.bid_levels().len(), 1);
    assert_eq!(book.bid_levels()[0].orders[0].quantity.mantissa(), 1);
    assert_eq!(book.bid_levels()[0].orders[0].userid, "b");
    assert_eq!(positions.get_user_positions("b").len(), 2);
}

#[test]
fn time_priority_within_a_level() {
    let mut book = OrderBook::new();
    let mut trades = Trades::new();
    let mut positions = Positions::new();
    book.matching_engine(order("100", "1", Ordertype::Sell, "10", "first"), &mut trades, &mut positions).unwrap();
    book.matching_engine(order("100", "1", Ordertype::Sell, "10", "second"), &mut trades, &mut positions).unwrap();
    let ev = book.matching_engine(order("100", "1.5", Ordertype::Buy, "10", "b"), &mut trades, &mut positions).unwrap();
    assert_eq!(ev.len(), 2);
    assert_eq!(ev[0].selluser, "first");
    assert_eq!(ev[1].selluser, "second");
    assert!(ev[1].quantity.eq_value(&d("0.5")));
    let rest = &book.ask_levels()[0].orders;
    assert_eq!(rest.len(), 1);
    assert!(rest[0].quantity.eq_value(&d("0.5")));
    assert!(book.bid_levels().is_empty());
}

#[test]
fn limit_is_never_traded_through() {
    let mut book = OrderBook::new();
    let mut trades = Trades::new();
    let mut positions = Positions::new();
    book.matching_engine(order("105", "1", Ordertype::Sell, "10", "s"), &mut trades, &mut positions).unwrap();
    let ev = book.matching_engine(order("104", "1", Ordertype::Buy, "10", "b"), &mut trades, &mut positions).unwrap();
    assert!(ev.is_empty());
    assert_eq!(prices(book.bid_levels()), vec![104]);
    assert_eq!(prices(book.ask_levels()), vec![105]);
    // A sell at or below the best bid trades at the bid's price.
    let ev = book.matching_engine(order("100", "1", Ordertype::Sell, "10", "s2"), &mut trades, &mut positions).unwrap();
    assert_eq!(ev.len(), 1);
    assert_eq!(ev[0].price.mantissa(), 104);
    assert_eq!(ev[0].buyuser, "b");
}

#[test]
fn zero_leverage_fails_without_changes() {
    let mut book = OrderBook::new();
    let mut trades = Trades::new();
    let mut positions = Positions::new();
    book.matching_engine(order("100", "1", Ordertype::Sell, "0", "s"), &mut trades, &mut positions).unwrap();
    let r = book.matching_engine(order("100", "1", Ordertype::Buy, "10", "b"), &mut trades, &mut positions);
    assert_eq!(r.err(), Some(perpx::order::MatchError::ArithmeticOverflow));
    assert_eq!(book.ask_levels().len(), 1);
    assert!(book.bid_levels().is_empty());
    assert_eq!(trades.len(), 0);
    assert!(positions.get_user_positions("b").is_empty());
}

#[test]
fn position_margin_pnl_and_liquidation_price() {
    let mut p = Position::new("btc".into(), d("2.0"), d("50000.0"), d("50.0"), Ordertype::Buy, "u".into()).unwrap();
    assert_eq!(p.positionid.len(), 21);
    assert!(p.margin.eq_value(&d("2000")));
    assert!(p.liquidation_price().unwrap().eq_value(&d("49005")));
    assert!(p.update_unrealized_pnl(d("49100")));
    assert!(p.un_pnl.eq_value(&d("-1800")));
    assert!(p.equity.eq_value(&d("200")));
    assert!(p.margin_ratio().unwrap().eq_value(&d("0.1")));
    assert_eq!(p.isliquidatable(d("0.01")), Some(false));
    assert!(p.update_unrealized_pnl(d("49010")));
    assert!(p.margin_ratio().unwrap().eq_value(&d("0.01")));
    assert_eq!(p.isliquidatable(d("0.01")), Some(true));
    // No equity left: the ratio is zero, and the position is liquidatable.
    assert!(p.update_unrealized_pnl(d("49000")));
    assert!(p.margin_ratio().unwrap().is_zero());
    assert_eq!(p.isliquidatable(d("0.01")), Some(true));
    // Equity below zero: the ratio is negative, still liquidatable.
    assert!(p.update_unrealized_pnl(d("48000")));
    assert!(p.equity.eq_value(&d("-2000")));
    assert!(p.margin_ratio().unwrap().eq_value(&d("-1")));
    assert_eq!(p.isliquidatable(d("0.01")), Some(true));
    let c = LiquidationCandidate::new(&p).unwrap();
    assert_eq!(c.positionid, p.positionid);
    let s = Position::new("btc".into(), d("1"), d("100"), d("10"), Ordertype::Sell, "u".into()).unwrap();
    // short: 100 + 10 * 0.995 / 1
    assert!(s.liquidation_price().unwrap().eq_value(&d("109.95")));
    assert!(Position::new("btc".into(), d("1"), d("100"), d("0"), Ordertype::Sell, "u".into()).is_none());
}

#[test]
fn liquidation_processes_riskiest_first_and_once() {
    let mut ps = Positions::new();
    let a = ps.add_position("ua".into(), "btc".into(), Ordertype::Buy, d("2.0"), d("50000.0"), d("50.0")).unwrap();
    let b = ps.add_position("ub".into(), "btc".into(), Ordertype::Buy, d("1.0"), d("50000.0"), d("40.0")).unwrap();
    let c = ps.add_position("uc".into(), "btc".into(), Ordertype::Sell, d("1.0"), d("50000.0"), d("10.0")).unwrap();
    // Mark 49010: a has ratio 0.01; b: margin 1250, pnl -990, ratio 0.208; c gains.
    ps.update_all_position("btc", d("49010"));
    let liq = ps.process_liquidation();
    assert_eq!(liq.len(), 1);
    assert_eq!(liq[0].positionid, a);
    assert!(liq[0].loss.eq_value(&d("20")));
    assert!(liq[0].margin_lost.eq_value(&d("2000")));
    assert!(liq[0].liquidation_price.eq_value(&d("49005")));
    let pa = ps.get_position(&a).unwrap();
    assert!(pa.liquidated);
    assert!(pa.quantity.is_zero());
    // Mark 48770: b has pnl -1230, equity 20, ratio 0.016; at 48760 ratio 0.008.
    ps.update_all_position("btc", d("48760"));
    let liq = ps.process_liquidation();
    assert_eq!(liq.len(), 1);
    assert_eq!(liq[0].positionid, b);
    // Nothing is queued twice, and the queue empties.
    assert!(ps.process_liquidation().is_empty());
    ps.update_all_position("btc", d("48760"));
    assert!(ps.process_liquidation().is_empty());
    assert!(!ps.get_position(&c).unwrap().liquidated);
    // Other symbols are not revalued.
    ps.update_all_position("eth", d("1"));
    assert!(ps.process_liquidation().is_empty());
}

#[test]
fn two_liquidations_in_one_pass_come_riskiest_first() {
    let mut ps = Positions::new();
    let a = ps.add_position("ua".into(), "btc".into(), Ordertype::Buy, d("1.0"), d("100.00"), d("10.0")).unwrap();
    let b = ps.add_position("ub".into(), "btc".into(), Ordertype::Buy, d("1.0"), d("100.01"), d("10.0")).unwrap();
    // Mark 90.05: a has equity 0.05 on margin 10 (ratio 0.005);
    // b has equity 0.041 on margin 10.001 (ratio about 0.0041): b goes first.
    ps.update_all_position("btc", d("90.05"));
    let liq = ps.process_liquidation();
    assert_eq!(liq.len(), 2);
    assert_eq!(liq[0].positionid, b);
    assert_eq!(liq[1].positionid, a);
}

#[test]
fn closing_a_position_realizes_its_profit_once() {
    let mut ps = Positions::new();
    let id = ps.add_position("u".into(), "btc".into(), Ordertype::Sell, d("2"), d("100"), d("10")).unwrap();
    assert!(ps.close_position("missing", d("90")).is_none());
    let pnl = ps.close_position(&id, d("90")).unwrap();
    assert!(pnl.eq_value(&d("20")));
    let p = ps.get_position(&id).unwrap();
    assert!(p.liquidated);
    assert!(p.quantity.is_zero());
    assert!(p.equity.eq_value(&d("40")));
    assert!(ps.close_position(&id, d("80")).is_none());
    assert!(ps.get_active_positions("u").is_empty());
    assert_eq!(ps.get_user_positions("u").len(), 1);
}

#[test]
fn user_totals_cover_active_positions() {
    let mut ps = Positions::new();
    ps.add_position("u".into(), "btc".into(), Ordertype::Buy, d("1"), d("100"), d("10")).unwrap();
    let id2 = ps.add_position("u".into(), "btc".into(), Ordertype::Sell, d("2"), d("100"), d("4")).unwrap();
    ps.add_position("other".into(), "btc".into(), Ordertype::Buy, d("1"), d("100"), d("1")).unwrap();
    assert!(ps.get_user_total_margin("u").unwrap().eq_value(&d("60")));
    ps.update_all_position("btc", d("110"));
    // long +10, short -20
    assert!(ps.get_user_total_pnl("u").unwrap().eq_value(&d("-10")));
    ps.close_position(&id2, d("110")).unwrap();
    assert!(ps.get_user_total_margin("u").unwrap().eq_value(&d("10")));
    assert!(ps.get_user_total_margin("nobody").unwrap().is_zero());
}

#[test]
fn trades_log_and_events() {
    let mut log = Trades::new();
    let t = Trade::new(d("1"), d("2"), "b".into(), "s".into(), "btc".into());
    let ts = t.timestamp;
    let ev = log.add_new_trades(t);
    assert_eq!(ev.buyuser, "b");
    assert_eq!(ev.selluser, "s");
    assert_eq!(ev.symbol, "btc");
    assert_eq!(ev.timestamp, ts);
    assert_eq!(log.len(), 1);
    assert_eq!(log.get(0).quantity.mantissa(), 2);
}

#[test]
fn registry_records_keep_their_fields() {
    let r = Orderbook::new("u".into(), OrderType::BUY("btc".into()), d("1"), d("2"), 7);
    assert_eq!(r.userid, "u");
    assert_eq!(r.timestamp, 7);
    match r.order_type {
        OrderType::BUY(s) => assert_eq!(s, "btc"),
        OrderType::SELL(_) => panic!("wrong side"),
    }
}

#[test]
fn mixed_scales_leave_the_book_uncrossed() {
    let mut book = OrderBook::new();
    let mut trades = Trades::new();
    let mut positions = Positions::new();
    book.matching_engine(order("101", "1.5", Ordertype::Sell, "10", "s1"), &mut trades, &mut positions).unwrap();
    book.matching_engine(order("102", "2", Ordertype::Sell, "10", "s2"), &mut trades, &mut positions).unwrap();
    let ev = book.matching_engine(order("103", "1", Ordertype::Buy, "10", "b1"), &mut trades, &mut positions).unwrap();
    assert_eq!(ev.len(), 1);
    assert!(book.ask_levels()[0].orders[0].quantity.eq_value(&d("0.5")));
    let ev = book.matching_engine(order("101.5", "3.00", Ordertype::Buy, "10", "b2"), &mut trades, &mut positions).unwrap();
    assert_eq!(ev.len(), 1);
    assert!(ev[0].quantity.eq_value(&d("0.5")));
    // What is left of the buy rests below the remaining ask.
    let bids = book.bid_levels();
    let asks = book.ask_levels();
    assert_eq!(bids.len(), 1);
    assert!(bids[0].price.eq_value(&d("101.5")));
    assert!(bids[0].orders[0].quantity.eq_value(&d("2.5")));
    assert_eq!(prices(asks), vec![102]);
    assert!(bids[0].price.lt(&asks[0].price));
}

#[test]
fn bankrupt_positions_are_liquidated() {
    let mut ps = Positions::new();
    let id = ps.add_position("u".into(), "btc".into(), Ordertype::Buy, d("1"), d("50000"), d("50")).unwrap();
    // Margin 1000; at 48000 the equity is -1000.
    ps.update_all_position("btc", d("48000"));
    let liq = ps.process_liquidation();
    assert_eq!(liq.len(), 1);
    assert_eq!(liq[0].positionid, id);
    assert!(liq[0].loss.eq_value(&d("-1000")));
    assert!(liq[0].margin_lost.eq_value(&d("1000")));
    assert!(ps.get_position(&id).unwrap().liquidated);
    assert!(ps.process_liquidation().is_empty());
}
