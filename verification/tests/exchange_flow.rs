use perpx::decimal::Dec;
use perpx::exchange::Exchange;
use perpx::user::Users;

fn d(text: &str) -> Dec {
    Dec::parse(text).unwrap()
}

#[test]
fn registering_and_finding_users() {
    let mut users = Users::new();
    let u = users.add_new_user("Trader1".into(), "t1@x.io".into(), "h1".into()).unwrap();
    assert_eq!(u.userid.len(), 21);
    assert!(u.balance.eq_value(&d("100000")));
    assert_eq!((u.balance.mantissa(), u.balance.scale()), (100000000, 3));
    assert_eq!(u.quantity.mantissa(), 10);
    assert_eq!(users.getuser(&u.userid).unwrap().email, "t1@x.io");
    assert_eq!(users.find_by_email("t1@x.io").unwrap().userid, u.userid);
    assert!(users.find_by_email("t2@x.io").is_none());
    let again = users.add_new_user("Other".into(), "t1@x.io".into(), "h2".into());
    assert_eq!(again.err(), Some(String::from("email already registered")));
    assert!(users.set_balance(&u.userid, d("5")));
    assert!(users.getuser(&u.userid).unwrap().balance.eq_value(&d("5")));
    assert!(!users.set_balance("nobody", d("5")));
}

#[test]
fn login_compares_password_hashes() {
    let mut ex = Exchange::new();
    let u = ex.users.add_new_user("A".into(), "a@x.io".into(), "hash-a".into()).unwrap();
    assert_eq!(ex.login_user("a@x.io", "hash-a").unwrap().userid, u.userid);
    assert_eq!(ex.login_user("a@x.io", "wrong").err(), Some(String::from("invalid credentials")));
    assert_eq!(ex.login_user("b@x.io", "hash-a").err(), Some(String::from("invalid credentials")));
}

#[test]
fn order_checks_come_in_order() {
    let mut ex = Exchange::new();
    let u = ex.users.add_new_user("A".into(), "a@x.io".into(), "h".into()).unwrap();
    let r = ex.create_order(d("50000"), d("1"), "buy", "nobody".into(), d("10"));
    assert_eq!(r.err(), Some(String::from("user not found ")));
    let r = ex.create_order(d("50000"), d("1"), "hold", u.userid.clone(), d("10"));
    assert_eq!(r.err(), Some(String::from("invalid order type")));
    let r = ex.create_order(d("50000"), d("1"), "buy", u.userid.clone(), d("0"));
    assert_eq!(r.err(), Some(String::from("leverage cannot be zero")));
    // 3 * 50000 / 1 = 150000 > 100000
    let r = ex.create_order(d("50000"), d("3"), "buy", u.userid.clone(), d("1"));
    assert_eq!(r.err(), Some(String::from("user don't have enough balance")));
    assert!(ex.get_balance(&u.userid).unwrap().eq_value(&d("100000")));
    assert_eq!(ex.get_balance("nobody").err(), Some(String::from("can't found user")));
}

#[test]
fn matched_orders_take_margin_and_open_positions() {
    let mut ex = Exchange::new();
    let a = ex.users.add_new_user("A".into(), "a@x.io".into(), "h".into()).unwrap();
    let b = ex.users.add_new_user("B".into(), "b@x.io".into(), "h".into()).unwrap();
    let ev = ex.create_order(d("50000.0"), d("1.0"), "buy", a.userid.clone(), d("10.0")).unwrap();
    assert!(ev.is_empty());
    assert!(ex.get_balance(&a.userid).unwrap().eq_value(&d("95000")));
    let ev = ex.create_order(d("50000.0"), d("1.0"), "sell", b.userid.clone(), d("20.0")).unwrap();
    assert_eq!(ev.len(), 1);
    assert_eq!(ev[0].buyuser, a.userid);
    assert_eq!(ev[0].selluser, b.userid);
    assert!(ex.get_balance(&b.userid).unwrap().eq_value(&d("97500")));
    assert_eq!(ex.open_positions(&a.userid).len(), 1);
    assert_eq!(ex.open_positions(&b.userid).len(), 1);
    assert_eq!(ex.trades.len(), 1);
}

#[test]
fn closing_needs_a_mark_price() {
    let mut ex = Exchange::new();
    let a = ex.users.add_new_user("A".into(), "a@x.io".into(), "h".into()).unwrap();
    let b = ex.users.add_new_user("B".into(), "b@x.io".into(), "h".into()).unwrap();
    ex.create_order(d("100"), d("1"), "buy", a.userid.clone(), d("10")).unwrap();
    ex.create_order(d("100"), d("1"), "sell", b.userid.clone(), d("10")).unwrap();
    let id = ex.open_positions(&a.userid)[0].positionid.clone();
    assert_eq!(ex.close_position(&id).err(), Some(String::from("mark price not found")));
    ex.update_mark_price(d("110"), false);
    assert!(ex.close_position(&id).unwrap().eq_value(&d("10")));
    assert_eq!(ex.close_position(&id).err(), Some(String::from("error in sending it to other thread")));
    assert!(ex.open_positions(&a.userid).is_empty());
}

#[test]
fn mark_price_liquidates_and_refunds_equity() {
    let mut ex = Exchange::new();
    let a = ex.users.add_new_user("A".into(), "a@x.io".into(), "h".into()).unwrap();
    let b = ex.users.add_new_user("B".into(), "b@x.io".into(), "h".into()).unwrap();
    ex.create_order(d("50000.0"), d("2.0"), "buy", a.userid.clone(), d("50.0")).unwrap();
    ex.create_order(d("50000.0"), d("2.0"), "sell", b.userid.clone(), d("15.0")).unwrap();
    // a: margin 2000 taken, balance 98000.
    assert!(ex.get_balance(&a.userid).unwrap().eq_value(&d("98000")));
    let up = ex.update_mark_price(d("49010"), false);
    assert_eq!(up.liquidations.len(), 1);
    assert_eq!(up.liquidations[0].userid, a.userid);
    assert!(up.funding_rate.is_none());
    // The remaining equity, 20, goes back to the user.
    assert!(ex.get_balance(&a.userid).unwrap().eq_value(&d("98020")));
    assert!(ex.open_positions(&a.userid).is_empty());
    assert_eq!(ex.open_positions(&b.userid).len(), 1);
}

#[test]
fn funding_rate_is_the_capped_premium() {
    let mut ex = Exchange::new();
    let a = ex.users.add_new_user("A".into(), "a@x.io".into(), "h".into()).unwrap();
    let b = ex.users.add_new_user("B".into(), "b@x.io".into(), "h".into()).unwrap();
    ex.create_order(d("100"), d("1"), "buy", a.userid.clone(), d("10")).unwrap();
    ex.create_order(d("102"), d("1"), "sell", b.userid.clone(), d("10")).unwrap();
    // mid 101, mark 100: premium 0.01, capped at 0.0075.
    let up = ex.update_mark_price(d("100"), true);
    assert!(up.funding_rate.unwrap().eq_value(&d("0.0075")));
    // mid 101, mark 101.5: premium about -0.0049, within the cap.
    let up = ex.update_mark_price(d("101.5"), true);
    let r = up.funding_rate.unwrap();
    assert!(r.lt(&d("0")) && d("-0.0075").lt(&r));
    // mid 101, mark 110: premium about -0.082, capped at -0.0075.
    let up = ex.update_mark_price(d("110"), true);
    assert!(up.funding_rate.unwrap().eq_value(&d("-0.0075")));
    // Not due: none.
    assert!(ex.update_mark_price(d("100"), false).funding_rate.is_none());
}

#[test]
fn bot_trades_open_the_described_positions() {
    let mut ex = Exchange::new();
    let mut ids = Vec::new();
    for i in 1..=5 {
        let u = ex.users.add_new_user(format!("Trader{}", i), format!("t{}@x.io", i), "h".into()).unwrap();
        ids.push(u.userid);
    }
    let orders = [
        ("50000.0", "1.0", "buy", 0, "10.0"),
        ("50000.0", "1.0", "sell", 1, "20.0"),
        ("50000.0", "2.0", "buy", 2, "50.0"),
        ("50000.0", "2.0", "sell", 3, "15.0"),
        ("50000.0", "1.5", "sell", 4, "50.0"),
        ("50000.0", "1.5", "buy", 0, "10.0"),
    ];
    for (price, qty, side, who, lev) in orders {
        ex.create_order(d(price), d(qty), side, ids[who].clone(), d(lev)).unwrap();
    }
    assert_eq!(ex.trades.len(), 3);
    // Trader1 is long twice (1.0 and 1.5), the others hold one position each.
    let t1 = ex.open_positions(&ids[0]);
    assert_eq!(t1.len(), 2);
    assert!(t1.iter().all(|p| p.side == perpx::order::Ordertype::Buy));
    let held: Vec<(usize, &str)> = vec![(1, "1.0"), (2, "2.0"), (3, "2.0"), (4, "1.5")];
    for (who, qty) in held {
        let ps = ex.open_positions(&ids[who]);
        assert_eq!(ps.len(), 1);
        assert!(ps[0].quantity.eq_value(&d(qty)));
    }
    // Margins: 5000 + 7500, 2500, 2000, 100000 / 15, 1500.
    assert!(ex.get_balance(&ids[0]).unwrap().eq_value(&d("87500")));
    assert!(ex.get_balance(&ids[1]).unwrap().eq_value(&d("97500")));
    assert!(ex.get_balance(&ids[2]).unwrap().eq_value(&d("98000")));
    assert!(ex.get_balance(&ids[4]).unwrap().eq_value(&d("98500")));
    // The 50x long is the first to go when the price falls.
    let up = ex.update_mark_price(d("49010"), false);
    assert_eq!(up.liquidations.len(), 1);
    assert_eq!(up.liquidations[0].userid, ids[2]);
}
