use perpx::decimal::Dec;
use perpx::feed::binancemsg;
use perpx::http::{bearer_token, clamp_limit, default_limit, trade_queue_key};
use perpx::jwt::Claim;
use perpx::order::Ordertype;

fn d(text: &str) -> Dec {
    Dec::parse(text).unwrap()
}

#[test]
fn parse_keeps_mantissa_and_scale() {
    let x = d("50000.0");
    assert_eq!(x.mantissa(), 500000);
    assert_eq!(x.scale(), 1);
    let y = d("-0.0075");
    assert_eq!(y.mantissa(), -75);
    assert_eq!(y.scale(), 4);
    assert!(Dec::parse("not a number").is_none());
}

#[test]
fn new_checks_the_representable_range() {
    assert!(Dec::new(79228162514264337593543950335, 28).is_some());
    assert!(Dec::new(79228162514264337593543950336, 0).is_none());
    assert!(Dec::new(1, 29).is_none());
    let z = Dec::zero();
    assert!(z.is_zero());
}

#[test]
fn comparisons_go_by_value_across_scales() {
    assert!(d("1.0").eq_value(&d("1.00")));
    assert!(d("0.5").lt(&d("0.51")));
    assert!(!d("0.51").lt(&d("0.5")));
    assert!(d("-0.5").lt(&d("-0.01")));
    assert!(d("2").le(&d("2.000")));
    assert!(d("0.001").is_positive());
    assert!(!d("-0.001").is_positive());
}

#[test]
fn min_prefers_the_first_on_a_tie() {
    let a = d("2.0");
    let b = d("2.00");
    let m = a.min(b);
    assert_eq!(m.scale(), 1);
    let m2 = d("3").min(d("1.5"));
    assert_eq!(m2.mantissa(), 15);
}

#[test]
fn arithmetic_goes_through_rust_decimal() {
    let sum = d("1.5").checked_add(&d("2.25")).unwrap();
    assert_eq!((sum.mantissa(), sum.scale()), (375, 2));
    let diff = d("2.0").checked_sub(&d("1.5")).unwrap();
    assert_eq!((diff.mantissa(), diff.scale()), (5, 1));
    let prod = d("1.0").checked_mul(&d("50000.0")).unwrap();
    assert!(prod.eq_value(&d("50000")));
    let quot = d("50000").checked_div(&d("10.0")).unwrap();
    assert!(quot.eq_value(&d("5000")));
    assert!(d("1").checked_div(&Dec::zero()).is_none());
    let max = Dec::new(79228162514264337593543950335, 0).unwrap();
    assert!(max.checked_add(&Dec::one()).is_none());
    // Products are exact at the sum of the scales; a zero operand gives 0.
    let p = d("1.5").checked_mul(&d("0.25")).unwrap();
    assert_eq!((p.mantissa(), p.scale()), (375, 3));
    let z = d("0.00").checked_mul(&d("7.5")).unwrap();
    assert_eq!((z.mantissa(), z.scale()), (0, 0));
    // Across scales the operand of the smaller scale is written at the larger.
    let diff = d("2.5").checked_sub(&d("1")).unwrap();
    assert_eq!((diff.mantissa(), diff.scale()), (15, 1));
    let sum = d("0.25").checked_add(&d("3")).unwrap();
    assert_eq!((sum.mantissa(), sum.scale()), (325, 2));
    // An exact quotient by a small divisor keeps the difference of scales.
    let q = d("1000000").checked_div(&d("10")).unwrap();
    assert_eq!((q.mantissa(), q.scale()), (100000, 0));
    let q = d("7.50").checked_div(&d("2.5")).unwrap();
    assert_eq!((q.mantissa(), q.scale()), (30, 1));
    // A dividend of at most zero over a positive divisor is at most zero.
    assert!(!d("-3").checked_div(&d("7")).unwrap().is_positive());
    let n = d("0.0075").neg();
    assert_eq!((n.mantissa(), n.scale()), (-75, 4));
}

#[test]
fn ordertype_parses_case_insensitively() {
    assert_eq!(Ordertype::from_str("buy"), Ok(Ordertype::Buy));
    assert_eq!(Ordertype::from_str("BUY"), Ok(Ordertype::Buy));
    assert_eq!(Ordertype::from_str("bUy"), Ok(Ordertype::Buy));
    assert_eq!(Ordertype::from_str("Sell"), Ok(Ordertype::Sell));
    assert_eq!(Ordertype::from_str("SELL"), Ok(Ordertype::Sell));
    assert_eq!(Ordertype::from_str("sell "), Err(String::from("invalid order type")));
    assert_eq!(Ordertype::from_str("buyy"), Err(String::from("invalid order type")));
    assert_eq!(Ordertype::from_str(""), Err(String::from("invalid order type")));
}

#[test]
fn bearer_tokens_are_what_follows_the_prefix() {
    assert_eq!(bearer_token("Bearer abc.def"), "abc.def");
    assert_eq!(bearer_token("Bearer "), "");
    assert_eq!(bearer_token("bearer abc"), "");
    assert_eq!(bearer_token("Token abc"), "");
    assert_eq!(bearer_token(""), "");
}

#[test]
fn candle_limits() {
    assert_eq!(default_limit(), 500);
    assert_eq!(clamp_limit(0), 1);
    assert_eq!(clamp_limit(-5), 1);
    assert_eq!(clamp_limit(1), 1);
    assert_eq!(clamp_limit(500), 500);
    assert_eq!(clamp_limit(1000), 1000);
    assert_eq!(clamp_limit(5000), 1000);
}

#[test]
fn trade_queue_key_prefixes_the_symbol() {
    assert_eq!(trade_queue_key("btc"), "trades:btc");
    assert_eq!(trade_queue_key(""), "trades:");
}

#[test]
fn claims_expire_a_day_later() {
    let c = Claim::for_user("user-1", 1_700_000_000);
    assert_eq!(c.sub, "user-1");
    assert_eq!(c.exp, 1_700_086_400);
}

#[test]
fn feed_messages_give_the_mark_price() {
    let msg = binancemsg {
        e: String::from("trade"),
        E: 1,
        s: String::from("BTCUSDT"),
        t: 2,
        p: String::from("64123.45000000"),
        q: String::from("0.001"),
        T: 3,
        m: false,
        M: true,
    };
    let p = msg.mark_price().unwrap();
    assert!(p.eq_value(&d("64123.45")));
    let bad = binancemsg { p: String::from("x"), ..msg };
    assert!(bad.mark_price().is_none());
}
