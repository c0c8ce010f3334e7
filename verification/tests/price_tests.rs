use std::hash::{Hash, Hasher};

use l3replay::price::{ParseError, Price};

fn px(s: &str) -> Price {
    Price::parse(s).unwrap()
}

#[test]
fn price_display() {
    assert_eq!("1024.65", px("1024.65").to_display());
    assert_eq!("1024.00", px("1024.").to_display());
    assert_eq!("15024.015", px("15024.015").to_display());
    assert_eq!("1024.0151", px("1024.0151").to_display());
    assert_eq!("1024.01512", px("1024.01512").to_display());
    assert_eq!("1024.010001", px("1024.010001").to_display());
    assert_eq!("0.10", px("0.10").to_display());
    assert_eq!("0.00", px("0.0").to_display());

    assert_eq!("-1024.65", px("-1024.65").to_display());
    assert_eq!("-1024.00", px("-1024.").to_display());
    assert_eq!("-15024.015", px("-15024.015").to_display());
    assert_eq!("-1024.0151", px("-1024.0151").to_display());
    assert_eq!("-1024.01512", px("-1024.01512").to_display());
    assert_eq!("-1024.010001", px("-1024.010001").to_display());
    assert_eq!("-0.10", px("-0.10").to_display());
}

#[test]
fn math_ops() {
    assert_eq!(px("110."), px("11.").mul(10));
    assert_eq!(px("110."), px("11.").mul(10));
    assert_eq!(px("11."), px("110.").div(10));
    assert_eq!(px("25."), px("10.").add(px("15.")));
}

#[test]
fn parse_exact_ticks() {
    assert_eq!(0, px("0").ticks());
    assert_eq!(100_000_000, px("1").ticks());
    assert_eq!(102_465_000_000, px("1024.65").ticks());
    assert_eq!(-102_465_000_000, px("-1024.65").ticks());
    assert_eq!(50_000_000, px(".5").ticks());
    assert_eq!(500_000_000, px("5.").ticks());
    assert_eq!(100_000_000, px("+1").ticks());
    // digits beyond the eighth fractional place are truncated toward zero
    assert_eq!(12_345_678, px("0.123456789").ticks());
    assert_eq!(-12_345_678, px("-0.123456789").ticks());
}

#[test]
fn parse_rejects_malformed() {
    for s in ["", "-", "+", ".", "-.", "abc", "1.2.3", "1e5", "inf", "12a", " 1"] {
        assert_eq!(Err(ParseError::Malformed), Price::parse(s), "input {:?}", s);
    }
}

#[test]
fn parse_out_of_range() {
    assert_eq!(
        Err(ParseError::OutOfRange),
        Price::parse("123456789012345678901234567890")
    );
    // the largest representable magnitude parses exactly
    assert_eq!(i64::MAX, px("92233720368.54775807").ticks());
    assert_eq!(-i64::MAX, px("-92233720368.54775807").ticks());
    assert_eq!(Err(ParseError::OutOfRange), Price::parse("92233720368.54775808"));
}

#[test]
fn display_parse_round_trip() {
    for ticks in [
        0i64,
        1,
        -1,
        99,
        100,
        1_000_000,
        123_456_789,
        -123_456_789,
        102_465_000_000,
        i64::MAX,
    ] {
        let p = Price::from_ticks(ticks);
        assert_eq!(p, px(&p.to_display()), "ticks {}", ticks);
    }
}

#[test]
fn add_sub_cancel() {
    let a = px("1024.65");
    let b = px("-15024.015");
    assert_eq!(a, a.add(b).sub(b));
    assert_eq!(b, b.add(a).sub(a));
}

#[test]
fn ordering_is_total() {
    let a = px("1.5");
    let b = px("2.5");
    assert!(a < b);
    assert!(!(b < a));
    assert!(a <= a);
    assert!(b >= a);
    assert!(a == px("1.50"));
}

#[test]
fn equal_prices_hash_equal() {
    let a = px("10.00");
    let b = px("10.0");
    assert_eq!(a, b);
    let mut ha = std::collections::hash_map::DefaultHasher::new();
    let mut hb = std::collections::hash_map::DefaultHasher::new();
    a.hash(&mut ha);
    b.hash(&mut hb);
    assert_eq!(ha.finish(), hb.finish());
}

#[test]
fn div_truncates_toward_zero() {
    assert_eq!(Price::from_ticks(-3), Price::from_ticks(-7).div(2));
    assert_eq!(Price::from_ticks(-3), Price::from_ticks(7).div(-2));
    assert_eq!(Price::from_ticks(3), Price::from_ticks(-7).div(-2));
    assert_eq!(Price::from_ticks(3), Price::from_ticks(7).div(2));
}

#[test]
fn zero_is_identity() {
    let a = px("42.42");
    assert_eq!(a, a.add(Price::zero()));
    assert_eq!(Price::zero(), a.sub(a));
}

#[test]
fn assign_ops() {
    let mut a = px("1.");
    a.add_assign(px("0.5"));
    assert_eq!(px("1.5"), a);
    a.sub_assign(px("1."));
    assert_eq!(px("0.5"), a);
}
