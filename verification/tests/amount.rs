use wonderful_pe::amount::{to_inner, Amount};
use wonderful_pe::error::ParsingError;

#[test]
fn amount_simple() {
    assert_eq!(Amount(10000), Amount::try_from("1.0000").unwrap());
    assert_eq!(Amount(20000), Amount::try_from("2.0").unwrap());
    assert_eq!(Amount(1005000), Amount::try_from("100.50").unwrap());
    assert_eq!(Amount(415050), Amount::try_from("41.505").unwrap());
    assert_eq!(Amount(10001), Amount::try_from("1.0001012313").unwrap());
    assert_eq!(Amount(50000), Amount::try_from("5").unwrap());
}

#[test]
fn errors() {
    assert_eq!(Err(ParsingError()), Amount::try_from("hi"));
    assert_eq!(Err(ParsingError()), Amount::try_from("3.0.0"));
}

#[test]
fn from() {
    assert_eq!(Amount::from(350000), Amount::try_from("35").unwrap());
}

#[test]
fn add() {
    let a = Amount(10000);
    let b = Amount(20000);
    let res = Amount(30000);
    assert_eq!(a + b, res);
}

#[test]
fn add_assign() {
    let mut a = Amount(10000);
    let b = Amount(20000);
    let res = Amount(30000);
    a.add_assign(b);
    assert_eq!(a, res);
}

#[test]
fn to_string() {
    assert_eq!(&Amount(10000).to_string(), "1.0");
    assert_eq!(&Amount(20001).to_string(), "2.0001");
    assert_eq!(&Amount(123456).to_string(), "12.3456");
    assert_eq!(&Amount(200).to_string(), "0.02");
}

#[test]
fn truncation_does_not_round() {
    assert_eq!(Amount::try_from("1.0001012313"), Amount::try_from("1.0001"));
    assert_eq!(Amount::try_from("0.99999"), Ok(Amount(9999)));
    assert_eq!(Amount::try_from("2.00009"), Ok(Amount(20000)));
}

#[test]
fn point_without_digits_is_zero_fraction() {
    assert_eq!(Amount::try_from("1."), Ok(Amount(10000)));
    assert_eq!(Amount::try_from("0."), Ok(Amount(0)));
}

#[test]
fn malformed_text_is_rejected() {
    assert_eq!(Amount::try_from(""), Err(ParsingError()));
    assert_eq!(Amount::try_from("."), Err(ParsingError()));
    assert_eq!(Amount::try_from(".5"), Err(ParsingError()));
    assert_eq!(Amount::try_from("+5"), Err(ParsingError()));
    assert_eq!(Amount::try_from("-5"), Err(ParsingError()));
    assert_eq!(Amount::try_from("1,5"), Err(ParsingError()));
    assert_eq!(Amount::try_from("1.5x"), Err(ParsingError()));
    assert_eq!(Amount::try_from("1.0001abc"), Err(ParsingError()));
    assert_eq!(Amount::try_from("1.2.3"), Err(ParsingError()));
    assert_eq!(Amount::try_from(" 1.0"), Err(ParsingError()));
    assert_eq!(Amount::try_from("1.0 "), Err(ParsingError()));
    assert_eq!(Amount::try_from("1e3"), Err(ParsingError()));
    assert_eq!(Amount::try_from("१.0"), Err(ParsingError()));
    assert_eq!(Amount::try_from("1.é"), Err(ParsingError()));
}

#[test]
fn leading_zeros_count_for_nothing() {
    assert_eq!(Amount::try_from("007.5"), Ok(Amount(75000)));
    assert_eq!(Amount::try_from("0.0"), Ok(Amount(0)));
    assert_eq!(Amount::try_from("0"), Ok(Amount(0)));
}

#[test]
fn largest_amount_parses_and_larger_is_rejected() {
    assert_eq!(Amount::try_from("1844674407370955.1615"), Ok(Amount(u64::MAX)));
    assert_eq!(Amount::try_from("1844674407370955.16159"), Ok(Amount(u64::MAX)));
    assert_eq!(Amount::try_from("1844674407370955.1616"), Err(ParsingError()));
    assert_eq!(Amount::try_from("1844674407370956"), Err(ParsingError()));
    assert_eq!(Amount::try_from("18446744073709551616"), Err(ParsingError()));
    assert_eq!(
        Amount::try_from("99999999999999999999999999999999999999999999.0"),
        Err(ParsingError())
    );
}

#[test]
fn to_inner_counts_ten_thousandths() {
    assert_eq!(to_inner("12.34"), Ok(123400));
    assert_eq!(to_inner("0.0001"), Ok(1));
    assert_eq!(to_inner("x"), Err(ParsingError()));
}

#[test]
fn text_of_edge_values() {
    assert_eq!(Amount(0).to_string(), "0.0");
    assert_eq!(Amount(1).to_string(), "0.0001");
    assert_eq!(Amount(10).to_string(), "0.001");
    assert_eq!(Amount(1000).to_string(), "0.1");
    assert_eq!(Amount(9999).to_string(), "0.9999");
    assert_eq!(Amount(1005000).to_string(), "100.5");
    assert_eq!(Amount(10100).to_string(), "1.01");
    assert_eq!(Amount(u64::MAX).to_string(), "1844674407370955.1615");
}

#[test]
fn text_round_trip_is_canonical() {
    let cases = [
        ("1.0000", "1.0"),
        ("2.0", "2.0"),
        ("100.50", "100.5"),
        ("41.505", "41.505"),
        ("5", "5.0"),
        ("5.", "5.0"),
        ("0.0200", "0.02"),
        ("12.3456", "12.3456"),
        ("10.00", "10.0"),
    ];
    for (text, canonical) in cases {
        assert_eq!(Amount::try_from(text).unwrap().to_string(), canonical);
    }
}

#[test]
fn parse_of_text_gives_amount_back() {
    for v in [0u64, 1, 9, 10, 99, 100, 9999, 10000, 10001, 123456789, u64::MAX] {
        assert_eq!(Amount::try_from(&Amount(v).to_string()), Ok(Amount(v)));
    }
}

#[test]
fn checked_sub_detects_underflow() {
    assert_eq!(Amount(30000).checked_sub(Amount(10000)), Some(Amount(20000)));
    assert_eq!(Amount(10000).checked_sub(Amount(10000)), Some(Amount(0)));
    assert_eq!(Amount(10000).checked_sub(Amount(10001)), None);
    assert_eq!(Amount(0).checked_sub(Amount(1)), None);
}

#[test]
fn default_amount_is_zero() {
    assert_eq!(Amount::default(), Amount(0));
}

#[test]
fn amounts_order_by_value() {
    assert!(Amount(1) < Amount(2));
    assert!(Amount::try_from("1.5").unwrap() > Amount::try_from("1.4999").unwrap());
    assert_eq!(Amount::try_from("1.50").unwrap(), Amount::try_from("1.5").unwrap());
}
