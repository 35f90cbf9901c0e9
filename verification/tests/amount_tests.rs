use ledger::amount::{format_amount, parse_amount};

#[test]
fn parse_whole_numbers() {
    assert_eq!(parse_amount(b"0"), Some(0));
    assert_eq!(parse_amount(b"1"), Some(10000));
    assert_eq!(parse_amount(b"42"), Some(420000));
    assert_eq!(parse_amount(b"007"), Some(70000));
}

#[test]
fn parse_fractions() {
    assert_eq!(parse_amount(b"1.5"), Some(15000));
    assert_eq!(parse_amount(b"1.50"), Some(15000));
    assert_eq!(parse_amount(b"1.2345"), Some(12345));
    assert_eq!(parse_amount(b"0.0001"), Some(1));
    assert_eq!(parse_amount(b"0.1"), Some(1000));
}

#[test]
fn parse_negative_amounts() {
    assert_eq!(parse_amount(b"-3.5"), Some(-35000));
    assert_eq!(parse_amount(b"-0"), Some(0));
    assert_eq!(parse_amount(b"-0.0001"), Some(-1));
}

#[test]
fn parse_rejects_malformed_text() {
    assert_eq!(parse_amount(b""), None);
    assert_eq!(parse_amount(b"abc"), None);
    assert_eq!(parse_amount(b"-"), None);
    assert_eq!(parse_amount(b".5"), None);
    assert_eq!(parse_amount(b"1."), None);
    assert_eq!(parse_amount(b"1.23456"), None);
    assert_eq!(parse_amount(b"1.2.3"), None);
    assert_eq!(parse_amount(b"1x"), None);
    assert_eq!(parse_amount(b" 1"), None);
    assert_eq!(parse_amount(b"+1"), None);
}

#[test]
fn parse_respects_the_representable_range() {
    assert_eq!(parse_amount(b"922337203685477.5807"), Some(i64::MAX));
    assert_eq!(parse_amount(b"922337203685477.5808"), None);
    assert_eq!(parse_amount(b"-922337203685477.5808"), Some(i64::MIN));
    assert_eq!(parse_amount(b"-922337203685477.5809"), None);
    assert_eq!(parse_amount(b"99999999999999999999"), None);
    assert_eq!(parse_amount(b"-99999999999999999999"), None);
}

#[test]
fn format_uses_four_fraction_digits() {
    assert_eq!(format_amount(0), b"0.0000".to_vec());
    assert_eq!(format_amount(12345), b"1.2345".to_vec());
    assert_eq!(format_amount(15000), b"1.5000".to_vec());
    assert_eq!(format_amount(-35000), b"-3.5000".to_vec());
    assert_eq!(format_amount(100000), b"10.0000".to_vec());
    assert_eq!(format_amount(1), b"0.0001".to_vec());
    assert_eq!(format_amount(i64::MAX), b"922337203685477.5807".to_vec());
    assert_eq!(format_amount(i64::MIN), b"-922337203685477.5808".to_vec());
}

#[test]
fn format_then_parse_round_trips() {
    for v in [0i64, 1, -1, 9999, 10000, -10001, 123456789, i64::MAX, i64::MIN] {
        assert_eq!(parse_amount(&format_amount(v)), Some(v));
    }
}
