use state_engine::decimal::{format_decimal, format_fixed, parse_exact_fixed, parse_fixed, parse_unsigned};

#[test]
fn decimal_text() {
    assert_eq!(format_decimal(0), b"0".to_vec());
    assert_eq!(format_decimal(34), b"34".to_vec());
    assert_eq!(format_decimal(u64::MAX), u64::MAX.to_string().into_bytes());
}

#[test]
fn fixed_text_has_five_decimals() {
    assert_eq!(format_fixed(0), b"0.00000".to_vec());
    assert_eq!(format_fixed(108345), b"1.08345".to_vec());
    assert_eq!(format_fixed(-50000), b"-0.50000".to_vec());
    assert_eq!(format_fixed(1), b"0.00001".to_vec());
    assert_eq!(format_fixed(i64::MIN), b"-92233720368547.75808".to_vec());
}

#[test]
fn fixed_text_parses() {
    assert_eq!(parse_fixed(b"1.08345"), Some(108345));
    assert_eq!(parse_fixed(b"1000000"), Some(100_000_000_000));
    assert_eq!(parse_fixed(b"+2"), Some(200000));
    assert_eq!(parse_fixed(b"-.5"), Some(-50000));
    assert_eq!(parse_fixed(b"3."), Some(300000));
    assert_eq!(parse_fixed(b"1.0834567"), Some(108345));
    assert_eq!(parse_fixed(b"0"), Some(0));
    assert_eq!(parse_fixed(b"1e5"), Some(10_000_000_000));
    assert_eq!(parse_fixed(b"25E-6"), Some(2));
}

#[test]
fn malformed_fixed_text_is_refused() {
    assert_eq!(parse_fixed(b""), None);
    assert_eq!(parse_fixed(b"-"), None);
    assert_eq!(parse_fixed(b"."), None);
    assert_eq!(parse_fixed(b"1.2.3"), None);
    assert_eq!(parse_fixed(b"1e"), None);
    assert_eq!(parse_fixed(b"1e5.0"), None);
    assert_eq!(parse_fixed(b"12a"), None);
    assert_eq!(parse_fixed(b"99999999999999999999"), None);
    assert_eq!(parse_fixed(b"92233720368547.75808"), None);
    assert_eq!(parse_fixed(b"-92233720368547.75808"), Some(i64::MIN));
}

#[test]
fn fixed_text_round_trips() {
    for v in [0i64, 1, -1, 108345, -108345, 99999, 100000, i64::MAX, i64::MIN] {
        assert_eq!(parse_fixed(&format_fixed(v)), Some(v));
    }
}

#[test]
fn unsigned_text_parses() {
    assert_eq!(parse_unsigned(b"2"), Some(2));
    assert_eq!(parse_unsigned(b"+777999"), Some(777999));
    assert_eq!(parse_unsigned(b"18446744073709551615"), Some(u64::MAX));
    assert_eq!(parse_unsigned(b"18446744073709551616"), None);
    assert_eq!(parse_unsigned(b""), None);
    assert_eq!(parse_unsigned(b"+"), None);
    assert_eq!(parse_unsigned(b"-1"), None);
    assert_eq!(parse_unsigned(b"1 "), None);
}

#[test]
fn unsigned_text_round_trips() {
    for n in [0u64, 7, 10, 777999, u64::MAX] {
        assert_eq!(parse_unsigned(&format_decimal(n)), Some(n));
    }
}

#[test]
fn exact_reading_refuses_dropped_digits() {
    assert_eq!(parse_exact_fixed(b"1.000001"), None);
    assert_eq!(parse_fixed(b"1.000001"), Some(100000));
    assert_eq!(parse_exact_fixed(b"1.0000000"), Some(100000));
    assert_eq!(parse_exact_fixed(b"1e0"), Some(100000));
    assert_eq!(parse_exact_fixed(b"10e-1"), Some(100000));
    assert_eq!(parse_exact_fixed(b"15e-6"), None);
    assert_eq!(parse_exact_fixed(b"0.0e-99999999999999999999999"), Some(0));
    assert_eq!(parse_exact_fixed(b"3e-99999999999999999999999"), None);
    assert_eq!(parse_exact_fixed(b"x"), None);
}
