use state_engine::decimal::{format_fixed, parse_fixed};
use state_engine::fix_engine::{
    close_order_body, heartbeat_body, logon_body, market_data_request_body, order_request_body,
    FixEngine,
};
use state_engine::clock::sending_time_at;
use state_engine::lob::extract_tag_fast;

const SOH: char = '\u{1}';

fn text(bytes: &[u8]) -> String {
    String::from_utf8(bytes.to_vec()).unwrap()
}

fn fields(list: &[(&str, &str)]) -> String {
    list.iter().map(|(t, v)| format!("{}={}{}", t, v, SOH)).collect()
}

/// Checks the framing of a message: header, BodyLength over the MsgType
/// field and body, and the CheckSum of all bytes before it. Returns the
/// fields after MsgType.
fn check_frame(msg: &[u8], msg_type: &str) -> String {
    let s = text(msg);
    let prefix = format!("8=FIX.4.4{}9=", SOH);
    assert!(s.starts_with(&prefix));
    let after = &s[prefix.len()..];
    let len: usize = after[..6].parse().unwrap();
    assert_eq!(after.as_bytes()[6], 1);
    let rest_start = prefix.len() + 7;
    let trailer = s.rfind(&format!("{}10=", SOH)).unwrap() + 1;
    assert_eq!(trailer - rest_start, len);
    let sum: u32 = msg[..trailer].iter().map(|b| *b as u32).sum();
    assert_eq!(&s[trailer..], format!("10={:03}{}", sum % 256, SOH));
    let rest = &s[rest_start..trailer];
    let mt = format!("35={}{}", msg_type, SOH);
    assert!(rest.starts_with(&mt));
    rest[mt.len()..].to_string()
}

#[test]
fn logon_body_fields() {
    let body = logon_body("demo.icmarkets.8765", "cServer", "QUOTE", "pw", 1, b"20260416-10:00:00.000");
    assert_eq!(
        text(&body),
        fields(&[
            ("49", "demo.icmarkets.8765"),
            ("56", "cServer"),
            ("50", "QUOTE"),
            ("57", "QUOTE"),
            ("34", "1"),
            ("52", "20260416-10:00:00.000"),
            ("98", "0"),
            ("108", "30"),
            ("553", "8765"),
            ("554", "pw"),
            ("141", "Y"),
        ])
    );
}

#[test]
fn logon_account_is_the_whole_id_without_dots() {
    let body = logon_body("8765", "cServer", "TRADE", "pw", 2, b"t");
    assert!(text(&body).contains(&format!("553=8765{}", SOH)));
    let body = logon_body("a.", "cServer", "TRADE", "pw", 2, b"t");
    assert!(text(&body).contains(&format!("553={}", SOH)));
}

#[test]
fn heartbeat_body_fields() {
    let body = heartbeat_body("s", "t", 25, b"now", None);
    assert_eq!(text(&body), fields(&[("49", "s"), ("56", "t"), ("34", "25"), ("52", "now")]));
    let body = heartbeat_body("s", "t", 25, b"now", Some("TEST1"));
    assert_eq!(
        text(&body),
        fields(&[("49", "s"), ("56", "t"), ("34", "25"), ("52", "now"), ("112", "TEST1")])
    );
}

#[test]
fn market_data_request_body_fields() {
    let body = market_data_request_body("s", "t", 2, b"now", "1");
    assert_eq!(
        text(&body),
        fields(&[
            ("49", "s"),
            ("56", "t"),
            ("34", "2"),
            ("52", "now"),
            ("57", "QUOTE"),
            ("262", "REQ_DEEP_LOB"),
            ("263", "1"),
            ("264", "0"),
            ("265", "1"),
            ("267", "3"),
            ("269", "0"),
            ("269", "1"),
            ("269", "2"),
            ("146", "1"),
            ("55", "1"),
        ])
    );
}

#[test]
fn order_request_body_fields() {
    let body = order_request_body("s", "t", 7, b"now", "ID1", "1", '1', 1000, 108345);
    assert_eq!(
        text(&body),
        fields(&[
            ("49", "s"),
            ("56", "t"),
            ("34", "7"),
            ("52", "now"),
            ("57", "TRADE"),
            ("11", "ID1"),
            ("55", "1"),
            ("54", "1"),
            ("60", "now"),
            ("38", "1000"),
            ("40", "1"),
            ("59", "1"),
            ("99", "1.08345"),
        ])
    );
}

#[test]
fn close_order_body_fields() {
    let body = close_order_body("s", "t", 8, b"now", "C_ID1", "1", '2', 1000, "P42");
    assert_eq!(
        text(&body),
        fields(&[
            ("49", "s"),
            ("56", "t"),
            ("34", "8"),
            ("52", "now"),
            ("57", "TRADE"),
            ("11", "C_ID1"),
            ("55", "1"),
            ("54", "2"),
            ("60", "now"),
            ("38", "1000"),
            ("40", "1"),
            ("721", "P42"),
        ])
    );
}

#[test]
fn built_logon_is_framed() {
    let mut engine = FixEngine::new();
    let mut buffer = b"stale".to_vec();
    engine.build_logon(&mut buffer, "demo.8765", "cServer", "QUOTE", "pw", 1);
    let rest = check_frame(&buffer, "A");
    assert!(rest.starts_with(&format!("49=demo.8765{}56=cServer{}50=QUOTE{}", SOH, SOH, SOH)));
    assert!(rest.ends_with(&format!("553=8765{}554=pw{}141=Y{}", SOH, SOH, SOH)));
}

#[test]
fn built_heartbeat_is_framed() {
    let mut engine = FixEngine::new();
    let mut buffer = Vec::new();
    engine.build_heartbeat(&mut buffer, "s", "t", 3, Some("X"));
    let rest = check_frame(&buffer, "0");
    assert!(rest.ends_with(&format!("112=X{}", SOH)));
}

#[test]
fn built_market_data_request_is_framed() {
    let mut engine = FixEngine::new();
    let mut buffer = Vec::new();
    engine.build_market_data_request(&mut buffer, "s", "t", 2, "1");
    let rest = check_frame(&buffer, "V");
    assert!(rest.ends_with(&format!("146=1{}55=1{}", SOH, SOH)));
}

#[test]
fn built_orders_are_framed() {
    let mut engine = FixEngine::new();
    let mut buffer = Vec::new();
    engine.build_order_request(&mut buffer, "s", "t", 4, "ID", "1", '2', 1000, 0);
    let rest = check_frame(&buffer, "D");
    assert!(rest.ends_with(&format!("99=0.00000{}", SOH)));
    engine.build_close_order(&mut buffer, "s", "t", 5, "C_ID", "1", '1', 1000, "77");
    let rest = check_frame(&buffer, "D");
    assert!(rest.ends_with(&format!("721=77{}", SOH)));
}

#[test]
fn a_price_written_in_a_field_is_read_back() {
    for v in [108345i64, -5, 0, i64::MAX] {
        let frag = format!("99={}{}55=1{}", text(&format_fixed(v)), SOH, SOH);
        assert_eq!(extract_tag_fast(&frag, "99"), Some(v));
        assert_eq!(parse_fixed(&format_fixed(v)), Some(v));
    }
}

#[test]
fn long_body_length_digits_are_cut_to_a_byte_first() {
    let mut engine = FixEngine::new();
    let mut buffer = Vec::new();
    let password = "p".repeat(300);
    engine.build_logon(&mut buffer, "s", "t", "QUOTE", &password, 1);
    let s = text(&buffer);
    let rest_start = "8=FIX.4.4\u{1}9=000000\u{1}".len();
    let trailer = s.rfind(&format!("{}10=", SOH)).unwrap() + 1;
    let n = trailer - rest_start;
    assert!(n >= 256);
    let expected: String = [100000usize, 10000, 1000, 100, 10, 1]
        .iter()
        .map(|d| (b'0' + (n / d) as u8 % 10) as char)
        .collect();
    assert_eq!(&s[12..18], expected);
    assert_ne!(s[12..18].parse::<usize>().unwrap(), n);
    let sum: u32 = buffer[..trailer].iter().map(|b| *b as u32).sum();
    assert_eq!(&s[trailer..], format!("10={:03}{}", sum % 256, SOH));
}

#[test]
fn order_volume_goes_out_in_whole_lots() {
    let body = order_request_body("s", "t", 7, b"now", "ID1", "1", '1', 1500, 0);
    assert!(text(&body).contains(&format!("{}38=1000{}", SOH, SOH)));
    let body = close_order_body("s", "t", 8, b"now", "C_ID1", "1", '2', 999, "P42");
    assert!(text(&body).contains(&format!("{}38=0{}", SOH, SOH)));
    let mut engine = FixEngine::new();
    let mut buffer = Vec::new();
    engine.build_order_request(&mut buffer, "s", "t", 4, "ID", "1", '2', 123456, 0);
    assert!(text(&buffer).contains(&format!("{}38=123000{}", SOH, SOH)));
}

#[test]
fn built_messages_carry_a_utc_timestamp() {
    let mut engine = FixEngine::new();
    let mut buffer = Vec::new();
    engine.build_heartbeat(&mut buffer, "s", "t", 3, None);
    let s = text(&buffer);
    let start = s.find(&format!("{}52=", SOH)).unwrap() + 4;
    let end = start + s[start..].find(SOH).unwrap();
    let stamp = &s[start..end];
    assert_eq!(stamp.len(), "20260416-10:00:00.000".len());
    assert_eq!(&stamp[8..9], "-");
    assert!(stamp.bytes().all(|b| b.is_ascii_digit() || b == b'-' || b == b':' || b == b'.'));
}

#[test]
fn sending_time_text_of_a_reading() {
    assert_eq!(sending_time_at(0, 0), Some(b"19700101-00:00:00.000".to_vec()));
    assert_eq!(
        sending_time_at(1_776_333_600, 123_456_789),
        Some(b"20260416-10:00:00.123".to_vec())
    );
    assert_eq!(sending_time_at(u64::MAX, 0), None);
    assert_eq!(sending_time_at(i64::MAX as u64, 0), None);
}

#[test]
fn builders_at_a_reading_write_the_exact_message() {
    let mut engine = FixEngine::new();
    let mut buffer = b"old".to_vec();
    let ts = b"20260416-10:00:00.123";
    let (secs, nanos) = (1_776_333_600, 123_456_789);

    engine.build_logon_at(&mut buffer, "a.77", "cServer", "QUOTE", "pw", 1, secs, nanos);
    assert_eq!(check_frame(&buffer, "A"), text(&logon_body("a.77", "cServer", "QUOTE", "pw", 1, ts)));

    engine.build_heartbeat_at(&mut buffer, "s", "t", 3, Some("T1"), secs, nanos);
    assert_eq!(check_frame(&buffer, "0"), text(&heartbeat_body("s", "t", 3, ts, Some("T1"))));

    engine.build_market_data_request_at(&mut buffer, "s", "t", 2, "1", secs, nanos);
    assert_eq!(check_frame(&buffer, "V"), text(&market_data_request_body("s", "t", 2, ts, "1")));

    engine.build_order_request_at(&mut buffer, "s", "t", 4, "ID", "1", '1', 1500, 108345, secs, nanos);
    assert_eq!(
        check_frame(&buffer, "D"),
        text(&order_request_body("s", "t", 4, ts, "ID", "1", '1', 1500, 108345))
    );

    engine.build_close_order_at(&mut buffer, "s", "t", 5, "C_ID", "1", '2', 2000, "77", secs, nanos);
    assert_eq!(
        check_frame(&buffer, "D"),
        text(&close_order_body("s", "t", 5, ts, "C_ID", "1", '2', 2000, "77"))
    );
}

#[test]
fn a_reading_without_a_sending_time_leaves_the_buffer_empty() {
    let mut engine = FixEngine::new();
    let mut buffer = b"old".to_vec();
    engine.build_heartbeat_at(&mut buffer, "s", "t", 3, None, u64::MAX, 0);
    assert!(buffer.is_empty());
    engine.build_logon_at(&mut buffer, "s", "t", "QUOTE", "pw", 1, u64::MAX, 0);
    assert!(buffer.is_empty());
}
