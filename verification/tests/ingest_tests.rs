use rust_core::ingest::{
    hash_symbol, parse_decimal_scaled, parse_i64_str, parse_trade_payload,
    parse_trade_payload_counted, parse_u64_str, payload_overflows, symbol_key_valid,
    tick_to_scaled, InvalidCounters, SCALE,
};
use rust_core::map_entry::SymbolMap;

#[test]
fn parse_ok_and_drop_invalid() {
    let j = r#"{"s":"BTCUSDT","p":"67500.5","q":"2.5","T":1710000000000,"m":false,"t":99}"#;
    let t = parse_trade_payload(j, 10);
    assert!(t.valid && t.price > 0 && t.qty > 0);
    assert_eq!(t.ts_ns, 1710000000000 * 1_000_000);
    assert_eq!(t.trade_id, 99);
    let bad = r#"{"s":"BTCUSDT","p":"0","q":"1","T":1,"m":false}"#;
    assert!(!parse_trade_payload(bad, 10).valid);
    // injection symbol rejected
    let inj = r#"{"s":"BTC\"USDT","p":"1","q":"1","T":1,"m":false}"#;
    let mut ctr = InvalidCounters::default();
    assert!(!parse_trade_payload_counted(inj, 10, Some(&mut ctr)).valid);
    assert_eq!(ctr.bad_symbol, 1);
}

#[test]
fn parsed_fields_are_exact() {
    let j = r#"{"s":"BTCUSDT","p":"67500.5","q":"2.5","T":1710000000000,"m":true}"#;
    let t = parse_trade_payload(j, 10);
    assert!(t.valid);
    assert_eq!(t.price, 675005);
    assert_eq!(t.qty, 25);
    assert!(t.is_buyer_maker);
    assert_eq!(t.trade_id, 0);
    assert_eq!(t.dense_id, u32::MAX);
    assert_eq!(t.symbol_hash, hash_symbol(b"BTCUSDT"));
}

#[test]
fn each_drop_reason_is_counted() {
    let mut ctr = InvalidCounters::default();
    let bad_price = r#"{"s":"BTCUSDT","p":"-1","q":"1","T":1,"m":false}"#;
    let bad_qty = r#"{"s":"BTCUSDT","p":"1","q":"x","T":1,"m":false}"#;
    let bad_ts = r#"{"s":"BTCUSDT","p":"1","q":"1","T":0,"m":false}"#;
    let bad_sym = r#"{"p":"1","q":"1","T":1,"m":false}"#;
    assert!(!parse_trade_payload_counted(bad_price, 10, Some(&mut ctr)).valid);
    assert!(!parse_trade_payload_counted(bad_qty, 10, Some(&mut ctr)).valid);
    assert!(!parse_trade_payload_counted(bad_ts, 10, Some(&mut ctr)).valid);
    assert!(!parse_trade_payload_counted(bad_sym, 10, Some(&mut ctr)).valid);
    assert_eq!((ctr.bad_price, ctr.bad_qty, ctr.bad_ts, ctr.bad_symbol), (1, 1, 1, 1));
    let ok = r#"{"s":"ETHUSDT","p":"1","q":"1","T":1,"m":false}"#;
    assert!(parse_trade_payload_counted(ok, 10, Some(&mut ctr)).valid);
    assert_eq!((ctr.bad_price, ctr.bad_qty, ctr.bad_ts, ctr.bad_symbol), (1, 1, 1, 1));
}

#[test]
fn an_overflowing_timestamp_is_flagged_before_parsing() {
    let j = r#"{"s":"BTCUSDT","p":"1","q":"1","T":9223372036854775807,"m":false}"#;
    assert!(payload_overflows(j, 10));
    let ok = r#"{"s":"BTCUSDT","p":"1","q":"1","T":1,"m":false}"#;
    assert!(!payload_overflows(ok, 10));
}

#[test]
fn decimals_scale_and_truncate() {
    assert_eq!(parse_decimal_scaled("123.45", 10), Some(1234));
    assert_eq!(parse_decimal_scaled("0.10", SCALE), Some(100_000));
    assert_eq!(parse_decimal_scaled("0", 10), None);
    assert_eq!(parse_decimal_scaled("1.2.3", 10), None);
    assert_eq!(parse_decimal_scaled("", 10), None);
    assert_eq!(tick_to_scaled("0.01"), Some(10_000));
    assert_eq!(tick_to_scaled("abc"), None);
}

#[test]
fn integers_parse_like_str_parse() {
    assert_eq!(parse_i64_str("-42"), Some(-42));
    assert_eq!(parse_i64_str("+7"), Some(7));
    assert_eq!(parse_i64_str("-"), None);
    assert_eq!(parse_i64_str("9223372036854775808"), None);
    assert_eq!(parse_u64_str("18446744073709551615"), Some(u64::MAX));
    assert_eq!(parse_u64_str("-1"), None);
}

#[test]
fn symbol_hash_is_fnv1a_with_the_low_bit_set() {
    let h = hash_symbol(b"BTCUSDT");
    assert_eq!(h, SymbolMap::hash_bytes(b"BTCUSDT"));
    assert_eq!(h & 1, 1);
    assert_eq!(hash_symbol(&[1u8]), SymbolMap::hash_bytes(&[1u8]));
    assert_eq!(SymbolMap::hash_bytes(b""), 0x811c_9dc5);
    assert_ne!(hash_symbol(b""), 0);
    assert!(symbol_key_valid(b"BTCUSDT"));
    assert!(!symbol_key_valid(b"BTC\"USDT"));
}
