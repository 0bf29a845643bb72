use rust_core::stream::{
    combined_aggtrade_url, next_backoff_ms, parse_exchange_info, stream_payload, streams_url,
    symbols_from_document, JsonValue, RECONNECT_MAX_MS, RECONNECT_START_MS,
};

#[test]
fn parse_info_and_url() {
    let body = r#"{"symbols":[
      {"symbol":"BTCUSDT","status":"TRADING","filters":[{"filterType":"PRICE_FILTER","tickSize":"0.10"}]},
      {"symbol":"OLD","status":"BREAK","filters":[]}]}"#;
    let v = parse_exchange_info(body);
    assert_eq!(v.len(), 1);
    assert_eq!(v[0].0, "BTCUSDT");
    let url = combined_aggtrade_url("wss://fstream.binance.com", &["BTCUSDT".into(), "ETHUSDT".into()]);
    assert!(url.contains("btcusdt@trade"));
}

#[test]
fn ticks_come_from_the_last_price_filter() {
    let body = r#"{"symbols":[
      {"symbol":"A","status":"TRADING","filters":[{"filterType":"PRICE_FILTER","tickSize":"0.10"}]},
      {"symbol":"B","status":"TRADING"},
      {"symbol":"C","status":"TRADING","filters":[{"filterType":"PRICE_FILTER","tickSize":"abc"}]},
      {"symbol":"D","status":"TRADING","filters":[
         {"filterType":"PRICE_FILTER","tickSize":"0.01"},
         {"filterType":"LOT_SIZE","tickSize":"5"},
         {"filterType":"PRICE_FILTER","tickSize":0.5}]},
      {"symbol":"E","status":"TRADING","filters":[
         {"filterType":"PRICE_FILTER","tickSize":"0.01"},
         {"filterType":"PRICE_FILTER","tickSize":"2"}]}
    ]}"#;
    let v = parse_exchange_info(body);
    let expect: Vec<(String, i64)> = vec![
        ("A".to_string(), 100_000),
        ("B".to_string(), 100_000),
        ("C".to_string(), 100_000),
        ("D".to_string(), 10_000),
        ("E".to_string(), 2_000_000),
    ];
    assert_eq!(v, expect);
}

#[test]
fn non_trading_and_nameless_symbols_are_skipped() {
    let body = r#"{"symbols":[
      {"symbol":"","status":"TRADING"},
      {"status":"TRADING"},
      {"symbol":"X","status":"trading"},
      {"symbol":"Y"},
      {"symbol":7,"status":"TRADING"},
      {"symbol":"Z","status":"TRADING"}]}"#;
    let v = parse_exchange_info(body);
    assert_eq!(v, vec![("Z".to_string(), 100_000)]);
}

#[test]
fn bodies_without_symbols_give_nothing() {
    assert!(parse_exchange_info("not json").is_empty());
    assert!(parse_exchange_info("{}").is_empty());
    assert!(parse_exchange_info(r#"{"symbols":{}}"#).is_empty());
    assert!(parse_exchange_info("[1,2]").is_empty());
}

#[test]
fn at_most_4096_symbols_are_taken() {
    let mut body = String::from(r#"{"symbols":["#);
    for i in 0..5000 {
        if i > 0 {
            body.push(',');
        }
        body.push_str(&format!(r#"{{"symbol":"S{}","status":"TRADING"}}"#, i));
    }
    body.push_str("]}");
    let v = parse_exchange_info(&body);
    assert_eq!(v.len(), 4096);
    assert_eq!(v[4095].0, "S4095");
}

#[test]
fn a_document_built_by_hand() {
    let doc = JsonValue::Object(vec![(
        "symbols".to_string(),
        JsonValue::Array(vec![JsonValue::Object(vec![
            ("status".to_string(), JsonValue::Str("TRADING".to_string())),
            ("symbol".to_string(), JsonValue::Str("ABC".to_string())),
            (
                "filters".to_string(),
                JsonValue::Array(vec![JsonValue::Object(vec![
                    ("filterType".to_string(), JsonValue::Str("PRICE_FILTER".to_string())),
                    ("tickSize".to_string(), JsonValue::Str("1.5".to_string())),
                ])]),
            ),
        ])]),
    )]);
    assert_eq!(symbols_from_document(&doc), vec![("ABC".to_string(), 1_500_000)]);
    assert!(symbols_from_document(&JsonValue::Null).is_empty());
}

#[test]
fn stream_url_lowercases_and_joins() {
    let url = combined_aggtrade_url("wss://fstream.binance.com//", &["BTCUSDT".into(), "EthUsdt".into()]);
    assert_eq!(url, "wss://fstream.binance.com/stream?streams=btcusdt@trade/ethusdt@trade");
    let none: Vec<String> = Vec::new();
    assert_eq!(combined_aggtrade_url("wss://x", &none), "wss://x/stream?streams=");
    assert_eq!(streams_url("b/", &["q".to_string()]), "b/stream?streams=q@trade");
}

#[test]
fn combined_messages_are_unwrapped() {
    let msg = r#"{"stream":"btcusdt@trade","data":{"s":"BTCUSDT","p":"1.5","T":7}}"#;
    match stream_payload(msg) {
        Some(JsonValue::Object(pairs)) => {
            let keys: Vec<&str> = pairs.iter().map(|(k, _)| k.as_str()).collect();
            assert_eq!(keys, vec!["T", "p", "s"]);
        }
        _ => panic!("expected the data object"),
    }
    assert!(stream_payload(r#"{"s":"BTCUSDT"}"#).is_none());
    assert!(stream_payload(r#"{"data" broken"#).is_none());
    assert!(stream_payload(r#"{"x":"data"}"#).is_none());
    assert!(matches!(stream_payload(r#"{"q":"\"data\"","data":3}"#), Some(JsonValue::Number(n)) if n == "3"));
}

#[test]
fn reconnect_backoff_doubles_up_to_thirty_seconds() {
    assert_eq!(RECONNECT_START_MS, 1000);
    assert_eq!(next_backoff_ms(1000), 2000);
    assert_eq!(next_backoff_ms(16_000), 30_000);
    assert_eq!(next_backoff_ms(15_000), 30_000);
    assert_eq!(next_backoff_ms(RECONNECT_MAX_MS), 30_000);
    assert_eq!(next_backoff_ms(u64::MAX), 30_000);
}
