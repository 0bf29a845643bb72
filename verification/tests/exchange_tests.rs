use rust_core::exchange::{load_exchange_info, subscribe_all, SymbolInfo};
use rust_core::hub::Hub;

#[test]
fn load_and_subscribe() {
    let j = r#"{"symbols":[{"s":"BTCUSDT","tick":10},{"s":"ETHUSDT","tick":10}]}"#;
    let infos = load_exchange_info(j);
    assert_eq!(infos.len(), 2);
    let mut hub = Hub::new(2, 4, 4);
    let ids = subscribe_all(&mut hub, &infos);
    assert_eq!(ids.len(), 2);
    assert_ne!(ids[0], ids[1]);
}

fn pairs(infos: &[SymbolInfo]) -> Vec<(String, i64, i64)> {
    infos.iter().map(|s| (s.symbol.clone(), s.tick, s.scale)).collect()
}

#[test]
fn ticks_default_and_floor() {
    let j = r#"{"symbols":[{"s":"A"},{"s":"B","tick":0},{"s":"C","tick":"123"},{"s":"D","tick": -5}]}"#;
    let v = pairs(&load_exchange_info(j));
    // A has no tick in its own object: the default 10
    assert_eq!(
        v,
        vec![
            ("A".to_string(), 10, 10),
            ("B".to_string(), 1, 1),
            ("C".to_string(), 123, 123),
            ("D".to_string(), 10, 10),
        ]
    );
}

#[test]
fn a_tick_belongs_to_its_own_object() {
    let v = pairs(&load_exchange_info(r#"{"symbols":[{"s":"A"},{"s":"B","tick":5}]}"#));
    assert_eq!(v, vec![("A".to_string(), 10, 10), ("B".to_string(), 5, 5)]);
}

#[test]
fn a_nested_object_does_not_end_the_entry() {
    let v = pairs(&load_exchange_info(r#"{"symbols":[{"s":"A","f":{},"tick":5},{"s":"B"}]}"#));
    assert_eq!(v, vec![("A".to_string(), 5, 5), ("B".to_string(), 10, 10)]);
}

#[test]
fn missing_or_oversized_ticks_read_as_ten() {
    let v = pairs(&load_exchange_info(r#"[{"s":"X"}]"#));
    assert_eq!(v, vec![("X".to_string(), 10, 10)]);
    let v = pairs(&load_exchange_info(r#"[{"s":"Y","tick":99999999999999999999}]"#));
    assert_eq!(v, vec![("Y".to_string(), 10, 10)]);
}

#[test]
fn an_unterminated_name_ends_the_scan() {
    assert!(load_exchange_info(r#"{"s":"ABC"#).is_empty());
    assert!(load_exchange_info("").is_empty());
    let v = pairs(&load_exchange_info(r#"[{"s":"OK","tick":3},{"s":"BAD"#));
    assert_eq!(v, vec![("OK".to_string(), 3, 3)]);
}

#[test]
fn at_most_4096_symbols_are_loaded() {
    let mut j = String::from("[");
    for i in 0..5000 {
        j.push_str(&format!(r#"{{"s":"S{}","tick":2}},"#, i));
    }
    j.push(']');
    let v = load_exchange_info(&j);
    assert_eq!(v.len(), 4096);
    assert_eq!(v[4095].symbol, "S4095");
}

#[test]
fn subscribing_twice_gives_the_same_ids() {
    let infos = vec![SymbolInfo::new("AAA", 1), SymbolInfo::new("BBB", 1), SymbolInfo::new("AAA", 5)];
    let mut hub = Hub::new(1, 1, 1);
    let ids = subscribe_all(&mut hub, &infos);
    assert_eq!(ids, vec![0, 1, 0]);
    assert_eq!(subscribe_all(&mut hub, &infos[1..]), vec![1, 0]);
}

#[test]
fn symbol_info_keeps_the_name_and_floors_the_tick() {
    let s = SymbolInfo::new("BTCUSDT", -3);
    assert_eq!(s.symbol, "BTCUSDT");
    assert_eq!((s.tick, s.scale), (1, 1));
}
