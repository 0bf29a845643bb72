use rust_core::hub::Hub;
use rust_core::ingest::{hash_symbol, parse_trade_payload};

#[test]
fn hub_routes_one_core() {
    let mut hub = Hub::new(2, 4, 4);
    let d = hub.subscribe("BTCUSDT");
    assert_eq!(hub.core_of(d), (d & 1) as usize);
    let mut t = parse_trade_payload(r#"{"s":"BTCUSDT","p":"100.0","q":"2.0","T":1000,"m":false}"#, 10);
    // stamp hash matches subscribed symbol
    t.symbol_hash = hash_symbol(b"BTCUSDT");
    let c = hub.ingest(&mut t).unwrap();
    assert_eq!(c, hub.core_of(d));
}

#[test]
fn unknown_symbol_is_not_routed() {
    let mut hub = Hub::new(2, 1, 1);
    hub.subscribe("BTCUSDT");
    let mut t = parse_trade_payload(r#"{"s":"ETHUSDT","p":"1","q":"1","T":1,"m":false}"#, 10);
    let before = t;
    assert_eq!(hub.ingest(&mut t), None);
    assert_eq!(t, before);
}

#[test]
fn subscribe_is_stable_and_stamps_the_trade() {
    let mut hub = Hub::new(4, 1, 1);
    let a = hub.subscribe("BTCUSDT");
    let b = hub.subscribe("ETHUSDT");
    assert_ne!(a, b);
    assert_eq!(hub.subscribe("BTCUSDT"), a);
    let mut t = parse_trade_payload(r#"{"s":"ETHUSDT","p":"2","q":"1","T":5,"m":true}"#, 10);
    assert_eq!(hub.ingest(&mut t), Some((b & 3) as usize));
    assert_eq!(t.dense_id, b);
}

#[test]
fn close_series_bar_hands_the_slot_to_the_closer() {
    let mut hub = Hub::new(1, 2, 3);
    hub.cores[0].active_mask = 0b10;
    hub.cores[0].fold_active(100, 1, 1, true);
    hub.close_series_bar(0, 1, 55);
    assert_eq!(hub.closer.handoff_count, 1);
    let last = hub.closer.last(1).unwrap();
    assert_eq!(last.open, 100);
    assert_eq!(last.poc_level, 55);
    assert!(hub.closer.last(0).is_none());
}

#[test]
fn workers_are_spawned_once() {
    let mut hub = Hub::new(2, 2, 1);
    assert!(hub.can_spawn_worker(1));
    let w = hub.spawn_worker(1);
    assert_eq!(w.core_id, 1);
    assert_eq!(w.core.slots.len(), 2);
    assert!(!hub.can_spawn_worker(1));
    assert!(hub.can_spawn_worker(0));
    assert!(!hub.can_spawn_worker(5));
    hub.stop_workers();
    assert!(w.stop.load(std::sync::atomic::Ordering::Acquire));
}

#[test]
fn can_subscribe_while_the_directory_has_room() {
    let mut hub = Hub::new(1, 1, 1);
    assert!(hub.can_subscribe("BTCUSDT"));
    hub.subscribe("BTCUSDT");
    assert!(hub.can_subscribe("BTCUSDT"));
    assert!(hub.can_subscribe("ETHUSDT"));
}
