use rust_core::map_entry::{MapConfig, MapEntry, MapError, SymbolMap};

#[test]
fn entry_is_one_cache_line() {
    assert_eq!(core::mem::size_of::<MapEntry>(), 64);
}

#[test]
fn insert_lookup_fold() {
    let mut m = SymbolMap::new(MapConfig::default());
    let h = SymbolMap::hash_bytes(b"BTCUSDT");
    m.insert(h, 7, 1).unwrap();
    assert_eq!(m.lookup(h).unwrap().symbol_id, 7);
    assert!(m.fold_trade(h, 123, 10));
    assert_eq!(m.lookup(h).unwrap().trade_count, 1);
    assert!(m.lookup(0xdead_beef).is_err());
}

#[test]
fn load_factor_bounds_inserts() {
    let mut m = SymbolMap::new(MapConfig { capacity_bits: 2 });
    assert_eq!(m.capacity(), 4);
    // a third entry would make the load 0.75
    assert_eq!(m.insert(1, 1, 0), Ok(()));
    assert_eq!(m.insert(2, 2, 0), Ok(()));
    assert_eq!(m.insert(3, 3, 0), Err(MapError::Full));
    assert_eq!(m.len(), 2);
}

#[test]
fn load_never_exceeds_seven_tenths() {
    let mut m = SymbolMap::new(MapConfig::default());
    let mut ok = 0usize;
    for h in 0..4096u32 {
        if m.insert(h * 7919 + 1, h, 0).is_ok() {
            ok += 1;
        }
    }
    assert_eq!(m.len(), ok);
    assert!(m.len() * 10 <= m.capacity() * 7);
}

#[test]
fn an_insert_does_not_make_an_absent_key_findable() {
    let mut m = SymbolMap::new(MapConfig { capacity_bits: 4 });
    // 3 is absent; inserting 19 (home slot 3) must not make 3 findable
    assert!(m.lookup(3).is_err());
    m.insert(19, 1, 0).unwrap();
    assert!(m.lookup(3).is_err());
    assert_eq!(m.lookup(19).unwrap().symbol_id, 1);
}

#[test]
fn collisions_probe_forward_and_keep_other_keys() {
    let mut m = SymbolMap::new(MapConfig { capacity_bits: 4 });
    // 5 and 21 share the home slot 5 in a table of 16
    m.insert(5, 50, 0).unwrap();
    m.insert(21, 210, 1).unwrap();
    assert_eq!(m.lookup(5).unwrap().symbol_id, 50);
    assert_eq!(m.lookup(21).unwrap().symbol_id, 210);
    assert_eq!(m.lookup(21).unwrap().core_id, 1);
    assert_eq!(m.lookup(37).err(), Some(MapError::NotFound));
}

#[test]
fn fold_counts_and_keeps_lookups() {
    let mut m = SymbolMap::new(MapConfig { capacity_bits: 3 });
    m.insert(9, 1, 0).unwrap();
    m.insert(10, 2, 0).unwrap();
    assert!(m.fold_trade(9, 100, 3));
    assert!(m.fold_trade(9, 200, 4));
    let e = m.lookup(9).unwrap();
    assert_eq!((e.trade_count, e.volume_acc, e.last_ts_ns), (2, 7, 200));
    assert_eq!(m.lookup(10).unwrap().trade_count, 0);
    assert!(!m.fold_trade(11, 1, 1));
}

#[test]
fn empty_entry_is_not_active() {
    let e = MapEntry::empty();
    assert!(!e.is_active());
    assert_eq!(e.symbol_id, u32::MAX);
    assert_eq!(e.state, 0);
}
