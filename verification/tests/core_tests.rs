use rust_core::bar_core::Core;

#[test]
fn fold_ohlc_delta() {
    let mut c = Core::new(2);
    c.active_mask = 0b01;
    c.fold_active(100, 5, 1, true);
    c.fold_active(110, 3, 2, false);
    assert_eq!(c.slots[0].high, 110);
    assert_eq!(c.slots[0].d_close, 2);
}

#[test]
fn fold_tracks_the_whole_bar() {
    let mut c = Core::new(2);
    c.active_mask = 0b01;
    c.fold_active(100, 5, 1, true);
    c.fold_active(110, 3, 2, false);
    c.fold_active(90, 4, 3, false);
    let s = &c.slots[0];
    assert!(s.has_bar);
    assert_eq!((s.open, s.high, s.low, s.close), (100, 110, 90, 90));
    assert_eq!((s.d_open, s.d_high, s.d_low, s.d_close), (5, 5, -2, -2));
    assert_eq!((s.count, s.vol), (3, 12));
    assert_eq!((s.open_ts, s.close_ts), (1, 3));
    // the inactive slot saw nothing
    assert!(!c.slots[1].has_bar);
    assert_eq!(c.slots[1].count, 0);
}

#[test]
fn fold_reaches_every_active_slot() {
    let mut c = Core::new(3);
    c.active_mask = 0b101;
    c.fold_active(7, 2, 9, true);
    assert!(c.slots[0].has_bar && c.slots[2].has_bar);
    assert!(!c.slots[1].has_bar);
    assert_eq!(c.slots[2].close, 7);
    assert_eq!(c.slots[0].d_close, 2);
}

#[test]
fn fold_trade_on_one_slot() {
    let mut c = Core::new(1);
    c.fold_trade(0, 50, 10, 100, false);
    assert_eq!(c.slots[0].open, 50);
    assert_eq!(c.slots[0].d_close, -10);
    assert_eq!(c.slots[0].vol, 10);
    assert!(c.accepts_trade(51, 1, true));
}
