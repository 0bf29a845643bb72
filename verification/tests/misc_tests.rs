use rust_core::gateway::{is_writing, next_seq, read_is_stable, READ_ATTEMPTS};
use rust_core::policy::{should_close, BarKind, PolicyState};
use rust_core::shard::CoreShard;

#[test]
fn seqlock_numbers_wrap_and_parity_decides() {
    assert_eq!(next_seq(0), 1);
    assert_eq!(next_seq(u32::MAX), 0);
    assert!(read_is_stable(2, 2));
    assert!(!read_is_stable(3, 3));
    assert!(!read_is_stable(2, 4));
    assert!(!read_is_stable(next_seq(4), next_seq(4)));
    assert!(read_is_stable(next_seq(next_seq(4)), 6));
    assert_eq!(READ_ATTEMPTS, 64);
    assert!(is_writing(next_seq(0)));
    assert!(!is_writing(next_seq(next_seq(0))));
}

fn state() -> PolicyState {
    PolicyState { open_ts: 100, acc_vol: 5, acc_delta: 3, hi: 110, lo: 100, ..PolicyState::default() }
}

#[test]
fn each_bar_kind_closes_on_its_threshold() {
    let s = state();
    assert!(should_close(BarKind::Time, 60, 1, &s, 160, 0, 0));
    assert!(!should_close(BarKind::Time, 60, 1, &s, 159, 0, 0));
    assert!(should_close(BarKind::Range, 5, 2, &s, 0, 105, 0));
    assert!(!should_close(BarKind::Range, 6, 2, &s, 0, 105, 0));
    assert!(should_close(BarKind::Range, 6, 2, &s, 0, 112, 0));
    assert!(should_close(BarKind::Volume, 10, 1, &s, 0, 0, 5));
    assert!(!should_close(BarKind::Volume, 10, 1, &s, 0, 0, 4));
}

#[test]
fn delta_kind_clamps_then_takes_the_magnitude() {
    // d = 3 + 2 = 5; max(5, hi=110) = 110; min(110, lo=100) = 100; |100| >= 100
    let s = state();
    assert!(should_close(BarKind::Delta, 100, 1, &s, 0, 0, 2));
    assert!(!should_close(BarKind::Delta, 101, 1, &s, 0, 0, 2));
    let z = PolicyState::default();
    assert!(should_close(BarKind::Delta, 0, 1, &z, 0, 0, -7));
    assert!(!should_close(BarKind::Delta, 1, 1, &z, 0, 0, -7));
}

#[test]
fn shard_routing_and_lookup() {
    assert_eq!(CoreShard::route(0x1235, 4), 1);
    assert_eq!(CoreShard::route(0x1235, 1), 0);
    let mut s = CoreShard::new(0, 2);
    assert_eq!(s.table.len(), 4096);
    assert_eq!(s.lookup(5), None);
    s.table[5].state = 1;
    s.table[5].symbol_hash = 5;
    s.table[6].state = 1;
    s.table[6].symbol_hash = 4096 + 5;
    assert_eq!(s.lookup(5), Some(5));
    assert_eq!(s.lookup(4096 + 5), Some(6));
    assert_eq!(s.lookup(8192 + 5), None);
}

#[test]
fn shard_fold_updates_the_series_row() {
    let mut s = CoreShard::new(0, 1);
    s.s_open.push(100);
    s.s_high.push(100);
    s.s_low.push(100);
    s.s_close.push(100);
    s.s_vol.push(0);
    s.s_delta_c.push(0);
    s.table[3].series_head = 0;
    s.fold_trade(3, 120, 4, true);
    s.fold_trade(3, 90, 1, false);
    assert_eq!((s.s_high[0], s.s_low[0], s.s_close[0]), (120, 90, 90));
    assert_eq!((s.s_vol[0], s.s_delta_c[0]), (5, 3));
    // a slot without a series changes nothing
    s.fold_trade(4, 1, 1, true);
    assert_eq!(s.s_close[0], 90);
}
