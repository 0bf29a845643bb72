use rust_core::bar_core::HotSlot;
use rust_core::closer::{ClosedBar, Closer, MAX_CLOSED};

fn bar(series_idx: usize, open: i64, close_ts: i64) -> ClosedBar {
    ClosedBar {
        series_idx,
        open,
        high: 0,
        low: 0,
        close: 0,
        d_open: 0,
        d_high: 0,
        d_low: 0,
        d_close: 0,
        count: 0,
        vol: 0,
        open_ts: 0,
        close_ts,
        poc_level: 0,
    }
}

#[test]
fn bounded_evict() {
    let mut c = Closer::new(1);
    for i in 0..(MAX_CLOSED + 10) {
        c.accept(ClosedBar {
            series_idx: 0,
            open: i as i64,
            high: 0,
            low: 0,
            close: 0,
            d_open: 0,
            d_high: 0,
            d_low: 0,
            d_close: 0,
            count: 0,
            vol: 0,
            open_ts: 0,
            close_ts: i as i64,
            poc_level: 0,
        });
    }
    assert_eq!(c.history[0].len(), MAX_CLOSED);
    assert_eq!(c.drop_count, 10);
}

#[test]
fn bounded_history_keeps_the_newest_bars() {
    let mut c = Closer::new(2);
    for i in 0..(MAX_CLOSED + 5) {
        c.accept(bar(1, i as i64, i as i64));
    }
    assert_eq!(c.history[1].len(), MAX_CLOSED);
    assert_eq!(c.history[0].len(), 0);
    assert_eq!(c.history[1].front().unwrap().open, 5);
    assert_eq!(c.last(1).unwrap().open, (MAX_CLOSED + 4) as i64);
    assert_eq!(c.handoff_count, (MAX_CLOSED + 5) as u64);
    assert_eq!(c.drop_count, 5);
}

#[test]
fn last_of_an_empty_series_is_none() {
    let c = Closer::new(3);
    assert!(c.last(0).is_none());
    assert!(c.last(2).is_none());
    assert_eq!(c.handoff_count, 0);
}

#[test]
fn from_slot_copies_the_slot() {
    let s = HotSlot {
        open: 1,
        high: 5,
        low: 0,
        close: 3,
        d_open: 1,
        d_high: 2,
        d_low: -1,
        d_close: 2,
        count: 4,
        vol: 9,
        open_ts: 10,
        close_ts: 20,
        has_bar: true,
    };
    let b = ClosedBar::from_slot(7, &s, 42);
    assert_eq!(b.series_idx, 7);
    assert_eq!((b.open, b.high, b.low, b.close), (1, 5, 0, 3));
    assert_eq!((b.d_open, b.d_high, b.d_low, b.d_close), (1, 2, -1, 2));
    assert_eq!((b.count, b.vol, b.open_ts, b.close_ts), (4, 9, 10, 20));
    assert_eq!(b.poc_level, 42);
}
