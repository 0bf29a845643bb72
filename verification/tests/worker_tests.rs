use rust_core::bar_core::Core;
use rust_core::directory::Directory;
use rust_core::ingest::{parse_trade_payload, Trade};
use rust_core::spsc::Ring;
use rust_core::worker::{Idle, Router, Step, Worker};
use std::sync::atomic::AtomicBool;
use std::sync::Arc;

#[test]
fn e2e_symbol_to_one_core() {
    // 2 cores, 2 symbols -> each symbol lands on exactly one queue.
    let (p0, c0) = Ring::<Trade>::with_capacity_pow2(4);
    let (p1, c1) = Ring::<Trade>::with_capacity_pow2(4);
    let mut dir = Directory::new_pow2(4);
    let j1 = r#"{"s":"BTCUSDT","p":"100.0","q":"1.0","T":1000,"m":false}"#;
    let j2 = r#"{"s":"ETHUSDT","p":"50.0","q":"2.0","T":1000,"m":true}"#;
    let h1 = parse_trade_payload(j1, 10).symbol_hash;
    let h2 = parse_trade_payload(j2, 10).symbol_hash;
    let d1 = dir.intern(h1);
    let d2 = dir.intern(h2);
    let snap = dir.snapshot();
    let mut router = Router::new(vec![p0, p1], snap);
    let mut t1 = parse_trade_payload(j1, 10);
    let mut t2 = parse_trade_payload(j2, 10);
    let c_1 = router.dispatch(&mut t1).unwrap();
    let c_2 = router.dispatch(&mut t2).unwrap();
    assert_eq!(c_1, (d1 & 1) as usize);
    assert_eq!(c_2, (d2 & 1) as usize);
    assert_eq!(t1.dense_id, d1);
    // workers drain their own queue only
    let stop = Arc::new(AtomicBool::new(false));
    let mut w0 = Worker { core_id: 0, core: Core::new(4), consumer: c0, stop: Arc::clone(&stop) };
    let mut w1 = Worker { core_id: 1, core: Core::new(4), consumer: c1, stop };
    w0.core.active_mask = 0xF;
    w1.core.active_mask = 0xF;
    let n0 = w0.drain_once();
    let n1 = w1.drain_once();
    assert_eq!(n0 + n1, 2); // no loss, no duplication
}

#[test]
fn drained_trades_are_folded() {
    let (p, c) = Ring::<Trade>::with_capacity_pow2(3);
    let mut dir = Directory::new_pow2(2);
    let j = r#"{"s":"BTCUSDT","p":"100.0","q":"1.0","T":1,"m":true}"#;
    dir.intern(parse_trade_payload(j, 10).symbol_hash);
    let mut router = Router::new(vec![p], dir.snapshot());
    let mut t = parse_trade_payload(j, 10);
    assert_eq!(router.dispatch(&mut t), Some(0));
    let mut t2 = parse_trade_payload(r#"{"s":"BTCUSDT","p":"101.0","q":"2.0","T":2,"m":false}"#, 10);
    assert_eq!(router.dispatch(&mut t2), Some(0));
    let mut w = Worker { core_id: 0, core: Core::new(1), consumer: c, stop: Arc::new(AtomicBool::new(false)) };
    w.core.active_mask = 1;
    assert_eq!(w.drain_once(), 2);
    let s = &w.core.slots[0];
    // buyer-maker is a sell: -10, then a buy of 20
    assert_eq!((s.open, s.close, s.d_close, s.vol, s.count), (1000, 1010, 10, 30, 2));
    assert_eq!(w.drain_once(), 0);
}

#[test]
fn unknown_symbols_are_not_dispatched() {
    let (p, _c) = Ring::<Trade>::with_capacity_pow2(3);
    let dir = Directory::new_pow2(2);
    let mut router = Router::new(vec![p], dir.snapshot());
    let mut t = parse_trade_payload(r#"{"s":"BTCUSDT","p":"1","q":"1","T":1,"m":true}"#, 10);
    assert_eq!(router.dispatch(&mut t), None);
}

#[test]
fn idle_backoff_spins_then_yields_then_sleeps() {
    assert!(matches!(Worker::backoff(0), (Idle::Spin, 1)));
    assert!(matches!(Worker::backoff(998), (Idle::Spin, 999)));
    assert!(matches!(Worker::backoff(999), (Idle::Yield, 1000)));
    assert!(matches!(Worker::backoff(1998), (Idle::Yield, 1999)));
    assert!(matches!(Worker::backoff(1999), (Idle::Sleep, 0)));
}

#[test]
fn fold_batch_folds_valid_trades_in_order() {
    let (_p, c) = Ring::<Trade>::with_capacity_pow2(1);
    let mut w = Worker { core_id: 0, core: Core::new(1), consumer: c, stop: Arc::new(AtomicBool::new(false)) };
    w.core.active_mask = 1;
    let a = parse_trade_payload(r#"{"s":"X","p":"5","q":"1","T":1,"m":false}"#, 1);
    let b = parse_trade_payload(r#"{"s":"X","p":"0","q":"1","T":2,"m":false}"#, 1);
    let d = parse_trade_payload(r#"{"s":"X","p":"7","q":"2","T":3,"m":true}"#, 1);
    assert!(!b.valid);
    w.fold_batch(&[a, b, d]);
    let s = &w.core.slots[0];
    assert_eq!((s.open, s.close, s.count, s.vol, s.d_close), (5, 7, 2, 3, -1));
}

#[test]
fn the_worker_exits_only_on_an_empty_poll_after_stop() {
    assert!(matches!(Worker::after_poll(true, 0, 5), (Step::Exit, 5)));
    assert!(matches!(Worker::after_poll(true, 3, 5), (Step::Poll, 0)));
    assert!(matches!(Worker::after_poll(false, 3, 5), (Step::Poll, 0)));
    assert!(matches!(Worker::after_poll(false, 0, 5), (Step::Wait(Idle::Spin), 6)));
    assert!(matches!(Worker::after_poll(false, 0, 1999), (Step::Wait(Idle::Sleep), 0)));
}

#[test]
fn each_trade_goes_to_its_own_core_queue_only() {
    let (p0, mut c0) = Ring::<Trade>::with_capacity_pow2(3);
    let (p1, mut c1) = Ring::<Trade>::with_capacity_pow2(3);
    let mut dir = Directory::new_pow2(3);
    let j = r#"{"s":"BTCUSDT","p":"1","q":"1","T":1,"m":true}"#;
    let d = dir.intern(parse_trade_payload(j, 10).symbol_hash);
    let mut router = Router::new(vec![p0, p1], dir.snapshot());
    let mut t = parse_trade_payload(j, 10);
    let c = router.dispatch(&mut t).unwrap();
    assert_eq!(c, (d & 1) as usize);
    let mut buf = [t; 4];
    let (mine, other) = if c == 0 { (&mut c0, &mut c1) } else { (&mut c1, &mut c0) };
    assert_eq!(other.try_pop_batch(&mut buf), 0);
    assert_eq!(mine.try_pop_batch(&mut buf), 1);
    assert_eq!(buf[0].dense_id, d);
}
