use rust_core::footprint::Footprint;

#[test]
fn sparse_emit() {
    let mut fp = Footprint::new(1000, 10);
    fp.add(1000, 5, true);
    fp.add(1000, 3, false);
    let mut out = Vec::new();
    fp.deltas_since(&mut out, 0);
    assert_eq!(out.len(), 1);
    assert_eq!(out[0].1.buy_vol, 5);
}

#[test]
fn levels_by_tick_and_poc() {
    let mut fp = Footprint::new(1000, 10);
    fp.add(1000, 5, true);
    fp.add(1010, 7, false);
    fp.add(1019, 1, true); // same level as 1010
    let mut out = Vec::new();
    fp.deltas_since(&mut out, 0);
    assert_eq!(out.len(), 2);
    assert_eq!(out[0].0, 0);
    assert_eq!((out[0].1.buy_vol, out[0].1.sell_vol, out[0].1.count), (5, 0, 1));
    assert_eq!(out[1].0, 1);
    assert_eq!((out[1].1.buy_vol, out[1].1.sell_vol, out[1].1.count), (1, 7, 2));
    assert_eq!(fp.poc_level, 1);
    assert_eq!(fp.poc_vol, 8);
}

#[test]
fn below_center_uses_floor_division() {
    // 999 is level -1 (floor), which lands in the last slot of the last block
    let mut fp = Footprint::new(1000, 10);
    fp.add(999, 2, true);
    let mut out = Vec::new();
    fp.deltas_since(&mut out, 0);
    assert_eq!(out.len(), 1);
    assert_eq!(out[0].0, 63);
    assert_eq!(fp.poc_level, -1);
}

#[test]
fn tick_is_at_least_one() {
    let fp = Footprint::new(5, 0);
    assert_eq!(fp.tick, 1);
    assert_eq!(fp.poc_vol, -1);
    assert_eq!(fp.version, 0);
}

#[test]
fn reset_forgets_everything() {
    let mut fp = Footprint::new(0, 1);
    fp.add(3, 2, true);
    assert!(fp.can_add(4, 1, false));
    fp.reset();
    let mut out = Vec::new();
    fp.deltas_since(&mut out, 0);
    assert_eq!(out.len(), 0);
    assert_eq!(fp.poc_vol, -1);
    assert_eq!(fp.version, 0);
}

#[test]
fn deltas_since_skips_old_blocks() {
    let mut fp = Footprint::new(0, 1);
    fp.add(1, 2, true);
    let v = fp.version;
    let mut out = Vec::new();
    fp.deltas_since(&mut out, v);
    assert_eq!(out.len(), 0);
}

#[test]
fn poc_covers_every_emitted_level() {
    let mut fp = Footprint::new(0, 1);
    let trades = [(3, 4, true), (5, 2, false), (3, 1, false), (70, 9, true), (5, 8, true), (2000, 3, false)];
    for (p, q, b) in trades {
        fp.add(p, q, b);
        let mut out = Vec::new();
        fp.deltas_since(&mut out, 0);
        for (_, lv) in &out {
            assert!(lv.buy_vol + lv.sell_vol <= fp.poc_vol);
        }
    }
    assert_eq!(fp.poc_vol, 10);
    assert_eq!(fp.poc_level, 5);
}
