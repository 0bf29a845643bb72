use rust_core::spsc::{Ring, BATCH};

#[test]
fn batch_roundtrip() {
    let (mut p, mut c) = Ring::<u64>::with_capacity_pow2(4);
    assert_eq!(p.try_push_batch(&[1, 2, 3]), 3);
    let mut out = [0u64; BATCH];
    assert_eq!(c.try_pop_batch(&mut out[..8]), 3);
    assert_eq!(&out[..3], &[1, 2, 3]);
}

#[test]
fn one_slot_of_the_ring_stays_free() {
    let (mut p, mut c) = Ring::<u32>::with_capacity_pow2(2);
    assert_eq!(p.try_push_batch(&[1, 2, 3, 4, 5]), 3);
    let mut out = [9u32; 8];
    assert_eq!(c.try_pop_batch(&mut out), 3);
    assert_eq!(out, [1, 2, 3, 9, 9, 9, 9, 9]);
    assert_eq!(c.try_pop_batch(&mut out), 0);
}

#[test]
fn pops_come_out_in_push_order_across_batches() {
    let (mut p, mut c) = Ring::<u8>::with_capacity_pow2(3);
    assert_eq!(p.try_push_batch(&[1, 2]), 2);
    let mut out = [0u8; 1];
    assert_eq!(c.try_pop_batch(&mut out), 1);
    assert_eq!(out[0], 1);
    assert_eq!(p.try_push_batch(&[3]), 1);
    let mut rest = [0u8; 4];
    assert_eq!(c.try_pop_batch(&mut rest), 2);
    assert_eq!(&rest[..2], &[2, 3]);
}

#[test]
fn pushed_items_are_the_ones_popped() {
    let (mut p, mut c) = Ring::<u16>::with_capacity_pow2(3);
    assert_eq!(p.try_push_batch(&[10, 20, 30]), 3);
    assert_eq!(p.try_push_batch(&[40]), 1);
    let mut out = [0u16; 2];
    assert_eq!(c.try_pop_batch(&mut out), 2);
    assert_eq!(out, [10, 20]);
    assert_eq!(c.try_pop_batch(&mut out), 2);
    assert_eq!(out, [30, 40]);
}
