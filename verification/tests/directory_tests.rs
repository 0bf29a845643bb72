use rust_core::directory::{core_of, Directory};

#[test]
fn one_symbol_one_core() {
    let mut d = Directory::new_pow2(4);
    let a = d.intern(123);
    let b = d.intern(456);
    assert_eq!(d.intern(123), a); // stable
    let snap = d.snapshot();
    assert_eq!(snap.dense_of(123), Some(a));
    assert_eq!(snap.dense_of(456), Some(b));
    // stable core
    let mask = 3u32; // 4 cores
    assert_eq!(core_of(a, mask), a & mask);
}

#[test]
fn dense_ids_count_up_and_are_distinct() {
    let mut d = Directory::new_pow2(3);
    assert_eq!(d.intern(10), 0);
    assert_eq!(d.intern(20), 1);
    assert_eq!(d.intern(10), 0);
    assert_eq!(d.intern(30), 2);
    let snap = d.snapshot();
    assert_eq!(snap.num_symbols, 3);
    assert_eq!(snap.dense_of(20), Some(1));
    assert_eq!(snap.dense_of(30), Some(2));
    assert_eq!(snap.dense_of(40), None);
}

#[test]
fn empty_directory_finds_nothing() {
    let d = Directory::new_pow2(2);
    assert_eq!(d.snapshot().dense_of(0), None);
    assert_eq!(d.snapshot().dense_of(7), None);
}

#[test]
fn core_of_masks() {
    assert_eq!(core_of(5, 1), 1);
    assert_eq!(core_of(6, 3), 2);
    assert_eq!(core_of(6, 0), 0);
}
