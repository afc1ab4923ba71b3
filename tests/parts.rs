use sos_alloc::free_list::FreeList;
use sos_alloc::math::{is_pow2, log2, next_pow2};

#[test]
fn next_pow2_values() {
    assert_eq!(next_pow2(1), 1);
    assert_eq!(next_pow2(2), 2);
    assert_eq!(next_pow2(3), 4);
    assert_eq!(next_pow2(64), 64);
    assert_eq!(next_pow2(65), 128);
    assert_eq!(next_pow2(1000), 1024);
    assert_eq!(next_pow2(1 << 63), 1 << 63);
    assert_eq!(next_pow2((1 << 62) + 1), 1 << 63);
}

#[test]
fn next_pow2_is_least_power_above() {
    for x in 1usize..2000 {
        let r = next_pow2(x);
        assert!(is_pow2(r));
        assert!(r >= x);
        assert!(r / 2 < x);
        if is_pow2(x) {
            assert_eq!(r, x);
        }
    }
}

#[test]
fn log2_values() {
    for k in 0..64usize {
        assert_eq!(log2(1usize << k), k);
        assert_eq!(1usize << log2(1usize << k), 1usize << k);
    }
    assert_eq!(log2(1024), 10);
}

#[test]
fn is_pow2_values() {
    assert!(!is_pow2(0));
    assert!(is_pow2(1));
    assert!(is_pow2(2));
    assert!(!is_pow2(3));
    assert!(is_pow2(4096));
    assert!(!is_pow2(4095));
    assert!(!is_pow2(usize::MAX));
    assert!(is_pow2(1 << 63));
}

#[test]
fn free_list_is_a_stack() {
    let mut l = FreeList::new();
    assert!(l.is_empty());
    l.push(0x1000);
    l.push(0x2000);
    l.push(0x3000);
    assert_eq!(l.len(), 3);
    assert_eq!(l.iter(), vec![0x3000, 0x2000, 0x1000]);
    assert_eq!(l.header(0).next, Some(0x2000));
    assert_eq!(l.header(2).next, None);
    assert_eq!(l.pop(), Some(0x3000));
    assert_eq!(l.pop(), Some(0x2000));
    assert_eq!(l.pop(), Some(0x1000));
    assert_eq!(l.pop(), None);
    assert_eq!(l.len(), 0);
}

#[test]
fn remove_missing_leaves_list() {
    let mut l = FreeList::new();
    l.push(0x1000);
    l.push(0x2000);
    assert!(!l.remove(0x5000));
    assert_eq!(l.len(), 2);
    assert_eq!(l.iter(), vec![0x2000, 0x1000]);
    let mut e = FreeList::new();
    assert!(!e.remove(0x1000));
    assert_eq!(e.len(), 0);
}

#[test]
fn remove_present_unlinks_it() {
    let mut l = FreeList::new();
    l.push(0x1000);
    l.push(0x2000);
    l.push(0x3000);
    assert!(l.remove(0x2000));
    assert_eq!(l.iter(), vec![0x3000, 0x1000]);
    assert_eq!(l.header(0).next, Some(0x1000));
    assert!(!l.remove(0x2000));
    assert_eq!(l.len(), 2);
}
