use sos_alloc::{AllocError, BuddyHeapAllocator, FreeList, PAGE_SIZE};

const START: usize = 0x10_0000;

fn lists(n: usize) -> Vec<FreeList> {
    (0..n).map(|_| FreeList::new()).collect()
}

/// A heap of 1024 bytes with orders 0..=4: blocks of 64, 128, 256, 512, 1024.
fn heap_1024() -> BuddyHeapAllocator {
    BuddyHeapAllocator::new(START, lists(5), 1024)
}

fn free_counts(h: &BuddyHeapAllocator) -> Vec<usize> {
    (0..h.num_orders()).map(|o| h.free_count(o)).collect()
}

#[test]
fn new_seeds_one_top_block() {
    let h = heap_1024();
    assert_eq!(h.min_block_size(), 64);
    assert_eq!(h.heap_size(), 1024);
    assert_eq!(h.start_addr(), START);
    assert_eq!(free_counts(&h), vec![0, 0, 0, 0, 1]);
    assert_eq!(h.free_blocks_of(4), vec![START]);
}

#[test]
fn order_of_small_requests() {
    let h = heap_1024();
    assert_eq!(h.alloc_order(64, 8), Some(0));
    assert_eq!(h.alloc_order(100, 8), Some(1));
    assert_eq!(h.alloc_size(100, 8), Some(128));
    assert_eq!(h.alloc_size(1, 1), Some(64));
    assert_eq!(h.alloc_size(300, 8), Some(512));
    assert_eq!(h.alloc_order(1024, 8), Some(4));
}

#[test]
fn alignment_raises_the_size() {
    let h = heap_1024();
    assert_eq!(h.alloc_size(8, 256), Some(256));
    assert_eq!(h.alloc_order(8, 256), Some(2));
}

#[test]
fn invalid_alignment_is_rejected() {
    let h = heap_1024();
    assert_eq!(h.alloc_size(64, 3), None);
    assert_eq!(h.alloc_size(64, 0), None);
    assert_eq!(h.alloc_size(64, PAGE_SIZE * 2), None);
    assert_eq!(h.alloc_order(64, 3), None);
}

#[test]
fn too_large_request_has_no_size() {
    let h = heap_1024();
    assert_eq!(h.alloc_size(1025, 8), None);
    assert_eq!(h.alloc_order(1025, 8), None);
    assert_eq!(h.alloc_size(usize::MAX, 8), None);
}

#[test]
fn align_three_is_invalid_whatever_the_size() {
    let mut h = heap_1024();
    for size in [0usize, 1, 64, 1024, 4096, usize::MAX] {
        assert_eq!(h.allocate(size, 3), Err(AllocError::InvalidRequest));
    }
    assert_eq!(free_counts(&h), vec![0, 0, 0, 0, 1]);
}

#[test]
fn oversized_request_is_out_of_memory() {
    let mut h = heap_1024();
    assert_eq!(h.allocate(2048, 8), Err(AllocError::OutOfMemory));
    assert_eq!(free_counts(&h), vec![0, 0, 0, 0, 1]);
}

#[test]
fn smallest_allocation_splits_down() {
    let mut h = heap_1024();
    let a = h.allocate(64, 8).unwrap();
    assert_eq!(a, START);
    assert_eq!(free_counts(&h), vec![1, 1, 1, 1, 0]);
    assert_eq!(h.free_blocks_of(0), vec![START + 64]);
    assert_eq!(h.free_blocks_of(1), vec![START + 128]);
    assert_eq!(h.free_blocks_of(2), vec![START + 256]);
    assert_eq!(h.free_blocks_of(3), vec![START + 512]);
}

#[test]
fn three_small_and_one_medium_coalesce_back() {
    let mut h = heap_1024();
    let a = h.allocate(64, 8).unwrap();
    let b = h.allocate(64, 8).unwrap();
    let c = h.allocate(64, 8).unwrap();
    let d = h.allocate(100, 8).unwrap();
    let blocks = [a, b, c, d];
    for (i, x) in blocks.iter().enumerate() {
        assert!(*x >= START && *x < START + 1024);
        for y in blocks.iter().skip(i + 1) {
            assert_ne!(x, y);
        }
    }
    assert_eq!(d % 128, START % 128);
    h.deallocate(a, 0);
    h.deallocate(b, 0);
    h.deallocate(c, 0);
    h.deallocate(d, 1);
    assert_eq!(free_counts(&h), vec![0, 0, 0, 0, 1]);
    assert_eq!(h.free_blocks_of(4), vec![START]);
}

#[test]
fn release_in_order_restores_the_heap() {
    let mut h = heap_1024();
    let reqs: [(usize, usize); 5] = [(64, 8), (200, 16), (64, 64), (128, 8), (70, 8)];
    let mut got = Vec::new();
    for (size, align) in reqs {
        let k = h.alloc_order(size, align).unwrap();
        let a = h.allocate(size, align).unwrap();
        got.push((a, k));
    }
    for (a, k) in got {
        h.deallocate(a, k);
    }
    assert_eq!(free_counts(&h), vec![0, 0, 0, 0, 1]);
}

#[test]
fn whole_heap_once() {
    let mut h = heap_1024();
    assert_eq!(h.allocate(1024, 8), Ok(START));
    assert_eq!(h.allocate(1024, 8), Err(AllocError::OutOfMemory));
    assert_eq!(free_counts(&h), vec![0, 0, 0, 0, 0]);
    h.deallocate(START, 4);
    assert_eq!(h.allocate(1024, 8), Ok(START));
}

#[test]
fn exhausting_small_blocks() {
    let mut h = heap_1024();
    let mut got = Vec::new();
    for _ in 0..16 {
        got.push(h.allocate(1, 1).unwrap());
    }
    assert_eq!(h.allocate(1, 1), Err(AllocError::OutOfMemory));
    got.sort();
    for (i, a) in got.iter().enumerate() {
        assert_eq!(*a, START + 64 * i);
    }
    for a in got.iter().rev() {
        h.deallocate(*a, 0);
    }
    assert_eq!(free_counts(&h), vec![0, 0, 0, 0, 1]);
}

#[test]
fn buddy_not_free_stays_split() {
    let mut h = heap_1024();
    let a = h.allocate(64, 8).unwrap();
    let b = h.allocate(64, 8).unwrap();
    assert_eq!(b, START + 64);
    h.deallocate(a, 0);
    assert_eq!(free_counts(&h), vec![1, 1, 1, 1, 0]);
    assert_eq!(h.free_blocks_of(0), vec![START]);
}

#[test]
fn single_order_heap() {
    let mut h = BuddyHeapAllocator::new(PAGE_SIZE, lists(1), 64);
    assert_eq!(h.min_block_size(), 64);
    assert_eq!(h.allocate(10, 8), Ok(PAGE_SIZE));
    assert_eq!(h.allocate(10, 8), Err(AllocError::OutOfMemory));
    h.deallocate(PAGE_SIZE, 0);
    assert_eq!(h.free_count(0), 1);
}
