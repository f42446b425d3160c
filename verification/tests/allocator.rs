use buddy_alloc::allocator::Allocator;
use buddy_alloc::AllocError;
use buddy_alloc::Block;

#[test]
fn initialize_covers_the_whole_range() {
    // base 0x10000000, 256 MiB, 4 KiB to 1 MiB blocks
    let al = Allocator::initialize(0x10000000, 0x10000000, 12, 20).unwrap();
    let st = al.stats();
    assert_eq!(st.total, 0x10000000);
    assert_eq!(st.free, 0x10000000);
    assert_eq!(st.allocated, 0);
    assert!(st.largest_free_block >= 4096);
    assert!(st.largest_free_block <= 1048576);
}

#[test]
fn initialize_range_too_small() {
    assert!(matches!(
        Allocator::initialize(0, 2048, 12, 20),
        Err(AllocError::RangeTooSmall)
    ));
    assert!(matches!(
        Allocator::initialize(0, 0, 12, 20),
        Err(AllocError::RangeTooSmall)
    ));
    // a small total need not be a whole number of minimum-size blocks
    assert!(matches!(
        Allocator::initialize(0, 100, 12, 20),
        Err(AllocError::RangeTooSmall)
    ));
}

#[test]
fn allocate_exact_class_and_disjoint_blocks() {
    let mut al = Allocator::initialize(0x10000000, 0x10000000, 12, 20).unwrap();
    let b1 = al.allocate(4096).unwrap();
    assert_eq!(b1.size, 4096);
    let b2 = al.allocate(4096).unwrap();
    assert_eq!(b2.size, 4096);
    // the two live blocks are disjoint
    assert!(b1.start + b1.size <= b2.start || b2.start + b2.size <= b1.start);
    assert_eq!(al.free(b1), Ok(()));
    let b3 = al.allocate(8192).unwrap();
    assert_eq!(b3.size, 8192);
}

#[test]
fn allocate_rounds_up_to_power_of_two() {
    let mut al = Allocator::initialize(0, 0x100000, 12, 20).unwrap();
    let b = al.allocate(5000).unwrap();
    assert_eq!(b.size, 8192);
    let c = al.allocate(1).unwrap();
    assert_eq!(c.size, 4096);
}

#[test]
fn allocate_zero_fails_with_invalid_size() {
    let mut al = Allocator::initialize(0x10000000, 0x10000000, 12, 20).unwrap();
    assert_eq!(al.allocate(0).unwrap_err(), AllocError::InvalidSize);
}

#[test]
fn allocate_more_than_total_fails_with_out_of_memory() {
    let mut al = Allocator::initialize(0x10000000, 0x10000000, 12, 20).unwrap();
    assert_eq!(
        al.allocate(0x10000000 + 1).unwrap_err(),
        AllocError::OutOfMemory
    );
}

#[test]
fn free_of_unknown_block_fails_with_invalid_free() {
    let mut al = Allocator::initialize(0x10000000, 0x10000000, 12, 20).unwrap();
    let bogus = Block { start: 0x10000000 + 123, size: 4096 };
    assert_eq!(al.free(bogus).unwrap_err(), AllocError::InvalidFree);
}

#[test]
fn double_free_fails_with_invalid_free() {
    let mut al = Allocator::initialize(0, 8192, 12, 12).unwrap();
    let b = al.allocate(4096).unwrap();
    assert_eq!(al.free(b), Ok(()));
    assert_eq!(al.free(b).unwrap_err(), AllocError::InvalidFree);
}

#[test]
fn round_trip_restores_free_bytes() {
    let mut al = Allocator::initialize(0x10000000, 0x10000000, 12, 20).unwrap();
    let before = al.stats();
    let b = al.allocate(4096).unwrap();
    let during = al.stats();
    assert_eq!(during.free, before.free - 4096);
    assert_eq!(during.allocated, 4096);
    assert_eq!(al.free(b), Ok(()));
    let after = al.stats();
    assert_eq!(after.free, before.free);
    assert_eq!(after.allocated, 0);
}

#[test]
fn freeing_both_buddies_restores_the_parent() {
    // two 4 KiB blocks only: the pool is deterministic
    let mut al = Allocator::initialize(0, 8192, 12, 12).unwrap();
    // an 8 KiB request cannot be served from two separate 4 KiB blocks
    assert_eq!(al.allocate(8192).unwrap_err(), AllocError::OutOfMemory);
    let b1 = al.allocate(4096).unwrap();
    let b2 = al.allocate(4096).unwrap();
    assert_eq!(b1.start, 0);
    assert_eq!(b2.start, 4096);
    assert_eq!(al.free(b1), Ok(()));
    // the buddy of b1 is still allocated: nothing merged yet
    assert_eq!(al.stats().largest_free_block, 4096);
    assert_eq!(al.free(b2), Ok(()));
    // both halves free: exactly one block of the parent size remains
    assert_eq!(al.stats().largest_free_block, 8192);
    let whole = al.allocate(8192).unwrap();
    assert_eq!(whole.start, 0);
    assert_eq!(whole.size, 8192);
}

#[test]
fn coalescing_cascades_upward() {
    let mut al = Allocator::initialize(0, 16384, 12, 12).unwrap();
    let b0 = al.allocate(4096).unwrap();
    let b1 = al.allocate(4096).unwrap();
    let b2 = al.allocate(4096).unwrap();
    let b3 = al.allocate(4096).unwrap();
    assert_eq!((b0.start, b1.start, b2.start, b3.start), (0, 4096, 8192, 12288));
    assert_eq!(al.stats().free, 0);
    // freeing the upper block of a pair does not merge with an allocated buddy
    assert_eq!(al.free(b1), Ok(()));
    assert_eq!(al.stats().largest_free_block, 4096);
    // its buddy joins: one 8 KiB block at 0
    assert_eq!(al.free(b0), Ok(()));
    assert_eq!(al.stats().largest_free_block, 8192);
    // the upper block of the second pair alone merges nothing
    assert_eq!(al.free(b3), Ok(()));
    assert_eq!(al.stats().largest_free_block, 8192);
    // its buddy joins the pair, which then cascades into the whole range
    assert_eq!(al.free(b2), Ok(()));
    let st = al.stats();
    assert_eq!(st.free, 16384);
    assert_eq!(st.largest_free_block, 16384);
    let whole = al.allocate(16384).unwrap();
    assert_eq!(whole.start, 0);
    assert_eq!(whole.size, 16384);
}

#[test]
fn best_fit_prefers_exact_size_over_larger() {
    // build a pool holding one 8 KiB block and two 4 KiB blocks: freeing
    // the two lower 4 KiB blocks in this order merges them back into one
    // 8 KiB block at 0
    let mut al = Allocator::initialize(0, 16384, 12, 12).unwrap();
    let b0 = al.allocate(4096).unwrap();
    let b1 = al.allocate(4096).unwrap();
    assert_eq!(al.free(b0), Ok(()));
    assert_eq!(al.free(b1), Ok(()));
    // pool now: 8 KiB at 0, 4 KiB at 8192, 4 KiB at 12288
    let exact = al.allocate(4096).unwrap();
    // an exact fit exists, so no 8 KiB block is broken up
    assert_eq!(exact.size, 4096);
    assert_eq!(exact.start, 8192);
}

#[test]
fn new_manages_the_fixed_user_range() {
    let mut al = Allocator::new();
    let st = al.stats();
    assert_eq!(st.total, 0x10000000);
    assert_eq!(st.free, 0x10000000);
    let b = al.allocate(4096).unwrap();
    assert_eq!(b.size, 4096);
    assert!(b.start >= 0x10000000);
    assert!(b.start + b.size <= 0x20000000);
}

#[test]
fn allocate_block_hands_out_inclusive_bounds() {
    let mut al = Allocator::new();
    let (start, end) = al.allocate_block(4096).unwrap();
    assert_eq!(end - start + 1, 4096);
    assert!(start >= 0x10000000);
    assert!(al.allocate_block(0).is_none());
}
