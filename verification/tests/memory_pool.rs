use redacted_geyser::redacted_memory_pool::RedactedMemoryPool;

#[test]
fn regions_follow_each_other() {
    let mut pool = RedactedMemoryPool::new(100);
    assert_eq!(pool.capacity(), 100);
    assert_eq!(pool.allocate(30), (0, 30));
    assert_eq!(pool.allocate(30), (30, 30));
    assert_eq!(pool.allocate(0), (60, 0));
    assert_eq!(pool.allocate(40), (60, 40));
    assert_eq!(pool.allocate(10), (0, 10));
}

#[test]
fn a_region_over_the_end_is_passed_over() {
    let mut pool = RedactedMemoryPool::new(100);
    assert_eq!(pool.allocate(40), (0, 40));
    assert_eq!(pool.allocate(40), (40, 40));
    // 80 to 120 would run over the end; the next attempt starts at 120.
    assert_eq!(pool.allocate(40), (20, 40));
    assert_eq!(pool.allocate(40), (60, 40));
}

#[test]
fn the_whole_pool_can_be_taken() {
    let mut pool = RedactedMemoryPool::new(100);
    assert_eq!(pool.allocate(100), (0, 100));
    assert_eq!(pool.allocate(100), (0, 100));
}

#[test]
fn half_an_odd_pool_rounded_up_fits_within_two_attempts() {
    for used in 0..11 {
        let mut pool = RedactedMemoryPool::new(11);
        pool.allocate(used);
        assert!(pool.fits_within(6, 2));
    }
    let mut pool = RedactedMemoryPool::new(11);
    assert_eq!(pool.allocate(6), (0, 6));
    assert_eq!(pool.allocate(6), (1, 6));
}

#[test]
fn more_than_half_the_pool_may_take_many_attempts() {
    let mut pool = RedactedMemoryPool::new(100);
    assert_eq!(pool.allocate(50), (0, 50));
    // Attempts at 50 and at 10 (110): the second fits.
    assert!(!pool.fits_within(60, 1));
    assert!(pool.fits_within(60, 2));
    assert_eq!(pool.allocate(60), (10, 60));
}

#[test]
fn what_never_fits() {
    let pool = RedactedMemoryPool::new(100);
    assert!(pool.fits_within(100, 1));
    assert!(!pool.fits_within(101, 1000));
    assert!(!pool.fits_within(10, 0));
    let empty = RedactedMemoryPool::new(0);
    assert!(!empty.fits_within(0, 10));
}

#[test]
fn reads_give_what_was_written() {
    let mut pool = RedactedMemoryPool::new(10);
    let first = pool.allocate(4);
    let second = pool.allocate(4);
    assert_eq!(pool.bytes(first).to_vec(), vec![0; 4]);
    pool.bytes_mut(first).copy_from_slice(&[1, 2, 3, 4]);
    pool.bytes_mut(second).copy_from_slice(&[5, 6, 7, 8]);
    assert_eq!(pool.bytes(first).to_vec(), vec![1, 2, 3, 4]);
    assert_eq!(pool.bytes(second).to_vec(), vec![5, 6, 7, 8]);
    assert_eq!(pool.bytes((3, 3)).to_vec(), vec![4, 5, 6]);
}

#[test]
fn bytes_stay_for_a_round() {
    let mut pool = RedactedMemoryPool::new(100);
    let first = pool.allocate(20);
    pool.bytes_mut(first).fill(7);
    for _ in 0..4 {
        let next = pool.allocate(20);
        pool.bytes_mut(next).fill(1);
        assert_eq!(pool.bytes(first).to_vec(), vec![7; 20]);
    }
    // Once round, the region is handed out again.
    assert_eq!(pool.allocate(20), first);
}
