use ssd_moe::aligned_buffer::{is_valid_buffer, AlignedBuffer};
use ssd_moe::buffer_pool::{BufferPool, Half};

#[test]
fn buffer_is_aligned_and_zeroed() {
    let buf = AlignedBuffer::new(4096, 4096);
    assert_eq!(buf.as_slice().as_ptr() as usize % 4096, 0);
    assert_eq!(buf.len(), 4096);
    assert!(buf.as_slice().iter().all(|&b| b == 0));
}

#[test]
fn address_is_that_of_the_bytes() {
    let mut buf = AlignedBuffer::new(8192, 4096);
    assert_eq!(buf.address(), buf.as_slice().as_ptr() as usize);
    assert_eq!(buf.align(), 4096);
    buf.as_mut_slice()[8191] = 7;
    assert_eq!(buf.as_slice()[8191], 7);
    assert_eq!(buf.address(), buf.as_slice().as_ptr() as usize);
    assert_eq!(buf.address() % 4096, 0);
}

#[test]
fn the_window_starts_at_the_next_aligned_address() {
    for (base, skipped) in [(16usize, 0usize), (17, 7), (23, 1), (24, 0)] {
        let data: Vec<u8> = (0..23).collect();
        let buf = AlignedBuffer::at_address(data, base, 16, 8);
        assert_eq!(buf.address(), base + skipped);
        let first = skipped as u8;
        assert_eq!(buf.as_slice().to_vec(), (first..first + 16).collect::<Vec<u8>>());
        assert_eq!(buf.align(), 8);
        assert_eq!(buf.len(), 16);
    }
}

#[test]
fn small_alignments_are_met() {
    for align in [1usize, 2, 8, 64, 512] {
        let buf = AlignedBuffer::new(1024, align);
        assert_eq!(buf.address() % align, 0);
        assert_eq!(buf.len(), 1024);
    }
}

#[test]
fn only_whole_power_of_two_blocks_are_valid() {
    assert!(is_valid_buffer(4096, 4096));
    assert!(is_valid_buffer(3, 1));
    assert!(!is_valid_buffer(1024, 1000));
    assert!(!is_valid_buffer(4097, 4096));
    assert!(!is_valid_buffer(0, 4096));
    assert!(!is_valid_buffer(4096, 0));
    assert!(!is_valid_buffer(usize::MAX, 1));
}

#[test]
fn acquire_and_release() {
    let mut pool = BufferPool::new(2, 4096, 4096);
    let a = pool.try_acquire().unwrap();
    let b = pool.try_acquire().unwrap();
    assert!(pool.try_acquire().is_none());
    pool.release(a);
    assert!(pool.try_acquire().is_some());
    pool.release(b);
}

#[test]
fn shadow_independent_of_primary() {
    let mut pool = BufferPool::new_with_shadow(2, 2, 4096, 4096);
    assert_eq!(pool.capacity(), 2);
    assert_eq!(pool.shadow_capacity(), 2);

    let _a = pool.try_acquire().unwrap();
    let _b = pool.try_acquire().unwrap();
    assert!(pool.try_acquire().is_none());

    let _s1 = pool.try_acquire_shadow().unwrap();
    let _s2 = pool.try_acquire_shadow().unwrap();
    assert!(pool.try_acquire_shadow().is_none());
}

#[test]
fn promote_shadow_to_primary() {
    let mut pool = BufferPool::new_with_shadow(1, 1, 4096, 4096);
    let _hold = pool.try_acquire().unwrap();
    let s = pool.try_acquire_shadow().unwrap();
    assert!(s.is_shadow());
    let promoted = pool.promote_shadow(s);
    assert!(!promoted.is_shadow());
    assert_eq!(pool.release(promoted), Half::Primary);
    let _p = pool.try_acquire().expect("promoted buffer returned to primary");
    assert!(pool.try_acquire_shadow().is_none());
}

#[test]
fn release_undoes_acquire() {
    let mut pool = BufferPool::new_with_shadow(2, 1, 4096, 4096);
    let before = pool.raw_iovecs();
    let mut a = pool.try_acquire().unwrap();
    assert_eq!(a.len(), 4096);
    a.as_mut_slice()[3] = 9;
    assert_eq!(pool.raw_iovecs().len(), 2);
    assert_eq!(pool.release(a), Half::Primary);
    assert_eq!(pool.raw_iovecs(), before);
    let s = pool.try_acquire_shadow().unwrap();
    assert_eq!(pool.release(s), Half::Shadow);
    assert_eq!(pool.raw_iovecs(), before);
    let again = pool.try_acquire().unwrap();
    assert_eq!(again.as_slice()[3], 9);
}

#[test]
fn a_pool_without_shadow_takes_shadow_buffers_as_primary() {
    let mut with = BufferPool::new_with_shadow(1, 1, 4096, 4096);
    let mut without = BufferPool::new(1, 4096, 4096);
    assert!(without.try_acquire_shadow().is_none());
    let s = with.try_acquire_shadow().unwrap();
    assert_eq!(without.release(s), Half::Primary);
    assert!(without.try_acquire().is_some());
    assert!(without.try_acquire().is_some());
    assert!(without.try_acquire().is_none());
}

#[test]
fn iovecs_list_the_free_buffers() {
    let mut pool = BufferPool::new_with_shadow(2, 1, 8192, 4096);
    assert_eq!(pool.buffer_size(), 8192);
    let iovecs = pool.raw_iovecs();
    assert_eq!(iovecs.len(), 3);
    assert!(iovecs.iter().all(|&(a, l)| a % 4096 == 0 && l == 8192));
    let a = pool.try_acquire().unwrap();
    let s = pool.try_acquire_shadow().unwrap();
    assert_eq!(a.address(), iovecs[1].0);
    assert_eq!(s.address(), iovecs[2].0);
    assert_eq!(pool.raw_iovecs(), vec![iovecs[0]]);
}
