use mpmc_ringbuf::{geometry_fits, BufferCache, BufferCacheMode};

fn numbers(from: u32, to: u32) -> Vec<u32> {
    (from..to).collect()
}

#[test]
fn test_dynamic_mode() {
    let mut buf = BufferCache::new();
    buf.set_dynamic_mode(4096);
    buf.write(vec![0; 4096 * 2]);
    assert_eq!(buf.is_full(), true);
    assert_eq!(buf.size(), 4096 * 2);
    buf.write(vec![0; 1]);
    assert_eq!(buf.size(), 4096 * 2 + 1);
    assert_eq!(buf.capacity(), 4096 * 6);
}

#[test]
fn new_buffer_is_empty_fixed_two_pages() {
    let mut buf: BufferCache<u8> = BufferCache::new();
    assert_eq!(buf.mode(), BufferCacheMode::Fixed);
    assert_eq!(buf.size(), 0);
    assert_eq!(buf.capacity(), 4096 * 2 - 1);
    assert!(!buf.is_full());
    assert!(!buf.readable());
    assert_eq!(buf.read(3).len(), 0);
    assert_eq!(buf.read_all().len(), 0);
}

#[test]
fn write_then_read_all_returns_the_batch() {
    let mut buf = BufferCache::new();
    let data = numbers(0, 5000);
    buf.write(data.clone());
    assert_eq!(buf.size(), 5000);
    assert!(buf.readable());
    assert_eq!(buf.read_all(), data);
    assert_eq!(buf.size(), 0);
}

#[test]
fn round_trip_of_strings() {
    let mut buf = BufferCache::new();
    buf.set_fixed_mode(3, 2);
    let data = vec!["a".to_string(), "bc".to_string(), "".to_string()];
    buf.write(data.clone());
    assert_eq!(buf.read_all(), data);
}

#[test]
fn reads_are_first_in_first_out_across_pages() {
    let mut buf = BufferCache::new();
    buf.set_fixed_mode(4, 3);
    assert_eq!(buf.capacity(), 11);
    buf.write(numbers(0, 4));
    buf.write(numbers(4, 9));
    assert_eq!(buf.read(2), vec![0, 1]);
    assert_eq!(buf.read(5), vec![2, 3, 4, 5, 6]);
    assert_eq!(buf.size(), 2);
    buf.write(numbers(9, 16));
    assert_eq!(buf.size(), 9);
    assert_eq!(buf.read(100), numbers(7, 16));
    assert_eq!(buf.size(), 0);
}

#[test]
fn short_read_returns_what_is_there() {
    let mut buf = BufferCache::new();
    buf.write(vec![10, 12]);
    assert_eq!(buf.size(), 2);
    assert_eq!(buf.read(7), vec![10, 12]);
    assert_eq!(buf.size(), 0);
    assert_eq!(buf.read(1), Vec::<i32>::new());
}

#[test]
fn read_of_nothing_changes_nothing() {
    let mut buf = BufferCache::new();
    buf.write(numbers(0, 10));
    assert_eq!(buf.read(0), Vec::<u32>::new());
    assert_eq!(buf.size(), 10);
    assert_eq!(buf.read_all(), numbers(0, 10));
}

#[test]
fn empty_write_changes_nothing() {
    let mut buf = BufferCache::new();
    buf.write(numbers(0, 3));
    buf.write(Vec::new());
    assert_eq!(buf.size(), 3);
    assert_eq!(buf.read_all(), numbers(0, 3));
}

#[test]
fn fixed_write_of_exactly_the_capacity_fits() {
    let mut buf = BufferCache::new();
    buf.write(numbers(0, 8191));
    assert!(buf.is_full());
    assert_eq!(buf.size(), 8191);
    assert_eq!(buf.read_all(), numbers(0, 8191));
}

#[test]
fn fixed_write_of_one_less_than_the_capacity_fits() {
    let mut buf = BufferCache::new();
    buf.write(numbers(0, 8190));
    assert!(!buf.is_full());
    assert_eq!(buf.size(), 8190);
    buf.write(numbers(8190, 8191));
    assert!(buf.is_full());
    assert_eq!(buf.read(8190), numbers(0, 8190));
    assert_eq!(buf.read(8190), numbers(8190, 8191));
}

#[test]
fn fixed_write_of_one_more_than_the_capacity_keeps_the_newest() {
    let mut buf = BufferCache::new();
    buf.write(numbers(0, 8192));
    assert!(buf.is_full());
    assert_eq!(buf.size(), 8191);
    assert_eq!(buf.read_all(), numbers(1, 8192));
}

#[test]
fn fixed_oversized_write_keeps_the_last_capacity_records() {
    let mut buf = BufferCache::new();
    buf.set_fixed_mode(2, 4096);
    assert_eq!(buf.capacity(), 8191);
    buf.write(numbers(0, 12000));
    assert_eq!(buf.size(), 8191);
    assert!(buf.is_full());
    let held = buf.read_all();
    assert_eq!(held.len(), 8191);
    assert_eq!(held[0], 3809);
    assert_eq!(held[8190], 11999);
    assert_eq!(held, numbers(3809, 12000));
}

#[test]
fn fixed_oversized_write_discards_what_was_unread() {
    let mut buf = BufferCache::new();
    buf.set_fixed_mode(2, 4);
    buf.write(numbers(100, 105));
    buf.write(numbers(0, 7));
    assert_eq!(buf.read_all(), numbers(0, 7));
    buf.write(numbers(100, 103));
    buf.write(numbers(0, 20));
    assert_eq!(buf.read_all(), numbers(13, 20));
}

#[test]
fn fixed_overflow_evicts_the_oldest() {
    let mut buf = BufferCache::new();
    buf.set_fixed_mode(2, 4);
    assert_eq!(buf.capacity(), 7);
    buf.write(numbers(0, 5));
    buf.write(numbers(5, 9));
    assert_eq!(buf.size(), 7);
    assert!(buf.is_full());
    assert_eq!(buf.read(3), numbers(2, 5));
    buf.write(numbers(9, 11));
    assert_eq!(buf.size(), 6);
    buf.write(numbers(11, 14));
    assert_eq!(buf.size(), 7);
    assert_eq!(buf.read_all(), numbers(7, 14));
}

#[test]
fn fixed_overflow_after_wrapping_many_times() {
    let mut buf = BufferCache::new();
    buf.set_fixed_mode(3, 5);
    let capacity = 14;
    let mut next = 0;
    for round in 1..40 {
        let len = (round * 7) % 13;
        buf.write(numbers(next, next + len));
        next += len;
        assert!(buf.size() <= capacity);
        if round % 3 == 0 {
            let size = buf.size() as u32;
            assert_eq!(buf.read(2), numbers(next - size, next - size + size.min(2)));
        }
    }
    let size = buf.size() as u32;
    assert_eq!(buf.read_all(), numbers(next - size, next));
}

#[test]
fn overlapping_writes_and_reads_keep_the_size() {
    let mut buf = BufferCache::new();
    buf.write(vec![0; 6000]);
    assert_eq!(buf.size(), 6000);
    buf.write(vec![0; 4096 * 3]);
    assert_eq!(buf.size(), 8191);
    buf.read(2000);
    assert_eq!(buf.size(), 6191);
    buf.write(vec![0; 1000]);
    assert_eq!(buf.size(), 7191);
    buf.write(vec![0; 3095]);
    assert_eq!(buf.is_full(), true);
    buf.read(200);
    assert_eq!(buf.size(), 7991);
    buf.write(vec![0; 100]);
    assert_eq!(buf.size(), 8091);
}

#[test]
fn filling_and_draining_repeatedly() {
    let mut buf = BufferCache::new();
    assert_eq!(buf.read(3).len(), 0);
    buf.write(vec![10, 12]);
    assert_eq!(buf.size(), 2);
    assert_eq!(buf.read(2).len(), 2);
    buf.write(vec![10, 12]);
    buf.write(vec![10, 12]);
    buf.write(vec![255, 12, 1, 2, 3, 4, 5, 6, 2]);
    buf.write(vec![0; 4096 * 2]);
    assert!(buf.is_full());
    buf.read_all();
    assert_eq!(buf.size(), 0);
    buf.write(vec![0; 4096 * 3]);
    assert!(buf.is_full());
    buf.read(4096);
    assert_eq!(buf.size(), 4095);
}

#[test]
fn dynamic_sizes_add_up_and_nothing_is_lost() {
    let mut buf = BufferCache::new();
    buf.set_dynamic_mode(16);
    assert_eq!(buf.mode(), BufferCacheMode::Dynamic);
    assert_eq!(buf.capacity(), 32);
    let mut next = 0;
    for len in [5, 0, 27, 1, 100, 33, 2000, 7] {
        buf.write(numbers(next, next + len));
        next += len;
        assert_eq!(buf.size(), next as u64);
        assert!(buf.capacity() >= buf.size());
    }
    assert_eq!(buf.read_all(), numbers(0, next));
}

#[test]
fn dynamic_growth_follows_the_doubling_rule() {
    let mut buf = BufferCache::new();
    buf.set_dynamic_mode(4096);
    buf.write(numbers(0, 8192));
    assert!(buf.is_full());
    assert_eq!(buf.capacity(), 8192);
    buf.write(numbers(8192, 8193));
    assert!(!buf.is_full());
    assert_eq!(buf.size(), 8193);
    assert_eq!(buf.capacity(), 4096 * 6);
    buf.write(numbers(8193, 8193 + 4096 * 5));
    assert_eq!(buf.capacity(), 4096 * 22);
    assert_eq!(buf.read_all(), numbers(0, 8193 + 4096 * 5));
}

#[test]
fn dynamic_growth_relocates_wrapped_records() {
    let mut buf = BufferCache::new();
    buf.set_dynamic_mode(4);
    buf.write(numbers(0, 7));
    assert_eq!(buf.read(5), numbers(0, 5));
    buf.write(numbers(7, 12));
    assert_eq!(buf.size(), 7);
    assert_eq!(buf.capacity(), 8);
    buf.write(numbers(12, 15));
    assert_eq!(buf.size(), 10);
    assert_eq!(buf.capacity(), (2 + 1) * 2 * 4);
    assert_eq!(buf.read(4), numbers(5, 9));
    assert_eq!(buf.read_all(), numbers(9, 15));
    assert_eq!(buf.size(), 0);
}

#[test]
fn dynamic_buffer_keeps_its_size_after_draining() {
    let mut buf = BufferCache::new();
    buf.set_dynamic_mode(2);
    buf.write(numbers(0, 9));
    let grown = buf.capacity();
    assert_eq!(grown, (2 + 5) * 2 * 2);
    assert_eq!(buf.read_all(), numbers(0, 9));
    assert_eq!(buf.capacity(), grown);
    buf.write(numbers(0, 28));
    assert!(buf.is_full());
    assert_eq!(buf.capacity(), grown);
}

#[test]
fn set_mode_resets_the_buffer() {
    let mut buf = BufferCache::new();
    buf.write(numbers(0, 10));
    buf.set_fixed_mode(5, 3);
    assert_eq!(buf.mode(), BufferCacheMode::Fixed);
    assert_eq!(buf.size(), 0);
    assert_eq!(buf.capacity(), 14);
    buf.write(numbers(0, 10));
    buf.set_dynamic_mode(3);
    assert_eq!(buf.mode(), BufferCacheMode::Dynamic);
    assert_eq!(buf.size(), 0);
    assert_eq!(buf.capacity(), 6);
}

#[test]
fn write_cloned_leaves_the_batch_with_the_caller() {
    let mut buf = BufferCache::new();
    let data = vec!["x".to_string(), "y".to_string()];
    buf.write_cloned(&data);
    buf.write_cloned(&data);
    assert_eq!(data.len(), 2);
    assert_eq!(buf.read_all(), vec!["x", "y", "x", "y"]);
}

#[test]
fn accepts_says_when_growth_cannot_be_counted() {
    let mut buf: BufferCache<u8> = BufferCache::new();
    assert!(buf.accepts(u64::MAX));
    buf.set_dynamic_mode(8);
    assert!(buf.accepts(16));
    assert!(buf.accepts(1_000_000));
    assert!(!buf.accepts(u64::MAX));
    assert!(!buf.accepts(u64::MAX / 2));
}

#[test]
fn geometry_fits_wants_two_pages_and_a_slot() {
    assert!(geometry_fits(4096, 2));
    assert!(geometry_fits(1, 2));
    assert!(!geometry_fits(0, 2));
    assert!(!geometry_fits(4096, 1));
    assert!(!geometry_fits(4096, 0));
    assert!(!geometry_fits(u64::MAX, 2));
    assert!(!geometry_fits(1 << 40, 1 << 40));
}
