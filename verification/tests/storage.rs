use bucket_storage::storage::region_size;
use bucket_storage::{BucketStorage, BucketStorageError, DEFAULT_CAPACITY_POW2};
use memmap2::MmapMut;

fn blank_map(len: usize) -> MmapMut {
    MmapMut::map_anon(len).unwrap()
}

/// An arena of `2^capacity_pow2` cells with `payload` payload bytes each.
fn arena(payload: u64, capacity_pow2: u8) -> BucketStorage {
    let len = (1usize << capacity_pow2) * (payload as usize + 8);
    BucketStorage::new_with_capacity(blank_map(len), payload, 1, capacity_pow2, 7, 0)
}

#[test]
fn test_bucket_storage() {
    let mut storage = BucketStorage::new(blank_map(32 * 9), 1, 1, 1, 0);
    let ix = 0;
    assert!(storage.is_free(ix));
    assert!(storage.allocate(ix, false).is_ok());
    assert!(storage.allocate(ix, false).is_err());
    assert!(!storage.is_free(ix));
    storage.free(ix);
    assert!(storage.is_free(ix));
    assert!(storage.is_free(ix));
    assert!(storage.allocate(ix, false).is_ok());
    assert!(storage.allocate(ix, false).is_err());
    assert!(!storage.is_free(ix));
    storage.free(ix);
    assert!(storage.is_free(ix));
}

#[test]
fn new_arena_has_default_capacity() {
    let storage = BucketStorage::new(blank_map(32 * 9), 1, 1, 1, 0);
    assert_eq!(DEFAULT_CAPACITY_POW2, 5);
    assert_eq!(storage.capacity_pow2, 5);
    assert_eq!(storage.capacity(), 32);
    assert_eq!(storage.cell_size, 9);
    assert_eq!(storage.capacity_bytes(), 288);
}

#[test]
fn fresh_arena_is_free_everywhere() {
    let storage = arena(4, 6);
    assert_eq!(storage.capacity(), 64);
    for ix in 0..storage.capacity() {
        assert!(storage.is_free(ix));
    }
    assert_eq!(storage.count, 0);
}

#[test]
fn capacity_two_scenario() {
    let mut storage = BucketStorage::new_with_capacity(blank_map(2 * 9), 1, 1, 1, 0, 0);
    assert_eq!(storage.capacity(), 2);
    assert_eq!(storage.allocate(0, false), Ok(()));
    assert_eq!(storage.allocate(0, false), Err(BucketStorageError::AlreadyAllocated));
    assert!(storage.is_free(1));
    storage.free(0);
    assert!(storage.is_free(0));
}

#[test]
fn second_allocate_changes_nothing() {
    let mut storage = arena(3, 2);
    assert_eq!(storage.allocate(2, false), Ok(()));
    assert!(!storage.is_free(2));
    let before: Vec<u8> = storage.mmap.to_vec();
    assert_eq!(storage.allocate(2, false), Err(BucketStorageError::AlreadyAllocated));
    assert_eq!(storage.mmap.to_vec(), before);
    assert_eq!(storage.count, 1);
}

#[test]
fn freed_cell_can_be_allocated_again() {
    let mut storage = arena(3, 2);
    assert_eq!(storage.allocate(3, false), Ok(()));
    storage.free(3);
    assert!(storage.is_free(3));
    assert_eq!(storage.allocate(3, false), Ok(()));
    assert!(!storage.is_free(3));
}

#[test]
fn allocate_writes_the_lock_word_only() {
    let mut storage = arena(2, 1);
    assert_eq!(storage.allocate(1, false), Ok(()));
    let mut expected = vec![0u8; 20];
    expected[10] = 1;
    assert_eq!(storage.mmap.to_vec(), expected);
    storage.free(1);
    assert_eq!(storage.mmap.to_vec(), vec![0u8; 20]);
}

#[test]
fn count_is_number_of_occupied_cells() {
    let mut storage = arena(1, 4);
    let calls: [(bool, u64); 9] = [
        (true, 3),
        (true, 7),
        (true, 3),
        (false, 3),
        (true, 15),
        (true, 0),
        (false, 7),
        (true, 7),
        (true, 15),
    ];
    for (allocate, ix) in calls {
        if allocate {
            let _ = storage.allocate(ix, false);
        } else {
            storage.free(ix);
        }
        let occupied = (0..storage.capacity()).filter(|ix| !storage.is_free(*ix)).count() as u64;
        assert_eq!(storage.count, occupied);
    }
    assert_eq!(storage.count, 3);
}

#[test]
fn resizing_allocate_is_not_counted() {
    let mut storage = arena(1, 2);
    assert_eq!(storage.allocate(1, true), Ok(()));
    assert_eq!(storage.count, 0);
    assert!(!storage.is_free(1));
    assert_eq!(storage.allocate(2, false), Ok(()));
    assert_eq!(storage.count, 1);
}

#[test]
fn count_wraps_like_an_atomic() {
    let mut storage = arena(1, 1);
    assert_eq!(storage.allocate(0, true), Ok(()));
    storage.free(0);
    assert_eq!(storage.count, u64::MAX);
    assert_eq!(storage.allocate(0, false), Ok(()));
    assert_eq!(storage.count, 0);
}

#[test]
fn capacity_is_power_of_two_and_stays() {
    for capacity_pow2 in 0..12u8 {
        let mut storage = arena(1, capacity_pow2);
        assert_eq!(storage.capacity(), 2u64.pow(capacity_pow2 as u32));
        assert_eq!(storage.allocate(0, false), Ok(()));
        assert_eq!(storage.capacity(), 2u64.pow(capacity_pow2 as u32));
        storage.free(0);
        assert_eq!(storage.capacity(), 2u64.pow(capacity_pow2 as u32));
    }
}

#[test]
fn capacity_bytes_is_cells_times_cell_size() {
    let storage = BucketStorage::new_with_capacity(blank_map(8 * 32), 3, 8, 3, 0, 0);
    assert_eq!(storage.cell_size, 32);
    assert_eq!(storage.capacity_bytes(), 256);
    assert_eq!(BucketStorage::header_size(), 8);
    assert_eq!(storage.get_start_offset(0), 8);
    assert_eq!(storage.get_start_offset(5), 168);
    assert_eq!(storage.cell_offset(5), 160);
}

#[test]
fn max_search_is_carried() {
    let storage = BucketStorage::new_with_capacity(blank_map(2 * 9), 1, 1, 1, 200, 0);
    assert_eq!(storage.max_search(), 200);
    assert_eq!(storage.max_search, 200);
}

#[test]
fn count_is_taken_over() {
    let storage = BucketStorage::new_with_capacity(blank_map(2 * 9), 1, 1, 1, 0, 41);
    assert_eq!(storage.count, 41);
}

#[test]
fn region_size_of_shapes() {
    assert_eq!(region_size(1, 1, 1), Some(18));
    assert_eq!(region_size(1, 1, 5), Some(288));
    assert_eq!(region_size(3, 8, 3), Some(256));
    assert_eq!(region_size(0, 0, 0), Some(8));
    assert_eq!(region_size(0, 7, 10), Some(8192));
}

#[test]
fn region_size_refuses_what_cannot_be_addressed() {
    assert_eq!(region_size(1, 1, 64), None);
    assert_eq!(region_size(1, 1, 255), None);
    assert_eq!(region_size(u64::MAX, 2, 0), None);
    assert_eq!(region_size(u64::MAX, 1, 0), None);
    assert_eq!(region_size(u64::MAX - 8, 1, 1), None);
    assert_eq!(region_size(1, 1, 63), None);
    assert_eq!(region_size(0, 0, 60), Some(1 << 63));
    assert_eq!(region_size(0, 0, 61), None);
}

#[test]
fn try_new_accepts_a_blank_map_of_the_right_size() {
    let made = BucketStorage::try_new_with_capacity(blank_map(4 * 10), 2, 1, 2, 3, 5);
    let mut storage = made.unwrap();
    assert_eq!(storage.capacity(), 4);
    assert_eq!(storage.cell_size, 10);
    assert_eq!(storage.max_search, 3);
    assert_eq!(storage.count, 5);
    assert!(storage.is_free(3));
    assert_eq!(storage.allocate(3, false), Ok(()));
}

#[test]
fn try_new_refuses_a_map_of_another_size() {
    assert!(BucketStorage::try_new_with_capacity(blank_map(4 * 10 + 1), 2, 1, 2, 3, 0).is_none());
    assert!(BucketStorage::try_new_with_capacity(blank_map(4 * 10 - 1), 2, 1, 2, 3, 0).is_none());
}

#[test]
fn try_new_refuses_a_map_that_was_written() {
    let mut map = blank_map(4 * 10);
    map[39] = 1;
    assert!(BucketStorage::try_new_with_capacity(map, 2, 1, 2, 3, 0).is_none());
}

#[test]
fn try_new_refuses_a_shape_that_cannot_be_addressed() {
    assert!(BucketStorage::try_new_with_capacity(blank_map(16), 1, 1, 64, 3, 0).is_none());
    assert!(BucketStorage::try_new_with_capacity(blank_map(16), u64::MAX, 2, 1, 3, 0).is_none());
}
