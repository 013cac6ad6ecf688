use bucket_storage::{BucketStats, BucketStorage};
use memmap2::MmapMut;

fn blank_map(len: usize) -> MmapMut {
    MmapMut::map_anon(len).unwrap()
}

fn arena(payload: u64, capacity_pow2: u8) -> BucketStorage {
    let len = (1usize << capacity_pow2) * (payload as usize + 8);
    BucketStorage::new_with_capacity(blank_map(len), payload, 1, capacity_pow2, 7, 0)
}

fn grown(
    source: &BucketStorage,
    payload: u64,
    capacity_pow2: u8,
    stats: &mut BucketStats,
) -> BucketStorage {
    let len = (1usize << capacity_pow2) * (payload as usize + 8);
    BucketStorage::new_resized(blank_map(len), 9, Some(source), capacity_pow2, payload, 1, stats)
}

#[test]
fn growth_round_trip() {
    let occupied: [u64; 4] = [0, 3, 4, 7];
    for by in 0..4u8 {
        let mut old = arena(3, 3);
        for ix in occupied {
            assert!(old.allocate(ix, false).is_ok());
            old.get_mut(ix, 3).copy_from_slice(&[ix as u8 + 1, 0xAB, ix as u8 * 2]);
        }
        // a payload in a free cell is not moved
        old.get_mut(5, 3).copy_from_slice(&[1, 1, 1]);
        let mut stats = BucketStats::new();
        let new = grown(&old, 3, 3 + by, &mut stats);
        let factor = 1u64 << by;
        assert_eq!(new.capacity(), 8 * factor);
        for ix in 0..new.capacity() {
            if ix % factor == 0 && occupied.contains(&(ix / factor)) {
                assert!(!new.is_free(ix));
                assert_eq!(new.get(ix, 3), old.get(ix / factor, 3));
            } else {
                assert!(new.is_free(ix));
                assert_eq!(new.get(ix, 3), &[0, 0, 0]);
            }
        }
        assert_eq!(new.count, 4);
        assert_eq!(new.count, old.count);
    }
}

#[test]
fn growth_by_two_places_cells_at_even_indices() {
    let mut old = arena(1, 1);
    assert!(old.allocate(1, false).is_ok());
    old.get_mut(1, 1)[0] = 0x5A;
    let mut stats = BucketStats::new();
    let new = grown(&old, 1, 2, &mut stats);
    let expected: Vec<u8> = vec![
        0, 0, 0, 0, 0, 0, 0, 0, 0, //
        0, 0, 0, 0, 0, 0, 0, 0, 0, //
        1, 0, 0, 0, 0, 0, 0, 0, 0x5A, //
        0, 0, 0, 0, 0, 0, 0, 0, 0, //
    ];
    assert_eq!(new.mmap.to_vec(), expected);
}

#[test]
fn growth_leaves_the_source_as_it_was() {
    let mut old = arena(2, 2);
    assert!(old.allocate(2, false).is_ok());
    old.get_mut(2, 2).copy_from_slice(&[7, 8]);
    let before = old.mmap.to_vec();
    let mut stats = BucketStats::new();
    let _new = grown(&old, 2, 4, &mut stats);
    assert_eq!(old.mmap.to_vec(), before);
    assert_eq!(old.count, 1);
}

#[test]
fn grown_arena_takes_limit_from_the_call() {
    let old = arena(2, 2);
    let mut stats = BucketStats::new();
    let new = grown(&old, 2, 3, &mut stats);
    assert_eq!(new.max_search, 9);
    assert_eq!(new.cell_size, 10);
    assert_eq!(new.capacity_pow2, 3);
}

#[test]
fn first_arena_starts_at_zero() {
    let mut stats = BucketStats::new();
    let new = BucketStorage::new_resized(blank_map(4 * 9), 2, None, 2, 1, 1, &mut stats);
    assert_eq!(new.count, 0);
    assert_eq!(new.capacity(), 4);
    for ix in 0..4 {
        assert!(new.is_free(ix));
    }
    assert_eq!(stats.resizes, 0);
    assert_eq!(stats.resize_us, 0);
    assert_eq!(stats.max_size, 4);
}

#[test]
fn growth_is_counted() {
    let mut old = arena(1, 2);
    assert!(old.allocate(0, false).is_ok());
    let mut stats = BucketStats::new();
    let new = grown(&old, 1, 5, &mut stats);
    assert_eq!(stats.resizes, 1);
    assert_eq!(stats.max_size, 32);
    let newer = grown(&new, 1, 6, &mut stats);
    assert_eq!(stats.resizes, 2);
    assert_eq!(stats.max_size, 64);
    assert_eq!(newer.count, 1);
    assert!(!newer.is_free(0));
    let _same = grown(&old, 1, 2, &mut stats);
    assert_eq!(stats.resizes, 3);
    assert_eq!(stats.max_size, 64);
    assert_eq!(stats.new_file_us, 0);
    assert_eq!(stats.flush_file_us, 0);
    assert_eq!(stats.mmap_us, 0);
}

#[test]
fn count_stays_right_after_growth() {
    let mut old = arena(1, 3);
    for ix in [1u64, 2, 6] {
        assert!(old.allocate(ix, false).is_ok());
    }
    let mut stats = BucketStats::new();
    let mut new = grown(&old, 1, 5, &mut stats);
    let occupied = (0..new.capacity()).filter(|ix| !new.is_free(*ix)).count() as u64;
    assert_eq!(new.count, occupied);
    assert_eq!(new.count, 3);
    new.free(8);
    assert!(new.allocate(9, false).is_ok());
    assert!(new.allocate(10, false).is_ok());
    let occupied = (0..new.capacity()).filter(|ix| !new.is_free(*ix)).count() as u64;
    assert_eq!(new.count, occupied);
    assert_eq!(new.count, 4);
}

#[test]
fn copy_contents_moves_occupied_cells() {
    let mut old = arena(1, 1);
    assert!(old.allocate(0, false).is_ok());
    assert!(old.allocate(1, false).is_ok());
    old.get_mut(0, 1)[0] = 10;
    old.get_mut(1, 1)[0] = 11;
    let mut new = arena(1, 3);
    let mut stats = BucketStats::new();
    new.copy_contents(&old, &mut stats);
    assert_eq!(new.get(0, 1), &[10]);
    assert_eq!(new.get(4, 1), &[11]);
    for ix in [1u64, 2, 3, 5, 6, 7] {
        assert!(new.is_free(ix));
    }
    assert!(!new.is_free(0));
    assert!(!new.is_free(4));
    assert_eq!(new.count, 0);
    assert_eq!(stats.resizes, 1);
    assert_eq!(stats.max_size, 0);
}

#[test]
fn update_max_size_reports_capacity() {
    let storage = arena(1, 4);
    let mut stats = BucketStats::new();
    storage.update_max_size(&mut stats);
    assert_eq!(stats.max_size, 16);
    stats.max_size = 100;
    storage.update_max_size(&mut stats);
    assert_eq!(stats.max_size, 100);
}

#[test]
fn try_new_resized_moves_contents() {
    let mut old = arena(2, 1);
    assert!(old.allocate(1, false).is_ok());
    old.get_mut(1, 2).copy_from_slice(&[3, 4]);
    let mut stats = BucketStats::new();
    let new = BucketStorage::try_new_resized(blank_map(8 * 10), 1, Some(&old), 3, 2, 1, &mut stats)
        .unwrap();
    assert_eq!(new.get(4, 2), &[3, 4]);
    assert!(!new.is_free(4));
    assert_eq!(new.count, 1);
    assert_eq!(stats.resizes, 1);
    assert_eq!(stats.max_size, 8);
}

#[test]
fn try_new_resized_refuses_smaller_cells_and_shrinking() {
    let old = arena(2, 2);
    let mut stats = BucketStats::new();
    // smaller cells
    assert!(
        BucketStorage::try_new_resized(blank_map(8 * 9), 1, Some(&old), 3, 1, 1, &mut stats)
            .is_none()
    );
    // fewer cells
    assert!(
        BucketStorage::try_new_resized(blank_map(2 * 10), 1, Some(&old), 1, 2, 1, &mut stats)
            .is_none()
    );
    // a map of another size
    assert!(
        BucketStorage::try_new_resized(blank_map(8 * 10 + 1), 1, Some(&old), 3, 2, 1, &mut stats)
            .is_none()
    );
    // a map that was written
    let mut map = blank_map(8 * 10);
    map[0] = 1;
    assert!(BucketStorage::try_new_resized(map, 1, Some(&old), 3, 2, 1, &mut stats).is_none());
    // a shape that cannot be addressed
    assert!(
        BucketStorage::try_new_resized(blank_map(8), 1, None, 64, 2, 1, &mut stats).is_none()
    );
    assert_eq!(stats, BucketStats::new());
}

#[test]
fn try_new_resized_without_source() {
    let mut stats = BucketStats::new();
    let new = BucketStorage::try_new_resized(blank_map(2 * 8), 1, None, 1, 0, 0, &mut stats)
        .unwrap();
    assert_eq!(new.count, 0);
    assert_eq!(new.cell_size, 8);
    assert_eq!(stats.max_size, 2);
    assert_eq!(stats.resizes, 0);
}

#[test]
fn growth_into_larger_cells() {
    let mut old = BucketStorage::new_with_capacity(blank_map(2 * 9), 1, 1, 1, 1, 0);
    assert_eq!(old.cell_size, 9);
    assert!(old.allocate(1, false).is_ok());
    let mut stats = BucketStats::new();
    let new = BucketStorage::new_resized(blank_map(4 * 10), 1, Some(&old), 2, 1, 2, &mut stats);
    assert_eq!(new.cell_size, 10);
    assert_eq!(new.capacity(), 4);
    assert!(!new.is_free(2));
    for ix in [0u64, 1, 3] {
        assert!(new.is_free(ix));
    }
    assert_eq!(new.count, 1);
    assert_eq!(stats.resizes, 1);
}

#[test]
fn larger_cells_begin_with_the_old_payload() {
    let mut old = arena(3, 2);
    for ix in [0u64, 3] {
        assert!(old.allocate(ix, false).is_ok());
        old.get_mut(ix, 3).copy_from_slice(&[ix as u8 + 7, 0xCD, 0xEF]);
    }
    let mut stats = BucketStats::new();
    let new = grown(&old, 5, 3, &mut stats);
    assert_eq!(new.cell_size, 13);
    assert_eq!(new.get(0, 5), &[7, 0xCD, 0xEF, 0, 0]);
    assert_eq!(new.get(6, 5), &[10, 0xCD, 0xEF, 0, 0]);
    let mut expected = vec![0u8; 8 * 13];
    expected[0] = 1;
    expected[8..11].copy_from_slice(&[7, 0xCD, 0xEF]);
    expected[6 * 13] = 1;
    expected[6 * 13 + 8..6 * 13 + 11].copy_from_slice(&[10, 0xCD, 0xEF]);
    assert_eq!(new.mmap.to_vec(), expected);
    for ix in 0..8u64 {
        assert_eq!(new.is_free(ix), ix != 0 && ix != 6);
    }
    assert_eq!(new.count, 2);
}

#[test]
fn try_new_resized_takes_larger_cells() {
    let mut old = arena(2, 2);
    assert!(old.allocate(3, false).is_ok());
    old.get_mut(3, 2).copy_from_slice(&[4, 5]);
    let mut stats = BucketStats::new();
    let new = BucketStorage::try_new_resized(blank_map(8 * 11), 1, Some(&old), 3, 3, 1, &mut stats)
        .unwrap();
    assert_eq!(new.cell_size, 11);
    assert!(!new.is_free(6));
    assert_eq!(new.get(6, 3), &[4, 5, 0]);
    assert_eq!(new.count, 1);
    assert_eq!(stats.resizes, 1);
}

#[test]
fn copy_contents_keeps_what_the_destination_held() {
    let mut old = arena(1, 1);
    assert!(old.allocate(1, false).is_ok());
    old.get_mut(1, 1)[0] = 0x11;
    old.get_mut(0, 1)[0] = 0x22;
    let mut new = arena(2, 2);
    for ix in [0u64, 1, 2] {
        assert!(new.allocate(ix, false).is_ok());
    }
    for ix in 0..4u64 {
        new.get_mut(ix, 2).copy_from_slice(&[0xA0 + ix as u8, 0xB0 + ix as u8]);
    }
    let before = new.mmap.to_vec();
    let mut stats = BucketStats::new();
    new.copy_contents(&old, &mut stats);
    let after = new.mmap.to_vec();
    // cells 0, 1 and 3 take no occupant and are as they were
    assert_eq!(after[0..20], before[0..20]);
    assert_eq!(after[30..40], before[30..40]);
    // cell 2 begins with cell 1 of the source and ends as it did
    assert_eq!(after[20..30], [1, 0, 0, 0, 0, 0, 0, 0, 0x11, 0xB2]);
    assert_eq!(new.count, 3);
    assert!(!new.is_free(0));
    assert!(!new.is_free(1));
    assert!(!new.is_free(2));
    assert!(new.is_free(3));
    assert_eq!(stats.resizes, 1);
    // the source is as it was
    assert_eq!(old.get(0, 1), &[0x22]);
    assert_eq!(old.get(1, 1), &[0x11]);
    assert_eq!(old.count, 1);
}
