use bucket_storage::BucketStorage;
use memmap2::MmapMut;

fn arena(payload: u64, capacity_pow2: u8) -> BucketStorage {
    let len = (1usize << capacity_pow2) * (payload as usize + 8);
    let map = MmapMut::map_anon(len).unwrap();
    BucketStorage::new_with_capacity(map, payload, 1, capacity_pow2, 7, 0)
}

#[test]
fn get_reads_what_get_mut_wrote() {
    let mut storage = arena(4, 2);
    storage.get_mut(2, 4).copy_from_slice(&[1, 2, 3, 4]);
    assert_eq!(storage.get(2, 4), &[1, 2, 3, 4]);
    assert_eq!(storage.get(2, 2), &[1, 2]);
    assert_eq!(storage.get(1, 4), &[0, 0, 0, 0]);
    assert_eq!(storage.get(3, 4), &[0, 0, 0, 0]);
}

#[test]
fn payload_follows_the_header() {
    let mut storage = arena(4, 2);
    storage.get_mut(1, 3).copy_from_slice(&[9, 8, 7]);
    let mut expected = vec![0u8; 48];
    expected[20] = 9;
    expected[21] = 8;
    expected[22] = 7;
    assert_eq!(storage.mmap.to_vec(), expected);
}

#[test]
fn writing_a_payload_keeps_the_cell_state() {
    let mut storage = arena(4, 2);
    assert!(storage.allocate(1, false).is_ok());
    storage.get_mut(1, 4).copy_from_slice(&[255, 255, 255, 255]);
    storage.get_mut(2, 4).copy_from_slice(&[255, 255, 255, 255]);
    assert!(!storage.is_free(1));
    assert!(storage.is_free(0));
    assert!(storage.is_free(2));
    assert!(storage.is_free(3));
    assert_eq!(storage.count, 1);
}

#[test]
fn get_of_no_bytes_is_empty() {
    let mut storage = arena(4, 1);
    assert_eq!(storage.get(1, 0).len(), 0);
    assert_eq!(storage.get_mut(1, 0).len(), 0);
}

#[test]
fn cell_slice_spans_its_elements() {
    let mut storage = arena(12, 1);
    {
        let view = storage.get_mut_cell_slice(1, 4, 3);
        assert_eq!(view.len(), 12);
        for (k, byte) in view.iter_mut().enumerate() {
            *byte = k as u8 + 1;
        }
    }
    assert_eq!(storage.get_cell_slice(1, 4, 2), &[1, 2, 3, 4, 5, 6, 7, 8]);
    assert_eq!(storage.get_cell_slice(1, 4, 3).len(), 12);
    assert_eq!(storage.get_cell_slice(1, 0, 1000).len(), 0);
    assert_eq!(storage.get_cell_slice(1, 12, 0).len(), 0);
    assert_eq!(storage.get_cell_slice(0, 4, 3), &[0u8; 12]);
}

#[test]
fn empty_cell_slice_is_empty() {
    assert_eq!(BucketStorage::get_empty_cell_slice::<u64>().len(), 0);
    assert_eq!(BucketStorage::get_empty_cell_slice::<(u8, u32)>().len(), 0);
}

#[test]
fn free_keeps_the_payload() {
    let mut storage = arena(2, 1);
    assert!(storage.allocate(0, false).is_ok());
    storage.get_mut(0, 2).copy_from_slice(&[5, 6]);
    storage.free(0);
    assert_eq!(storage.get(0, 2), &[5, 6]);
    assert!(storage.allocate(0, false).is_ok());
    assert_eq!(storage.get(0, 2), &[5, 6]);
}
