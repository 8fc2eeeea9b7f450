use gpusort::engine::{allocate_sort_storage, sort, sort_pairs, sort_scan, sort_upsweep, SortError};
use gpusort::tiling::{block_count, group_count};

fn pseudo_random_keys(n: usize, seed: u64) -> Vec<u32> {
    let mut state = seed;
    let mut keys = Vec::with_capacity(n);
    for _ in 0..n {
        state = state.wrapping_mul(6364136223846793005).wrapping_add(1442695040888963407);
        keys.push((state >> 32) as u32);
    }
    keys
}

#[test]
fn test_sort_downsweep() {
    let n = 1024u32;
    let mut storage = allocate_sort_storage(n);
    let keys: Vec<u32> = (0..n).rev().collect();
    assert_eq!(sort_upsweep(&mut storage, &keys, 0u32), Ok(()));
    assert_eq!(storage.params(), &vec![1024u32, 8, 0]);
    let histograms = storage.histograms();
    assert_eq!(histograms.len(), 1);
    assert_eq!(histograms[0], [64u32; 16]);
}

#[test]
fn tiling_counts() {
    assert_eq!(block_count(0), 0);
    assert_eq!(block_count(1), 1);
    assert_eq!(block_count(8), 1);
    assert_eq!(block_count(9), 2);
    assert_eq!(group_count(0), 0);
    assert_eq!(group_count(1), 1);
    assert_eq!(group_count(2048), 1);
    assert_eq!(group_count(2049), 2);
    assert_eq!(group_count(u32::MAX), 2097152);
}

#[test]
fn allocation_sizes_histograms_by_groups() {
    let storage = allocate_sort_storage(5000);
    assert_eq!(storage.capacity(), 5000);
    assert_eq!(storage.params(), &vec![0u32, 0, 0]);
    assert_eq!(storage.histograms().len(), 3);
    assert!(storage.histograms().iter().all(|h| *h == [0u32; 16]));
}

#[test]
fn concrete_keys_and_payload() {
    let mut storage = allocate_sort_storage(6);
    let keys = vec![5u32, 3, 5, 1, 4, 1];
    assert_eq!(sort(&mut storage, &keys), Ok(vec![1u32, 1, 3, 4, 5, 5]));
    let names = ["a", "b", "c", "d", "e", "f"];
    let payload: Vec<u32> = (0..6).collect();
    let (out_keys, out_payload) = sort_pairs(&mut storage, &keys, &payload).unwrap();
    assert_eq!(out_keys, vec![1u32, 1, 3, 4, 5, 5]);
    let order: Vec<&str> = out_payload.iter().map(|&i| names[i as usize]).collect();
    assert_eq!(order, vec!["d", "f", "b", "e", "a", "c"]);
}

#[test]
fn capacity_boundary() {
    let mut storage = allocate_sort_storage(4);
    assert_eq!(sort(&mut storage, &vec![4u32, 3, 2, 1]), Ok(vec![1u32, 2, 3, 4]));
    assert_eq!(sort(&mut storage, &vec![5u32, 4, 3, 2, 1]), Err(SortError::CapacityExceeded));
    let keys = vec![1u32; 5];
    assert_eq!(sort_upsweep(&mut storage, &keys, 0), Err(SortError::CapacityExceeded));
}

#[test]
fn shape_mismatch() {
    let mut storage = allocate_sort_storage(8);
    assert_eq!(
        sort_pairs(&mut storage, &vec![1u32, 2], &vec![1u32]),
        Err(SortError::ShapeMismatch)
    );
}

#[test]
fn empty_sort_is_a_no_op() {
    let mut storage = allocate_sort_storage(0);
    assert_eq!(sort(&mut storage, &vec![]), Ok(vec![]));
    assert_eq!(sort_pairs(&mut storage, &vec![], &vec![]), Ok((vec![], vec![])));
}

#[test]
fn sorted_input_unchanged() {
    for n in [0usize, 1, 7, 5000] {
        let mut keys = pseudo_random_keys(n, 11);
        keys.sort();
        let mut storage = allocate_sort_storage(n as u32);
        assert_eq!(sort(&mut storage, &keys), Ok(keys.clone()));
    }
}

#[test]
fn sorts_random_keys_across_groups() {
    let keys = pseudo_random_keys(5000, 7);
    let mut storage = allocate_sort_storage(6000);
    let mut expected = keys.clone();
    expected.sort();
    assert_eq!(sort(&mut storage, &keys), Ok(expected));
}

#[test]
fn sorts_extreme_keys() {
    let keys = vec![u32::MAX, 0, 0x8000_0000, 0xFFFF_0000, 1, u32::MAX, 0x0000_FFFF];
    let mut storage = allocate_sort_storage(16);
    assert_eq!(
        sort(&mut storage, &keys),
        Ok(vec![0u32, 1, 0x0000_FFFF, 0x8000_0000, 0xFFFF_0000, u32::MAX, u32::MAX])
    );
}

#[test]
fn equal_keys_keep_payload_order() {
    let keys: Vec<u32> = (0..3000u32).map(|i| (i * 7919) % 5).collect();
    let payload: Vec<u32> = (0..3000u32).collect();
    let mut storage = allocate_sort_storage(3000);
    let (out_keys, out_payload) = sort_pairs(&mut storage, &keys, &payload).unwrap();
    let mut expected: Vec<(u32, u32)> = keys.iter().cloned().zip(payload.iter().cloned()).collect();
    expected.sort_by_key(|p| p.0);
    let got: Vec<(u32, u32)> = out_keys.into_iter().zip(out_payload.into_iter()).collect();
    assert_eq!(got, expected);
}

#[test]
fn histogram_counts_sum_to_key_count() {
    let keys = pseudo_random_keys(4100, 3);
    let mut storage = allocate_sort_storage(10000);
    for pass in 0..8u32 {
        assert_eq!(sort_upsweep(&mut storage, &keys, pass), Ok(()));
        assert_eq!(storage.params(), &vec![4100u32, 8, 4 * pass]);
        let total: u64 = storage.histograms().iter().flat_map(|h| h.iter()).map(|&c| c as u64).sum();
        assert_eq!(total, 4100);
        let first: u32 = storage.histograms()[0].iter().sum();
        let third: u32 = storage.histograms()[2].iter().sum();
        assert_eq!(first, 2048);
        assert_eq!(third, 4);
        assert!(storage.histograms()[3..].iter().all(|h| *h == [0u32; 16]));
    }
}

#[test]
fn histogram_uses_digit_of_pass() {
    let keys = vec![0x0000_0012u32, 0x0000_0013, 0x0000_00f0];
    let mut storage = allocate_sort_storage(3);
    assert_eq!(sort_upsweep(&mut storage, &keys, 1), Ok(()));
    let mut expected = [0u32; 16];
    expected[1] = 2;
    expected[0xf] = 1;
    assert_eq!(storage.histograms()[0], expected);
}

#[test]
fn scan_gives_digit_major_offsets() {
    let keys = vec![5u32, 3, 5, 1, 4, 1];
    let mut storage = allocate_sort_storage(6);
    assert_eq!(sort_upsweep(&mut storage, &keys, 0), Ok(()));
    sort_scan(&mut storage);
    let mut expected = [6u32; 16];
    expected[0] = 0;
    expected[1] = 0;
    expected[2] = 2;
    expected[3] = 2;
    expected[4] = 3;
    expected[5] = 4;
    assert_eq!(storage.histograms()[0], expected);
    assert_eq!(storage.params(), &vec![6u32, 8, 0]);
}

#[test]
fn scan_orders_groups_within_a_digit() {
    let mut keys = vec![1u32; 2048];
    keys.push(0);
    keys.push(1);
    let mut storage = allocate_sort_storage(4096);
    assert_eq!(sort_upsweep(&mut storage, &keys, 0), Ok(()));
    sort_scan(&mut storage);
    let h = storage.histograms();
    assert_eq!(h.len(), 2);
    assert_eq!((h[0][0], h[1][0]), (0, 0));
    assert_eq!((h[0][1], h[1][1]), (1, 2049));
    assert_eq!((h[0][2], h[1][2]), (2050, 2050));
    assert_eq!((h[0][15], h[1][15]), (2050, 2050));
}
