use unitrie_rs::next::iter::collect_exact_size_keys;
use unitrie_rs::next::mutation::MutationGeneration;
use unitrie_rs::next::path_bits::PathBits;
use unitrie_rs::next::storage_iteration_cache::StorageIterationCache;

#[test]
fn collect_exact_size_filters_keys() {
    let keys = vec![vec![1], vec![2, 3], vec![4]];
    assert_eq!(collect_exact_size_keys(&keys, 1).len(), 2);
}

#[test]
fn mutation_generation_wraps() {
    let mut generation = MutationGeneration(u64::MAX);
    assert_eq!(generation.next(), 0);
}

#[test]
fn path_bits_round_trip_from_bits() {
    let bits = vec![1, 0, 1, 1, 0, 1, 0, 0, 1];
    let path = PathBits::from_bits(&bits).expect("valid bits");
    assert_eq!(path.bit_len(), bits.len());
    assert_eq!(path.to_bits_vec(), bits);
}

#[test]
fn path_bits_pack_msb_first_with_zero_padding() {
    let path = PathBits::from_bits(&[1, 0, 1, 1, 0, 0, 1, 0, 1]).expect("valid bits");
    assert_eq!(path.to_packed_bytes(), &[0b1011_0010, 0b1000_0000]);
}

#[test]
fn path_bits_from_key_bytes_reads_msb_first() {
    let path = PathBits::from_key_bytes(&[0b1010_0000]);
    assert_eq!(path.bit_len(), 8);
    assert_eq!(path.to_bits_vec(), vec![1, 0, 1, 0, 0, 0, 0, 0]);
}

#[test]
fn get_requires_matching_generation() {
    let mut cache = StorageIterationCache::new(16);
    let account = vec![0xaa];
    let keys = vec![vec![0x01], vec![0x02]];
    let packed = vec![0xfd, 0x01];
    cache.insert(account.clone(), 3, keys.clone(), packed.clone());

    let hit = cache
        .get_keys(&account, 3)
        .expect("cache entry should be available");
    assert_eq!(hit, keys);
    assert!(cache.get_keys(&account, 4).is_none());
    assert_eq!(
        cache
            .get_packed(&account, 3)
            .expect("packed payload should exist"),
        packed
    );
}

#[test]
fn evicts_oldest_account_when_capacity_is_exceeded() {
    let mut cache = StorageIterationCache::new(2);
    cache.insert(vec![0x01], 0, vec![vec![0xa1]], vec![0x01]);
    cache.insert(vec![0x02], 0, vec![vec![0xa2]], vec![0x02]);
    cache.insert(vec![0x03], 0, vec![vec![0xa3]], vec![0x03]);

    assert!(cache.get_keys(&[0x01], 0).is_none());
    assert!(cache.get_keys(&[0x02], 0).is_some());
    assert!(cache.get_keys(&[0x03], 0).is_some());
}

#[test]
fn updating_an_existing_account_refreshes_eviction_order() {
    let mut cache = StorageIterationCache::new(2);
    cache.insert(vec![0x01], 0, vec![vec![0xa1]], vec![0x01]);
    cache.insert(vec![0x02], 0, vec![vec![0xa2]], vec![0x02]);
    cache.insert(vec![0x01], 1, vec![vec![0xb1]], vec![0x11]);
    cache.insert(vec![0x03], 1, vec![vec![0xc3]], vec![0x03]);

    assert!(cache.get_keys(&[0x02], 1).is_none());
    assert_eq!(
        cache.get_keys(&[0x01], 1).expect("entry should exist"),
        vec![vec![0xb1]]
    );
    assert_eq!(
        cache.get_packed(&[0x01], 1).expect("entry should exist"),
        vec![0x11]
    );
}
