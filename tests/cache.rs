use distributor::distributor_cache_db::{FileDistributorCache, QueryMetaError};

fn unreadable() -> Result<u128, QueryMetaError> {
    Err(QueryMetaError::IoError("no such file".to_string()))
}

#[test]
fn a_path_without_record_is_outdated() {
    let cache = FileDistributorCache::empty("cache.db");
    assert!(cache.is_file_outdated("a.txt", &Ok(0)));
    assert!(cache.is_file_outdated("a.txt", &Ok(u128::MAX)));
    assert!(cache.is_file_outdated("a.txt", &unreadable()));
    assert!(cache.is_empty());
    assert_eq!(cache.get_file_record("a.txt"), None);
}

#[test]
fn modification_after_the_record_is_outdated_until_recorded_again() {
    let mut cache = FileDistributorCache::empty("cache.db");
    cache.update_file_record("a.txt", &Ok(1000));
    assert_eq!(cache.get_file_record("a.txt"), Some(1000));
    assert!(!cache.is_file_outdated("a.txt", &Ok(1000)));
    assert!(!cache.is_file_outdated("a.txt", &Ok(999)));
    assert!(cache.is_file_outdated("a.txt", &Ok(1001)));
    cache.update_file_record("a.txt", &Ok(1001));
    assert!(!cache.is_file_outdated("a.txt", &Ok(1001)));
    assert!(cache.is_file_outdated("a.txt", &Ok(1002)));
}

#[test]
fn unreadable_times_are_stale_and_not_recorded() {
    let mut cache = FileDistributorCache::empty("cache.db");
    cache.update_file_record("a.txt", &Ok(5));
    assert!(cache.is_file_outdated("a.txt", &unreadable()));
    cache.update_file_record("b.txt", &unreadable());
    assert_eq!(cache.get_file_record("b.txt"), None);
    assert_eq!(cache.get_file_record("a.txt"), Some(5));
}

#[test]
fn clearing_forgets_every_record() {
    let mut cache = FileDistributorCache::empty("cache.db");
    cache.update_file_record("a.txt", &Ok(5));
    assert!(!cache.is_empty());
    cache.clear_records();
    assert!(cache.is_empty());
    assert!(cache.is_file_outdated("a.txt", &Ok(5)));
    assert_eq!(cache.loaded_path(), "cache.db");
}

#[test]
fn saved_bytes_load_back_to_the_same_records() {
    let mut cache = FileDistributorCache::empty(".distributor/distributor_cache.db");
    cache.update_file_record("resource/a.txt", &Ok(1_700_000_000_123));
    cache.update_file_record("resource/sub/b.txt", &Ok(0));
    let bytes = cache.to_bytes().unwrap();
    let loaded = FileDistributorCache::from_bytes(&bytes, "elsewhere.db");
    assert_eq!(loaded.get_file_record("resource/a.txt"), Some(1_700_000_000_123));
    assert_eq!(loaded.get_file_record("resource/sub/b.txt"), Some(0));
    assert_eq!(loaded.get_file_record("resource/c.txt"), None);
    assert_eq!(loaded.loaded_path(), "elsewhere.db");
}

#[test]
fn saved_bytes_follow_the_bincode_layout() {
    let mut cache = FileDistributorCache::empty("p");
    cache.update_file_record("a", &Ok(42));
    let bytes = cache.to_bytes().unwrap();
    let mut expected: Vec<u8> = Vec::new();
    expected.extend_from_slice(&1u64.to_le_bytes());
    expected.extend_from_slice(&1u64.to_le_bytes());
    expected.extend_from_slice(b"a");
    expected.extend_from_slice(&2u64.to_le_bytes());
    expected.extend_from_slice(b"42");
    expected.extend_from_slice(&1u64.to_le_bytes());
    expected.extend_from_slice(b"p");
    assert_eq!(bytes, expected);
}

#[test]
fn corrupt_bytes_load_as_an_empty_cache() {
    let loaded = FileDistributorCache::from_bytes(&[1, 2, 3], "c.db");
    assert!(loaded.is_empty());
    assert_eq!(loaded.loaded_path(), "c.db");
}

#[test]
fn a_time_that_is_not_a_number_empties_the_cache() {
    let mut good = FileDistributorCache::empty("c.db");
    good.update_file_record("a", &Ok(7));
    let mut bytes = good.to_bytes().unwrap();
    // The time "7" is the byte after the path "a"'s length and text.
    let at = 8 + 8 + 1 + 8;
    assert_eq!(bytes[at], b'7');
    bytes[at] = b'x';
    assert!(FileDistributorCache::from_bytes(&bytes, "c.db").is_empty());
}

#[test]
fn a_later_record_for_a_path_wins_when_loading() {
    let mut bytes: Vec<u8> = Vec::new();
    bytes.extend_from_slice(&2u64.to_le_bytes());
    for time in ["+10", "20"] {
        bytes.extend_from_slice(&1u64.to_le_bytes());
        bytes.extend_from_slice(b"a");
        bytes.extend_from_slice(&(time.len() as u64).to_le_bytes());
        bytes.extend_from_slice(time.as_bytes());
    }
    bytes.extend_from_slice(&0u64.to_le_bytes());
    let loaded = FileDistributorCache::from_bytes(&bytes, "c.db");
    assert_eq!(loaded.get_file_record("a"), Some(20));
}
