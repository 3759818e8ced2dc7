use rocket_file_cache::{Cache, CacheInvalidationSuccess, SizedFile};
use std::sync::Arc;

fn file_of(size: usize) -> Arc<SizedFile> {
    Arc::new(SizedFile::from_bytes(vec![7u8; size]))
}

#[test]
fn a_counter_starts_at_zero_and_counts_up() {
    let mut cache = Cache::new(100);
    let path = "a".to_string();
    assert_eq!(cache.access_count(&path), 0);
    cache.increment_access_count(&path);
    assert_eq!(cache.access_count(&path), 1);
    cache.increment_access_count(&path);
    cache.increment_access_count(&path);
    assert_eq!(cache.access_count(&path), 3);
    assert_eq!(cache.access_count(&"b".to_string()), 0);
    assert_eq!(cache.size_bytes(), 0);
}

#[test]
fn eviction_does_not_reset_a_counter() {
    let mut cache = Cache::new(1_000);
    let old = "old".to_string();
    let new = "new".to_string();
    cache.increment_access_count(&old);
    cache.increment_access_count(&old);
    cache.try_store(old.clone(), file_of(900)).unwrap();
    for _ in 0..3 {
        cache.increment_access_count(&new);
    }
    assert_eq!(
        cache.try_store(new.clone(), file_of(900)),
        Ok(CacheInvalidationSuccess::ReplacedFile)
    );
    assert!(cache.get(&old).is_none());
    assert_eq!(cache.access_count(&old), 2);
    assert_eq!(cache.access_count(&new), 3);

    // The evicted path comes back with the count it had, and one more.
    cache.increment_access_count(&old);
    cache.increment_access_count(&old);
    assert_eq!(cache.access_count(&old), 4);
    assert_eq!(
        cache.try_store(old.clone(), file_of(900)),
        Ok(CacheInvalidationSuccess::ReplacedFile)
    );
    assert!(cache.get(&old).is_some());
    assert!(cache.get(&new).is_none());
    assert_eq!(cache.access_count(&new), 3);
}

#[test]
fn storing_does_not_count_as_an_access() {
    let mut cache = Cache::new(1_000);
    let path = "a".to_string();
    cache.try_store(path.clone(), file_of(10)).unwrap();
    assert_eq!(cache.access_count(&path), 0);
    let _ = cache.get(&path);
    assert_eq!(cache.access_count(&path), 0);
}
