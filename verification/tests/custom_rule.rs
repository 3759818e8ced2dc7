use rocket_file_cache::priority::{balanced_priority, CustomPriority};
use rocket_file_cache::{
    Cache, CacheInvalidationError, CacheInvalidationSuccess, PriorityFunction, SizedFile,
};
use std::sync::Arc;

fn file_of(size: usize) -> Arc<SizedFile> {
    Arc::new(SizedFile::from_bytes(vec![0u8; size]))
}

#[test]
fn a_cache_follows_the_rule_it_was_made_with() {
    // The larger file stays.
    let by_size = CustomPriority::new(|_access_count: usize, size: usize| size);
    let mut cache = Cache::new_with_priority_function(1_000, by_size);
    cache.try_store("small".to_string(), file_of(400)).unwrap();
    cache.try_store("large".to_string(), file_of(600)).unwrap();
    assert_eq!(
        cache.sorted_priorities(),
        vec![("large".to_string(), 600, 600), ("small".to_string(), 400, 400)]
    );
    assert_eq!(
        cache.try_store("smaller".to_string(), file_of(300)),
        Err(CacheInvalidationError::NewPriorityIsNotHighEnough)
    );
    assert_eq!(
        cache.try_store("medium".to_string(), file_of(400)),
        Ok(CacheInvalidationSuccess::ReplacedFile)
    );
    assert!(cache.get(&"small".to_string()).is_none());
    assert!(cache.get(&"large".to_string()).is_some());
    assert!(cache.get(&"medium".to_string()).is_some());
}

#[test]
fn a_named_function_can_be_the_rule() {
    let rule = CustomPriority::new(balanced_priority);
    assert_eq!(rule.priority(3, 1_000_000), 3_000);
    let mut cache = Cache::new_with_priority_function(5_500_000, rule);
    let x = "x".to_string();
    let y = "y".to_string();
    cache.try_store(x.clone(), file_of(5_000_000)).unwrap();
    cache.increment_access_count(&y);
    cache.increment_access_count(&y);
    assert_eq!(
        cache.try_store(y.clone(), file_of(1_000_000)),
        Err(CacheInvalidationError::NewPriorityIsNotHighEnough)
    );
    cache.increment_access_count(&y);
    assert_eq!(
        cache.try_store(y.clone(), file_of(1_000_000)),
        Ok(CacheInvalidationSuccess::ReplacedFile)
    );
}

#[test]
fn the_default_rule_is_the_balanced_one() {
    let mut cache: Cache = Cache::new(5_500_000);
    cache.try_store("x".to_string(), file_of(5_000_000)).unwrap();
    assert_eq!(cache.sorted_priorities(), vec![("x".to_string(), 2_236, 5_000_000)]);
}

#[test]
fn the_two_rules_have_names_on_the_cache() {
    let mut cache = Cache::new_with_priority_function(1_000, Cache::ACCESS_PRIORITY_FUNCTION);
    let a = "a".to_string();
    cache.increment_access_count(&a);
    cache.increment_access_count(&a);
    cache.try_store(a.clone(), file_of(900)).unwrap();
    assert_eq!(cache.sorted_priorities(), vec![(a, 2, 900)]);

    let mut cache = Cache::new_with_priority_function(1_000, Cache::DEFAULT_PRIORITY_FUNCTION);
    let b = "b".to_string();
    cache.increment_access_count(&b);
    cache.increment_access_count(&b);
    cache.try_store(b.clone(), file_of(900)).unwrap();
    assert_eq!(cache.sorted_priorities(), vec![(b, 60, 900)]);
}

#[test]
fn a_file_can_be_copied() {
    let file = SizedFile::from_bytes(vec![1, 2, 3]);
    let copy = file.clone();
    assert_eq!(copy.bytes(), &vec![1, 2, 3]);
    assert_eq!(copy.size(), 3);
    assert_eq!(file.size(), 3);
}
