use rocket_file_cache::{Cache, CachedFile, SizedFile};
use std::cell::Cell;
use std::sync::Arc;

fn read_ok(size: usize) -> Result<SizedFile, String> {
    Ok(SizedFile::from_bytes(vec![1u8; size]))
}

#[test]
fn a_missing_file_is_not_served_and_not_counted() {
    let mut cache = Cache::new(1_000);
    let path = "nowhere".to_string();
    let found = cache.get_or_cache(path.clone(), |_: &String| -> Result<SizedFile, String> {
        Err("not found".to_string())
    });
    assert!(found.is_none());
    assert_eq!(cache.access_count(&path), 0);
    assert!(cache.get(&path).is_none());
    assert_eq!(cache.size_bytes(), 0);

    // A count that was there before stays as it was.
    cache.increment_access_count(&path);
    let found = cache.get_or_cache(path.clone(), |_: &String| -> Result<SizedFile, u8> { Err(5) });
    assert!(found.is_none());
    assert_eq!(cache.access_count(&path), 1);
}

#[test]
fn a_resident_file_is_served_without_a_read() {
    let mut cache = Cache::new(1_000);
    let path = "a".to_string();
    let reads = Cell::new(0);
    let first = cache.get_or_cache(path.clone(), |asked: &String| {
        assert_eq!(asked, "a");
        reads.set(reads.get() + 1);
        read_ok(10)
    });
    assert!(first.is_some());
    assert_eq!(reads.get(), 1);
    assert_eq!(cache.access_count(&path), 1);
    assert!(cache.get(&path).is_some());

    let second = cache.get_or_cache(path.clone(), |_: &String| {
        reads.set(reads.get() + 1);
        read_ok(10)
    });
    let third = cache.get_or_cache(path.clone(), |_: &String| {
        reads.set(reads.get() + 1);
        read_ok(10)
    });
    assert_eq!(reads.get(), 1);
    assert_eq!(cache.access_count(&path), 3);
    assert!(Arc::ptr_eq(second.unwrap().file(), third.unwrap().file()));
    assert!(Arc::ptr_eq(first.unwrap().file(), cache.get(&path).unwrap().file()));
}

#[test]
fn two_requests_for_a_resident_file_count_twice_and_read_nothing() {
    let mut cache = Cache::new(1_000);
    let path = "a".to_string();
    cache.try_store(path.clone(), Arc::new(SizedFile::from_bytes(vec![3u8; 10]))).unwrap();
    let reads = Cell::new(0);
    for _ in 0..2 {
        let found = cache.get_or_cache(path.clone(), |_: &String| {
            reads.set(reads.get() + 1);
            read_ok(10)
        });
        assert_eq!(found.unwrap().file().bytes(), &vec![3u8; 10]);
    }
    assert_eq!(reads.get(), 0);
    assert_eq!(cache.access_count(&path), 2);
}

#[test]
fn a_file_that_is_not_admitted_is_served_all_the_same() {
    let mut cache = Cache::new(100);
    let path = "big".to_string();
    let found: Option<CachedFile> = cache.get_or_cache(path.clone(), |_: &String| read_ok(101));
    let handle = found.unwrap();
    assert_eq!(handle.path(), "big");
    assert_eq!(handle.file().size(), 101);
    assert_eq!(handle.file().bytes().len(), 101);
    assert!(cache.get(&path).is_none());
    assert_eq!(cache.access_count(&path), 1);
    assert_eq!(cache.size_bytes(), 0);
}

#[test]
fn the_access_is_counted_before_the_file_is_offered() {
    let mut cache = Cache::new(100);
    cache.try_store("old".to_string(), Arc::new(SizedFile::from_bytes(vec![0u8; 100]))).unwrap();
    // The resident file ranks as accessed once: sqrt(100) * 1 = 10. The new
    // file was never asked for before, and comes to sqrt(100) * 1 = 10 too.
    let found = cache.get_or_cache("new".to_string(), |_: &String| read_ok(100));
    assert!(found.is_some());
    assert!(cache.get(&"new".to_string()).is_some());
    assert!(cache.get(&"old".to_string()).is_none());
}

#[test]
fn a_handle_outlives_the_eviction_of_its_file() {
    let mut cache = Cache::new(100);
    let handle = cache.get_or_cache("a".to_string(), |_: &String| read_ok(100)).unwrap();
    assert!(cache.get(&"a".to_string()).is_some());
    let b = "b".to_string();
    cache.increment_access_count(&b);
    let _ = cache.get_or_cache(b.clone(), |_: &String| read_ok(100));
    assert!(cache.get(&"a".to_string()).is_none());
    assert!(cache.get(&b).is_some());
    assert_eq!(handle.file().bytes(), &vec![1u8; 100]);
    assert_eq!(handle.file().size(), 100);
}

#[test]
fn a_handle_shares_the_contents_with_the_cache() {
    let mut cache = Cache::new(100);
    let file = Arc::new(SizedFile::from_bytes(vec![9u8; 50]));
    let path = "a".to_string();
    cache.try_store(path.clone(), file.clone()).unwrap();
    let held = Arc::strong_count(&file);
    assert!(held > 1);
    let handle = cache.get(&path).unwrap();
    assert!(Arc::ptr_eq(handle.file(), &file));
    assert_eq!(Arc::strong_count(&file), held + 1);
    assert_eq!(handle.path(), &path);
    drop(handle);
    assert_eq!(Arc::strong_count(&file), held);

    // Once the file is evicted, the cache holds it no longer.
    let other = "b".to_string();
    for _ in 0..9 {
        cache.increment_access_count(&other);
    }
    cache.try_store(other, Arc::new(SizedFile::from_bytes(vec![0u8; 100]))).unwrap();
    assert!(cache.get(&path).is_none());
    assert_eq!(Arc::strong_count(&file), 1);
}

#[test]
fn serve_read_serves_what_was_read() {
    let mut cache = Cache::new(100);
    let path = "a".to_string();
    let none = cache.serve_read(path.clone(), Err::<SizedFile, i32>(-1));
    assert!(none.is_none());
    assert_eq!(cache.access_count(&path), 0);
    let some = cache.serve_read(path.clone(), read_ok(40));
    assert_eq!(some.unwrap().file().size(), 40);
    assert_eq!(cache.access_count(&path), 1);
    assert_eq!(cache.size_bytes(), 40);
}
