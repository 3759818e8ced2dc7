use rocket_file_cache::{
    AccessPriority, Cache, CacheInvalidationError, CacheInvalidationSuccess, SizedFile,
};
use std::sync::Arc;

const ONE_MEG: &str = "one_meg.txt";
const FIVE_MEGS: &str = "five_megs.txt";
const TEN_MEGS: &str = "ten_megs.txt";

const MEG1: usize = 1024 * 1024;
const MEG2: usize = MEG1 * 2;
const MEG5: usize = MEG1 * 5;

const DIR_TEST: &str = "test1";
const FILE_MEG1: &str = "meg1.txt";
const FILE_MEG2: &str = "meg2.txt";
const FILE_MEG5: &str = "meg5.txt";

fn file_of(size: usize) -> Arc<SizedFile> {
    Arc::new(SizedFile::from_bytes(vec![0x61u8; size]))
}

fn test_path(dir: &str, name: &str) -> String {
    format!("{}/{}", dir, name)
}

#[test]
fn file_exceeds_size_limit() {
    let mut cache = Cache::new(8000000);
    let path: String = "test/".to_owned() + TEN_MEGS;
    assert_eq!(
        cache.try_store(path.clone(), file_of(10_000_000)),
        Err(CacheInvalidationError::NewPriorityIsNotHighEnough)
    )
}

#[test]
fn file_replaces_other_file() {
    let mut cache = Cache::new(5500000);
    let path_5: String = "test/".to_owned() + FIVE_MEGS;
    let path_1: String = "test/".to_owned() + ONE_MEG;
    assert_eq!(
        cache.try_store(path_5.clone(), file_of(5_000_000)),
        Ok(CacheInvalidationSuccess::InsertedFileIntoAvailableSpace)
    );
    cache.increment_access_count(&path_1);
    assert_eq!(
        cache.try_store(path_1.clone(), file_of(1_000_000)),
        Err(CacheInvalidationError::NewPriorityIsNotHighEnough)
    );
    cache.increment_access_count(&path_1);
    assert_eq!(
        cache.try_store(path_1.clone(), file_of(1_000_000)),
        Err(CacheInvalidationError::NewPriorityIsNotHighEnough)
    );
    cache.increment_access_count(&path_1);
    assert_eq!(
        cache.try_store(path_1.clone(), file_of(1_000_000)),
        Ok(CacheInvalidationSuccess::ReplacedFile)
    );
}

#[test]
fn new_file_replaces_lowest_priority_file() {
    let path_1m = test_path(DIR_TEST, FILE_MEG1);
    let path_2m = test_path(DIR_TEST, FILE_MEG2);
    let path_5m = test_path(DIR_TEST, FILE_MEG5);

    let mut cache = Cache::new(MEG1 * 7 + 2000);

    cache.increment_access_count(&path_5m);
    assert_eq!(
        cache.try_store(path_5m.clone(), file_of(MEG5)),
        Ok(CacheInvalidationSuccess::InsertedFileIntoAvailableSpace)
    );

    cache.increment_access_count(&path_2m);
    assert_eq!(
        cache.try_store(path_2m.clone(), file_of(MEG2)),
        Ok(CacheInvalidationSuccess::InsertedFileIntoAvailableSpace)
    );

    // sqrt(2 MiB) * 1 access is more than sqrt(1 MiB) * 1 access.
    cache.increment_access_count(&path_1m);
    assert_eq!(
        cache.try_store(path_1m.clone(), file_of(MEG1)),
        Err(CacheInvalidationError::NewPriorityIsNotHighEnough)
    );

    // sqrt(2 MiB) * 1 access is less than sqrt(1 MiB) * 2 accesses.
    cache.increment_access_count(&path_1m);
    assert_eq!(
        cache.try_store(path_1m.clone(), file_of(MEG1)),
        Ok(CacheInvalidationSuccess::ReplacedFile)
    );

    if let None = cache.get(&path_1m) {
        assert_eq!(&path_1m, &String::new())
    }

    // The file of 2 MiB had the lowest priority, so it is the one that went.
    if let None = cache.get(&path_5m) {
        assert_eq!(&path_5m, &String::new())
    }

    if let Some(_) = cache.get(&path_2m) {
        assert_eq!(&path_2m, &String::new())
    }
}

#[test]
fn replacement_leaves_the_new_file_resident_and_the_old_one_not() {
    let mut cache = Cache::new(5_500_000);
    let x = "x".to_string();
    let y = "y".to_string();
    assert_eq!(
        cache.try_store(x.clone(), file_of(5_000_000)),
        Ok(CacheInvalidationSuccess::InsertedFileIntoAvailableSpace)
    );
    assert_eq!(cache.size_bytes(), 5_000_000);
    for _ in 0..3 {
        cache.increment_access_count(&y);
    }
    assert_eq!(
        cache.try_store(y.clone(), file_of(1_000_000)),
        Ok(CacheInvalidationSuccess::ReplacedFile)
    );
    assert!(cache.get(&x).is_none());
    assert!(cache.get(&y).is_some());
    assert_eq!(cache.size_bytes(), 1_000_000);
}

#[test]
fn rejection_changes_nothing() {
    let mut cache = Cache::new(5_500_000);
    let x = "x".to_string();
    let y = "y".to_string();
    cache.try_store(x.clone(), file_of(5_000_000)).unwrap();
    cache.increment_access_count(&y);
    let before = cache.sorted_priorities();
    assert_eq!(
        cache.try_store(y.clone(), file_of(1_000_000)),
        Err(CacheInvalidationError::NewPriorityIsNotHighEnough)
    );
    assert_eq!(cache.sorted_priorities(), before);
    assert_eq!(cache.size_bytes(), 5_000_000);
    assert!(cache.get(&x).is_some());
    assert!(cache.get(&y).is_none());
    assert_eq!(cache.access_count(&y), 1);
    assert_eq!(cache.access_count(&x), 0);
}

#[test]
fn resident_bytes_never_exceed_the_limit() {
    let limit = 10_000;
    let mut cache = Cache::new(limit);
    assert_eq!(cache.size_limit(), limit);
    assert_eq!(cache.size_bytes(), 0);
    let sizes = [4_000usize, 3_000, 2_500, 6_000, 1, 9_999, 10_000, 10_001, 0, 5_000];
    for round in 0..4 {
        for (i, size) in sizes.iter().enumerate() {
            let path = format!("file-{}", (i + round) % 7);
            cache.increment_access_count(&path);
            let _ = cache.try_store(path, file_of(*size));
            assert!(cache.size_bytes() <= limit);
        }
    }
}

#[test]
fn a_file_that_fits_exactly_is_inserted() {
    let mut cache = Cache::new(1_000);
    assert_eq!(
        cache.try_store("a".to_string(), file_of(400)),
        Ok(CacheInvalidationSuccess::InsertedFileIntoAvailableSpace)
    );
    assert_eq!(
        cache.try_store("b".to_string(), file_of(600)),
        Ok(CacheInvalidationSuccess::InsertedFileIntoAvailableSpace)
    );
    assert_eq!(cache.size_bytes(), 1_000);
    assert!(cache.get(&"a".to_string()).is_some());
    assert!(cache.get(&"b".to_string()).is_some());
}

#[test]
fn a_cache_without_budget_admits_nothing_but_the_empty_file() {
    let mut cache = Cache::new(0);
    let path = "a".to_string();
    for _ in 0..5 {
        cache.increment_access_count(&path);
    }
    assert_eq!(
        cache.try_store(path.clone(), file_of(1)),
        Err(CacheInvalidationError::NewPriorityIsNotHighEnough)
    );
    assert!(cache.get(&path).is_none());
    assert_eq!(
        cache.try_store(path.clone(), file_of(0)),
        Ok(CacheInvalidationSuccess::InsertedFileIntoAvailableSpace)
    );
    assert!(cache.get(&path).is_some());
    assert_eq!(cache.size_bytes(), 0);
}

#[test]
fn a_file_offered_again_takes_the_place_of_the_old_one() {
    let mut cache = Cache::new_with_priority_function(1_000, AccessPriority);
    let path = "a".to_string();
    cache.try_store(path.clone(), file_of(300)).unwrap();
    cache.try_store("b".to_string(), file_of(200)).unwrap();
    assert_eq!(
        cache.try_store(path.clone(), file_of(500)),
        Ok(CacheInvalidationSuccess::InsertedFileIntoAvailableSpace)
    );
    assert_eq!(cache.size_bytes(), 700);
    assert_eq!(cache.get(&path).unwrap().file().size(), 500);
    // Both rank as accessed once; the file that was offered again is now the
    // one that was admitted last.
    assert_eq!(
        cache.sorted_priorities(),
        vec![("b".to_string(), 1, 200), ("a".to_string(), 1, 500)]
    );
}

#[test]
fn eviction_takes_the_lowest_priorities_first() {
    let mut cache = Cache::new_with_priority_function(1_000, AccessPriority);
    for (path, accesses, size) in [("a", 5, 300), ("b", 1, 300), ("c", 3, 300)] {
        let path = path.to_string();
        for _ in 0..accesses {
            cache.increment_access_count(&path);
        }
        cache.try_store(path, file_of(size)).unwrap();
    }
    assert_eq!(
        cache.sorted_priorities(),
        vec![
            ("a".to_string(), 5, 300),
            ("c".to_string(), 3, 300),
            ("b".to_string(), 1, 300),
        ]
    );
    let d = "d".to_string();
    for _ in 0..4 {
        cache.increment_access_count(&d);
    }
    // 500 bytes are needed: b and c have to go, and are worth 1 + 3 = 4.
    assert_eq!(
        cache.try_store(d.clone(), file_of(600)),
        Ok(CacheInvalidationSuccess::ReplacedFile)
    );
    assert!(cache.get(&"a".to_string()).is_some());
    assert!(cache.get(&"b".to_string()).is_none());
    assert!(cache.get(&"c".to_string()).is_none());
    assert!(cache.get(&d).is_some());
    assert_eq!(cache.size_bytes(), 900);
}

#[test]
fn eviction_stops_where_the_victims_are_worth_more() {
    let mut cache = Cache::new_with_priority_function(1_000, AccessPriority);
    for (path, accesses, size) in [("a", 5, 300), ("b", 1, 300), ("c", 3, 300)] {
        let path = path.to_string();
        for _ in 0..accesses {
            cache.increment_access_count(&path);
        }
        cache.try_store(path, file_of(size)).unwrap();
    }
    let d = "d".to_string();
    for _ in 0..3 {
        cache.increment_access_count(&d);
    }
    // b alone is worth less than d, but b and c together are worth more.
    assert_eq!(
        cache.try_store(d.clone(), file_of(600)),
        Err(CacheInvalidationError::NewPriorityIsNotHighEnough)
    );
    assert!(cache.get(&"b".to_string()).is_some());
    assert!(cache.get(&"c".to_string()).is_some());
    assert_eq!(cache.size_bytes(), 900);
}

#[test]
fn among_equal_priorities_the_latest_admitted_goes_first() {
    let mut cache = Cache::new_with_priority_function(1_000, AccessPriority);
    for path in ["a", "b", "c"] {
        let path = path.to_string();
        cache.increment_access_count(&path);
        cache.try_store(path, file_of(300)).unwrap();
    }
    let d = "d".to_string();
    cache.increment_access_count(&d);
    assert_eq!(
        cache.try_store(d.clone(), file_of(400)),
        Ok(CacheInvalidationSuccess::ReplacedFile)
    );
    assert!(cache.get(&"a".to_string()).is_some());
    assert!(cache.get(&"b".to_string()).is_some());
    assert!(cache.get(&"c".to_string()).is_none());
    assert!(cache.get(&d).is_some());
}

#[test]
fn make_room_tells_the_two_causes_apart() {
    let mut cache = Cache::new_with_priority_function(1_000, AccessPriority);
    assert_eq!(
        cache.make_room_for_new_file(1, usize::MAX),
        Err(CacheInvalidationError::NoMoreFilesToRemove)
    );
    let a = "a".to_string();
    cache.increment_access_count(&a);
    cache.increment_access_count(&a);
    cache.try_store(a.clone(), file_of(300)).unwrap();
    assert_eq!(
        cache.make_room_for_new_file(301, 2),
        Err(CacheInvalidationError::NoMoreFilesToRemove)
    );
    assert_eq!(
        cache.make_room_for_new_file(300, 1),
        Err(CacheInvalidationError::NewPriorityIsNotHighEnough)
    );
    assert!(cache.get(&a).is_some());
    assert_eq!(cache.make_room_for_new_file(0, 0), Ok(()));
    assert!(cache.get(&a).is_some());
    assert_eq!(cache.make_room_for_new_file(300, 2), Ok(()));
    assert!(cache.get(&a).is_none());
    assert_eq!(cache.size_bytes(), 0);
}

#[test]
fn a_resident_file_without_a_count_ranks_as_accessed_once() {
    let mut cache = Cache::new_with_priority_function(100, AccessPriority);
    cache.try_store("a".to_string(), file_of(100)).unwrap();
    assert_eq!(cache.access_count(&"a".to_string()), 0);
    assert_eq!(cache.sorted_priorities(), vec![("a".to_string(), 1, 100)]);
    // A new file that was never asked for has priority 0 and cannot replace it.
    assert_eq!(
        cache.try_store("b".to_string(), file_of(100)),
        Err(CacheInvalidationError::NewPriorityIsNotHighEnough)
    );
    let b = "b".to_string();
    cache.increment_access_count(&b);
    assert_eq!(
        cache.try_store(b.clone(), file_of(100)),
        Ok(CacheInvalidationSuccess::ReplacedFile)
    );
}

#[test]
fn the_order_of_eviction_is_by_priority_and_then_by_admission() {
    let mut cache = Cache::new_with_priority_function(100_000, AccessPriority);
    let accesses = [3usize, 1, 4, 1, 5, 9, 2, 6, 5, 3, 5, 8, 9, 7, 9, 3, 2, 3, 8, 4];
    for (i, count) in accesses.iter().enumerate() {
        let path = format!("file-{:02}", i);
        for _ in 0..*count {
            cache.increment_access_count(&path);
        }
        cache.try_store(path, file_of(10 + i)).unwrap();
    }
    let sorted = cache.sorted_priorities();
    assert_eq!(sorted.len(), accesses.len());
    let mut expected: Vec<(String, usize, usize)> = accesses
        .iter()
        .enumerate()
        .map(|(i, count)| (format!("file-{:02}", i), *count, 10 + i))
        .collect();
    expected.sort_by(|l, r| r.1.cmp(&l.1));
    assert_eq!(sorted, expected);
    for pair in sorted.windows(2) {
        assert!(pair[0].1 >= pair[1].1);
        if pair[0].1 == pair[1].1 {
            assert!(pair[0].0 < pair[1].0);
        }
    }
}

#[test]
fn what_can_be_found_is_what_is_listed() {
    let mut cache = Cache::new(40_000);
    let sizes = [9_000usize, 12_000, 7_000, 15_000, 3_000, 20_000, 1_000, 11_000];
    for round in 0..6 {
        for (i, size) in sizes.iter().enumerate() {
            let path = format!("file-{}", (i * 3 + round) % 11);
            cache.increment_access_count(&path);
            let _ = cache.try_store(path, file_of(*size));
            let listed = cache.sorted_priorities();
            let mut total = 0;
            for j in 0..11 {
                let path = format!("file-{}", j);
                let entry = listed.iter().find(|entry| entry.0 == path);
                match cache.get(&path) {
                    Some(handle) => {
                        let entry = entry.unwrap();
                        assert_eq!(handle.file().size(), entry.2);
                        total += entry.2;
                    }
                    None => assert!(entry.is_none()),
                }
            }
            assert_eq!(total, cache.size_bytes());
            assert!(total <= 40_000);
        }
    }
}
