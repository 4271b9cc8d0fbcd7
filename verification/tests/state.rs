use dirsize::cache::SizeCache;
use dirsize::progress::{try_mark_in_progress, InProgressSet};
use dirsize::records::SizeRecord;

#[test]
fn cache_get_and_insert() {
    let mut cache = SizeCache::new();
    assert!(cache.get("/a").is_none());
    cache.insert("/a".to_string(), SizeRecord { size: 42, file_count: 3 });
    let rec = cache.get("/a").unwrap();
    assert_eq!(rec.size, 42);
    assert_eq!(rec.file_count, 3);
    assert!(cache.get("/b").is_none());
}

#[test]
fn cache_last_insert_wins() {
    let mut cache = SizeCache::new();
    cache.insert("/a".to_string(), SizeRecord { size: 1, file_count: 1 });
    cache.insert("/a".to_string(), SizeRecord { size: 2, file_count: 2 });
    let rec = cache.get("/a").unwrap();
    assert_eq!(rec.size, 2);
    assert_eq!(rec.file_count, 2);
}

#[test]
fn try_mark_grants_only_one_begin() {
    let cache = SizeCache::new();
    let mut in_progress = InProgressSet::new();
    assert!(try_mark_in_progress("/p", &cache, &mut in_progress));
    // while the first computation runs, every further request is refused
    assert!(!try_mark_in_progress("/p", &cache, &mut in_progress));
    assert!(!try_mark_in_progress("/p", &cache, &mut in_progress));
    // an unrelated path is unaffected
    assert!(try_mark_in_progress("/q", &cache, &mut in_progress));
    // once the computation has ended, a new one may begin
    in_progress.end("/p");
    assert!(try_mark_in_progress("/p", &cache, &mut in_progress));
}

#[test]
fn try_mark_refuses_cached_path() {
    let mut cache = SizeCache::new();
    cache.insert("/done".to_string(), SizeRecord { size: 7, file_count: 1 });
    let mut in_progress = InProgressSet::new();
    assert!(!try_mark_in_progress("/done", &cache, &mut in_progress));
}

#[test]
fn in_progress_contains_and_end() {
    let mut in_progress = InProgressSet::new();
    assert!(!in_progress.contains("/p"));
    in_progress.insert("/p".to_string());
    assert!(in_progress.contains("/p"));
    in_progress.end("/p");
    assert!(!in_progress.contains("/p"));
}
