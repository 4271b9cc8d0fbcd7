use dirsize::cache::SizeCache;
use dirsize::compute::{compute_dir_size_recursive, DirTree, SubTree};
use dirsize::records::{SizeRecord, SizeUpdate};

fn leaf(path: &str, file_sizes: Vec<u64>) -> DirTree {
    DirTree { path: path.to_string(), file_sizes, subdirs: Vec::new() }
}

#[test]
fn compute_scenario_bottom_up() {
    // a directory with one file of 10 bytes and one subdirectory holding
    // files of 20 and 30 bytes
    let tree = DirTree {
        path: "/r".to_string(),
        file_sizes: vec![10],
        subdirs: vec![SubTree::Ready(leaf("/r/s", vec![20, 30]))],
    };
    let mut cache = SizeCache::new();
    let mut events: Vec<SizeUpdate> = Vec::new();
    let rec = compute_dir_size_recursive(&tree, &mut cache, &mut events);
    assert_eq!(rec.size, 60);
    assert_eq!(rec.file_count, 3);
    // the subdirectory's event fires before the root's
    assert_eq!(events.len(), 2);
    assert_eq!(events[0].path, "/r/s");
    assert_eq!(events[0].size, 50);
    assert_eq!(events[0].file_count, 2);
    assert_eq!(events[1].path, "/r");
    assert_eq!(events[1].size, 60);
    assert_eq!(events[1].file_count, 3);
    // every resolved directory is cached
    assert_eq!(cache.get("/r").unwrap().size, 60);
    assert_eq!(cache.get("/r/s").unwrap().size, 50);
}

#[test]
fn compute_sums_files_and_subdirectories() {
    let tree = DirTree {
        path: "/top".to_string(),
        file_sizes: vec![1, 2, 3],
        subdirs: vec![
            SubTree::Ready(leaf("/top/a", vec![4])),
            SubTree::Ready(DirTree {
                path: "/top/b".to_string(),
                file_sizes: vec![5],
                subdirs: vec![SubTree::Ready(leaf("/top/b/c", vec![6, 7]))],
            }),
        ],
    };
    let mut cache = SizeCache::new();
    let mut events: Vec<SizeUpdate> = Vec::new();
    let rec = compute_dir_size_recursive(&tree, &mut cache, &mut events);
    assert_eq!(rec.size, 1 + 2 + 3 + 4 + 5 + 6 + 7);
    assert_eq!(rec.file_count, 7);
    // bottom-up: every directory's event comes after its descendants'
    assert_eq!(events.last().unwrap().path, "/top");
    let pos =
        |p: &str| events.iter().position(|e| e.path == p).unwrap();
    assert!(pos("/top/b/c") < pos("/top/b"));
    assert!(pos("/top/a") < pos("/top"));
    assert!(pos("/top/b") < pos("/top"));
}

#[test]
fn compute_is_idempotent_after_caching() {
    let tree = DirTree {
        path: "/r".to_string(),
        file_sizes: vec![10],
        subdirs: vec![SubTree::Ready(leaf("/r/s", vec![20, 30]))],
    };
    let mut cache = SizeCache::new();
    let mut events: Vec<SizeUpdate> = Vec::new();
    let first = compute_dir_size_recursive(&tree, &mut cache, &mut events);
    let events_after_first = events.len();
    let second = compute_dir_size_recursive(&tree, &mut cache, &mut events);
    assert_eq!(first, second);
    // the second call answers from the cache alone and emits nothing
    assert_eq!(events.len(), events_after_first);
}

#[test]
fn compute_answers_from_cache_without_walking() {
    let tree = leaf("/r", vec![10]);
    let mut cache = SizeCache::new();
    cache.insert("/r".to_string(), SizeRecord { size: 99, file_count: 9 });
    let mut events: Vec<SizeUpdate> = Vec::new();
    let rec = compute_dir_size_recursive(&tree, &mut cache, &mut events);
    assert_eq!(rec.size, 99);
    assert_eq!(rec.file_count, 9);
    assert!(events.is_empty());
}

#[test]
fn faulted_branch_contributes_zero_and_reports() {
    let tree = DirTree {
        path: "/r".to_string(),
        file_sizes: vec![7],
        subdirs: vec![
            SubTree::Faulted("/r/bad".to_string()),
            SubTree::Ready(leaf("/r/ok", vec![5])),
        ],
    };
    let mut cache = SizeCache::new();
    let mut events: Vec<SizeUpdate> = Vec::new();
    let rec = compute_dir_size_recursive(&tree, &mut cache, &mut events);
    // the parent's total excludes the faulted subtree, siblings are kept
    assert_eq!(rec.size, 12);
    assert_eq!(rec.file_count, 2);
    // the faulted branch is reported with a zeroed event
    let bad = events.iter().find(|e| e.path == "/r/bad").unwrap();
    assert_eq!(bad.size, 0);
    assert_eq!(bad.file_count, 0);
    // the sibling is unaffected
    let ok = events.iter().find(|e| e.path == "/r/ok").unwrap();
    assert_eq!(ok.size, 5);
    assert_eq!(ok.file_count, 1);
    // the faulted branch is never cached
    assert!(cache.get("/r/bad").is_none());
    assert_eq!(cache.get("/r").unwrap().size, 12);
}

#[test]
fn unreadable_directory_counts_as_empty() {
    let tree = leaf("/locked", Vec::new());
    let mut cache = SizeCache::new();
    let mut events: Vec<SizeUpdate> = Vec::new();
    let rec = compute_dir_size_recursive(&tree, &mut cache, &mut events);
    assert_eq!(rec.size, 0);
    assert_eq!(rec.file_count, 0);
    assert_eq!(events.len(), 1);
    assert_eq!(events[0].path, "/locked");
}

#[test]
fn deep_fault_stays_contained() {
    let tree = DirTree {
        path: "/r".to_string(),
        file_sizes: vec![],
        subdirs: vec![SubTree::Ready(DirTree {
            path: "/r/mid".to_string(),
            file_sizes: vec![3],
            subdirs: vec![SubTree::Faulted("/r/mid/deep".to_string())],
        })],
    };
    let mut cache = SizeCache::new();
    let mut events: Vec<SizeUpdate> = Vec::new();
    let rec = compute_dir_size_recursive(&tree, &mut cache, &mut events);
    assert_eq!(rec.size, 3);
    assert_eq!(rec.file_count, 1);
    let paths: Vec<&str> = events.iter().map(|e| e.path.as_str()).collect();
    assert_eq!(paths, vec!["/r/mid/deep", "/r/mid", "/r"]);
    assert_eq!(events[0].size, 0);
}
