use dirsize::cache::SizeCache;
use dirsize::listing::analyze_directory;
use dirsize::order::sort_nodes;
use dirsize::progress::{try_mark_in_progress, InProgressSet};
use dirsize::records::{EntryMeta, FileNode, SizeRecord};

fn node(name: &str, is_dir: bool, size: Option<u64>) -> FileNode {
    FileNode {
        name: name.to_string(),
        path: format!("/t/{}", name),
        size,
        base_size: size.unwrap_or(0),
        is_dir,
        file_count: if is_dir { 0 } else { 1 },
        children: None,
    }
}

#[test]
fn sort_order_dirs_first_size_desc_name_asc() {
    let nodes = vec![
        node("dirA", true, None),
        node("dirB", true, Some(500)),
        node("fileC", false, Some(300)),
        node("fileZ", false, Some(300)),
    ];
    let sorted = sort_nodes(nodes);
    let names: Vec<&str> = sorted.iter().map(|n| n.name.as_str()).collect();
    assert_eq!(names, vec!["dirB", "dirA", "fileC", "fileZ"]);
}

#[test]
fn sort_ties_ignore_case() {
    // case-sensitive order would put "B" (smaller code point) first
    let nodes = vec![
        node("B", false, Some(10)),
        node("a", false, Some(10)),
    ];
    let sorted = sort_nodes(nodes);
    let names: Vec<&str> = sorted.iter().map(|n| n.name.as_str()).collect();
    assert_eq!(names, vec!["a", "B"]);
}

fn file_entry(name: &str, dir: &str, len: u64) -> EntryMeta {
    EntryMeta {
        name: name.to_string(),
        path: format!("{}/{}", dir, name),
        is_dir: false,
        len,
    }
}

fn dir_entry(name: &str, dir: &str) -> EntryMeta {
    EntryMeta { name: name.to_string(), path: format!("{}/{}", dir, name), is_dir: true, len: 0 }
}

#[test]
fn analyze_directory_lists_without_recursing() {
    let entries = vec![file_entry("f", "/t", 10), dir_entry("d", "/t")];
    let cache = SizeCache::new();
    let mut in_progress = InProgressSet::new();
    let (root, started) = analyze_directory("/t", entries, &cache, &mut in_progress);
    // the listing returns at once: nothing has been computed yet
    assert_eq!(root.path, "/t");
    assert_eq!(root.name, "t");
    assert!(root.is_dir);
    assert_eq!(root.size, None);
    assert_eq!(root.file_count, 0);
    assert_eq!(root.base_size, 10);
    // the caller is told to start the one background computation
    assert!(started);
    let children = root.children.unwrap();
    assert_eq!(children.len(), 2);
    // directories sort before files
    assert_eq!(children[0].name, "d");
    assert!(children[0].is_dir);
    assert_eq!(children[0].size, None);
    assert_eq!(children[0].base_size, 0);
    assert_eq!(children[1].name, "f");
    assert_eq!(children[1].size, Some(10));
    assert_eq!(children[1].base_size, 10);
    assert_eq!(children[1].file_count, 1);
}

#[test]
fn analyze_directory_starts_computation_once() {
    let cache = SizeCache::new();
    let mut in_progress = InProgressSet::new();
    let (_, started1) =
        analyze_directory("/t", vec![file_entry("f", "/t", 1)], &cache, &mut in_progress);
    let (_, started2) =
        analyze_directory("/t", vec![file_entry("f", "/t", 1)], &cache, &mut in_progress);
    assert!(started1);
    assert!(!started2);
}

#[test]
fn analyze_directory_uses_cached_aggregates() {
    let mut cache = SizeCache::new();
    cache.insert("/t/d".to_string(), SizeRecord { size: 123, file_count: 4 });
    cache.insert("/t".to_string(), SizeRecord { size: 133, file_count: 5 });
    let mut in_progress = InProgressSet::new();
    let entries = vec![dir_entry("d", "/t"), file_entry("f", "/t", 10)];
    let (root, started) = analyze_directory("/t", entries, &cache, &mut in_progress);
    // the root is already resolved, so no computation starts
    assert!(!started);
    assert_eq!(root.size, Some(133));
    assert_eq!(root.file_count, 5);
    let children = root.children.unwrap();
    assert_eq!(children[0].name, "d");
    assert_eq!(children[0].size, Some(123));
    assert_eq!(children[0].file_count, 4);
}

#[test]
fn analyze_directory_normalizes_its_key() {
    let cache = SizeCache::new();
    let mut in_progress = InProgressSet::new();
    let (root, started) = analyze_directory("/t//x/", Vec::new(), &cache, &mut in_progress);
    assert_eq!(root.path, "/t/x");
    assert_eq!(root.name, "x");
    assert!(started);
    // a different spelling of the same path maps to the same key
    assert!(!try_mark_in_progress("/t/x", &cache, &mut in_progress));
}

#[test]
fn analyze_directory_empty_listing() {
    let cache = SizeCache::new();
    let mut in_progress = InProgressSet::new();
    let (root, _) = analyze_directory("/empty", Vec::new(), &cache, &mut in_progress);
    assert_eq!(root.base_size, 0);
    assert_eq!(root.children.unwrap().len(), 0);
}

#[test]
fn sort_unknown_size_ties_with_zero() {
    // an unknown directory size sorts as zero, so it ties with a known zero
    // and the tie falls back to the names
    let nodes = vec![
        node("zeta", true, Some(0)),
        node("alpha", true, None),
    ];
    let sorted = sort_nodes(nodes);
    let names: Vec<&str> = sorted.iter().map(|n| n.name.as_str()).collect();
    assert_eq!(names, vec!["alpha", "zeta"]);
}
