use disk_scanner::cache::DiskScanner;
use disk_scanner::errors::{ErrorAccountant, ErrorKind, ScanError};
use disk_scanner::identity::{revisits, Identity, IdentityTracker};
use disk_scanner::node::FileNode;
use disk_scanner::scan::{build_node, scan_tree, Entry, Probe};
use disk_scanner::select::{Listed, ScanPolicy};

fn id(inode: u64) -> Identity {
    Identity { device: 7, inode }
}

fn file(parent: &str, name: &str, len: u64, inode: u64) -> Entry {
    Entry {
        name: name.to_string(),
        path: format!("{}/{}", parent, name),
        probe: Probe::File { len, id: id(inode) },
    }
}

fn dir(parent: &str, name: &str, inode: u64, entries: Vec<Entry>) -> Entry {
    Entry {
        name: name.to_string(),
        path: format!("{}/{}", parent, name),
        probe: Probe::Dir { id: id(inode), entries },
    }
}

fn root(path: &str, inode: u64, entries: Vec<Entry>) -> Entry {
    Entry {
        name: path.rsplit('/').next().unwrap().to_string(),
        path: path.to_string(),
        probe: Probe::Dir { id: id(inode), entries },
    }
}

fn scan(entry: &Entry, cap: usize) -> FileNode {
    let mut errors = ErrorAccountant::new();
    scan_tree(entry, cap, &mut errors).unwrap()
}

fn child<'a>(node: &'a FileNode, name: &str) -> &'a FileNode {
    node.children.iter().find(|c| c.name == name).unwrap()
}

#[test]
fn hard_links_in_one_directory_count_once() {
    let r = root("/r", 1, vec![file("/r", "a", 2048, 50), file("/r", "b", 2048, 50)]);
    let node = scan(&r, 100);
    assert_eq!(node.size, 2048);
    assert_eq!(node.children.len(), 2);
    assert_eq!(node.children_count, 2);
    assert_eq!(child(&node, "a").size, 2048);
    assert_eq!(child(&node, "b").size, 0);
}

#[test]
fn hard_links_across_subdirectories_count_once_per_scan() {
    let x = dir("/r", "x", 2, vec![file("/r/x", "f", 700, 60)]);
    let y = dir("/r", "y", 3, vec![file("/r/y", "g", 700, 60)]);
    let r = root("/r", 1, vec![x, y]);
    let node = scan(&r, 100);
    assert_eq!(node.size, 700);
    assert_eq!(child(&node, "x").size, 700);
    assert_eq!(child(&node, "y").size, 0);
    let y_alone = root("/r/y", 3, vec![file("/r/y", "g", 700, 60)]);
    assert_eq!(scan(&y_alone, 100).size, 700);
}

#[test]
fn directory_reached_twice_is_not_entered_again() {
    let inner = dir("/r", "loop", 1, vec![file("/r/loop", "f", 10, 61)]);
    let r = root("/r", 1, vec![file("/r", "g", 5, 62), inner]);
    let node = scan(&r, 100);
    assert_eq!(node.size, 5);
    let looped = child(&node, "loop");
    assert_eq!(looped.size, 0);
    assert!(looped.children.is_empty());
}

#[test]
fn pruning_keeps_sizes() {
    let r = root(
        "/r",
        1,
        vec![dir("/r", "d", 2, vec![dir("/r/d", "e", 3, vec![file("/r/d/e", "f", 42, 4)])])],
    );
    let node = scan(&r, 100);
    for depth in 0..4u32 {
        let view = node.limit_depth(depth);
        assert_eq!(view.size, 42);
        assert_eq!(view.size, node.size);
        assert_eq!(view.children_count, node.children_count);
    }
    let shallow = node.limit_depth(0);
    assert!(shallow.children.is_empty());
    assert!(!shallow.show);
    let one = node.limit_depth(1);
    assert_eq!(one.children.len(), 1);
    assert!(one.children[0].children.is_empty());
    assert_eq!(one.children[0].children_count, 1);
    assert_eq!(one.children[0].size, 42);
}

fn same_measures(a: &FileNode, b: &FileNode) -> bool {
    a.size == b.size
        && a.children_count == b.children_count
        && a.name == b.name
        && a.children.len() == b.children.len()
        && a.children.iter().zip(b.children.iter()).all(|(x, y)| same_measures(x, y))
}

#[test]
fn building_twice_gives_the_same_tree() {
    let make = || {
        root(
            "/r",
            1,
            vec![
                file("/r", "a", 3, 2),
                dir("/r", "d", 3, vec![file("/r/d", "b", 9, 4), file("/r/d", "c", 9, 5)]),
                file("/r", "e", 3, 6),
            ],
        )
    };
    let mut scanner = DiskScanner::new();
    scanner.build_cache(&make()).unwrap();
    let first = scanner.get_result_with_depth("/r", 10).unwrap();
    scanner.build_cache(&make()).unwrap();
    let second = scanner.get_result_with_depth("/r", 10).unwrap();
    assert!(same_measures(&first, &second));
    assert_eq!(first.size, 24);
}

#[test]
fn missing_path_is_not_cached_then_not_found() {
    let mut scanner = DiskScanner::new();
    let path = "/definitely/not/a/path";
    assert_eq!(scanner.get_result_with_depth(path, 1).unwrap_err(), ScanError::NotCached);
    let gone = Entry {
        name: "path".to_string(),
        path: path.to_string(),
        probe: Probe::Failed { error: ErrorKind::NotFound },
    };
    assert_eq!(scanner.build_cache(&gone).unwrap_err(), ScanError::NotFound);
    assert_eq!(scanner.get_result_with_depth(path, 1).unwrap_err(), ScanError::NotCached);
}

#[test]
fn unreadable_subdirectory_does_not_abort_scan() {
    let a = dir("/r", "a", 2, vec![file("/r/a", "f", 100, 3)]);
    let b = Entry {
        name: "b".to_string(),
        path: "/r/b".to_string(),
        probe: Probe::Unreadable { id: id(4), error: ErrorKind::PermissionDenied },
    };
    let r = root("/r", 1, vec![a, b]);
    let mut scanner = DiskScanner::new();
    assert!(scanner.build_cache(&r).is_ok());
    let node = scanner.get_result_with_depth("/r", 5).unwrap();
    assert_eq!(node.size, 100);
    let b_node = child(&node, "b");
    assert_eq!(b_node.size, 0);
    assert!(b_node.children.is_empty());
    assert!(b_node.is_directory);
    assert_eq!(scanner.error_stats(), (1, 0));
    scanner.reset_error_stats();
    assert_eq!(scanner.error_stats(), (0, 0));
}

#[test]
fn vanished_entry_is_counted_and_kept_empty() {
    let gone = Entry {
        name: "gone".to_string(),
        path: "/r/gone".to_string(),
        probe: Probe::Failed { error: ErrorKind::NotFound },
    };
    let r = root("/r", 1, vec![file("/r", "a", 8, 2), gone]);
    let mut errors = ErrorAccountant::new();
    let node = scan_tree(&r, 100, &mut errors).unwrap();
    assert_eq!(node.children.len(), 2);
    assert_eq!(node.children_count, 2);
    assert_eq!(node.size, 8);
    let g = child(&node, "gone");
    assert_eq!(g.size, 0);
    assert!(g.children.is_empty());
    assert_eq!(g.path, "/r/gone");
    assert_eq!(errors.stats(), (0, 1));
}

#[test]
fn cap_counts_vanished_entries() {
    let gone = Entry {
        name: "gone".to_string(),
        path: "/r/gone".to_string(),
        probe: Probe::Failed { error: ErrorKind::NotFound },
    };
    let r = root("/r", 1, vec![gone, file("/r", "a", 8, 2)]);
    let node = scan(&r, 1);
    assert_eq!(node.children.len(), 1);
    assert_eq!(node.children[0].name, "gone");
    assert_eq!(node.size, 0);
}

#[test]
fn child_paths_join_parent_and_name() {
    let mut d = dir("/r", "d", 2, vec![file("/elsewhere", "f", 3, 3)]);
    d.path = "/somewhere/else".to_string();
    let r = root("/r/", 1, vec![d]);
    let node = scan(&r, 10);
    assert_eq!(node.path, "/r/");
    let d_node = child(&node, "d");
    assert_eq!(d_node.path, "/r/d");
    assert_eq!(d_node.children[0].path, "/r/d/f");
}

#[test]
fn retry_after_build_serves_the_view() {
    let mut scanner = DiskScanner::new();
    let r = root("/r", 1, vec![dir("/r", "d", 2, vec![file("/r/d", "f", 3, 3)])]);
    let view = scanner.get_result_after_build(&r, "/r", 0).unwrap();
    assert_eq!(view.size, 3);
    assert_eq!(view.children.len(), 1);
    assert!(view.children[0].children.is_empty());
    let gone = Entry {
        name: "x".to_string(),
        path: "/x".to_string(),
        probe: Probe::Failed { error: ErrorKind::NotFound },
    };
    assert_eq!(scanner.get_result_after_build(&gone, "/x", 0).unwrap_err(), ScanError::NotFound);
    assert!(scanner.get_result_with_depth("/r/d", 0).is_ok());
}

#[test]
fn revisited_ancestor_is_detected() {
    let chain = vec![id(1), id(2)];
    assert!(revisits(&chain, id(2)));
    assert!(!revisits(&chain, id(3)));
}

#[test]
fn entry_cap_limits_children() {
    let entries: Vec<Entry> = (0..5u64).map(|i| file("/r", &format!("f{}", i), 10, 10 + i)).collect();
    let r = root("/r", 1, entries);
    let node = scan(&r, 3);
    assert_eq!(node.children.len(), 3);
    assert_eq!(node.children_count, 3);
    assert_eq!(node.size, 30);
    let mut scanner = DiskScanner::with_entry_cap(2);
    assert_eq!(scanner.entry_cap(), 2);
    let entries: Vec<Entry> = (0..5u64).map(|i| file("/r", &format!("f{}", i), 10, 10 + i)).collect();
    scanner.build_cache(&root("/r", 1, entries)).unwrap();
    assert_eq!(scanner.get_result_with_depth("/r", 0).unwrap().children.len(), 2);
}

#[test]
fn children_sorted_by_size_ties_by_lowercase_name() {
    let r = root(
        "/r",
        1,
        vec![
            file("/r", "small", 1, 2),
            file("/r", "mid2", 7, 5),
            file("/r", "big", 50, 3),
            file("/r", "Mid1", 7, 4),
            file("/r", "b", 1, 6),
            file("/r", "A", 1, 7),
        ],
    );
    let node = scan(&r, 100);
    let order: Vec<&str> = node.children.iter().map(|c| c.name.as_str()).collect();
    assert_eq!(order, vec!["big", "Mid1", "mid2", "A", "b", "small"]);
    assert_eq!(node.size, 67);
}

#[test]
fn root_errors_are_reported() {
    let mut errors = ErrorAccountant::new();
    let denied = Entry {
        name: "r".to_string(),
        path: "/r".to_string(),
        probe: Probe::Unreadable { id: id(1), error: ErrorKind::PermissionDenied },
    };
    assert_eq!(scan_tree(&denied, 10, &mut errors).unwrap_err(), ScanError::PermissionDenied);
    let other = Entry {
        name: "r".to_string(),
        path: "/r".to_string(),
        probe: Probe::Failed { error: ErrorKind::Other },
    };
    assert_eq!(scan_tree(&other, 10, &mut errors).unwrap_err(), ScanError::Other);
    assert_eq!(errors.stats(), (0, 0));
    assert_eq!(ScanError::NotCached.message(), "Path not found in cache");
}

#[test]
fn build_node_marks_identities() {
    let mut tracker = IdentityTracker::new();
    let mut errors = ErrorAccountant::new();
    let f = file("/r", "a", 12, 2);
    assert_eq!(build_node(&f, &f.path, 10, &mut tracker, &mut errors).size, 12);
    assert_eq!(build_node(&f, &f.path, 10, &mut tracker, &mut errors).size, 0);
    assert!(!tracker.mark_seen(id(2)));
    assert!(tracker.mark_seen(Identity { device: 8, inode: 2 }));
}

#[test]
fn accountant_counts_by_kind() {
    let mut errors = ErrorAccountant::new();
    assert_eq!(errors.classify_and_record(ErrorKind::PermissionDenied), ErrorKind::PermissionDenied);
    errors.classify_and_record(ErrorKind::PermissionDenied);
    errors.classify_and_record(ErrorKind::NotFound);
    errors.classify_and_record(ErrorKind::Other);
    assert_eq!(errors.stats(), (2, 1));
    errors.reset();
    assert_eq!(errors.stats(), (0, 0));
}

#[test]
fn most_specific_cached_root_answers() {
    let mut scanner = DiskScanner::new();
    scanner
        .build_cache(&root("/r", 1, vec![dir("/r", "sub", 2, vec![file("/r/sub", "old", 1, 3)])]))
        .unwrap();
    scanner
        .build_cache(&root("/r/sub", 2, vec![file("/r/sub", "new", 4, 5)]))
        .unwrap();
    let sub = scanner.get_result_with_depth("/r/sub", 0).unwrap();
    assert_eq!(sub.size, 4);
    assert_eq!(sub.children[0].name, "new");
    let whole = scanner.get_result_with_depth("/r", 1).unwrap();
    assert_eq!(whole.size, 1);
    let leaf = scanner.get_result_with_depth("/r/sub/new", 0).unwrap();
    assert_eq!(leaf.size, 4);
    assert_eq!(leaf.path, "/r/sub/new");
    assert_eq!(scanner.get_result_with_depth("/r/su", 0).unwrap_err(), ScanError::NotCached);
    assert_eq!(scanner.get_result_with_depth("/r/other", 0).unwrap_err(), ScanError::NotCached);
    assert_eq!(scanner.get_result_with_depth("/r//sub/", 0).unwrap().size, 1);
}

fn listed(names: &[&str]) -> Vec<Listed> {
    names
        .iter()
        .map(|n| Listed { name: n.to_string(), path: format!("/r/{}", n) })
        .collect()
}

#[test]
fn selection_sorts_case_insensitively() {
    let policy = ScanPolicy::new(false, vec![]);
    let listing = listed(&["b", "C", "a", "B"]);
    assert_eq!(policy.select(&listing, 10), vec![2, 0, 3, 1]);
    let listing = listed(&["Beta", "alpha"]);
    assert_eq!(policy.select(&listing, 10), vec![1, 0]);
}

#[test]
fn selection_filters_and_caps() {
    let policy = ScanPolicy::new(true, vec!["/r/proc".to_string()]);
    let listing = listed(&["z", ".hidden", "proc", "y", "x"]);
    assert!(policy.is_left_out(&listing[1]));
    assert!(policy.is_left_out(&listing[2]));
    assert!(!policy.is_left_out(&listing[0]));
    assert_eq!(policy.select(&listing, 2), vec![4, 3]);
    assert_eq!(policy.select(&listing, 0), Vec::<usize>::new());
    let open = ScanPolicy::new(false, vec![]);
    assert_eq!(open.select(&listing, 10), vec![1, 2, 4, 3, 0]);
}

#[test]
fn selection_by_given_keys() {
    let policy = ScanPolicy::new(false, vec![]);
    let listing = listed(&["one", "two", "three", "four"]);
    let keys: Vec<String> = vec!["b", "a", "b", "c"].into_iter().map(String::from).collect();
    assert_eq!(policy.select_with_keys(&listing, &keys, 10), vec![1, 0, 2, 3]);
    assert_eq!(policy.select_with_keys(&listing, &keys, 1), vec![1]);
    let hidden = ScanPolicy::new(false, vec!["/r/two".to_string()]);
    assert_eq!(hidden.select_with_keys(&listing, &keys, 2), vec![0, 2]);
}

#[test]
fn view_of_root_slash_carries_requested_path() {
    let mut scanner = DiskScanner::new();
    let r = Entry {
        name: "/".to_string(),
        path: "/".to_string(),
        probe: Probe::Dir { id: id(1), entries: vec![dir("", "a", 2, vec![file("/a", "b", 6, 3)])] },
    };
    scanner.build_cache(&r).unwrap();
    let v = scanner.get_result_with_depth("/a/b", 0).unwrap();
    assert_eq!(v.path, "/a/b");
    assert_eq!(v.size, 6);
    assert_eq!(scanner.get_result_with_depth("/a", 0).unwrap().path, "/a");
}
