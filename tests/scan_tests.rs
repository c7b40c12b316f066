use ferris_scan::{
    add_file_to_tree, calculate_dir_sizes, ensure_dir_path, scan_directory,
    scan_directory_with_report, scan_directory_with_report_shared, sort_tree, Node, ScanBuilder,
    ScanError, ScanState, Scanner, SharedProgress, WalkEntry,
};

fn comps(p: &str) -> Vec<String> {
    p.split('/').map(|s| s.to_string()).collect()
}

fn file(p: &str, size: u64) -> WalkEntry {
    WalkEntry::File { path: comps(p), shown: format!("/scan/{}", p), size }
}

fn dir(p: &str) -> WalkEntry {
    WalkEntry::Dir { path: comps(p), shown: format!("/scan/{}", p) }
}

fn names(n: &Node) -> Vec<String> {
    n.children.iter().map(|c| c.name.clone()).collect()
}

fn sizes(n: &Node) -> Vec<u64> {
    n.children.iter().map(|c| c.size).collect()
}

#[test]
fn test_scan_empty_directory() {
    let result = scan_directory("empty".to_string(), &vec![]);
    assert!(result.is_ok());
}

#[test]
fn test_scanner_api() {
    let scanner = Scanner::new();
    let result = scanner.scan("empty".to_string(), &vec![]);
    assert!(result.is_ok());
}

#[test]
fn empty_root_has_no_children_and_size_zero() {
    let root = scan_directory("empty".to_string(), &vec![]).unwrap();
    assert_eq!(root.name, "empty");
    assert!(root.is_dir);
    assert_eq!(root.size, 0);
    assert!(root.children.is_empty());
    assert!(root.path.is_empty());
}

#[test]
fn two_files_and_a_subdirectory_sorted_by_size() {
    let entries = vec![file("a.txt", 100), dir("b"), file("b/c.txt", 50)];
    let root = scan_directory("root".to_string(), &entries).unwrap();
    assert_eq!(root.size, 150);
    assert_eq!(names(&root), vec!["a.txt", "b"]);
    assert_eq!(sizes(&root), vec![100, 50]);
    let b = &root.children[1];
    assert!(b.is_dir);
    assert_eq!(b.path, vec!["b".to_string()]);
    assert_eq!(b.children[0].name, "c.txt");
    assert_eq!(b.children[0].path, comps("b/c.txt"));
    assert!(!b.children[0].is_dir);
}

#[test]
fn smaller_file_comes_after_bigger_directory() {
    let entries = vec![file("a.txt", 10), file("b/c.txt", 50), file("b/d.txt", 7)];
    let root = scan_directory("root".to_string(), &entries).unwrap();
    assert_eq!(root.size, 67);
    assert_eq!(names(&root), vec!["b", "a.txt"]);
    assert_eq!(sizes(&root.children[0]), vec![50, 7]);
}

#[test]
fn directory_size_is_sum_of_children_at_every_level() {
    let entries = vec![
        file("x/y/z/1", 3),
        file("x/y/2", 4),
        file("x/3", 5),
        file("4", 6),
        dir("x/empty"),
    ];
    let root = scan_directory("r".to_string(), &entries).unwrap();
    fn check(n: &Node) {
        if n.is_dir {
            let total: u64 = n.children.iter().map(|c| c.size).sum();
            assert_eq!(n.size, total);
            for w in n.children.windows(2) {
                assert!(w[0].size >= w[1].size);
            }
            for c in &n.children {
                check(c);
            }
        }
    }
    check(&root);
    assert_eq!(root.size, 18);
}

#[test]
fn permission_denied_subdirectory_is_skipped_once() {
    let entries = vec![
        dir("open"),
        file("open/f", 20),
        WalkEntry::Unreadable {
            path: Some("/scan/locked".to_string()),
            message: "Permission denied (os error 13)".to_string(),
            denied: true,
        },
        file("g", 5),
    ];
    let (root, report) = scan_directory_with_report("scan".to_string(), &entries).unwrap();
    assert_eq!(root.size, 25);
    assert_eq!(names(&root), vec!["open", "g"]);
    assert_eq!(report.skipped.len(), 1);
    assert_eq!(report.skipped[0].path.as_deref(), Some("/scan/locked"));
    assert_eq!(report.skipped[0].message, "Permission denied (os error 13)");
    assert!(report.errors.is_empty());
}

#[test]
fn other_failures_go_to_errors_and_unresolved_paths_stay_absent() {
    let entries = vec![
        WalkEntry::Unreadable { path: None, message: "busy".to_string(), denied: false },
        WalkEntry::Unreadable { path: None, message: "denied".to_string(), denied: true },
        file("ok", 1),
    ];
    let (root, report) = scan_directory_with_report("scan".to_string(), &entries).unwrap();
    assert_eq!(root.size, 1);
    assert_eq!(report.errors.len(), 1);
    assert_eq!(report.errors[0].message, "busy");
    assert_eq!(report.skipped.len(), 1);
    assert!(report.skipped[0].path.is_none());
}

#[test]
fn unreadable_root_fails_the_scan() {
    let entries = vec![WalkEntry::RootUnreadable { message: "No such file".to_string() }];
    match scan_directory("gone".to_string(), &entries) {
        Err(ScanError::RootUnreadable(m)) => assert_eq!(m, "No such file"),
        Ok(_) => panic!("a scan of an unreadable root must fail"),
    }
}

#[test]
fn duplicate_file_entries_accumulate() {
    let entries = vec![file("a", 10), file("a", 15)];
    let root = scan_directory("r".to_string(), &entries).unwrap();
    assert_eq!(root.children.len(), 1);
    assert_eq!(root.children[0].size, 25);
    assert_eq!(root.size, 25);
}

#[test]
fn sizes_saturate_instead_of_overflowing() {
    let entries = vec![file("a", u64::MAX), file("b", 5), file("a", 1)];
    let root = scan_directory("r".to_string(), &entries).unwrap();
    assert_eq!(root.size, u64::MAX);
    assert_eq!(root.children[0].name, "a");
    assert_eq!(root.children[0].size, u64::MAX);
}

#[test]
fn rescanning_same_entries_gives_same_tree() {
    let entries = vec![dir("d"), file("d/x", 3), file("d/y", 3), file("z", 3), file("w", 9)];
    let a = scan_directory("r".to_string(), &entries).unwrap();
    let b = scan_directory("r".to_string(), &entries).unwrap();
    fn same(x: &Node, y: &Node) {
        assert_eq!(x.name, y.name);
        assert_eq!(x.size, y.size);
        assert_eq!(x.is_dir, y.is_dir);
        assert_eq!(x.path, y.path);
        assert_eq!(x.children.len(), y.children.len());
        for (p, q) in x.children.iter().zip(y.children.iter()) {
            same(p, q);
        }
    }
    same(&a, &b);
}

#[test]
fn directory_entry_keeps_file_size_and_file_entry_marks_leaf() {
    let mut root = Node::new("r".to_string(), vec![], true);
    add_file_to_tree(&mut root, &comps("p/q"), 7);
    ensure_dir_path(&mut root, &comps("p"));
    assert_eq!(root.children.len(), 1);
    assert!(root.children[0].is_dir);
    assert_eq!(root.children[0].size, 0);
    assert!(!root.children[0].children[0].is_dir);
    assert_eq!(root.children[0].children[0].size, 7);
    assert_eq!(root.children[0].children[0].path, comps("p/q"));
    ensure_dir_path(&mut root, &vec![]);
    assert_eq!(root.children.len(), 1);
}

#[test]
fn aggregation_then_sort_by_hand() {
    let mut root = Node::new("r".to_string(), vec![], true);
    add_file_to_tree(&mut root, &comps("small"), 1);
    add_file_to_tree(&mut root, &comps("big/a"), 40);
    add_file_to_tree(&mut root, &comps("big/b"), 2);
    let total = calculate_dir_sizes(&mut root);
    assert_eq!(total, 43);
    assert_eq!(root.size, 43);
    assert_eq!(names(&root), vec!["small", "big"]);
    sort_tree(&mut root);
    assert_eq!(names(&root), vec!["big", "small"]);
    assert_eq!(sizes(&root.children[0]), vec![40, 2]);
}

#[test]
fn builder_progress_counts_files_and_never_goes_down() {
    let mut b = ScanBuilder::new("r".to_string());
    let entries = vec![
        dir("d"),
        file("d/a", 1),
        WalkEntry::Unreadable { path: Some("/scan/d/x".to_string()), message: "m".to_string(), denied: true },
        file("d/b", 2),
        WalkEntry::Unreadable { path: None, message: "m".to_string(), denied: false },
    ];
    let mut last = 0;
    let mut counts = vec![];
    for e in &entries {
        let p = b.record(e);
        assert!(p.files_scanned >= last);
        last = p.files_scanned;
        counts.push((p.files_scanned, p.current_path));
    }
    assert_eq!(counts[0], (0, Some("/scan/d".to_string())));
    assert_eq!(counts[1], (1, Some("/scan/d/a".to_string())));
    assert_eq!(counts[2], (1, Some("/scan/d/x".to_string())));
    assert_eq!(counts[3], (2, Some("/scan/d/b".to_string())));
    assert_eq!(counts[4], (2, Some("/scan/d/b".to_string())));
    let (root, report) = b.finish().unwrap();
    assert_eq!(root.size, 3);
    assert_eq!(report.skipped.len(), 1);
    assert_eq!(report.errors.len(), 1);
}

#[test]
fn shared_progress_sees_final_count() {
    let shared = SharedProgress::new();
    let start = shared.snapshot();
    assert_eq!(start.files_scanned, 0);
    assert!(start.current_path.is_none());
    let entries = vec![file("a", 1), file("b", 2), dir("c")];
    let r = scan_directory_with_report_shared("r".to_string(), &entries, Some(&shared));
    assert!(r.is_ok());
    let snap = shared.snapshot();
    assert_eq!(snap.files_scanned, 2);
    assert_eq!(snap.current_path.as_deref(), Some("/scan/c"));
    let scanner = Scanner::new();
    let again = SharedProgress::new();
    let (root, _) = scanner.scan_with_progress("r".to_string(), &entries, &again).unwrap();
    assert_eq!(root.size, 3);
    assert_eq!(again.snapshot().files_scanned, 2);
}

#[test]
fn scan_state_lifecycle() {
    let s = ScanState::default();
    assert!(matches!(s, ScanState::Idle));
    assert!(!s.is_terminal());
    let shared = SharedProgress::new();
    let running = ScanState::scanning(shared.snapshot());
    assert!(matches!(running, ScanState::Scanning { files_scanned: 0, .. }));
    assert!(!running.is_terminal());
    let done = ScanState::finished(scan_directory_with_report("r".to_string(), &vec![file("a", 4)]));
    match &done {
        ScanState::Done { root, report } => {
            assert_eq!(root.size, 4);
            assert!(report.skipped.is_empty());
        }
        _ => panic!("expected a finished scan"),
    }
    assert!(done.is_terminal());
    let failed = ScanState::finished(scan_directory_with_report(
        "r".to_string(),
        &vec![WalkEntry::RootUnreadable { message: "nope".to_string() }],
    ));
    match &failed {
        ScanState::Error(m) => assert_eq!(m, "nope"),
        _ => panic!("expected a failed scan"),
    }
    assert!(failed.is_terminal());
}
