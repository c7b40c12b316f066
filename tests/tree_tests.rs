use ferris_scan::{scan_directory, DeleteError, NavigationState, Node, WalkEntry};

fn comps(p: &str) -> Vec<String> {
    p.split('/').map(|s| s.to_string()).collect()
}

fn file(p: &str, size: u64) -> WalkEntry {
    WalkEntry::File { path: comps(p), shown: p.to_string(), size }
}

fn sample() -> Node {
    // r: top/ { mid/ { f (30), g (5) }, h (10) }, other (7)
    let entries = vec![
        file("top/mid/f", 30),
        file("top/mid/g", 5),
        file("top/h", 10),
        file("other", 7),
    ];
    scan_directory("r".to_string(), &entries).unwrap()
}

#[test]
fn deleting_a_file_shrinks_every_ancestor_by_its_size() {
    let mut root = sample();
    assert_eq!(root.size, 52);
    assert_eq!(root.find(&comps("top")).unwrap().size, 45);
    assert_eq!(root.find(&comps("top/mid")).unwrap().size, 35);
    assert_eq!(root.delete_node(&comps("top/mid/f")), Ok(()));
    assert_eq!(root.size, 22);
    assert_eq!(root.find(&comps("top")).unwrap().size, 15);
    let mid = root.find(&comps("top/mid")).unwrap();
    assert_eq!(mid.size, 5);
    assert!(mid.children.iter().all(|c| c.name != "f"));
    assert!(root.find(&comps("top/mid/f")).is_none());
    assert_eq!(root.find(&comps("top/mid/g")).unwrap().size, 5);
    assert_eq!(root.find(&comps("other")).unwrap().size, 7);
}

#[test]
fn deleting_a_directory_removes_its_subtree() {
    let mut root = sample();
    assert_eq!(root.delete_node(&comps("top/mid")), Ok(()));
    assert_eq!(root.size, 17);
    assert_eq!(root.find(&comps("top")).unwrap().size, 10);
    assert!(root.find(&comps("top/mid")).is_none());
    assert!(root.find(&comps("top/mid/g")).is_none());
    assert!(root.find(&comps("top/h")).is_some());
}

#[test]
fn deleting_the_root_or_a_missing_path_changes_nothing() {
    let mut root = sample();
    assert_eq!(root.delete_node(&vec![]), Err(DeleteError::IsRoot));
    assert_eq!(root.delete_node(&comps("top/nothing")), Err(DeleteError::NotFound));
    assert_eq!(root.delete_node(&comps("other/below")), Err(DeleteError::NotFound));
    assert_eq!(root.size, 52);
    assert_eq!(root.children.len(), 2);
}

#[test]
fn find_follows_names_from_the_root() {
    let root = sample();
    assert_eq!(root.find(&vec![]).unwrap().name, "r");
    let g = root.find(&comps("top/mid/g")).unwrap();
    assert_eq!(g.path, comps("top/mid/g"));
    assert!(!g.is_dir);
    assert!(root.find(&comps("mid")).is_none());
}

#[test]
fn copy_keeps_the_whole_subtree() {
    let root = sample();
    let c = root.copy();
    assert_eq!(c.size, root.size);
    assert_eq!(c.children.len(), root.children.len());
    assert_eq!(c.children[0].children[0].children[0].name, "f");
    assert_eq!(c.children[0].children[0].path, comps("top/mid"));
}

#[test]
fn drilling_down_and_up() {
    let root = sample();
    let mut nav = NavigationState::new(root.copy());
    assert_eq!(nav.breadcrumb(), "r");
    assert!(!nav.drill_up());
    assert!(!nav.drill_down(1)); // "other" is a file
    assert!(!nav.drill_down(5));
    assert!(nav.drill_down(0));
    assert_eq!(nav.current().name, "top");
    assert!(nav.drill_down(0));
    assert_eq!(nav.breadcrumb(), "r / top / mid");
    nav.selected = 1;
    assert!(nav.drill_up());
    assert_eq!(nav.selected, 0);
    assert_eq!(nav.current().name, "top");
}

#[test]
fn cursor_on_deleted_directory_moves_to_its_parent() {
    let mut root = sample();
    let mut nav = NavigationState::new(root.copy());
    assert!(nav.drill_down(0));
    assert!(nav.drill_down(0));
    assert_eq!(nav.current().name, "mid");
    root.delete_node(&comps("top/mid")).unwrap();
    nav.rebuild_from_root(&root);
    assert_eq!(nav.path.len(), 2);
    assert_eq!(nav.current().name, "top");
    assert_eq!(nav.current().size, 10);
    assert_eq!(nav.selected, 0);
}

#[test]
fn cursor_untouched_by_deleting_a_sibling() {
    let mut root = sample();
    let mut nav = NavigationState::new(root.copy());
    assert!(nav.drill_down(0));
    assert!(nav.drill_down(0));
    root.delete_node(&comps("top/h")).unwrap();
    nav.rebuild_from_root(&root);
    assert_eq!(nav.breadcrumb(), "r / top / mid");
    assert_eq!(nav.current().size, 35);
    assert_eq!(nav.current().children.len(), 2);
}

#[test]
fn cursor_falls_back_to_root_when_everything_above_is_gone() {
    let mut root = sample();
    let mut nav = NavigationState::new(root.copy());
    assert!(nav.drill_down(0));
    assert!(nav.drill_down(0));
    root.delete_node(&comps("top")).unwrap();
    nav.rebuild_from_root(&root);
    assert_eq!(nav.path.len(), 1);
    assert_eq!(nav.current().name, "r");
    assert_eq!(nav.current().size, 7);
}
