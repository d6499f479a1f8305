use bigfiles::{scan, total_size, walk, Child, DirNode, Entry, Tracker};

const MB: u64 = 1024 * 1024;

fn file(path: &str, size: u64) -> Child {
    Child::File { path: path.to_string(), size }
}

fn dir(path: &str, children: Vec<Child>) -> DirNode {
    DirNode { path: path.to_string(), children: Some(children) }
}

fn unreadable(path: &str) -> DirNode {
    DirNode { path: path.to_string(), children: None }
}

fn sample_tree() -> DirNode {
    dir(
        "root",
        vec![
            file("root/fileA", 10 * MB),
            Child::Dir(dir("root/sub", vec![file("root/sub/fileB", 20 * MB)])),
        ],
    )
}

fn rows(v: &[Entry]) -> Vec<(String, u64)> {
    v.iter().map(|e| (e.item_name.clone(), e.size)).collect()
}

#[test]
fn folder_mode_aggregates_directories() {
    let tree = sample_tree();
    let mut t = Tracker::new(1);
    assert_eq!(walk(&tree, true, &mut t), 30 * MB);
    assert_eq!(rows(&t.finalize()), vec![("root".to_string(), 30 * MB)]);
}

#[test]
fn folder_mode_reports_every_directory() {
    let tree = sample_tree();
    let mut t = Tracker::new(2);
    walk(&tree, true, &mut t);
    assert_eq!(
        rows(&t.finalize()),
        vec![("root".to_string(), 30 * MB), ("root/sub".to_string(), 20 * MB)]
    );
}

#[test]
fn file_mode_reports_files() {
    let tree = sample_tree();
    let mut t = Tracker::new(2);
    assert_eq!(walk(&tree, false, &mut t), 30 * MB);
    assert_eq!(
        rows(&t.finalize()),
        vec![("root/sub/fileB".to_string(), 20 * MB), ("root/fileA".to_string(), 10 * MB)]
    );
}

#[test]
fn unreadable_subtree_counts_nothing() {
    let tree = dir(
        "top",
        vec![
            Child::Dir(unreadable("top/locked")),
            file("top/ok", 5 * MB),
        ],
    );
    let mut t = Tracker::new(3);
    assert_eq!(walk(&tree, true, &mut t), 5 * MB);
    assert_eq!(
        rows(&t.finalize()),
        vec![("top".to_string(), 5 * MB), (String::new(), 0), (String::new(), 0)]
    );
    let mut f = Tracker::new(1);
    walk(&tree, false, &mut f);
    assert_eq!(rows(&f.finalize()), vec![("top/ok".to_string(), 5 * MB)]);
}

#[test]
fn empty_tree_gives_placeholder_rows() {
    let tree = dir("empty", vec![]);
    let out = scan(&tree, false, 3).unwrap();
    assert_eq!(rows(&out), vec![(String::new(), 0), (String::new(), 0), (String::new(), 0)]);
}

#[test]
fn scan_sorts_largest_first() {
    let out = scan(&sample_tree(), false, 3).unwrap();
    assert_eq!(
        rows(&out),
        vec![
            ("root/sub/fileB".to_string(), 20 * MB),
            ("root/fileA".to_string(), 10 * MB),
            (String::new(), 0)
        ]
    );
}

#[test]
fn total_size_of_tree() {
    assert_eq!(total_size(&sample_tree()), Some(30 * MB));
    assert_eq!(total_size(&unreadable("gone")), Some(0));
}

#[test]
fn overflowing_tree_is_refused() {
    let tree = dir(
        "huge",
        vec![file("huge/a", u64::MAX), Child::Dir(dir("huge/b", vec![file("huge/b/c", 1)]))],
    );
    assert_eq!(total_size(&tree), None);
    assert!(scan(&tree, true, 2).is_none());
    let fits = dir("max", vec![file("max/a", u64::MAX - 1), file("max/b", 1)]);
    assert_eq!(total_size(&fits), Some(u64::MAX));
    let out = scan(&fits, true, 1).unwrap();
    assert_eq!(rows(&out), vec![("max".to_string(), u64::MAX)]);
}
