use bigfiles::{to_mb, Entry, Tracker, MB_FACTOR};

fn names(v: &[Entry]) -> Vec<String> {
    v.iter().map(|e| e.item_name.clone()).collect()
}

fn sizes(v: &[Entry]) -> Vec<u64> {
    v.iter().map(|e| e.size).collect()
}

#[test]
fn tie_break_prefers_highest_index() {
    let mut t = Tracker::new(2);
    t.report("a".to_string(), 5);
    t.report("b".to_string(), 5);
    t.report("c".to_string(), 5);
    let out = t.finalize();
    assert_eq!(sizes(&out), vec![5, 5]);
    assert_eq!(names(&out), vec!["a".to_string(), "c".to_string()]);
}

#[test]
fn keeps_the_largest_sizes() {
    let mut t = Tracker::new(3);
    for (n, s) in [("x", 4u64), ("y", 9), ("z", 1), ("w", 7), ("v", 3), ("u", 8)] {
        t.report(n.to_string(), s);
    }
    let out = t.finalize();
    assert_eq!(sizes(&out), vec![9, 8, 7]);
    assert_eq!(names(&out), vec!["y".to_string(), "u".to_string(), "w".to_string()]);
}

#[test]
fn order_of_reports_does_not_change_sizes_kept() {
    let reports = [("p", 10u64), ("q", 2), ("r", 10), ("s", 6), ("t", 2)];
    let mut a = Tracker::new(3);
    for (n, s) in reports.iter() {
        a.report(n.to_string(), *s);
    }
    let mut b = Tracker::new(3);
    for (n, s) in reports.iter().rev() {
        b.report(n.to_string(), *s);
    }
    let oa = a.finalize();
    let ob = b.finalize();
    assert_eq!(sizes(&oa), vec![10, 10, 6]);
    assert_eq!(sizes(&oa), sizes(&ob));
}

#[test]
fn fewer_reports_than_slots_leave_placeholders() {
    let mut t = Tracker::new(4);
    t.report("one".to_string(), 3);
    t.report("two".to_string(), 1);
    let out = t.finalize();
    assert_eq!(sizes(&out), vec![3, 1, 0, 0]);
    assert_eq!(
        names(&out),
        vec!["one".to_string(), "two".to_string(), String::new(), String::new()]
    );
}

#[test]
fn report_below_minimum_is_dropped() {
    let mut t = Tracker::new(1);
    t.report("big".to_string(), 100);
    t.report("small".to_string(), 99);
    let out = t.finalize();
    assert_eq!(names(&out), vec!["big".to_string()]);
    assert_eq!(sizes(&out), vec![100]);
}

#[test]
fn equal_to_minimum_replaces() {
    let mut t = Tracker::new(1);
    t.report("first".to_string(), 100);
    t.report("second".to_string(), 100);
    let out = t.finalize();
    assert_eq!(names(&out), vec!["second".to_string()]);
}

#[test]
fn zero_capacity_keeps_nothing() {
    let mut t = Tracker::new(0);
    t.report("a".to_string(), 1);
    assert!(t.finalize().is_empty());
}

#[test]
fn largest_capacity_and_size() {
    let mut t = Tracker::new(255);
    t.report("max".to_string(), u64::MAX);
    let out = t.finalize();
    assert_eq!(out.len(), 255);
    assert_eq!(out[0].size, u64::MAX);
    assert_eq!(out[0].item_name, "max");
    assert_eq!(out[254].size, 0);
}

#[test]
fn megabytes_round_down() {
    assert_eq!(to_mb(1_048_577), 1);
    assert_eq!(to_mb(1_048_575), 0);
    assert_eq!(to_mb(30 * MB_FACTOR), 30);
    assert_eq!(to_mb(u64::MAX), 17_592_186_044_415);
}
