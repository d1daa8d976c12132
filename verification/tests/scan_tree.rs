use rsdu::scan::{insert_child, make_directory, make_file, sum_contents, TaskCounter};
use rsdu::tree::{Child, Entry, TreeError};

fn named(name: &[u8], entry: Entry) -> Child {
    Child { name: name.to_vec(), entry }
}

fn dir(own_size: u64, children: Vec<Child>) -> Entry {
    make_directory(own_size, children).expect("sizes must fit")
}

fn build(names_and_entries: Vec<(&[u8], Entry)>) -> Vec<Child> {
    let mut children: Vec<Child> = Vec::new();
    for (name, entry) in names_and_entries {
        insert_child(&mut children, named(name, entry));
    }
    children
}

#[test]
fn file_size_is_stored() {
    let f = make_file(123);
    assert_eq!(f.size(), 123);
    assert!(!f.is_directory());
}

#[test]
fn directory_size_is_own_plus_children() {
    // A directory's aggregate equals its own metadata length plus the sum of
    // its children's sizes.
    let children = build(vec![
        (b"file1".as_slice(), make_file(100)),
        (b"file2".as_slice(), make_file(50)),
    ]);
    let d = dir(4096, children);
    assert_eq!(d.size(), 4246);
    assert!(d.is_directory());
}

#[test]
fn scan_scenario_sizes() {
    // Root holds a/file1 (100), a/file2 (50) and the file b (25): a has size
    // 150 and the root 175, with zero directory metadata.
    let a = dir(0, build(vec![
        (b"file1".as_slice(), make_file(100)),
        (b"file2".as_slice(), make_file(50)),
    ]));
    assert_eq!(a.size(), 150);
    let root = dir(0, build(vec![(b"a".as_slice(), a), (b"b".as_slice(), make_file(25))]));
    assert_eq!(root.size(), 175);

    let rows = root.children_sorted().unwrap();
    assert_eq!(rows.len(), 2);
    assert_eq!(rows[0].name, b"a".to_vec());
    assert_eq!(rows[0].size, 150);
    assert!(rows[0].is_dir);
    assert_eq!(rows[1].name, b"b".to_vec());
    assert_eq!(rows[1].size, 25);
    assert!(!rows[1].is_dir);
}

#[test]
fn scan_scenario_sizes_with_metadata() {
    // The same tree with directory metadata folded in once per directory.
    let a = dir(4096, build(vec![
        (b"file1".as_slice(), make_file(100)),
        (b"file2".as_slice(), make_file(50)),
    ]));
    assert_eq!(a.size(), 4246);
    let root = dir(4096, build(vec![(b"a".as_slice(), a), (b"b".as_slice(), make_file(25))]));
    assert_eq!(root.size(), 4096 + 4246 + 25);
}

#[test]
fn sum_contents_adds_sizes() {
    let children = build(vec![
        (b"x".as_slice(), make_file(7)),
        (b"y".as_slice(), make_file(5)),
    ]);
    assert_eq!(sum_contents(&children), Some(12));
}

#[test]
fn sum_contents_overflow_is_none() {
    let children = build(vec![
        (b"x".as_slice(), make_file(u64::MAX)),
        (b"y".as_slice(), make_file(1)),
    ]);
    assert_eq!(sum_contents(&children), None);
    assert!(make_directory(0, children).is_none());
}

#[test]
fn make_directory_overflow_on_own_size() {
    let children = build(vec![(b"x".as_slice(), make_file(u64::MAX))]);
    assert!(make_directory(1, children).is_none());
}

#[test]
fn insert_child_keeps_name_order_and_replaces() {
    let mut children: Vec<Child> = Vec::new();
    insert_child(&mut children, named(b"m", make_file(1)));
    insert_child(&mut children, named(b"a", make_file(2)));
    insert_child(&mut children, named(b"z", make_file(3)));
    insert_child(&mut children, named(b"m", make_file(9)));
    assert_eq!(children.len(), 3);
    assert_eq!(children[0].name, b"a".to_vec());
    assert_eq!(children[1].name, b"m".to_vec());
    assert_eq!(children[1].entry.size(), 9);
    assert_eq!(children[2].name, b"z".to_vec());
}

#[test]
fn resolve_walks_and_reports_errors() {
    let a = dir(0, build(vec![(b"f".as_slice(), make_file(3))]));
    let root = dir(0, build(vec![(b"a".as_slice(), a)]));
    let path = vec![b"a".to_vec(), b"f".to_vec()];
    assert_eq!(root.resolve(&path).unwrap().size(), 3);
    assert_eq!(root.resolve_dir(&path).unwrap_err(), TreeError::NotADirectory);
    let missing = vec![b"nope".to_vec()];
    assert_eq!(root.resolve(&missing).unwrap_err(), TreeError::NotFound);
    let through_file = vec![b"a".to_vec(), b"f".to_vec(), b"deeper".to_vec()];
    assert_eq!(root.resolve(&through_file).unwrap_err(), TreeError::NotFound);
}

#[test]
fn task_counter_never_exceeds_cap() {
    // With a cap of 3 and the creating flow counted, only two more tasks are
    // admitted; the instrumented count never exceeds the cap.
    let mut counter = TaskCounter::new(3);
    assert_eq!(counter.active(), 1);
    assert!(counter.try_admit());
    assert!(counter.try_admit());
    assert!(counter.active() <= counter.cap());
    assert!(!counter.try_admit());
    assert_eq!(counter.active(), 3);
    counter.release();
    assert!(counter.try_admit());
    assert_eq!(counter.active(), 3);
    counter.release();
    counter.release();
    assert_eq!(counter.active(), 1);
}

#[test]
fn task_counter_cap_one_admits_nothing() {
    let mut counter = TaskCounter::new(1);
    assert!(!counter.try_admit());
    assert_eq!(counter.active(), 1);
}

#[test]
fn task_counter_machine_cap_is_positive() {
    let counter = TaskCounter::for_this_machine();
    assert!(counter.cap() >= 1);
    assert_eq!(counter.active(), 1);
}

#[test]
fn task_counter_bound_holds_for_many_entries() {
    // A long admission/release workload: the count stays within the cap
    // whatever the number of entries.
    let mut counter = TaskCounter::new(4);
    let mut admitted: usize = 0;
    for i in 0..1000 {
        if counter.try_admit() {
            admitted += 1;
        }
        assert!(counter.active() <= counter.cap());
        if i % 3 == 0 && admitted > 0 {
            counter.release();
            admitted -= 1;
        }
    }
    while admitted > 0 {
        counter.release();
        admitted -= 1;
    }
    assert_eq!(counter.active(), 1);
}
