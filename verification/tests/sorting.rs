use rsdu::scan::{insert_child, make_directory, make_file};
use rsdu::tree::{Child, Entry, TreeError};

fn dir(own_size: u64, names_and_entries: Vec<(&[u8], Entry)>) -> Entry {
    let mut children: Vec<Child> = Vec::new();
    for (name, entry) in names_and_entries {
        insert_child(&mut children, Child { name: name.to_vec(), entry });
    }
    make_directory(own_size, children).expect("sizes must fit")
}

#[test]
fn children_sorted_is_size_descending() {
    let d = dir(0, vec![
        (b"small".as_slice(), make_file(1)),
        (b"large".as_slice(), make_file(100)),
        (b"medium".as_slice(), make_file(10)),
    ]);
    let rows = d.children_sorted().unwrap();
    let sizes: Vec<u64> = rows.iter().map(|r| r.size).collect();
    assert_eq!(sizes, vec![100, 10, 1]);
    assert_eq!(rows[0].name, b"large".to_vec());
}

#[test]
fn children_sorted_is_stable_on_equal_sizes() {
    // Equal sizes keep their name order: x and y both weigh 10 and x's name
    // comes first, so x stays before y however z is placed.
    let d = dir(0, vec![
        (b"y".as_slice(), make_file(10)),
        (b"x".as_slice(), make_file(10)),
        (b"z".as_slice(), make_file(20)),
    ]);
    let rows = d.children_sorted().unwrap();
    assert_eq!(rows[0].name, b"z".to_vec());
    assert_eq!(rows[1].name, b"x".to_vec());
    assert_eq!(rows[2].name, b"y".to_vec());
}

#[test]
fn children_sorted_all_equal_sizes_keeps_name_order() {
    let d = dir(0, vec![
        (b"c".as_slice(), make_file(5)),
        (b"a".as_slice(), make_file(5)),
        (b"b".as_slice(), make_file(5)),
    ]);
    let rows = d.children_sorted().unwrap();
    let names: Vec<Vec<u8>> = rows.iter().map(|r| r.name.clone()).collect();
    assert_eq!(names, vec![b"a".to_vec(), b"b".to_vec(), b"c".to_vec()]);
}

#[test]
fn children_sorted_on_empty_directory() {
    let d = dir(0, vec![]);
    assert_eq!(d.children_sorted().unwrap().len(), 0);
}

#[test]
fn children_sorted_on_file_fails() {
    let f = make_file(1);
    assert_eq!(f.children_sorted().unwrap_err(), TreeError::NotADirectory);
}

#[test]
fn children_sorted_marks_directories() {
    let d = dir(0, vec![
        (b"sub".as_slice(), dir(0, vec![])),
        (b"plain".as_slice(), make_file(7)),
    ]);
    let rows = d.children_sorted().unwrap();
    assert_eq!(rows[0].name, b"plain".to_vec());
    assert!(!rows[0].is_dir);
    assert_eq!(rows[1].name, b"sub".to_vec());
    assert!(rows[1].is_dir);
}
