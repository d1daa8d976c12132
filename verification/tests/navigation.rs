use rsdu::nav::Navigator;
use rsdu::scan::{insert_child, make_directory, make_file};
use rsdu::tree::{Child, Entry};

fn dir(own_size: u64, names_and_entries: Vec<(&[u8], Entry)>) -> Entry {
    let mut children: Vec<Child> = Vec::new();
    for (name, entry) in names_and_entries {
        insert_child(&mut children, Child { name: name.to_vec(), entry });
    }
    make_directory(own_size, children).expect("sizes must fit")
}

fn sample_root() -> Entry {
    // Root: a/ (150: file1 100, file2 50), b (25).
    let a = dir(0, vec![
        (b"file1".as_slice(), make_file(100)),
        (b"file2".as_slice(), make_file(50)),
    ]);
    dir(0, vec![(b"a".as_slice(), a), (b"b".as_slice(), make_file(25))])
}

#[test]
fn new_navigator_starts_at_root() {
    let nav = Navigator::new(sample_root());
    assert_eq!(nav.selected_index(), 0);
    assert!(nav.current_path().is_empty());
    assert_eq!(nav.current_entry().size(), 175);
}

#[test]
fn move_selection_clamps_at_both_ends() {
    // The clamping policy: stepping past the last index leaves it unchanged,
    // and stepping below the first leaves it at 0.
    let mut nav = Navigator::new(sample_root());
    nav.move_selection(1);
    assert_eq!(nav.selected_index(), 1);
    nav.move_selection(1);
    assert_eq!(nav.selected_index(), 1);
    nav.move_selection(100);
    assert_eq!(nav.selected_index(), 1);
    nav.move_selection(-1);
    assert_eq!(nav.selected_index(), 0);
    nav.move_selection(-5);
    assert_eq!(nav.selected_index(), 0);
}

#[test]
fn move_selection_on_empty_directory_is_noop() {
    let mut nav = Navigator::new(dir(0, vec![]));
    nav.move_selection(1);
    assert_eq!(nav.selected_index(), 0);
    nav.move_selection(-1);
    assert_eq!(nav.selected_index(), 0);
    nav.jump_last();
    assert_eq!(nav.selected_index(), 0);
}

#[test]
fn move_selection_clamps_for_every_small_count() {
    // The clamp policy holds for all child counts >= 1.
    for count in 1u64..6 {
        let mut children: Vec<(Vec<u8>, Entry)> = Vec::new();
        for i in 0..count {
            children.push((vec![b'a' + i as u8], make_file(i + 1)));
        }
        let root = {
            let mut cs: Vec<Child> = Vec::new();
            for (name, entry) in children {
                insert_child(&mut cs, Child { name, entry });
            }
            make_directory(0, cs).unwrap()
        };
        let mut nav = Navigator::new(root);
        nav.jump_last();
        let last = nav.selected_index();
        assert_eq!(last as u64, count - 1);
        nav.move_selection(1);
        assert_eq!(nav.selected_index(), last);
    }
}

#[test]
fn enter_descends_into_directory() {
    let mut nav = Navigator::new(sample_root());
    // Sorted rows at root: a (150, directory), b (25, file). Index 0 is a.
    nav.enter();
    assert_eq!(nav.current_path(), &vec![b"a".to_vec()]);
    assert_eq!(nav.selected_index(), 0);
    assert_eq!(nav.current_entry().size(), 150);
}

#[test]
fn enter_on_file_is_noop() {
    let mut nav = Navigator::new(sample_root());
    nav.move_selection(1);
    // Index 1 is the file b.
    nav.enter();
    assert!(nav.current_path().is_empty());
    assert_eq!(nav.selected_index(), 1);
}

#[test]
fn enter_on_empty_directory_is_noop() {
    let mut nav = Navigator::new(dir(0, vec![]));
    nav.enter();
    assert!(nav.current_path().is_empty());
    assert_eq!(nav.selected_index(), 0);
}

#[test]
fn exit_at_root_is_noop() {
    let mut nav = Navigator::new(sample_root());
    nav.exit();
    assert!(nav.current_path().is_empty());
    assert_eq!(nav.selected_index(), 0);
}

#[test]
fn enter_then_exit_restores_selection() {
    // Entering a directory and immediately exiting restores the selection.
    let deep = dir(0, vec![
        (b"one".as_slice(), make_file(5)),
        (b"two".as_slice(), dir(0, vec![(b"inner".as_slice(), make_file(1))])),
    ]);
    let root = dir(0, vec![
        (b"big".as_slice(), make_file(999)),
        (b"deep".as_slice(), deep),
        (b"small".as_slice(), make_file(1)),
    ]);
    let mut nav = Navigator::new(root);
    // Sorted rows: big (999), deep (6), small (1); select deep at index 1.
    nav.move_selection(1);
    assert_eq!(nav.selected_index(), 1);
    nav.enter();
    assert_eq!(nav.current_path(), &vec![b"deep".to_vec()]);
    nav.exit();
    assert!(nav.current_path().is_empty());
    assert_eq!(nav.selected_index(), 1);
}

#[test]
fn cursor_is_remembered_per_directory() {
    // Moving inside an entered directory and re-entering it later restores
    // the selection that was left behind.
    let a = dir(0, vec![
        (b"f1".as_slice(), make_file(30)),
        (b"f2".as_slice(), make_file(20)),
        (b"f3".as_slice(), make_file(10)),
    ]);
    let root = dir(0, vec![(b"a".as_slice(), a), (b"b".as_slice(), make_file(1))]);
    let mut nav = Navigator::new(root);
    nav.enter();
    nav.move_selection(2);
    assert_eq!(nav.selected_index(), 2);
    nav.exit();
    assert_eq!(nav.selected_index(), 0);
    nav.enter();
    assert_eq!(nav.selected_index(), 2);
}

#[test]
fn page_move_clamps_like_single_steps() {
    let a = dir(0, vec![
        (b"f1".as_slice(), make_file(50)),
        (b"f2".as_slice(), make_file(40)),
        (b"f3".as_slice(), make_file(30)),
        (b"f4".as_slice(), make_file(20)),
        (b"f5".as_slice(), make_file(10)),
    ]);
    let mut nav = Navigator::new(a);
    nav.page_move(true, 3);
    assert_eq!(nav.selected_index(), 3);
    nav.page_move(true, 3);
    assert_eq!(nav.selected_index(), 4);
    nav.page_move(false, 2);
    assert_eq!(nav.selected_index(), 2);
    nav.page_move(false, 10);
    assert_eq!(nav.selected_index(), 0);
}

#[test]
fn jump_first_and_last() {
    let mut nav = Navigator::new(sample_root());
    nav.jump_last();
    assert_eq!(nav.selected_index(), 1);
    nav.jump_first();
    assert_eq!(nav.selected_index(), 0);
}

#[test]
fn rescan_keeps_path_and_resolves() {
    // Rescanning leaves the current path unchanged and it still resolves.
    let mut nav = Navigator::new(sample_root());
    nav.enter();
    assert_eq!(nav.current_path(), &vec![b"a".to_vec()]);
    let fresh = dir(0, vec![
        (b"file1".as_slice(), make_file(70)),
        (b"file3".as_slice(), make_file(10)),
    ]);
    nav.rescan_current(fresh);
    assert_eq!(nav.current_path(), &vec![b"a".to_vec()]);
    assert_eq!(nav.current_entry().size(), 80);
    assert_eq!(nav.tree().resolve(&vec![b"a".to_vec()]).unwrap().size(), 80);
}

#[test]
fn rescan_clamps_selection_when_contents_shrink() {
    // Five children shrink to two: the selection is clamped into [0, 1].
    let five = dir(0, vec![
        (b"f1".as_slice(), make_file(50)),
        (b"f2".as_slice(), make_file(40)),
        (b"f3".as_slice(), make_file(30)),
        (b"f4".as_slice(), make_file(20)),
        (b"f5".as_slice(), make_file(10)),
    ]);
    let mut nav = Navigator::new(five);
    nav.jump_last();
    assert_eq!(nav.selected_index(), 4);
    let two = dir(0, vec![
        (b"f1".as_slice(), make_file(50)),
        (b"f2".as_slice(), make_file(40)),
    ]);
    nav.rescan_current(two);
    assert!(nav.selected_index() <= 1);
    assert_eq!(nav.selected_index(), 1);
}

#[test]
fn rescan_resets_the_rescanned_cursor() {
    // The rescanned directory's stored cursor restarts at 0, whatever the
    // cursor of the subtree handed in says.
    let a = dir(0, vec![
        (b"f1".as_slice(), make_file(30)),
        (b"f2".as_slice(), make_file(20)),
    ]);
    let root = dir(0, vec![(b"a".as_slice(), a), (b"b".as_slice(), make_file(1))]);
    let mut nav = Navigator::new(root);
    nav.enter();
    let fresh = match dir(0, vec![
        (b"f1".as_slice(), make_file(30)),
        (b"f2".as_slice(), make_file(20)),
    ]) {
        Entry::Directory { size, own_size, children, .. } => {
            Entry::Directory { size, own_size, children, cursor: 7 }
        },
        f => f,
    };
    nav.rescan_current(fresh);
    match nav.current_entry() {
        Entry::Directory { cursor, .. } => assert_eq!(*cursor, 0),
        Entry::File { .. } => panic!("current node must be a directory"),
    }
}

#[test]
fn rescan_forgets_cursors_beneath_the_rescanned_directory() {
    // Cursors remembered inside the replaced subtree are gone: re-entering a
    // subdirectory after its parent was rescanned starts at row 0 again.
    let sub = dir(0, vec![
        (b"g1".as_slice(), make_file(9)),
        (b"g2".as_slice(), make_file(8)),
        (b"g3".as_slice(), make_file(7)),
    ]);
    let a = dir(0, vec![(b"sub".as_slice(), sub), (b"f".as_slice(), make_file(100))]);
    let root = dir(0, vec![(b"a".as_slice(), a)]);
    let mut nav = Navigator::new(root);
    nav.enter();
    nav.move_selection(1);
    nav.enter();
    assert_eq!(nav.current_path(), &vec![b"a".to_vec(), b"sub".to_vec()]);
    nav.move_selection(2);
    nav.exit();
    // sub remembers cursor 2; a rescan of a replaces sub with a fresh one.
    let fresh_sub = dir(0, vec![
        (b"g1".as_slice(), make_file(9)),
        (b"g2".as_slice(), make_file(8)),
        (b"g3".as_slice(), make_file(7)),
    ]);
    let fresh_a = dir(0, vec![
        (b"sub".as_slice(), fresh_sub),
        (b"f".as_slice(), make_file(100)),
    ]);
    nav.rescan_current(fresh_a);
    nav.enter();
    assert_eq!(nav.current_path(), &vec![b"a".to_vec(), b"sub".to_vec()]);
    assert_eq!(nav.selected_index(), 0);
}

#[test]
fn current_rows_are_sorted_for_display() {
    let nav = Navigator::new(sample_root());
    let rows = nav.current_rows();
    assert_eq!(rows.len(), 2);
    assert_eq!(rows[0].name, b"a".to_vec());
    assert!(rows[0].is_dir);
    assert_eq!(rows[1].name, b"b".to_vec());
}
