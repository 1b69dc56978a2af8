use rojo::fetcher::{reconcile_dir, sync_pending, VirtualFs};
use rojo::session::{ChangeKind, FsState, ServeSession};

fn path(parts: &[&str]) -> Vec<String> {
    parts.iter().map(|p| p.to_string()).collect()
}

#[test]
fn stat_sees_latest_write() {
    let mut fs = VirtualFs::new();
    assert!(matches!(fs.stat(&path(&["a"])), FsState::Absent));
    fs.write(path(&["a"]), FsState::File(b"x".to_vec()));
    fs.write(path(&["b"]), FsState::Directory);
    fs.write(path(&["a"]), FsState::File(b"y".to_vec()));
    match fs.stat(&path(&["a"])) {
        FsState::File(b) => assert_eq!(b, b"y".to_vec()),
        other => panic!("unexpected {:?}", other),
    }
    assert!(matches!(fs.stat(&path(&["b"])), FsState::Directory));
    assert!(matches!(fs.stat(&path(&["b", "a"])), FsState::Absent));
}

#[test]
fn pending_paths_are_handed_out_once() {
    let mut fs = VirtualFs::new();
    fs.write(path(&["a"]), FsState::Directory);
    fs.write(path(&["a", "b"]), FsState::File(vec![]));
    assert_eq!(fs.take_pending(), vec![path(&["a"]), path(&["a", "b"])]);
    assert!(fs.take_pending().is_empty());
}

#[test]
fn sync_checks_disk_not_event() {
    let mut fs = VirtualFs::new();
    let mut s = ServeSession::new(3, "root".to_string(), None);
    fs.write(path(&["a.txt"]), FsState::File(b"x".to_vec()));
    fs.write(path(&["a.txt"]), FsState::Absent);
    assert_eq!(sync_pending(&mut s, &mut fs), 0);
    assert!(s.changes_since(0).unwrap().messages.is_empty());
    assert!(fs.take_pending().is_empty());
}

#[test]
fn sync_skips_bad_entries_and_goes_on() {
    let mut fs = VirtualFs::new();
    let mut s = ServeSession::new(3, "root".to_string(), None);
    fs.write(path(&["gone", "x"]), FsState::File(vec![1]));
    fs.write(path(&["d"]), FsState::Directory);
    fs.write(path(&["d", "y"]), FsState::File(vec![2]));
    assert_eq!(sync_pending(&mut s, &mut fs), 1);
    let c = s.changes_since(0).unwrap();
    assert_eq!(c.messages.len(), 2);
    assert!(c.messages.iter().all(|r| r.kind == ChangeKind::Added));
    fs.write(path(&["d"]), FsState::Absent);
    assert_eq!(sync_pending(&mut s, &mut fs), 0);
    let c = s.changes_since(c.cursor).unwrap();
    let ids: Vec<usize> = c.messages.iter().map(|r| r.id).collect();
    assert_eq!(ids, vec![2, 1]);
}

#[test]
fn removing_a_directory_hides_what_was_below() {
    let mut fs = VirtualFs::new();
    fs.write(path(&["d"]), FsState::Directory);
    fs.write(path(&["d", "a"]), FsState::File(vec![1]));
    fs.write(path(&["d"]), FsState::Absent);
    assert!(matches!(fs.stat(&path(&["d", "a"])), FsState::Absent));
    fs.write(path(&["d"]), FsState::Directory);
    assert!(matches!(fs.stat(&path(&["d", "a"])), FsState::Absent));
    fs.write(path(&["d", "a"]), FsState::File(vec![2]));
    fs.write(path(&["d"]), FsState::Directory);
    assert!(matches!(fs.stat(&path(&["d", "a"])), FsState::File(_)));
}

#[test]
fn list_names_present_children_once() {
    let mut fs = VirtualFs::new();
    fs.write(path(&["d"]), FsState::Directory);
    fs.write(path(&["d", "a"]), FsState::File(vec![1]));
    fs.write(path(&["d", "b"]), FsState::Directory);
    fs.write(path(&["d", "b", "c"]), FsState::File(vec![]));
    fs.write(path(&["d", "a"]), FsState::File(vec![2]));
    fs.write(path(&["d", "x"]), FsState::File(vec![]));
    fs.write(path(&["d", "x"]), FsState::Absent);
    assert_eq!(fs.list(&path(&["d"])), vec!["a".to_string(), "b".to_string()]);
    assert_eq!(fs.list(&path(&["d", "b"])), vec!["c".to_string()]);
    assert!(fs.list(&path(&["e"])).is_empty());
}

#[test]
fn reconcile_dir_adds_and_drops_children() {
    let mut fs = VirtualFs::new();
    let mut s = ServeSession::new(3, "root".to_string(), None);
    fs.write(path(&["d"]), FsState::Directory);
    fs.write(path(&["d", "old"]), FsState::File(vec![1]));
    assert_eq!(sync_pending(&mut s, &mut fs), 0);
    let c0 = s.changes_since(0).unwrap().cursor;
    // a change the watcher missed: `old` went away, `new` appeared
    fs.write(path(&["d", "old"]), FsState::Absent);
    fs.write(path(&["d", "new"]), FsState::File(vec![2]));
    fs.take_pending();
    let (applied, refused) = reconcile_dir(&mut s, &fs, &path(&["d"]));
    assert_eq!(refused, 0);
    assert_eq!(applied, vec![path(&["d", "new"]), path(&["d", "old"])]);
    let c = s.changes_since(c0).unwrap();
    let kinds: Vec<ChangeKind> = c.messages.iter().map(|r| r.kind).collect();
    assert_eq!(kinds, vec![ChangeKind::Added, ChangeKind::Removed]);
    assert_eq!(s.read_subtree(1).unwrap(), vec![1, 3]);
}
