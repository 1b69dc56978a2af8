use rojo::session::{
    ApplyError, ChangeKind, ChangeRecord, FsState, PollAction, ReadError, ServeSession,
    SubscribeError,
};
use rojo::tree::{EntryKind, ROOT_ID};

fn path(parts: &[&str]) -> Vec<String> {
    parts.iter().map(|p| p.to_string()).collect()
}

fn fresh() -> ServeSession {
    ServeSession::new(7, "root".to_string(), Some("demo".to_string()))
}

fn added(id: usize) -> ChangeRecord {
    ChangeRecord { kind: ChangeKind::Added, id }
}

fn removed(id: usize) -> ChangeRecord {
    ChangeRecord { kind: ChangeKind::Removed, id }
}

fn updated(id: usize) -> ChangeRecord {
    ChangeRecord { kind: ChangeKind::Updated, id }
}

#[test]
fn create_file_announces_one_instance() {
    let mut s = fresh();
    s.apply_change(&path(&["a.txt"]), FsState::File(b"x".to_vec())).unwrap();
    let c = s.changes_since(0).unwrap();
    assert_eq!(c.messages, vec![added(1)]);
    assert_eq!(c.cursor, 1);
    let inst = s.get_instance(1).unwrap();
    assert_eq!(inst.name, "a.txt");
    assert_eq!(inst.kind, EntryKind::File);
    assert_eq!(inst.contents, b"x".to_vec());
    assert_eq!(inst.parent, Some(ROOT_ID));
    match s.poll_subscription(c.cursor, false).unwrap() {
        PollAction::Wait => {}
        PollAction::Respond(_) => panic!("nothing new, the request should wait"),
    }
    match s.poll_subscription(c.cursor, true).unwrap() {
        PollAction::Respond(r) => {
            assert!(r.messages.is_empty());
            assert_eq!(r.cursor, 1);
        }
        PollAction::Wait => panic!("the wait ran out, the request should be answered"),
    }
}

#[test]
fn modify_file_updates_same_instance() {
    let mut s = fresh();
    s.apply_change(&path(&["a.txt"]), FsState::File(b"x".to_vec())).unwrap();
    let first = s.changes_since(0).unwrap();
    s.apply_change(&path(&["a.txt"]), FsState::File(b"y".to_vec())).unwrap();
    let next = s.changes_since(first.cursor).unwrap();
    assert_eq!(next.messages, vec![updated(first.messages[0].id)]);
    assert_eq!(s.get_instance(1).unwrap().contents, b"y".to_vec());
}

#[test]
fn same_contents_log_nothing() {
    let mut s = fresh();
    s.apply_change(&path(&["a.txt"]), FsState::File(b"x".to_vec())).unwrap();
    s.apply_change(&path(&["a.txt"]), FsState::File(b"x".to_vec())).unwrap();
    s.apply_change(&path(&["missing"]), FsState::Absent).unwrap();
    assert_eq!(s.changes_since(0).unwrap().messages, vec![added(1)]);
}

#[test]
fn delete_directory_removes_everything_below() {
    let mut s = fresh();
    s.apply_change(&path(&["d"]), FsState::Directory).unwrap();
    for name in ["a.txt", "b.txt", "c.txt"] {
        s.apply_change(&path(&["d", name]), FsState::File(b"x".to_vec())).unwrap();
    }
    let before = s.changes_since(0).unwrap();
    assert_eq!(before.messages, vec![added(1), added(2), added(3), added(4)]);
    s.apply_change(&path(&["d"]), FsState::Absent).unwrap();
    let batch = s.changes_since(before.cursor).unwrap();
    assert_eq!(batch.messages.len(), 4);
    let mut ids: Vec<usize> = batch.messages.iter().map(|r| r.id).collect();
    assert!(batch.messages.iter().all(|r| r.kind == ChangeKind::Removed));
    assert_eq!(*ids.last().unwrap(), 1);
    ids.sort();
    assert_eq!(ids, vec![1, 2, 3, 4]);
    for id in 1..5 {
        assert_eq!(s.get_instance(id).err(), Some(ReadError::NotFound));
    }
    assert!(s.get_instance(ROOT_ID).unwrap().children.is_empty());
}

#[test]
fn cursors_never_go_back() {
    let mut s = fresh();
    let mut cursor = 0;
    for (i, name) in ["a", "b", "c"].iter().enumerate() {
        s.apply_change(&path(&[name]), FsState::File(vec![i as u8])).unwrap();
        let c = s.changes_since(cursor).unwrap();
        assert!(c.cursor >= cursor);
        let again = s.changes_since(cursor).unwrap();
        assert_eq!(again.cursor, c.cursor);
        assert_eq!(again.messages, c.messages);
        cursor = c.cursor;
    }
    assert_eq!(cursor, 3);
}

#[test]
fn repeated_subscriptions_see_whole_history() {
    let mut s = fresh();
    let mut seen: Vec<ChangeRecord> = Vec::new();
    let mut cursor = 0;
    s.apply_change(&path(&["d"]), FsState::Directory).unwrap();
    s.apply_change(&path(&["d", "x"]), FsState::File(b"1".to_vec())).unwrap();
    let c = s.changes_since(cursor).unwrap();
    seen.extend(c.messages);
    cursor = c.cursor;
    s.apply_change(&path(&["d", "x"]), FsState::File(b"2".to_vec())).unwrap();
    s.apply_change(&path(&["d"]), FsState::Absent).unwrap();
    let c = s.changes_since(cursor).unwrap();
    seen.extend(c.messages);
    assert_eq!(seen, s.changes_since(0).unwrap().messages);
    assert_eq!(seen, vec![added(1), added(2), updated(2), removed(2), removed(1)]);
}

#[test]
fn tree_links_stay_consistent() {
    let mut s = fresh();
    s.apply_change(&path(&["d"]), FsState::Directory).unwrap();
    s.apply_change(&path(&["d", "e"]), FsState::Directory).unwrap();
    s.apply_change(&path(&["d", "e", "f"]), FsState::File(vec![])).unwrap();
    s.apply_change(&path(&["g"]), FsState::File(vec![])).unwrap();
    s.apply_change(&path(&["d", "e"]), FsState::Absent).unwrap();
    for id in 0..5 {
        if let Ok(inst) = s.get_instance(id) {
            if let Some(p) = inst.parent {
                assert!(s.get_instance(p).unwrap().children.contains(&id));
            }
            for c in &inst.children {
                assert_eq!(s.get_instance(*c).unwrap().parent, Some(id));
            }
        }
    }
    assert_eq!(s.get_instance(1).unwrap().children, Vec::<usize>::new());
    assert_eq!(s.get_instance(ROOT_ID).unwrap().children, vec![1, 4]);
}

#[test]
fn recreated_path_gets_new_id() {
    let mut s = fresh();
    s.apply_change(&path(&["a.txt"]), FsState::File(b"x".to_vec())).unwrap();
    s.apply_change(&path(&["a.txt"]), FsState::Absent).unwrap();
    s.apply_change(&path(&["a.txt"]), FsState::File(b"x".to_vec())).unwrap();
    assert_eq!(s.changes_since(0).unwrap().messages, vec![added(1), removed(1), added(2)]);
}

#[test]
fn kind_change_replaces_instance() {
    let mut s = fresh();
    s.apply_change(&path(&["a"]), FsState::File(b"x".to_vec())).unwrap();
    s.apply_change(&path(&["a"]), FsState::Directory).unwrap();
    assert_eq!(s.changes_since(1).unwrap().messages, vec![removed(1), added(2)]);
    assert_eq!(s.get_instance(2).unwrap().kind, EntryKind::Directory);
}

#[test]
fn idle_subscription_keeps_cursor() {
    let mut s = fresh();
    s.apply_change(&path(&["a"]), FsState::Directory).unwrap();
    let c = s.changes_since(1).unwrap();
    assert!(c.messages.is_empty());
    assert_eq!(c.cursor, 1);
    match s.poll_subscription(1, true).unwrap() {
        PollAction::Respond(r) => {
            assert!(r.messages.is_empty());
            assert_eq!(r.cursor, 1);
        }
        PollAction::Wait => panic!("the wait ran out"),
    }
}

#[test]
fn pending_records_answer_at_once() {
    let mut s = fresh();
    s.apply_change(&path(&["a"]), FsState::Directory).unwrap();
    match s.poll_subscription(0, false).unwrap() {
        PollAction::Respond(r) => assert_eq!(r.messages, vec![added(1)]),
        PollAction::Wait => panic!("records are waiting"),
    }
}

#[test]
fn foreign_cursor_is_stale() {
    let s = fresh();
    assert_eq!(s.changes_since(5).err(), Some(SubscribeError::StaleSession));
    assert!(matches!(s.poll_subscription(1, true), Err(SubscribeError::StaleSession)));
}

#[test]
fn missing_parent_is_refused() {
    let mut s = fresh();
    assert_eq!(
        s.apply_change(&path(&["nope", "a.txt"]), FsState::File(vec![])),
        Err(ApplyError::MissingParent)
    );
    s.apply_change(&path(&["f"]), FsState::File(vec![])).unwrap();
    assert_eq!(
        s.apply_change(&path(&["f", "a.txt"]), FsState::Directory),
        Err(ApplyError::MissingParent)
    );
    assert_eq!(s.apply_change(&path(&["nope", "a.txt"]), FsState::Absent), Ok(()));
    assert_eq!(s.changes_since(0).unwrap().messages, vec![added(1)]);
}

#[test]
fn root_path_is_ignored() {
    let mut s = fresh();
    assert_eq!(s.apply_change(&path(&[]), FsState::Absent), Ok(()));
    assert!(s.get_instance(ROOT_ID).is_ok());
    assert!(s.changes_since(0).unwrap().messages.is_empty());
}

#[test]
fn unknown_id_is_not_found() {
    let s = fresh();
    assert_eq!(s.get_instance(3).err(), Some(ReadError::NotFound));
}

#[test]
fn root_info_reports_identity() {
    let s = fresh();
    let info = s.root_info();
    assert_eq!(info.session_id, 7);
    assert_eq!(info.root_instance_id, ROOT_ID);
    assert_eq!(info.project_name, Some("demo".to_string()));
}

#[test]
fn read_subtree_lists_everything_below() {
    let mut s = fresh();
    s.apply_change(&path(&["d"]), FsState::Directory).unwrap();
    s.apply_change(&path(&["d", "e"]), FsState::Directory).unwrap();
    s.apply_change(&path(&["d", "e", "f"]), FsState::File(vec![])).unwrap();
    s.apply_change(&path(&["g"]), FsState::File(vec![])).unwrap();
    assert_eq!(s.read_subtree(1).unwrap(), vec![1, 2, 3]);
    assert_eq!(s.read_subtree(ROOT_ID).unwrap(), vec![0, 1, 2, 3, 4]);
    assert_eq!(s.read_subtree(4).unwrap(), vec![4]);
    assert_eq!(s.read_subtree(9).err(), Some(ReadError::NotFound));
    s.apply_change(&path(&["d", "e"]), FsState::Absent).unwrap();
    assert_eq!(s.read_subtree(1).unwrap(), vec![1]);
    assert_eq!(s.read_subtree(2).err(), Some(ReadError::NotFound));
}

#[test]
fn add_leaves_other_instances_alone() {
    let mut s = fresh();
    s.apply_change(&path(&["a"]), FsState::File(b"x".to_vec())).unwrap();
    s.apply_change(&path(&["b"]), FsState::File(b"y".to_vec())).unwrap();
    assert_eq!(s.get_instance(1).unwrap().contents, b"x".to_vec());
    assert_eq!(s.get_instance(ROOT_ID).unwrap().kind, EntryKind::Directory);
    assert_eq!(s.get_instance(ROOT_ID).unwrap().children, vec![1, 2]);
}

#[test]
fn root_info_reports_server_version() {
    let info = fresh().root_info();
    assert_eq!(info.server_version, rojo::session::SERVER_VERSION);
}
