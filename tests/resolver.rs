use std::collections::HashMap;

use webodb_server::{
    ClientCommand, EntryKind, Object, ObjectId, ObjectKind, ResolveError, Resolver, ServerCommand,
    TreeEntry, WantQuery,
};

fn hex_id(s: &str) -> ObjectId {
    let mut bytes = [0u8; 20];
    for (i, b) in bytes.iter_mut().enumerate() {
        *b = u8::from_str_radix(&s[2 * i..2 * i + 2], 16).unwrap();
    }
    ObjectId { bytes }
}

fn id(n: u8) -> ObjectId {
    let mut bytes = [0u8; 20];
    bytes[19] = n;
    ObjectId { bytes }
}

fn commit(summary: &str, parents: &[ObjectId]) -> Object {
    Object::Commit { summary: summary.to_string(), parents: parents.to_vec() }
}

fn tree(entries: &[(&str, ObjectId, EntryKind)]) -> Object {
    Object::Tree {
        entries: entries
            .iter()
            .map(|(name, id, kind)| TreeEntry { name: name.to_string(), id: *id, kind: *kind })
            .collect(),
    }
}

fn blob(payload: &[u8]) -> Object {
    Object::Blob { payload: payload.to_vec() }
}

type Store = HashMap<ObjectId, Object>;

/// Drives a resolver against `store`, as a session does.
fn run(store: &Store, command: ClientCommand) -> (Vec<ServerCommand>, Option<ResolveError>) {
    let mut resolver = Resolver::for_command(command);
    let mut down = vec![];
    while let Some(wanted) = resolver.next_wanted() {
        match resolver.deliver(store.get(&wanted).cloned()) {
            Ok(obj) => down.push(ServerCommand::Push(obj)),
            Err(e) => return (down, Some(e)),
        }
    }
    assert_eq!(resolver.next_wanted(), None);
    (down, None)
}

fn summaries(down: &[ServerCommand]) -> Vec<String> {
    down.iter()
        .map(|ServerCommand::Push(obj)| match obj {
            Object::Commit { summary, .. } => summary.clone(),
            other => panic!("not a commit: {:?}", other),
        })
        .collect()
}

fn first_pushed_id(store: &Store, down: &[ServerCommand]) -> Vec<ObjectId> {
    // Maps each pushed object back to its id by content; test stores hold no duplicates.
    down.iter()
        .map(|ServerCommand::Push(obj)| {
            *store
                .iter()
                .find(|(_, o)| format!("{:?}", o) == format!("{:?}", obj))
                .map(|(k, _)| k)
                .unwrap()
        })
        .collect()
}

fn history() -> Store {
    let first = hex_id("47877e8822fa32cce2580089990623eb2bd59363");
    let second = hex_id("f80dbc1436db9aec14bc7be79d0d21d0d132d5fe");
    let other = id(7);
    let merge = hex_id("3b6be088f09c77ff62ae9edcde714c7ca9733b49");
    let mut store = Store::new();
    store.insert(first, commit("commit message", &[]));
    store.insert(second, commit("commit 2", &[first]));
    store.insert(other, commit("commit in other branch", &[first]));
    store.insert(merge, commit("Merge branch 'test' into HEAD", &[other, second]));
    store
}

#[test]
fn pushes_wanted_object() {
    let store = history();
    let up = ClientCommand::Want(WantQuery::object(hex_id("47877e8822fa32cce2580089990623eb2bd59363")));
    let (down, err) = run(&store, up);
    assert_eq!(err, None);
    let down = summaries(&down);
    assert_eq!(&down[0], "commit message");
    assert_eq!(down.len(), 1);
}

#[test]
fn pushes_wanted_parent() {
    let store = history();
    let up = ClientCommand::Want(WantQuery::CommitAncestry(
        hex_id("f80dbc1436db9aec14bc7be79d0d21d0d132d5fe"),
        1,
    ));
    let (down, err) = run(&store, up);
    assert_eq!(err, None);
    let down = summaries(&down);
    assert_eq!(&down[0], "commit 2");
    assert_eq!(&down[1], "commit message");
    assert_eq!(down.len(), 2);
}

#[test]
fn pushes_wanted_parents() {
    let store = history();
    let up = ClientCommand::Want(WantQuery::CommitAncestry(
        hex_id("3b6be088f09c77ff62ae9edcde714c7ca9733b49"),
        1,
    ));
    let (down, err) = run(&store, up);
    assert_eq!(err, None);
    let down = summaries(&down);
    assert_eq!(&down[0], "Merge branch 'test' into HEAD");
    assert_eq!(&down[1], "commit in other branch");
    assert_eq!(&down[2], "commit 2");
    assert_eq!(down.len(), 3);
}

#[test]
fn merge_history_fans_out_to_shared_root_once() {
    let store = history();
    let up = ClientCommand::Want(WantQuery::CommitAncestry(
        hex_id("3b6be088f09c77ff62ae9edcde714c7ca9733b49"),
        5,
    ));
    let (down, err) = run(&store, up);
    assert_eq!(err, None);
    assert_eq!(
        summaries(&down),
        vec!["Merge branch 'test' into HEAD", "commit in other branch", "commit 2", "commit message"]
    );
}

fn diamond() -> Store {
    let mut store = Store::new();
    store.insert(id(1), commit("A", &[id(2), id(3)]));
    store.insert(id(2), commit("B", &[id(4)]));
    store.insert(id(3), commit("C", &[id(4)]));
    store.insert(id(4), commit("D", &[id(5)]));
    store.insert(id(5), commit("E", &[]));
    store
}

#[test]
fn diamond_emits_shared_ancestor_once() {
    let store = diamond();
    let (down, err) = run(&store, ClientCommand::Want(WantQuery::CommitAncestry(id(1), 2)));
    assert_eq!(err, None);
    assert_eq!(summaries(&down), vec!["A", "B", "C", "D"]);
}

#[test]
fn ancestry_stays_within_depth() {
    let store = diamond();
    let (down, err) = run(&store, ClientCommand::Want(WantQuery::CommitAncestry(id(1), 1)));
    assert_eq!(err, None);
    assert_eq!(summaries(&down), vec!["A", "B", "C"]);
    let (down, err) = run(&store, ClientCommand::Want(WantQuery::CommitAncestry(id(1), 3)));
    assert_eq!(err, None);
    assert_eq!(summaries(&down), vec!["A", "B", "C", "D", "E"]);
    assert_eq!(first_pushed_id(&store, &down)[0], id(1));
}

#[test]
fn depth_zero_yields_only_base() {
    let store = diamond();
    let (down, err) = run(&store, ClientCommand::Want(WantQuery::CommitAncestry(id(1), 0)));
    assert_eq!(err, None);
    assert_eq!(summaries(&down), vec!["A"]);
}

#[test]
fn root_commit_ends_branch_without_error() {
    let store = diamond();
    let (down, err) = run(&store, ClientCommand::Want(WantQuery::CommitAncestry(id(5), 9)));
    assert_eq!(err, None);
    assert_eq!(summaries(&down), vec!["E"]);
}

#[test]
fn ancestry_of_largest_depth_terminates() {
    let store = diamond();
    let (down, err) = run(&store, ClientCommand::Want(WantQuery::CommitAncestry(id(1), usize::MAX)));
    assert_eq!(err, None);
    assert_eq!(down.len(), 5);
}

fn trees() -> Store {
    let mut store = Store::new();
    store.insert(id(10), tree(&[("sub", id(11), EntryKind::Tree), ("a.txt", id(12), EntryKind::Blob)]));
    store.insert(id(11), tree(&[("b.txt", id(13), EntryKind::Blob), ("again.txt", id(12), EntryKind::Blob)]));
    store.insert(id(12), blob(b"a"));
    store.insert(id(13), blob(b"b"));
    store
}

#[test]
fn peel_tree_emits_each_object_once_depth_first() {
    let store = trees();
    let (down, err) = run(&store, ClientCommand::Want(WantQuery::PeelTree(id(10))));
    assert_eq!(err, None);
    assert_eq!(first_pushed_id(&store, &down), vec![id(10), id(11), id(13), id(12)]);
}

#[test]
fn peel_tree_of_subtree_alone() {
    let store = trees();
    let (down, err) = run(&store, ClientCommand::Want(WantQuery::PeelTree(id(11))));
    assert_eq!(err, None);
    assert_eq!(first_pushed_id(&store, &down), vec![id(11), id(13), id(12)]);
}

#[test]
fn peel_tree_of_empty_tree() {
    let mut store = Store::new();
    store.insert(id(20), tree(&[]));
    let (down, err) = run(&store, ClientCommand::Want(WantQuery::PeelTree(id(20))));
    assert_eq!(err, None);
    assert_eq!(down.len(), 1);
}

#[test]
fn peel_blob_emits_the_blob() {
    let store = trees();
    let (down, err) = run(&store, ClientCommand::Want(WantQuery::PeelBlob(id(12))));
    assert_eq!(err, None);
    assert_eq!(first_pushed_id(&store, &down), vec![id(12)]);
}

#[test]
fn peel_blob_of_commit_is_type_mismatch() {
    let store = diamond();
    let (down, err) = run(&store, ClientCommand::Want(WantQuery::PeelBlob(id(1))));
    assert!(down.is_empty());
    assert_eq!(err, Some(ResolveError::TypeMismatch(id(1), ObjectKind::Blob, ObjectKind::Commit)));
}

#[test]
fn missing_base_is_not_found_for_every_mode() {
    let store = diamond();
    for q in [
        WantQuery::object(id(99)),
        WantQuery::CommitAncestry(id(99), 3),
        WantQuery::PeelTree(id(99)),
        WantQuery::PeelBlob(id(99)),
    ] {
        let (down, err) = run(&store, ClientCommand::Want(q));
        assert!(down.is_empty());
        assert_eq!(err, Some(ResolveError::NotFound(id(99))));
    }
}

#[test]
fn missing_parent_fails_after_what_was_resolved() {
    let mut store = Store::new();
    store.insert(id(1), commit("A", &[id(2), id(3)]));
    store.insert(id(2), commit("B", &[]));
    let (down, err) = run(&store, ClientCommand::Want(WantQuery::CommitAncestry(id(1), 1)));
    assert_eq!(summaries(&down), vec!["A", "B"]);
    assert_eq!(err, Some(ResolveError::NotFound(id(3))));
}

#[test]
fn tree_entry_of_wrong_kind_is_type_mismatch() {
    let mut store = Store::new();
    store.insert(id(10), tree(&[("x", id(11), EntryKind::Blob)]));
    store.insert(id(11), tree(&[]));
    let (down, err) = run(&store, ClientCommand::Want(WantQuery::PeelTree(id(10))));
    assert_eq!(down.len(), 1);
    assert_eq!(err, Some(ResolveError::TypeMismatch(id(11), ObjectKind::Blob, ObjectKind::Tree)));
}

#[test]
fn ancestry_of_a_tree_is_type_mismatch() {
    let store = trees();
    let (down, err) = run(&store, ClientCommand::Want(WantQuery::object(id(10))));
    assert!(down.is_empty());
    assert_eq!(err, Some(ResolveError::TypeMismatch(id(10), ObjectKind::Commit, ObjectKind::Tree)));
}

#[test]
fn no_more_work_after_an_error() {
    let mut resolver = Resolver::new(WantQuery::PeelBlob(id(1)));
    assert_eq!(resolver.next_wanted(), Some(id(1)));
    assert_eq!(resolver.deliver(None).unwrap_err(), ResolveError::NotFound(id(1)));
    assert_eq!(resolver.next_wanted(), None);
}

#[test]
fn query_constructors_keep_the_base() {
    let q = WantQuery::object(id(4));
    assert!(matches!(q, WantQuery::CommitAncestry(b, 0) if b == id(4)));
    assert_eq!(q.base(), id(4));
    assert!(matches!(q.with_ancestry(3), WantQuery::CommitAncestry(b, 3) if b == id(4)));
    assert!(matches!(q.as_tree_peel(), WantQuery::PeelTree(b) if b == id(4)));
    assert!(matches!(q.as_blob_peel(), WantQuery::PeelBlob(b) if b == id(4)));
    assert_eq!(WantQuery::PeelBlob(id(6)).base(), id(6));
}

#[test]
fn kinds_of_objects_and_entries() {
    assert_eq!(commit("c", &[]).kind(), ObjectKind::Commit);
    assert_eq!(tree(&[]).kind(), ObjectKind::Tree);
    assert_eq!(blob(b"").kind(), ObjectKind::Blob);
    assert_eq!(EntryKind::Tree.object_kind(), ObjectKind::Tree);
    assert_eq!(EntryKind::Blob.object_kind(), ObjectKind::Blob);
}

#[test]
fn object_ids_compare_by_every_byte() {
    let a = hex_id("47877e8822fa32cce2580089990623eb2bd59363");
    let mut b = a;
    assert_eq!(a, b);
    b.bytes[0] ^= 1;
    assert_ne!(a, b);
    let mut c = a;
    c.bytes[19] ^= 1;
    assert_ne!(a, c);
}
