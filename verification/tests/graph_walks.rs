//! Walks over the graph of objects.
use forgefs::commit::Commit;
use forgefs::contribution::{Contribution, ContributionRead};
use forgefs::graph::{
    max_graph_objects, GraphEdge, GraphExpectation, GraphWorkQueue, DEFAULT_MAX_GRAPH_OBJECTS,
    MAX_GRAPH_OBJECTS_ENV,
};
use forgefs::memory::MemoryObjectStore;
use forgefs::store::Store;
use forgefs::tree::{Tree, TreeEntry};
use forgefs::types::{EntryKind, Error, ObjectId, ObjectType};

type MemStore = Store<MemoryObjectStore>;

fn open() -> MemStore {
    Store::with_object_store(MemoryObjectStore::new())
}

fn exact(id: ObjectId, ty: ObjectType, resource: String) -> GraphEdge {
    GraphEdge { id, expected: GraphExpectation::Exact(ty), resource }
}

fn any(id: ObjectId, resource: String) -> GraphEdge {
    GraphEdge { id, expected: GraphExpectation::Any, resource }
}

#[test]
fn verified_walk_rejects_tree_edge_to_blob() {
    let mut s = open();
    let blob = s.put_blob_data(b"not a tree").unwrap();
    let root = s
        .put_tree(
            &Tree::new(vec![TreeEntry {
                name: "child".to_string(),
                kind: EntryKind::Tree,
                id: blob,
                executable: false,
            }])
            .unwrap(),
        )
        .unwrap();

    let err = s.reachable_oids_verified(root).unwrap_err();
    assert!(matches!(err, Error::Corrupt(_)), "{err:?}");
}

#[test]
fn verified_walk_rejects_blob_edge_to_tree() {
    let mut s = open();
    let child_tree = s.put_tree(&Tree::new(vec![]).unwrap()).unwrap();
    let root = s
        .put_tree(
            &Tree::new(vec![TreeEntry {
                name: "child".to_string(),
                kind: EntryKind::Blob,
                id: child_tree,
                executable: false,
            }])
            .unwrap(),
        )
        .unwrap();

    let err = s.reachable_oids_verified(root).unwrap_err();
    assert!(matches!(err, Error::Corrupt(_)), "{err:?}");
}

#[test]
fn verified_commit_graph_follows_and_type_checks_contributions() {
    let mut store = open();
    let tree = store.put_tree(&Tree::new(vec![]).unwrap()).unwrap();
    let base = store
        .put_commit(&Commit {
            tree,
            parents: vec![],
            agent: "init".to_string(),
            msg: "base".to_string(),
            ts: 1,
            landmark: false,
            contribution: None,
        })
        .unwrap();
    let read = store.put_blob_data(b"observed").unwrap();
    let repeated_reads = (0..128)
        .map(|n| ContributionRead {
            path: format!("/observed/{n:03}"),
            id: read,
        })
        .collect();
    let contribution = store
        .put_contribution(&Contribution {
            base,
            tree,
            parents: vec![base],
            reads: repeated_reads,
            writes: vec!["/result".to_string()],
            agent: "agent".to_string(),
            ts: 2,
        })
        .unwrap();
    let commit = store
        .put_commit(&Commit {
            tree,
            parents: vec![base],
            agent: "agent".to_string(),
            msg: "result".to_string(),
            ts: 2,
            landmark: false,
            contribution: Some(contribution),
        })
        .unwrap();

    let graph = store
        .reachable_graph_verified(commit, ObjectType::Commit)
        .unwrap();
    assert!(graph.iter().any(|object| {
        object.id == contribution && object.object_type == ObjectType::Contribution
    }));
    assert_eq!(
        graph
            .iter()
            .filter(|object| object.id == read && object.object_type == ObjectType::Blob)
            .count(),
        1
    );

    let malformed = store
        .put_contribution(&Contribution {
            base,
            tree,
            parents: vec![base],
            reads: vec![ContributionRead {
                path: "/not-a-blob".to_string(),
                id: tree,
            }],
            writes: vec![],
            agent: "agent".to_string(),
            ts: 3,
        })
        .unwrap();
    let malformed_commit = store
        .put_commit(&Commit {
            tree,
            parents: vec![base],
            agent: "agent".to_string(),
            msg: "malformed".to_string(),
            ts: 3,
            landmark: false,
            contribution: Some(malformed),
        })
        .unwrap();
    let error = store
        .reachable_graph_verified(malformed_commit, ObjectType::Commit)
        .unwrap_err();
    assert!(
        matches!(&error, Error::Corrupt(detail) if detail.contains("expected blob") && detail.contains("found tree")),
        "{error:?}"
    );
}

#[test]
fn repeated_edges_cost_one_constraint_but_conflicting_types_are_preserved() {
    let id = ObjectId([7; 32]);
    let mut queue = GraphWorkQueue::default();
    for n in 0..100_000 {
        queue
            .schedule(exact(id, ObjectType::Blob, format!("read:{n}")))
            .unwrap();
    }
    queue
        .schedule(exact(id, ObjectType::Tree, "conflicting-edge".to_string()))
        .unwrap();

    assert_eq!(queue.named_len(), 1);
    assert_eq!(queue.constraints_len(), 2);
    assert_eq!(queue.waiting_len(), 2);
}

/// The ceiling is a resource bound on a WALK, so exceeding it is
/// `Invalid` (exit 1) and never `Corrupt` (exit 2). It used to be `Corrupt`,
/// which told an operator whose bytes were entirely intact that their
/// repository was damaged, from `fsck` and `gc` -- the two commands they
/// run when a repository has grown large.
#[test]
fn exceeding_the_walk_ceiling_is_a_refusal_not_a_corruption_report() {
    let mut queue = GraphWorkQueue::with_limit(2);
    queue
        .schedule(any(ObjectId([1; 32]), "root".to_string()))
        .unwrap();
    queue
        .schedule(any(ObjectId([2; 32]), "second".to_string()))
        .unwrap();
    // A THIRD expectation on an id already scheduled costs no new object.
    queue
        .schedule(exact(ObjectId([2; 32]), ObjectType::Tree, "again".to_string()))
        .unwrap();

    let error = queue
        .schedule(any(ObjectId([3; 32]), "third".to_string()))
        .unwrap_err();
    let Error::Invalid(message) = &error else {
        panic!("the walk ceiling must not be reported as corruption: {error:?}");
    };
    assert!(message.contains("not corrupt"), "{message}");
    assert!(message.contains(MAX_GRAPH_OBJECTS_ENV), "{message}");
}

/// The override may only raise a walk that already refuses, so an unusable value takes the
/// default rather than failing a walk that was fine.
#[test]
fn the_default_ceiling_is_unchanged_when_nothing_overrides_it() {
    assert_eq!(DEFAULT_MAX_GRAPH_OBJECTS, 1_000_000);
    assert_eq!(max_graph_objects(None), DEFAULT_MAX_GRAPH_OBJECTS);
    assert_eq!(GraphWorkQueue::default().limit(), DEFAULT_MAX_GRAPH_OBJECTS);
}
