//! The best common ancestors of commits.
use forgefs::ancestry::{lca, merge_bases};
use forgefs::commit::Commit;
use forgefs::contribution::Contribution;
use forgefs::memory::MemoryObjectStore;
use forgefs::store::Store;
use forgefs::tree::Tree;
use forgefs::types::{Error, ObjectId};

type MemStore = Store<MemoryObjectStore>;

fn open() -> MemStore {
    Store::with_object_store(MemoryObjectStore::new())
}

fn commit(store: &mut MemStore, tree: ObjectId, parents: Vec<ObjectId>, ts: u64, msg: &str) -> ObjectId {
    store
        .put_commit(&Commit {
            tree,
            parents,
            agent: "clock-skew-test".to_string(),
            msg: msg.to_string(),
            ts,
            landmark: false,
            contribution: None,
        })
        .unwrap()
}

fn commit_with_contribution(
    store: &mut MemStore,
    tree: ObjectId,
    parent: ObjectId,
    contribution_ts: u64,
    msg: &str,
) -> ObjectId {
    let link = store
        .put_contribution(&Contribution {
            base: parent,
            tree,
            parents: vec![parent],
            reads: vec![],
            writes: vec![],
            agent: "clock-skew-test".to_string(),
            ts: contribution_ts,
        })
        .unwrap();
    store
        .put_commit(&Commit {
            tree,
            parents: vec![parent],
            agent: "clock-skew-test".to_string(),
            msg: msg.to_string(),
            ts: 123,
            landmark: false,
            contribution: Some(link),
        })
        .unwrap()
}

#[test]
fn graph_causality_beats_inverted_wall_clocks() {
    let mut store = open();
    let tree = store.put_tree(&Tree::new(vec![]).unwrap()).unwrap();

    // Deliberately make every causal generation move backward in wall-clock time.
    let root = commit(&mut store, tree, vec![], 4_000_000_000, "root");
    let base = commit(&mut store, tree, vec![root], 3_000_000_000, "base");
    let ours = commit(&mut store, tree, vec![base], 2, "ours");
    let theirs = commit(&mut store, tree, vec![base], 1, "theirs");

    assert_eq!(merge_bases(&mut store, ours, theirs).unwrap(), vec![base]);
    assert_eq!(lca(&mut store, ours, theirs).unwrap(), Some(base));
}

#[test]
fn graph_causality_beats_extreme_future_clock_skew() {
    let mut store = open();
    let tree = store.put_tree(&Tree::new(vec![]).unwrap()).unwrap();

    // The root looks newest by timestamp; the actual best base is its descendant.
    let root = commit(&mut store, tree, vec![], u64::MAX, "future-root");
    let base = commit(&mut store, tree, vec![root], 0, "real-base");
    let ours = commit(&mut store, tree, vec![base], u64::MAX - 1, "ours");
    let theirs = commit(&mut store, tree, vec![base], 7, "theirs");

    assert_eq!(merge_bases(&mut store, ours, theirs).unwrap(), vec![base]);
}

#[test]
fn contribution_timestamps_do_not_order_merge_bases() {
    let mut store = open();
    let tree = store.put_tree(&Tree::new(vec![]).unwrap()).unwrap();

    let root = commit(&mut store, tree, vec![], 123, "root");
    // Make the causal base look newest and both children look arbitrarily older/newer
    // through their Contribution clocks. Merge-base selection must still follow only
    // Commit.parents.
    let base = commit_with_contribution(&mut store, tree, root, u64::MAX, "base");
    let ours = commit_with_contribution(&mut store, tree, base, 0, "ours");
    let theirs = commit_with_contribution(&mut store, tree, base, 1, "theirs");

    assert_eq!(merge_bases(&mut store, ours, theirs).unwrap(), vec![base]);
    assert_eq!(lca(&mut store, ours, theirs).unwrap(), Some(base));
}

#[test]
fn identical_commit_validation_is_not_timestamp_ordering() {
    let mut store = open();
    let tree = store.put_tree(&Tree::new(vec![]).unwrap()).unwrap();
    let commit = commit(&mut store, tree, vec![], u64::MAX, "replayed-looking");

    // Equal heads are accepted because the object is a valid commit, not because
    // its timestamp is fresh or plausible.
    assert_eq!(merge_bases(&mut store, commit, commit).unwrap(), vec![commit]);
}

fn plain_commit(s: &mut MemStore, parents: Vec<ObjectId>, n: u64) -> ObjectId {
    let tree = s.put_tree(&Tree::new(vec![]).unwrap()).unwrap();
    s.put_commit(&Commit {
        tree,
        parents,
        agent: "test".to_string(),
        msg: format!("c{n}"),
        ts: n,
        landmark: false,
        contribution: None,
    })
    .unwrap()
}

#[test]
fn single_best_common_ancestor_is_selected() {
    let mut s = open();
    let root = plain_commit(&mut s, vec![], 0);
    let base = plain_commit(&mut s, vec![root], 1);
    let a = plain_commit(&mut s, vec![base], 2);
    let b = plain_commit(&mut s, vec![base], 3);
    assert_eq!(lca(&mut s, a, b).unwrap(), Some(base));
}

#[test]
fn criss_cross_does_not_silently_choose_one_of_multiple_bases() {
    let mut s = open();
    let root = plain_commit(&mut s, vec![], 0);
    let a1 = plain_commit(&mut s, vec![root], 1);
    let b1 = plain_commit(&mut s, vec![root], 2);
    let a2 = plain_commit(&mut s, vec![a1, b1], 3);
    let b2 = plain_commit(&mut s, vec![b1, a1], 4);

    let err = lca(&mut s, a2, b2).unwrap_err();
    assert!(matches!(err, Error::Invalid(_)), "{err:?}");
}

#[test]
fn malformed_parent_edge_fails_closed() {
    let mut s = open();
    let not_a_commit = s.put_blob_data(b"blob parent").unwrap();
    let a = plain_commit(&mut s, vec![not_a_commit], 1);
    let b = plain_commit(&mut s, vec![not_a_commit], 2);

    assert!(lca(&mut s, a, b).is_err());
}
