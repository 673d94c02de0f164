//! Typed reads and writes of a store.
use forgefs::ancestry::commit_parent_map;
use forgefs::catalog::Meta;
use forgefs::commit::Commit;
use forgefs::conflict::{Conflict, ConflictPath};
use forgefs::contribution::{Contribution, ContributionRead};
use forgefs::graph::{decode_graph_object, GraphEdge, GraphExpectation, GraphWorkQueue};
use forgefs::hash::{hash_bytes, hash_parts};
use forgefs::memory::MemoryObjectStore;
use forgefs::merge::{three_way, MergeOutcome};
use forgefs::object::decode_object_type;
use forgefs::objectstore::ObjectPlane;
use forgefs::overlay::{apply_overlay, Overlay};
use forgefs::renames::{exact_rename_conflicts, tree_changes};
use forgefs::snapshot::Snapshot;
use forgefs::store::Store;
use forgefs::tree::{walk_tree_entries, Tree, TreeEntry};
use forgefs::types::{EntryKind, Error, ObjectId, ObjectType};

type MemStore = Store<MemoryObjectStore>;

fn open() -> MemStore {
    Store::with_object_store(MemoryObjectStore::new())
}

fn tree_of(store: &mut MemStore, files: &[(&str, &[u8])]) -> ObjectId {
    let mut ov = Overlay::new();
    for (path, data) in files {
        let id = store.put_blob_data(data).unwrap();
        ov.insert(path.to_string(), Some((id, false)));
    }
    apply_overlay(None, &ov, store).unwrap()
}

fn blob(store: &mut MemStore, data: &[u8]) -> ObjectId {
    store.put_blob_data(data).unwrap()
}

fn commit(tree: ObjectId, parents: Vec<ObjectId>) -> Commit {
    Commit {
        tree,
        parents,
        agent: "agent-a".to_string(),
        msg: "work".to_string(),
        ts: 7,
        landmark: false,
        contribution: None,
    }
}

#[test]
fn ids_are_blake3_digests() {
    assert_eq!(
        hash_bytes(b"").hex(),
        "af1349b9f5f9a1a6a0404dea36dcc9499bcb25c9adc112b7cc9a93cae41f3262"
    );
    assert_eq!(hash_parts(&[b"ab".as_slice(), b"", b"c"]), hash_bytes(b"abc"));
}

#[test]
fn an_object_in_parts_is_the_object_joined() {
    let mut store = open();
    let id = store.put_raw_parts(&[b"ab".as_slice(), b"c"]).unwrap();
    assert_eq!(id, store.put_raw(b"abc").unwrap());
    assert_eq!(store.get_raw(id).unwrap(), b"abc");
}

#[test]
fn introductions_come_tree_first_and_once_per_place() {
    let mut store = open();
    let before = tree_of(&mut store, &[("a", b"a"), ("d/x", b"x")]);
    let after = tree_of(&mut store, &[("a", b"a"), ("d/x", b"x"), ("d/y", b"y")]);
    let y = blob(&mut store, b"y");
    let dir = store.get_tree(after).unwrap().entries[1].id;
    assert_eq!(
        store.collect_intros(Some(before), after).unwrap(),
        vec![after, dir, y]
    );
    assert!(store.collect_intros(Some(after), after).unwrap().is_empty());
    let x = blob(&mut store, b"x");
    let a = blob(&mut store, b"a");
    assert_eq!(
        store.collect_intros(None, after).unwrap(),
        vec![after, a, dir, x, y]
    );
}

#[test]
fn introductions_of_a_missing_object_fail() {
    let mut store = open();
    let mut ov = Overlay::new();
    ov.insert("a".to_string(), Some((ObjectId([9; 32]), false)));
    let root = apply_overlay(None, &ov, &mut store).unwrap();
    assert!(matches!(
        store.collect_intros(None, root),
        Err(Error::NotFound(_))
    ));
    let loose = blob(&mut store, b"loose");
    assert!(matches!(
        store.collect_intros(None, loose),
        Err(Error::Corrupt(_))
    ));
}

#[test]
fn the_first_commit_of_an_object_stays_recorded() {
    let mut store = open();
    let mut meta = Meta::new();
    let before = tree_of(&mut store, &[("a", b"a")]);
    let after = tree_of(&mut store, &[("a", b"a"), ("b", b"b")]);
    let one = store.put_commit(&commit(before, vec![])).unwrap();
    let two = store.put_commit(&commit(after, vec![one])).unwrap();
    store
        .record_intros(&mut meta, None, before, one, "first", 1)
        .unwrap();
    store
        .record_intros(&mut meta, Some(before), after, two, "second", 2)
        .unwrap();
    store
        .record_intros(&mut meta, None, after, two, "third", 3)
        .unwrap();
    let a = blob(&mut store, b"a");
    let b = blob(&mut store, b"b");
    assert_eq!(meta.intro_get(a).as_deref(), Some("first"));
    assert_eq!(meta.intro_get(b).as_deref(), Some("second"));
    assert_eq!(meta.intro_get(after).as_deref(), Some("second"));
    assert!(store
        .record_intros(&mut meta, None, ObjectId([1; 32]), two, "fourth", 4)
        .is_err());
    assert_eq!(meta.intro_get(ObjectId([1; 32])), None);
}

#[test]
fn typed_objects_read_back_as_written() {
    let mut store = open();
    let tree = tree_of(&mut store, &[("a", b"a")]);
    let c = commit(tree, vec![]);
    let commit_id = store.put_commit(&c).unwrap();
    assert_eq!(store.get_commit(commit_id).unwrap(), c);
    let contribution = Contribution {
        base: commit_id,
        tree,
        parents: vec![commit_id],
        reads: vec![ContributionRead {
            path: "a".to_string(),
            id: ObjectId([4; 32]),
        }],
        writes: vec!["b".to_string()],
        agent: "agent-a".to_string(),
        ts: 1,
    };
    let id = store.put_contribution(&contribution).unwrap();
    assert_eq!(store.get_contribution(id).unwrap(), contribution);
    let conflict = Conflict {
        bases: vec![tree],
        ours: tree,
        theirs: tree,
        paths: vec![ConflictPath {
            path: "a".to_string(),
            a: Some(ObjectId([1; 32])),
            b: None,
            base: Some(ObjectId([2; 32])),
        }],
        causal: vec![],
    };
    let id = store.put_conflict(&conflict).unwrap();
    assert_eq!(store.get_conflict(id).unwrap(), conflict);
    let snapshot = Snapshot {
        tree,
        commit: commit_id,
        tag: "v1".to_string(),
        ts: 3,
        prov: ObjectId([3; 32]),
        pk: [4; 32],
        sig: [5; 64],
    };
    let id = store.put_snapshot(&snapshot).unwrap();
    assert_eq!(store.get_snapshot(id).unwrap(), snapshot);
    assert!(store.get_commit(tree).is_err());
    assert!(store.get_tree(commit_id).is_err());
}

#[test]
fn a_second_read_of_a_tree_is_a_hit() {
    let mut store = open();
    let tree = tree_of(&mut store, &[("a", b"a")]);
    let before = store.cache_stats();
    store.get_tree(tree).unwrap();
    let after = store.cache_stats();
    assert_eq!(after.tree_cache_hits, before.tree_cache_hits + 1);
    assert_eq!(after.tree_cache_misses, before.tree_cache_misses);
    store.forget_cached(tree);
    store.get_tree(tree).unwrap();
    let last = store.cache_stats();
    assert_eq!(last.tree_cache_misses, after.tree_cache_misses + 1);
}

#[test]
fn the_ancestry_of_a_commit_lists_the_parents() {
    let mut store = open();
    let tree = tree_of(&mut store, &[("a", b"a")]);
    let root = store.put_commit(&commit(tree, vec![])).unwrap();
    let child = store.put_commit(&commit(tree, vec![root])).unwrap();
    let map = commit_parent_map(&mut store, child).unwrap();
    assert_eq!(map.len(), 2);
    assert_eq!(map.get(&child), Some(&vec![root]));
    assert_eq!(map.get(&root), Some(&vec![]));
    assert!(commit_parent_map(&mut store, ObjectId([8; 32])).is_err());
}

#[test]
fn the_edges_of_a_commit_are_its_tree_and_parents() {
    let mut store = open();
    let tree = tree_of(&mut store, &[("a", b"a")]);
    let root = store.put_commit(&commit(tree, vec![])).unwrap();
    let bytes = commit(tree, vec![root]).encode();
    assert_eq!(decode_object_type(&bytes).unwrap(), ObjectType::Commit);
    let d = decode_graph_object(hash_bytes(&bytes), &bytes).unwrap();
    assert_eq!(d.object_type, ObjectType::Commit);
    assert_eq!(d.edges.iter().map(|e| e.id).collect::<Vec<_>>(), vec![tree, root]);
    assert!(matches!(decode_object_type(b""), Err(Error::Corrupt(_))));
}

#[test]
fn changes_are_told_by_path() {
    let mut store = open();
    let base = tree_of(&mut store, &[("a", b"1"), ("d/x", b"2"), ("d/y", b"3")]);
    let side = tree_of(&mut store, &[("a", b"1"), ("d/x", b"2"), ("d/z", b"3")]);
    let c = tree_changes(&mut store, base, side).unwrap();
    assert_eq!(c.deleted.len(), 1);
    assert!(c.deleted.contains("d/y"));
    assert_eq!(c.added.len(), 1);
    assert!(c.added.contains("d/z"));
    let same = tree_changes(&mut store, base, base).unwrap();
    assert_eq!(same.deleted.len() + same.added.len(), 0);
}

#[test]
fn renames_to_two_places_conflict() {
    let mut store = open();
    let base = tree_of(&mut store, &[("old", b"moved"), ("keep", b"k")]);
    let ours = tree_of(&mut store, &[("here", b"moved"), ("keep", b"k")]);
    let theirs = tree_of(&mut store, &[("there", b"moved"), ("keep", b"k")]);
    let moved = blob(&mut store, b"moved");
    let v = exact_rename_conflicts(&mut store, base, ours, theirs).unwrap();
    assert_eq!(
        v,
        vec![ConflictPath {
            path: "old".to_string(),
            a: None,
            b: None,
            base: Some(moved),
        }]
    );
    assert!(exact_rename_conflicts(&mut store, base, ours, ours)
        .unwrap()
        .is_empty());
    assert!(exact_rename_conflicts(&mut store, base, ObjectId([7; 32]), ours).is_err());
}

#[test]
fn the_entries_of_a_tree_come_with_their_names() {
    let mut store = open();
    let root = tree_of(&mut store, &[("b", b"2"), ("a", b"1")]);
    let tree = store.get_tree(root).unwrap();
    let names: Vec<String> = walk_tree_entries(&tree)
        .unwrap()
        .into_iter()
        .map(|(name, _)| name)
        .collect();
    assert_eq!(names, vec!["a".to_string(), "b".to_string()]);
    let map = tree.as_map();
    assert_eq!(map.len(), 2);
    assert_eq!(map.get("a").unwrap().id, tree.entries[0].id);
    assert!(map.get("c").is_none());
}

#[test]
fn provenance_batch_is_atomic_and_old_tree_type_is_strict() {
    let mut meta = Meta::new();
    let mut store = open();
    let new_tree = store.put_tree(&Tree::new(vec![]).unwrap()).unwrap();
    let old_blob = store.put_blob_data(b"old-is-not-a-tree").unwrap();
    let commit = store
        .put_commit(&Commit {
            tree: new_tree,
            parents: vec![],
            agent: "a".to_string(),
            msg: "m".to_string(),
            ts: 1,
            landmark: false,
            contribution: None,
        })
        .unwrap();
    assert!(matches!(
        store.record_intros(&mut meta, Some(old_blob), new_tree, commit, "a", 1),
        Err(Error::Corrupt(_))
    ));
    assert_eq!(meta.intro_get(new_tree), None);
}

#[test]
fn a_tree_that_is_put_again_is_cached_again() {
    let mut store = open();
    let tree = tree_of(&mut store, &[("a", b"a")]);
    let value = store.get_tree(tree).unwrap();
    store.forget_cached(tree);
    assert_eq!(store.put_tree(&value).unwrap(), tree);
    let before = store.cache_stats();
    assert_eq!(store.get_tree(tree).unwrap(), value);
    let after = store.cache_stats();
    assert_eq!(after.tree_cache_hits, before.tree_cache_hits + 1);
    assert_eq!(after.tree_cache_misses, before.tree_cache_misses);
    assert_eq!(after.object_cache_misses, before.object_cache_misses);
}

#[test]
fn a_tree_out_of_order_is_served_from_memory_alone() {
    let entry = |name: &str| TreeEntry {
        name: name.to_string(),
        kind: EntryKind::Blob,
        id: ObjectId([5; 32]),
        executable: false,
    };
    let mut store = open();
    let tree = Tree {
        entries: vec![entry("b"), entry("a")],
    };
    let id = store.put_tree(&tree).unwrap();
    assert_eq!(store.get_tree(id).unwrap(), tree);
    store.forget_cached(id);
    assert!(matches!(store.get_tree(id), Err(Error::Corrupt(_))));
}

#[test]
fn reads_tell_what_is_missing_from_what_is_damaged() {
    let mut store = open();
    let gone = ObjectId([9; 32]);
    let data = blob(&mut store, b"data");
    let bad = blob(&mut store, b"bad");
    store.blobs.corrupt(bad, b"other");
    assert!(matches!(store.get_blob_data(gone), Err(Error::NotFound(_))));
    assert!(matches!(store.get_blob_data(bad), Err(Error::Corrupt(_))));
    assert!(matches!(store.get_tree(gone), Err(Error::NotFound(_))));
    assert!(matches!(store.get_tree(data), Err(Error::Corrupt(_))));
    assert!(matches!(store.get_commit(gone), Err(Error::NotFound(_))));
    assert!(matches!(store.get_commit(data), Err(Error::Corrupt(_))));
    assert!(matches!(store.get_contribution(data), Err(Error::Corrupt(_))));
    assert!(matches!(store.get_conflict(data), Err(Error::Corrupt(_))));
    assert!(matches!(store.get_snapshot(data), Err(Error::Corrupt(_))));
    assert!(matches!(store.object_type(gone), Err(Error::NotFound(_))));
    assert!(matches!(store.object_type(bad), Err(Error::Corrupt(_))));
    assert!(matches!(store.blobs.verify_blob(gone), Err(Error::NotFound(_))));
    assert!(matches!(store.blobs.verify_blob(bad), Err(Error::Corrupt(_))));
    assert!(matches!(store.reachable_oids(gone), Err(Error::NotFound(_))));
    assert!(matches!(store.reachable_oids(data), Err(Error::Corrupt(_))));
    assert!(matches!(
        tree_changes(&mut store, gone, data),
        Err(Error::NotFound(_))
    ));
    assert!(matches!(
        three_way(&mut store, None, gone, data),
        Err(Error::NotFound(_))
    ));
    assert!(matches!(
        commit_parent_map(&mut store, data),
        Err(Error::Corrupt(_))
    ));
}

#[test]
fn a_merge_with_the_sides_exchanged_comes_to_the_same() {
    let mut store = open();
    let base = tree_of(&mut store, &[("d/x", b"1"), ("keep", b"k")]);
    let ours = tree_of(&mut store, &[("d/x", b"1"), ("d/y", b"2"), ("keep", b"k")]);
    let theirs = tree_of(&mut store, &[("d/x", b"1"), ("d/z", b"3"), ("keep", b"k")]);
    let there = three_way(&mut store, Some(base), ours, theirs).unwrap();
    let back = three_way(&mut store, Some(base), theirs, ours).unwrap();
    match (there, back) {
        (MergeOutcome::Tree(a), MergeOutcome::Tree(b)) => assert_eq!(a, b),
        _ => panic!("the changes do not meet"),
    }
    let clash = tree_of(&mut store, &[("d/x", b"1"), ("d/y", b"9"), ("keep", b"k")]);
    let there = three_way(&mut store, Some(base), ours, clash).unwrap();
    let back = three_way(&mut store, Some(base), clash, ours).unwrap();
    match (there, back) {
        (MergeOutcome::Conflict(c), MergeOutcome::Conflict(d)) => {
            assert_eq!(c.paths.len(), 1);
            assert_eq!(c.paths[0].path, "d/y");
            assert_eq!(d.paths[0].path, "d/y");
            assert_eq!(c.paths[0].a, d.paths[0].b);
            assert_eq!(c.paths[0].b, d.paths[0].a);
        }
        _ => panic!("the changes meet at one path"),
    }
    match three_way(&mut store, Some(base), base, ours).unwrap() {
        MergeOutcome::Tree(id) => assert_eq!(id, ours),
        MergeOutcome::Conflict(_) => panic!("one side has not moved"),
    }
}

#[test]
fn a_queue_hands_out_what_it_accepted_in_order() {
    let edge = |byte: u8, expected: GraphExpectation| GraphEdge {
        id: ObjectId([byte; 32]),
        expected,
        resource: byte.to_string(),
    };
    let mut queue = GraphWorkQueue::with_limit(2);
    assert!(queue.schedule(edge(1, GraphExpectation::Any)).unwrap());
    assert!(queue.schedule(edge(2, GraphExpectation::Any)).unwrap());
    assert_eq!(queue.pop_front().unwrap().id, ObjectId([1; 32]));
    assert!(!queue.schedule(edge(1, GraphExpectation::Any)).unwrap());
    assert!(queue
        .schedule(edge(1, GraphExpectation::Exact(ObjectType::Blob)))
        .unwrap());
    assert!(matches!(
        queue.schedule(edge(3, GraphExpectation::Any)),
        Err(Error::Invalid(_))
    ));
    assert_eq!(queue.pop_front().unwrap().id, ObjectId([2; 32]));
    assert_eq!(
        queue.pop_front().unwrap(),
        edge(1, GraphExpectation::Exact(ObjectType::Blob))
    );
    assert!(queue.pop_front().is_none());
}
