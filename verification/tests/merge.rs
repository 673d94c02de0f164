//! Three-way merges of trees.
use forgefs::conflict::Conflict;
use forgefs::intro::MAX_NESTING;
use forgefs::memory::MemoryObjectStore;
use forgefs::merge::{merge_trees, three_way, MergeOutcome};
use forgefs::store::Store;
use forgefs::tree::{Tree, TreeEntry};
use forgefs::types::{EntryKind, Error, ObjectId};

type MemStore = Store<MemoryObjectStore>;

fn open() -> MemStore {
    Store::with_object_store(MemoryObjectStore::new())
}

#[test]
fn disjoint_auto_merge() {
    let mut s = open();
    let ba = s.put_blob_data(b"a").unwrap();
    let bb = s.put_blob_data(b"b").unwrap();
    let bc = s.put_blob_data(b"c").unwrap();
    let base = s
        .put_tree(
            &Tree::new(vec![TreeEntry {
                name: "keep.txt".to_string(),
                kind: EntryKind::Blob,
                id: bc,
                executable: false,
            }])
            .unwrap(),
        )
        .unwrap();
    let ours = s
        .put_tree(
            &Tree::new(vec![
                TreeEntry {
                    name: "keep.txt".to_string(),
                    kind: EntryKind::Blob,
                    id: bc,
                    executable: false,
                },
                TreeEntry {
                    name: "a.txt".to_string(),
                    kind: EntryKind::Blob,
                    id: ba,
                    executable: false,
                },
            ])
            .unwrap(),
        )
        .unwrap();
    let theirs = s
        .put_tree(
            &Tree::new(vec![
                TreeEntry {
                    name: "keep.txt".to_string(),
                    kind: EntryKind::Blob,
                    id: bc,
                    executable: false,
                },
                TreeEntry {
                    name: "b.txt".to_string(),
                    kind: EntryKind::Blob,
                    id: bb,
                    executable: false,
                },
            ])
            .unwrap(),
        )
        .unwrap();
    match three_way(&mut s, Some(base), ours, theirs).unwrap() {
        MergeOutcome::Tree(t) => {
            let tree = s.get_tree(t).unwrap();
            assert_eq!(tree.entries.len(), 3);
        }
        MergeOutcome::Conflict(c) => panic!("unexpected {c:?}"),
    }
}

#[test]
fn same_path_conflict() {
    let mut s = open();
    let b0 = s.put_blob_data(b"0").unwrap();
    let b1 = s.put_blob_data(b"1").unwrap();
    let b2 = s.put_blob_data(b"2").unwrap();
    let e = |id| TreeEntry {
        name: "f.txt".to_string(),
        kind: EntryKind::Blob,
        id,
        executable: false,
    };
    let base = s.put_tree(&Tree::new(vec![e(b0)]).unwrap()).unwrap();
    let ours = s.put_tree(&Tree::new(vec![e(b1)]).unwrap()).unwrap();
    let theirs = s.put_tree(&Tree::new(vec![e(b2)]).unwrap()).unwrap();
    match three_way(&mut s, Some(base), ours, theirs).unwrap() {
        MergeOutcome::Conflict(c) => {
            assert_eq!(c.paths.len(), 1);
            assert_eq!(c.paths[0].path, "f.txt");
        }
        MergeOutcome::Tree(_) => panic!("expected conflict"),
    }
}
fn blob_entry(name: &str, id: ObjectId, executable: bool) -> TreeEntry {
    TreeEntry {
        name: name.to_string(),
        kind: EntryKind::Blob,
        id,
        executable,
    }
}

fn tree(store: &mut MemStore, entries: Vec<TreeEntry>) -> ObjectId {
    store.put_tree(&Tree::new(entries).unwrap()).unwrap()
}

fn exact_rename_conflict(
    store: &mut MemStore,
    base: ObjectId,
    ours: ObjectId,
    theirs: ObjectId,
) -> Conflict {
    match three_way(store, Some(base), ours, theirs).unwrap() {
        MergeOutcome::Conflict(conflict) => conflict,
        MergeOutcome::Tree(_) => panic!("expected an exact-rename conflict"),
    }
}

#[test]
fn divergent_exact_renames_conflict_in_both_directions() {
    let mut s = open();
    let blob = s.put_blob_data(b"same object").unwrap();
    let base = tree(&mut s, vec![blob_entry("x", blob, false)]);
    let to_y = tree(&mut s, vec![blob_entry("y", blob, false)]);
    let to_z = tree(&mut s, vec![blob_entry("z", blob, false)]);

    for (ours, theirs) in [(to_y, to_z), (to_z, to_y)] {
        let conflict = exact_rename_conflict(&mut s, base, ours, theirs);
        assert_eq!(conflict.paths.len(), 1);
        assert_eq!(conflict.paths[0].path, "x");
        assert_eq!(conflict.paths[0].a, None);
        assert_eq!(conflict.paths[0].b, None);
        assert_eq!(conflict.paths[0].base, Some(blob));
    }
}

#[test]
fn exact_rename_versus_delete_conflicts_in_both_directions() {
    let mut s = open();
    let blob = s.put_blob_data(b"same object").unwrap();
    let base = tree(&mut s, vec![blob_entry("x", blob, false)]);
    let renamed = tree(&mut s, vec![blob_entry("y", blob, false)]);
    let deleted = tree(&mut s, vec![]);

    for (ours, theirs) in [(renamed, deleted), (deleted, renamed)] {
        let conflict = exact_rename_conflict(&mut s, base, ours, theirs);
        assert_eq!(conflict.paths.len(), 1);
        assert_eq!(conflict.paths[0].path, "x");
        assert_eq!(conflict.paths[0].base, Some(blob));
    }
}

#[test]
fn matching_exact_renames_merge_without_conflict() {
    let mut s = open();
    let blob = s.put_blob_data(b"same object").unwrap();
    let base = tree(&mut s, vec![blob_entry("x", blob, false)]);
    let renamed = tree(&mut s, vec![blob_entry("y", blob, false)]);

    match three_way(&mut s, Some(base), renamed, renamed).unwrap() {
        MergeOutcome::Tree(merged) => assert_eq!(merged, renamed),
        MergeOutcome::Conflict(conflict) => panic!("unexpected {conflict:?}"),
    }
}

#[test]
fn duplicate_identity_is_not_guessed_to_be_a_rename() {
    let mut s = open();
    let blob = s.put_blob_data(b"duplicate").unwrap();
    let base = tree(
        &mut s,
        vec![
            blob_entry("keep", blob, false),
            blob_entry("x", blob, false),
        ],
    );
    let ours = tree(
        &mut s,
        vec![
            blob_entry("keep", blob, false),
            blob_entry("y", blob, false),
        ],
    );
    let theirs = tree(&mut s, vec![blob_entry("keep", blob, false)]);

    match three_way(&mut s, Some(base), ours, theirs).unwrap() {
        MergeOutcome::Tree(merged) => {
            let names: Vec<_> = s
                .get_tree(merged)
                .unwrap()
                .entries
                .into_iter()
                .map(|entry| entry.name)
                .collect();
            assert_eq!(names, ["keep", "y"]);
        }
        MergeOutcome::Conflict(conflict) => {
            panic!("duplicate content is ambiguous, not a trusted rename: {conflict:?}")
        }
    }
}

#[test]
fn exact_move_across_existing_directories_is_detected() {
    let mut s = open();
    let blob = s.put_blob_data(b"same object").unwrap();
    let empty = tree(&mut s, vec![]);
    let from = tree(&mut s, vec![blob_entry("x", blob, false)]);
    let ours_to = tree(&mut s, vec![blob_entry("y", blob, false)]);
    let theirs_to = tree(&mut s, vec![blob_entry("z", blob, false)]);
    let dir_entry = |name: &str, id| TreeEntry {
        name: name.to_string(),
        kind: EntryKind::Tree,
        id,
        executable: false,
    };
    let base = tree(&mut s, vec![dir_entry("from", from), dir_entry("to", empty)]);
    let ours = tree(&mut s, vec![dir_entry("from", empty), dir_entry("to", ours_to)]);
    let theirs = tree(
        &mut s,
        vec![dir_entry("from", empty), dir_entry("to", theirs_to)],
    );

    let conflict = exact_rename_conflict(&mut s, base, ours, theirs);
    assert_eq!(conflict.paths.len(), 1);
    assert_eq!(conflict.paths[0].path, "from/x");
    assert_eq!(conflict.paths[0].base, Some(blob));
}

/// I11/I12: a mode-only change on one side is a real change. It must survive
/// the merge, and the merged tree must not depend on which side is `ours`.
#[test]
fn i11_i12_mode_only_change_survives_and_merge_is_direction_symmetric() {
    let mut s = open();
    let tool = s.put_blob_data(b"#!/bin/sh\n").unwrap();
    let seed = s.put_blob_data(b"seed").unwrap();
    let added = s.put_blob_data(b"added").unwrap();

    // base: tool.sh not executable
    let base = s
        .put_tree(
            &Tree::new(vec![
                blob_entry("seed.txt", seed, false),
                blob_entry("tool.sh", tool, false),
            ])
            .unwrap(),
        )
        .unwrap();
    // ours: an unrelated addition, tool.sh untouched
    let ours = s
        .put_tree(
            &Tree::new(vec![
                blob_entry("a.txt", added, false),
                blob_entry("seed.txt", seed, false),
                blob_entry("tool.sh", tool, false),
            ])
            .unwrap(),
        )
        .unwrap();
    // theirs: chmod +x tool.sh and nothing else
    let theirs = s
        .put_tree(
            &Tree::new(vec![
                blob_entry("seed.txt", seed, false),
                blob_entry("tool.sh", tool, true),
            ])
            .unwrap(),
        )
        .unwrap();

    let mut conflicts = Vec::new();
    let forward = merge_trees(&mut s, "", Some(base), ours, theirs, &mut conflicts, MAX_NESTING).unwrap();
    assert!(
        conflicts.is_empty(),
        "a mode change against an unrelated add is not a conflict: {conflicts:?}"
    );

    let merged = s.get_tree(forward).unwrap();
    let entry = merged
        .entries
        .iter()
        .find(|e| e.name == "tool.sh")
        .expect("tool.sh survives the merge");
    assert!(entry.executable, "the incoming exec bit was dropped: {entry:?}");
    assert_eq!(entry.id, tool, "the blob itself must not change");

    // Same two inputs, opposite direction: the merged TREE must be identical.
    // (The merge commit legitimately differs, because its parents differ.)
    let mut mirror_conflicts = Vec::new();
    let mirror = merge_trees(&mut s, "", Some(base), theirs, ours, &mut mirror_conflicts, MAX_NESTING).unwrap();
    assert!(mirror_conflicts.is_empty(), "{mirror_conflicts:?}");
    assert_eq!(
        forward, mirror,
        "merge result depends on which side is --into; I12 says order comes only from the DAG"
    );
}

fn blob(name: &str, id: ObjectId, executable: bool) -> TreeEntry {
    TreeEntry {
        name: name.to_string(),
        kind: EntryKind::Blob,
        id,
        executable,
    }
}

fn put_tree(store: &mut MemStore, entries: Vec<TreeEntry>) -> ObjectId {
    store.put_tree(&Tree::new(entries).unwrap()).unwrap()
}

fn assert_conflict(outcome: MergeOutcome) {
    match outcome {
        MergeOutcome::Conflict(conflict) => {
            assert_eq!(conflict.paths.len(), 1);
            assert_eq!(conflict.paths[0].path, "tool.sh");
        }
        MergeOutcome::Tree(tree) => panic!("delete-vs-metadata must conflict, got {tree:?}"),
    }
}

#[test]
fn delete_vs_chmod_conflicts_in_both_directions() {
    let mut store = open();
    let tool = store.put_blob_data(b"#!/bin/sh\n").unwrap();
    let base = put_tree(&mut store, vec![blob("tool.sh", tool, false)]);
    let chmod = put_tree(&mut store, vec![blob("tool.sh", tool, true)]);
    let deleted = put_tree(&mut store, vec![]);

    assert_conflict(three_way(&mut store, Some(base), chmod, deleted).unwrap());
    assert_conflict(three_way(&mut store, Some(base), deleted, chmod).unwrap());
}

#[test]
fn unchanged_vs_delete_still_resolves_to_the_same_deletion() {
    let mut store = open();
    let tool = store.put_blob_data(b"#!/bin/sh\n").unwrap();
    let base = put_tree(&mut store, vec![blob("tool.sh", tool, false)]);
    let unchanged = put_tree(&mut store, vec![blob("tool.sh", tool, false)]);
    let deleted = put_tree(&mut store, vec![]);

    for outcome in [
        three_way(&mut store, Some(base), unchanged, deleted).unwrap(),
        three_way(&mut store, Some(base), deleted, unchanged).unwrap(),
    ] {
        match outcome {
            MergeOutcome::Tree(tree) => assert_eq!(tree, deleted),
            MergeOutcome::Conflict(conflict) => {
                panic!("unchanged-vs-delete must be clean: {conflict:?}")
            }
        }
    }
}

#[test]
fn blob_where_tree_expected_is_corruption_not_conflict() {
    let mut store = open();
    let bad = store.put_blob_data(b"not a tree").unwrap();
    let good = store.empty_tree_id().unwrap();
    let err = three_way(&mut store, None, bad, good).unwrap_err();
    assert!(matches!(err, Error::Corrupt(_)), "{err:?}");
}

#[test]
fn every_merged_directory_can_be_read_back() {
    let mut store = open();
    let id = |n: u8| ObjectId([n; 32]);
    let dir = |store: &mut MemStore, name: &str, entries: Vec<TreeEntry>| {
        let id = store.put_tree(&Tree::new(entries).unwrap()).unwrap();
        TreeEntry { name: name.to_string(), kind: EntryKind::Tree, id, executable: false }
    };
    let mut side = |a: u8, b: u8| {
        let sub = dir(&mut store, "sub", vec![blob("a", id(a), false), blob("b", id(b), false)]);
        let top = dir(&mut store, "dir", vec![sub]);
        store.put_tree(&Tree::new(vec![top]).unwrap()).unwrap()
    };
    let (base, ours, theirs) = (side(1, 1), side(2, 1), side(1, 3));
    let merged = match three_way(&mut store, Some(base), ours, theirs).unwrap() {
        MergeOutcome::Tree(t) => t,
        other => panic!("{other:?}"),
    };
    let root = store.get_tree(merged).unwrap();
    let top = store.get_tree(root.get("dir").unwrap().id).unwrap();
    let sub = store.get_tree(top.get("sub").unwrap().id).unwrap();
    assert_eq!(sub.get("a").unwrap().id, id(2));
    assert_eq!(sub.get("b").unwrap().id, id(3));
    match three_way(&mut store, Some(base), theirs, ours).unwrap() {
        MergeOutcome::Tree(t) => assert_eq!(t, merged),
        other => panic!("{other:?}"),
    }
}
