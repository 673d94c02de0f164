//! Staged edits on trees.
use forgefs::memory::MemoryObjectStore;
use forgefs::overlay::{apply_overlay, Overlay};
use forgefs::store::Store;
use forgefs::tree::{Tree, TreeEntry};
use forgefs::types::{EntryKind, Error, ObjectId};

type MemStore = Store<MemoryObjectStore>;

fn open() -> MemStore {
    Store::with_object_store(MemoryObjectStore::new())
}

#[test]
fn overlay_adds_file_on_empty() {
    let mut store = open();
    let blob = ObjectId([1u8; 32]);
    let mut ov = Overlay::new();
    ov.insert("hello.txt".to_string(), Some((blob, false)));
    let root = apply_overlay(None, &ov, &mut store).unwrap();
    let t = store.get_tree(root).unwrap();
    assert_eq!(t.entries.len(), 1);
    assert_eq!(t.entries[0].name, "hello.txt");
    assert_eq!(t.entries[0].id, blob);
}

#[test]
fn overlay_nested_and_delete() {
    let mut store = open();
    let a = ObjectId([2u8; 32]);
    let b = ObjectId([3u8; 32]);
    let mut ov = Overlay::new();
    ov.insert("dir/a.txt".to_string(), Some((a, false)));
    ov.insert("dir/b.txt".to_string(), Some((b, true)));
    let root = apply_overlay(None, &ov, &mut store).unwrap();
    let t = store.get_tree(root).unwrap();
    assert_eq!(t.entries.len(), 1);
    assert_eq!(t.entries[0].kind, EntryKind::Tree);
    let sub = store.get_tree(t.entries[0].id).unwrap();
    assert_eq!(sub.entries.len(), 2);

    let mut ov2 = Overlay::new();
    ov2.insert("dir/a.txt".to_string(), None);
    let root2 = apply_overlay(Some(root), &ov2, &mut store).unwrap();
    let t2 = store.get_tree(root2).unwrap();
    let sub2 = store.get_tree(t2.entries[0].id).unwrap();
    assert_eq!(sub2.entries.len(), 1);
    assert_eq!(sub2.entries[0].name, "b.txt");
    assert!(sub2.entries[0].executable);
}

#[test]
fn overlay_prefix_is_path_atomic() {
    let mut store = open();
    let a = ObjectId([4u8; 32]);
    let b = ObjectId([5u8; 32]);
    let mut ov = Overlay::new();
    ov.insert("dir/a.txt".to_string(), Some((a, false)));
    ov.insert("dir2/b.txt".to_string(), Some((b, false)));
    let root = apply_overlay(None, &ov, &mut store).unwrap();
    let t = store.get_tree(root).unwrap();
    let names: Vec<_> = t.entries.iter().map(|e| e.name.as_str()).collect();
    assert_eq!(names, vec!["dir", "dir2"]);
}

#[test]
fn direct_file_then_nested_group_preserves_group_wins_semantics() {
    let mut store = open();
    let file = ObjectId([6u8; 32]);
    let nested = ObjectId([7u8; 32]);
    let mut ov = Overlay::new();
    ov.insert("dir".to_string(), Some((file, false)));
    ov.insert("dir/child.txt".to_string(), Some((nested, false)));

    let root = apply_overlay(None, &ov, &mut store).unwrap();
    let tree = store.get_tree(root).unwrap();
    let dir = tree.get("dir").unwrap();
    assert_eq!(dir.kind, EntryKind::Tree);
    let child = store.get_tree(dir.id).unwrap();
    assert_eq!(child.get("child.txt").unwrap().id, nested);
}

#[test]
fn sparse_edit_preserves_canonical_order_and_untouched_entries() {
    let mut store = open();
    let entries: Vec<_> = (0..10_000)
        .map(|i| TreeEntry {
            name: format!("f{i:05}"),
            kind: EntryKind::Blob,
            id: ObjectId([(i % 251) as u8; 32]),
            executable: false,
        })
        .collect();
    let base = store.put_tree(&Tree::new(entries).unwrap()).unwrap();
    let replacement = ObjectId([0xee; 32]);
    let mut ov = Overlay::new();
    ov.insert("f05000".to_string(), Some((replacement, true)));

    let root = apply_overlay(Some(base), &ov, &mut store).unwrap();
    let tree = store.get_tree(root).unwrap();
    assert_eq!(tree.entries.len(), 10_000);
    assert_eq!(tree.get("f04999").unwrap().name, "f04999");
    assert_eq!(tree.get("f05000").unwrap().id, replacement);
    assert!(tree.get("f05000").unwrap().executable);
    assert_eq!(tree.get("f05001").unwrap().name, "f05001");
    assert!(tree
        .entries
        .windows(2)
        .all(|w| w[0].name.as_bytes() < w[1].name.as_bytes()));
}

#[test]
fn entries_in_any_order_make_one_tree() {
    let entry = |name: &str, byte: u8| TreeEntry {
        name: name.to_string(),
        kind: EntryKind::Blob,
        id: ObjectId([byte; 32]),
        executable: false,
    };
    let one = Tree::new(vec![entry("a", 1), entry("b", 2), entry("c", 3)]).unwrap();
    let other = Tree::new(vec![entry("c", 3), entry("a", 1), entry("b", 2)]).unwrap();
    assert_eq!(one.encode().unwrap(), other.encode().unwrap());
    let mut store = open();
    assert_eq!(
        store.put_tree(&one).unwrap(),
        store.put_tree(&other).unwrap()
    );
}

#[test]
fn a_fold_onto_a_missing_tree_fails() {
    let mut store = open();
    let mut ov = Overlay::new();
    ov.insert("a".to_string(), Some((ObjectId([1u8; 32]), false)));
    assert!(matches!(
        apply_overlay(Some(ObjectId([9u8; 32])), &ov, &mut store),
        Err(Error::NotFound(_))
    ));
}

#[test]
fn a_staged_path_with_an_empty_part_is_refused() {
    let mut store = open();
    let mut ov = Overlay::new();
    ov.insert("a//b".to_string(), Some((ObjectId([1u8; 32]), false)));
    assert!(matches!(
        apply_overlay(None, &ov, &mut store),
        Err(Error::Invalid(_))
    ));
}

#[test]
fn an_overfull_directory_is_named_in_the_refusal() {
    let mut store = open();
    let blob = ObjectId([1u8; 32]);
    let mut ov = Overlay::new();
    ov.insert("a/b/one".to_string(), Some((blob, false)));
    let entries: Vec<TreeEntry> = (0..100_000)
        .map(|i| TreeEntry {
            name: format!("f{i:06}"),
            kind: EntryKind::Blob,
            id: blob,
            executable: false,
        })
        .collect();
    let full = store.put_tree(&Tree { entries }).unwrap();
    let dir = |name: &str, id: ObjectId| TreeEntry {
        name: name.to_string(),
        kind: EntryKind::Tree,
        id,
        executable: false,
    };
    let a = store
        .put_tree(&Tree {
            entries: vec![dir("b", full)],
        })
        .unwrap();
    let root = store
        .put_tree(&Tree {
            entries: vec![dir("a", a)],
        })
        .unwrap();
    match apply_overlay(Some(root), &ov, &mut store) {
        Err(Error::Invalid(msg)) => assert_eq!(
            msg,
            "checkin would give a/b 100001 entries, more than the 100000 a tree may hold; split it into subdirectories"
        ),
        _ => panic!("the directory is over-full"),
    }
}

#[test]
fn the_files_after_a_fold_are_the_old_ones_with_the_edits() {
    let mut store = open();
    let id = |n: u8| ObjectId([n; 32]);
    let mut ov = Overlay::new();
    for (path, n) in [("dir/a", 1), ("dir/sub/b", 2), ("dir2/c", 3), ("d", 4), ("gone/x/y", 5)] {
        ov.insert(path.to_string(), Some((id(n), false)));
    }
    let base = apply_overlay(None, &ov, &mut store).unwrap();
    let mut ov = Overlay::new();
    ov.insert("dir".to_string(), None);
    ov.insert("d/e".to_string(), Some((id(6), true)));
    ov.insert("gone/x/y".to_string(), None);
    let root = apply_overlay(Some(base), &ov, &mut store).unwrap();

    let mut files = Vec::new();
    let mut todo = vec![(String::new(), root)];
    while let Some((at, dir)) = todo.pop() {
        for e in store.get_tree(dir).unwrap().entries {
            let path = format!("{at}/{}", e.name);
            match e.kind {
                EntryKind::Tree => todo.push((path, e.id)),
                EntryKind::Blob => files.push((path, e.id, e.executable)),
            }
        }
    }
    files.sort_by(|a, b| a.0.cmp(&b.0));
    assert_eq!(
        files,
        vec![("/d/e".to_string(), id(6), true), ("/dir2/c".to_string(), id(3), false)]
    );
    assert!(store.get_tree(base).is_ok());
}
