//! Mounts, and paths through them.
use forgefs::memory::MemoryObjectStore;
use forgefs::ns::{
    dirent_kind, longest_mount, ls, normalize_abs, overlay_map, parse_spec, rel_of, resolve, Mode,
    Mount, Resolved, Spec,
};
use forgefs::overlay::{apply_overlay, Overlay};
use forgefs::rows::OverlayRow;
use forgefs::store::Store;
use forgefs::types::{EntryKind, Error, ObjectId};

type MemStore = Store<MemoryObjectStore>;

fn open() -> MemStore {
    Store::with_object_store(MemoryObjectStore::new())
}

fn mounts() -> Vec<Mount> {
    vec![
        Mount {
            path: "/".to_string(),
            spec: "ref:heads/a".to_string(),
            mode: Mode::Rw,
        },
        Mount {
            path: "/main".to_string(),
            spec: "ref:main".to_string(),
            mode: Mode::Ro,
        },
    ]
}

fn row(path: &str, blob_oid: Option<ObjectId>) -> OverlayRow {
    OverlayRow {
        path: path.to_string(),
        blob_oid,
        executable: false,
    }
}

/// A tree with `a.txt` and `src/lib.rs`.
fn tree(store: &mut MemStore) -> (ObjectId, ObjectId, ObjectId) {
    let a = store.put_blob_data(b"a").unwrap();
    let lib = store.put_blob_data(b"lib").unwrap();
    let mut ov = Overlay::new();
    ov.insert("a.txt".to_string(), Some((a, false)));
    ov.insert("src/lib.rs".to_string(), Some((lib, true)));
    let root = apply_overlay(None, &ov, store).unwrap();
    (root, a, lib)
}

#[test]
fn longest_and_rel() {
    let mounts = mounts();
    let m = longest_mount(&mounts, "/main/src/a.rs").unwrap();
    assert_eq!(m.path, "/main");
    assert_eq!(rel_of("/main", "/main/src/a.rs").unwrap(), "src/a.rs");
    assert_eq!(rel_of("/", "/foo").unwrap(), "foo");
}

#[test]
fn a_mount_covers_whole_components_only() {
    let mounts = mounts();
    assert_eq!(longest_mount(&mounts, "/mainly").unwrap().path, "/");
    assert_eq!(longest_mount(&mounts, "/main").unwrap().path, "/main");
    assert!(matches!(longest_mount(&mounts[1..], "/other"), Err(Error::NotFound(_))));
    assert!(matches!(longest_mount(&mounts, "/a/../b"), Err(Error::Invalid(_))));
}

#[test]
fn relative_paths_become_absolute() {
    assert_eq!(normalize_abs("a/b").unwrap(), "/a/b");
    assert_eq!(normalize_abs("/").unwrap(), "/");
    assert!(matches!(normalize_abs("/a//b"), Err(Error::Invalid(_))));
}

#[test]
fn resolve_walks_the_tree_and_the_staged_edits() {
    let mut store = open();
    let (root, a, lib) = tree(&mut store);
    let staged = store.put_blob_data(b"staged").unwrap();
    let rows = vec![row("a.txt", None), row("src/new.rs", Some(staged))];

    match resolve(&mut store, &mounts(), &[], root, "/a.txt").unwrap() {
        Resolved::Blob { id, executable } => assert_eq!((id, executable), (a, false)),
        other => panic!("{other:?}"),
    }
    match resolve(&mut store, &mounts(), &[], root, "/src/lib.rs").unwrap() {
        Resolved::Blob { id, executable } => assert_eq!((id, executable), (lib, true)),
        other => panic!("{other:?}"),
    }
    assert!(matches!(
        resolve(&mut store, &mounts(), &[], root, "/").unwrap(),
        Resolved::Tree(id) if id == root
    ));
    assert!(matches!(
        resolve(&mut store, &mounts(), &rows, root, "/a.txt"),
        Err(Error::NotFound(_))
    ));
    assert!(matches!(
        resolve(&mut store, &mounts(), &rows, root, "/src/new.rs").unwrap(),
        Resolved::Blob { id, .. } if id == staged
    ));
    assert!(matches!(
        resolve(&mut store, &mounts(), &rows, root, "/src/absent"),
        Err(Error::NotFound(_))
    ));
    assert!(matches!(
        resolve(&mut store, &mounts(), &rows, root, "/a.txt/below"),
        Err(Error::NotFound(_))
    ));
}

#[test]
fn a_staged_file_in_the_middle_of_a_path_is_refused() {
    let mut store = open();
    let (root, _, _) = tree(&mut store);
    let staged = store.put_blob_data(b"staged").unwrap();
    let rows = vec![row("dir", Some(staged))];
    assert!(matches!(
        resolve(&mut store, &mounts(), &rows, root, "/dir/file"),
        Err(Error::Invalid(_))
    ));
}

#[test]
fn a_listing_shows_staged_edits_and_new_directories() {
    let mut store = open();
    let (root, _, lib) = tree(&mut store);
    let staged = store.put_blob_data(b"staged").unwrap();
    let rows = vec![
        row("a.txt", None),
        row("new.txt", Some(staged)),
        row("fresh/deep/file", Some(staged)),
    ];
    let listed = ls(&mut store, &rows, root, "").unwrap();
    let names: Vec<&str> = listed.iter().map(|e| e.name.as_str()).collect();
    assert_eq!(names, ["fresh", "new.txt", "src"]);
    assert_eq!(listed[0].kind, EntryKind::Tree);
    assert_eq!(listed[0].id, ObjectId::zero());
    assert_eq!(dirent_kind(&listed[0]), "tree");
    assert_eq!(listed[1].id, staged);
    assert_eq!(dirent_kind(&listed[1]), "blob");

    let below = ls(&mut store, &rows, root, "src").unwrap();
    assert_eq!(below.len(), 1);
    assert_eq!(below[0].id, lib);
    assert!(matches!(ls(&mut store, &[], root, "a.txt"), Err(Error::Invalid(_))));
    assert!(matches!(ls(&mut store, &[], root, "absent"), Err(Error::NotFound(_))));
}

#[test]
fn specs_name_refs_or_objects() {
    assert!(matches!(parse_spec("ref:main").unwrap(), Spec::Ref(r) if r == "main"));
    assert!(matches!(parse_spec("heads/a").unwrap(), Spec::Ref(r) if r == "heads/a"));
    let id = ObjectId([9; 32]);
    assert!(matches!(
        parse_spec(&format!("oid:{}", id.hex())).unwrap(),
        Spec::Oid(x) if x == id
    ));
    assert!(parse_spec("oid:12").is_err());
}

#[test]
fn the_last_row_of_a_path_counts() {
    let a = ObjectId([1; 32]);
    let b = ObjectId([2; 32]);
    let m = overlay_map(&[row("x", Some(a)), row("x", Some(b)), row("y", None)]);
    assert_eq!(m.len(), 2);
    assert_eq!(m.get("x"), Some(&Some((b, false))));
    assert_eq!(m.get("y"), Some(&None));
}

#[test]
fn modes_have_names() {
    assert_eq!(Mode::parse("ro").unwrap(), Mode::Ro);
    assert_eq!(Mode::parse("rw").unwrap().as_str(), "rw");
    assert!(Mode::parse("rx").is_err());
}

#[test]
fn a_staged_file_resolves_alike_before_and_after_it_is_applied() {
    let mut store = open();
    let (root, a, lib) = tree(&mut store);
    let new = store.put_blob_data(b"new").unwrap();
    let rows = vec![row("src/deep/new.rs", Some(new)), row("a.txt", None)];
    let mut ov = Overlay::new();
    ov.insert("src/deep/new.rs".to_string(), Some((new, false)));
    ov.insert("a.txt".to_string(), None);
    let after = apply_overlay(Some(root), &ov, &mut store).unwrap();
    for (tree, staged) in [(root, rows.as_slice()), (after, &[])] {
        match resolve(&mut store, &mounts(), staged, tree, "/src/deep/new.rs").unwrap() {
            Resolved::Blob { id, executable } => {
                assert_eq!(id, new);
                assert!(!executable);
            }
            Resolved::Tree(_) => panic!("a file resolves to a blob"),
        }
        assert!(matches!(
            resolve(&mut store, &mounts(), staged, tree, "/a.txt"),
            Err(Error::NotFound(_))
        ));
        match resolve(&mut store, &mounts(), staged, tree, "/src/lib.rs").unwrap() {
            Resolved::Blob { id, executable } => {
                assert_eq!(id, lib);
                assert!(executable);
            }
            Resolved::Tree(_) => panic!("a file resolves to a blob"),
        }
    }
    match resolve(&mut store, &mounts(), &[], root, "/a.txt").unwrap() {
        Resolved::Blob { id, .. } => assert_eq!(id, a),
        Resolved::Tree(_) => panic!("a file resolves to a blob"),
    }
}

#[test]
fn applied_edits_show_at_the_directories_they_lead_through() {
    let mut store = open();
    let (root, a, lib) = tree(&mut store);
    let new = store.put_blob_data(b"new").unwrap();
    let mut ov = Overlay::new();
    ov.insert("src/deep/x".to_string(), Some((new, false)));
    let deeper = apply_overlay(Some(root), &ov, &mut store).unwrap();
    let at = |store: &mut MemStore, root, path: &str| resolve(store, &mounts(), &[], root, path);
    assert!(matches!(at(&mut store, deeper, "/src").unwrap(), Resolved::Tree(_)));
    assert!(matches!(at(&mut store, deeper, "/src/deep").unwrap(), Resolved::Tree(_)));
    assert!(matches!(
        at(&mut store, deeper, "/src/deep/x").unwrap(),
        Resolved::Blob { id, executable: false } if id == new
    ));
    assert!(matches!(
        at(&mut store, deeper, "/src/lib.rs").unwrap(),
        Resolved::Blob { id, executable: true } if id == lib
    ));

    let mut ov = Overlay::new();
    ov.insert("src/lib.rs".to_string(), None);
    let emptied = apply_overlay(Some(root), &ov, &mut store).unwrap();
    assert!(matches!(at(&mut store, emptied, "/src"), Err(Error::NotFound(_))));
    assert!(matches!(
        at(&mut store, emptied, "/a.txt").unwrap(),
        Resolved::Blob { id, .. } if id == a
    ));
}

#[test]
fn nothing_is_left_below_a_directory_that_a_file_replaced() {
    let mut store = open();
    let (root, _, _) = tree(&mut store);
    let new = store.put_blob_data(b"new").unwrap();
    let mut ov = Overlay::new();
    ov.insert("src".to_string(), Some((new, false)));
    let replaced = apply_overlay(Some(root), &ov, &mut store).unwrap();
    assert!(matches!(
        resolve(&mut store, &mounts(), &[], replaced, "/src").unwrap(),
        Resolved::Blob { id, .. } if id == new
    ));
    assert!(matches!(
        resolve(&mut store, &mounts(), &[], replaced, "/src/lib.rs"),
        Err(Error::NotFound(_))
    ));
}
