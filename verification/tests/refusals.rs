//! What refused bytes, names and paths are told.
use forgefs::cbor::{
    encode_array_header, encode_bool, encode_bytes, encode_map_header, encode_map_sorted,
    encode_null, encode_text, encode_u64, text_key,
};
use forgefs::commit::Commit;
use forgefs::conflict::Conflict;
use forgefs::contribution::Contribution;
use forgefs::graph::decode_graph_object;
use forgefs::memory::MemoryObjectStore;
use forgefs::ns::{ls, resolve, Mode, Mount};
use forgefs::object::{encode_file, Blob};
use forgefs::provenance::ProvenanceManifest;
use forgefs::rows::OverlayRow;
use forgefs::snapshot::Snapshot;
use forgefs::store::Store;
use forgefs::tree::{Tree, TreeEntry};
use forgefs::types::{EntryKind, Error, ObjectId, ObjectType};

fn corrupt(text: &str) -> Error {
    Error::Corrupt(text.to_string())
}

fn invalid(text: &str) -> Error {
    Error::Invalid(text.to_string())
}

fn number(n: u64) -> Vec<u8> {
    let mut v = Vec::new();
    encode_u64(&mut v, n);
    v
}

fn text(s: &str) -> Vec<u8> {
    let mut v = Vec::new();
    encode_text(&mut v, s);
    v
}

fn truth(b: bool) -> Vec<u8> {
    let mut v = Vec::new();
    encode_bool(&mut v, b);
    v
}

fn bytes(n: usize) -> Vec<u8> {
    let mut v = Vec::new();
    encode_bytes(&mut v, vec![7u8; n].as_slice());
    v
}

fn list(items: &[Vec<u8>]) -> Vec<u8> {
    let mut v = Vec::new();
    encode_array_header(&mut v, items.len() as u64);
    for item in items {
        v.extend_from_slice(item);
    }
    v
}

fn map(fields: &[(&str, Vec<u8>)]) -> Vec<u8> {
    let mut v = Vec::new();
    let pairs = fields.iter().map(|(k, x)| (text_key(k), x.clone())).collect();
    encode_map_sorted(&mut v, pairs);
    v
}

fn without(fields: &[(&'static str, Vec<u8>)], key: &str) -> Vec<(&'static str, Vec<u8>)> {
    fields.iter().filter(|(k, _)| *k != key).cloned().collect()
}

fn with(fields: &[(&'static str, Vec<u8>)], key: &'static str, v: Vec<u8>) -> Vec<(&'static str, Vec<u8>)> {
    let mut out = without(fields, key);
    out.push((key, v));
    out
}

fn file(ty: ObjectType, header: &[u8]) -> Vec<u8> {
    encode_file(ty, header, &[])
}

fn commit_fields() -> Vec<(&'static str, Vec<u8>)> {
    vec![
        ("tree", bytes(32)),
        ("parents", list(&[])),
        ("agent", text("a")),
        ("msg", text("m")),
        ("ts", number(1)),
        ("lm", truth(false)),
    ]
}

fn commit_error(fields: &[(&'static str, Vec<u8>)]) -> Error {
    Commit::decode(&file(ObjectType::Commit, &map(fields))).unwrap_err()
}

#[test]
fn object_files_are_told_by_their_frame() {
    assert_eq!(Blob::decode(&[1, 0, 0, 0]).unwrap_err(), corrupt("object file too short"));
    assert_eq!(
        Blob::decode(&[0x2a, 0, 0, 0, 0]).unwrap_err(),
        corrupt("unknown object type 0x2a")
    );
    assert_eq!(
        Commit::decode(&[3, 0, 0, 0, 9, 1]).unwrap_err(),
        corrupt("object header truncated")
    );
    let blob = Blob { data: vec![1, 2] }.encode();
    assert_eq!(Tree::decode(&blob).unwrap_err(), corrupt("not a tree"));
    assert_eq!(Commit::decode(&blob).unwrap_err(), corrupt("not a commit"));
    assert_eq!(Conflict::decode(&blob).unwrap_err(), corrupt("not a conflict"));
    assert_eq!(Snapshot::decode(&blob).unwrap_err(), corrupt("not a snapshot"));
    assert_eq!(Contribution::decode(&blob).unwrap_err(), corrupt("not a contribution"));
    let tree = Tree::new(vec![]).unwrap().encode().unwrap();
    assert_eq!(Blob::decode(&tree).unwrap_err(), corrupt("not a blob"));
    let mut long = tree.clone();
    long.push(0);
    assert_eq!(Tree::decode(&long).unwrap_err(), corrupt("tree has payload"));
    assert_eq!(
        decode_graph_object(ObjectId([0; 32]), &[]).err().unwrap(),
        corrupt("empty object")
    );
    assert_eq!(
        decode_graph_object(ObjectId([0; 32]), &[9]).err().unwrap(),
        corrupt("unknown object type 0x09")
    );
    assert_eq!(
        decode_graph_object(ObjectId([0; 32]), &long).err().unwrap(),
        corrupt("tree has payload")
    );
}

#[test]
fn blob_headers_are_told_in_the_order_of_reading() {
    let blob = |header: Vec<u8>, payload: &[u8]| {
        Blob::decode(&encode_file(ObjectType::Blob, &header, payload)).unwrap_err()
    };
    assert_eq!(blob(vec![], &[]), corrupt("cbor truncated"));
    assert_eq!(blob(number(1), &[]), corrupt("expected map"));
    assert_eq!(blob(vec![0xc0], &[]), corrupt("cbor tags are not canonical here"));
    assert_eq!(blob(vec![0xbf, 0xff], &[]), corrupt("indefinite cbor is not canonical"));
    assert_eq!(blob(vec![0xbc], &[]), corrupt("cbor additional info"));
    assert_eq!(blob(vec![0xb8, 1], &[]), corrupt("non-canonical uint"));
    assert_eq!(blob(vec![0xa1], &[]), corrupt("map count exceeds input"));
    assert_eq!(blob(map(&[]), &[]), corrupt("blob missing size"));
    assert_eq!(blob(map(&[("sizf", number(0))]), &[]), corrupt("unknown blob key sizf"));
    assert_eq!(
        blob(map(&[("size", number(2)), ("sizf", number(0))]), &[1]),
        corrupt("unknown blob key sizf")
    );
    assert_eq!(
        blob(map(&[("size", number(0)), ("size", number(0))]), &[]),
        corrupt("cbor map keys not strictly sorted")
    );
    assert_eq!(blob(map(&[("size", text("x"))]), &[]), corrupt("expected uint"));
    assert_eq!(blob(map(&[("size", number(2))]), &[1]), corrupt("blob size 2 != payload 1"));
    let mut trailing = map(&[("size", number(1))]);
    trailing.push(0);
    assert_eq!(blob(trailing.clone(), &[1]), corrupt("blob header trailing bytes"));
    assert_eq!(blob(trailing, &[1, 2]), corrupt("blob size 1 != payload 2"));
    let mut key = vec![0xa1, 0x61, 0xff];
    key.extend_from_slice(&number(0));
    assert_eq!(blob(key, &[]), corrupt("utf8"));
    assert_eq!(blob(vec![0xa1, 0x65, b's', 0], &[]), corrupt("text length exceeds input"));
}

#[test]
fn tree_headers_are_told_in_the_order_of_reading() {
    let tree = |header: Vec<u8>| Tree::decode(&file(ObjectType::Tree, &header)).unwrap_err();
    let entry = vec![("n", text("a")), ("k", number(1)), ("id", bytes(32)), ("x", truth(false))];
    let one = |e: Vec<u8>| map(&[("e", list(&[e]))]);
    assert_eq!(tree(map(&[])), corrupt("tree missing e"));
    assert_eq!(tree(map(&[("f", list(&[]))])), corrupt("unknown tree key f"));
    assert_eq!(tree(map(&[("e", number(0))])), corrupt("expected array"));
    assert_eq!(tree(vec![0xa1, 0x61, b'e', 0x85]), corrupt("array count exceeds input"));
    assert_eq!(tree(one(map(&without(&entry, "n")))), corrupt("entry n"));
    assert_eq!(tree(one(map(&without(&entry, "k")))), corrupt("entry k"));
    assert_eq!(tree(one(map(&without(&entry, "id")))), corrupt("entry id"));
    assert_eq!(tree(one(map(&without(&entry, "x")))), corrupt("entry x"));
    assert_eq!(tree(one(map(&with(&entry, "z", number(0))))), corrupt("unknown entry key z"));
    assert_eq!(tree(one(map(&with(&entry, "k", number(256))))), corrupt("entry kind overflow"));
    assert_eq!(tree(one(map(&with(&entry, "k", number(7))))), invalid("unknown tree entry kind 7"));
    assert_eq!(tree(one(map(&with(&entry, "x", number(0))))), corrupt("expected bool"));
    assert_eq!(
        tree(one(map(&with(&entry, "id", bytes(31))))),
        corrupt("expected 32-byte bstr, got 31")
    );
    assert_eq!(
        tree(map(&[("e", list(&[map(&with(&entry, "k", number(7)))])), ("f", number(0))])),
        invalid("unknown tree entry kind 7")
    );
    let mut trailing = one(map(&entry));
    trailing.push(0);
    assert_eq!(tree(trailing), corrupt("tree header trailing bytes"));
    assert_eq!(
        tree(map(&[("e", list(&[map(&entry), map(&entry)]))])),
        corrupt("tree entries are not strictly sorted unique")
    );
    assert_eq!(tree(one(map(&with(&entry, "n", text(""))))), invalid("tree name length"));
    assert_eq!(tree(one(map(&with(&entry, "n", text(".."))))), invalid("tree name . or .."));
    assert_eq!(
        tree(one(map(&with(&entry, "n", text("a/b"))))),
        invalid("illegal tree name \"a/b\"")
    );
}

#[test]
fn an_over_full_tree_is_told_by_its_fanout() {
    let mut header = Vec::new();
    encode_map_header(&mut header, 1);
    encode_text(&mut header, "e");
    encode_array_header(&mut header, 100_001);
    header.extend_from_slice(&vec![0xa0; 100_001]);
    assert_eq!(
        Tree::decode(&file(ObjectType::Tree, &header)).unwrap_err(),
        corrupt("tree fanout exceeds limit")
    );
}

#[test]
fn commit_headers_are_told_in_the_order_of_reading() {
    let fields = commit_fields();
    assert!(Commit::decode(&file(ObjectType::Commit, &map(&fields))).is_ok());
    for key in ["tree", "parents", "agent", "msg", "ts", "lm"] {
        let mut want = "commit ".to_string();
        want.push_str(key);
        assert_eq!(commit_error(&without(&fields, key)), corrupt(&want));
    }
    assert_eq!(commit_error(&[]), corrupt("commit tree"));
    assert_eq!(commit_error(&with(&fields, "zz", number(0))), corrupt("unknown commit key zz"));
    assert_eq!(commit_error(&with(&fields, "lm", number(0))), corrupt("expected bool"));
    assert_eq!(
        commit_error(&with(&fields, "contrib", bytes(3))),
        corrupt("expected 32-byte bstr, got 3")
    );
    let parents: Vec<Vec<u8>> = (0..1025).map(|_| bytes(32)).collect();
    assert_eq!(
        commit_error(&with(&fields, "parents", list(&parents))),
        corrupt("commit parent count exceeds limit")
    );
    let mut trailing = map(&without(&fields, "tree"));
    trailing.push(0);
    assert_eq!(
        Commit::decode(&file(ObjectType::Commit, &trailing)).unwrap_err(),
        corrupt("commit header trailing bytes")
    );
    assert_eq!(
        Commit::decode(&encode_file(ObjectType::Commit, &map(&fields), &[1])).unwrap_err(),
        corrupt("commit has payload")
    );
}

#[test]
fn snapshot_headers_are_told_in_the_order_of_reading() {
    let fields = vec![
        ("tree", bytes(32)),
        ("commit", bytes(32)),
        ("tag", text("v1")),
        ("ts", number(1)),
        ("prov", bytes(32)),
        ("pk", bytes(32)),
        ("sig", bytes(64)),
    ];
    let snap = |f: &[(&str, Vec<u8>)]| Snapshot::decode(&file(ObjectType::Snapshot, &map(f)));
    assert!(snap(&fields).is_ok());
    for key in ["tree", "commit", "tag", "ts", "prov", "pk", "sig"] {
        let mut want = "snap ".to_string();
        want.push_str(key);
        assert_eq!(snap(&without(&fields, key)).unwrap_err(), corrupt(&want));
    }
    assert_eq!(snap(&with(&fields, "pk", bytes(31))).unwrap_err(), corrupt("pk len"));
    assert_eq!(snap(&with(&fields, "sig", bytes(32))).unwrap_err(), corrupt("sig len"));
    assert_eq!(snap(&with(&fields, "pk", number(1))).unwrap_err(), corrupt("expected bytes"));
    assert_eq!(snap(&with(&fields, "zz", number(0))).unwrap_err(), corrupt("unknown snapshot key zz"));
}

#[test]
fn conflict_headers_are_told_in_the_order_of_reading() {
    let path = vec![("p", text("a")), ("a", bytes(32))];
    let fields = vec![("ours", bytes(32)), ("theirs", bytes(32)), ("paths", list(&[map(&path)]))];
    let conflict = |f: &[(&str, Vec<u8>)]| Conflict::decode(&file(ObjectType::Conflict, &map(f)));
    assert!(conflict(&fields).is_ok());
    assert_eq!(conflict(&without(&fields, "ours")).unwrap_err(), corrupt("conflict ours"));
    assert_eq!(conflict(&without(&fields, "theirs")).unwrap_err(), corrupt("conflict theirs"));
    assert_eq!(
        conflict(&with(&fields, "zz", number(0))).unwrap_err(),
        corrupt("unknown conflict key zz")
    );
    let with_path = |p: &[(&'static str, Vec<u8>)]| {
        conflict(&with(&fields, "paths", list(&[map(p)]))).unwrap_err()
    };
    assert_eq!(with_path(&without(&path, "p")), corrupt("conflict path"));
    assert_eq!(with_path(&with(&path, "q", number(0))), corrupt("path key q"));
    assert_eq!(with_path(&with(&path, "b", number(0))), corrupt("expected bytes"));
    let mut nothing = Vec::new();
    encode_null(&mut nothing);
    assert!(conflict(&with(&fields, "paths", list(&[map(&with(&path, "b", nothing))]))).is_ok());
    let ids: Vec<Vec<u8>> = (0..100_001).map(|_| vec![0x40u8]).collect();
    assert_eq!(
        conflict(&with(&fields, "bases", list(&ids))).unwrap_err(),
        corrupt("object id array exceeds limit")
    );
    assert_eq!(
        conflict(&with(&fields, "paths", list(&ids))).unwrap_err(),
        corrupt("conflict path count exceeds limit")
    );
}

#[test]
fn contribution_headers_are_told_in_the_order_of_reading() {
    let read = vec![("p", text("r")), ("id", bytes(32))];
    let fields = vec![
        ("base", bytes(32)),
        ("tree", bytes(32)),
        ("parents", list(&[])),
        ("reads", list(&[map(&read)])),
        ("writes", list(&[text("w")])),
        ("agent", text("a")),
        ("ts", number(1)),
    ];
    let made = |f: &[(&str, Vec<u8>)]| Contribution::decode(&file(ObjectType::Contribution, &map(f)));
    assert!(made(&fields).is_ok());
    for key in ["base", "tree", "parents", "reads", "writes", "agent", "ts"] {
        let mut want = "contribution ".to_string();
        want.push_str(key);
        assert_eq!(made(&without(&fields, key)).unwrap_err(), corrupt(&want));
    }
    assert_eq!(made(&with(&fields, "zz", number(0))).unwrap_err(), corrupt("unknown contribution key zz"));
    assert_eq!(
        made(&with(&fields, "reads", list(&[map(&without(&read, "p"))]))).unwrap_err(),
        corrupt("contribution read path")
    );
    assert_eq!(
        made(&with(&fields, "reads", list(&[map(&without(&read, "id"))]))).unwrap_err(),
        corrupt("contribution read id")
    );
    assert_eq!(
        made(&with(&fields, "agent", text(""))).unwrap_err(),
        corrupt("invalid: contribution agent bounds")
    );
    assert_eq!(
        made(&with(&fields, "writes", list(&[text("")]))).unwrap_err(),
        corrupt("invalid: contribution path bounds")
    );
    assert_eq!(
        made(&with(&fields, "writes", list(&[text("b"), text("a")]))).unwrap_err(),
        corrupt("invalid: contribution paths must be bytewise sorted unique")
    );
    let parents: Vec<Vec<u8>> = (0..1025).map(|_| bytes(32)).collect();
    assert_eq!(
        made(&with(&fields, "parents", list(&parents))).unwrap_err(),
        corrupt("contribution parent count exceeds limit")
    );
}

#[test]
fn manifests_are_told_in_the_order_of_reading() {
    let refused = |b: &[u8]| ProvenanceManifest::decode(b).unwrap_err();
    let id = ObjectId([0xab; 32]).hex();
    let entries = map(&[(id.as_str(), text("a"))]);
    assert!(ProvenanceManifest::decode(&entries).is_ok());
    assert_eq!(refused(&[]), corrupt("cbor truncated"));
    let envelope = vec![("entries", entries.clone()), ("version", number(1))];
    assert!(ProvenanceManifest::decode(&map(&envelope)).is_ok());
    assert_eq!(refused(&map(&without(&envelope, "version"))), corrupt("provenance version"));
    assert_eq!(refused(&map(&without(&envelope, "entries"))), corrupt("provenance entries"));
    assert_eq!(
        refused(&map(&with(&envelope, "version", number(3)))),
        corrupt("unsupported provenance version 3")
    );
    assert_eq!(
        refused(&map(&with(&envelope, "zzzzzzzz", number(3)))),
        corrupt("unknown provenance envelope key zzzzzzzz")
    );
    let mut trailing = map(&envelope);
    trailing.push(0);
    assert_eq!(refused(&trailing), corrupt("provenance trailing bytes"));
    let mut trailing = entries.clone();
    trailing.push(0);
    assert_eq!(refused(&trailing), corrupt("provenance trailing bytes"));
    let with_entries = |e: Vec<u8>| refused(&map(&with(&envelope, "entries", e)));
    assert_eq!(with_entries(map(&[("ab", text("a"))])), corrupt("provenance object id length"));
    assert_eq!(
        with_entries(map(&[(id.to_uppercase().as_str(), text("a"))])),
        corrupt("provenance object ids must be lowercase hex")
    );
    assert_eq!(
        with_entries(map(&[("g".repeat(64).as_str(), text("a"))])),
        corrupt("provenance object id: invalid: invalid hex digit")
    );
    assert_eq!(
        with_entries(map(&[("a".repeat(65).as_str(), text("a"))])),
        corrupt("provenance object id limit")
    );
    assert_eq!(
        with_entries(map(&[(id.as_str(), text(&"x".repeat(1025)))])),
        corrupt("provenance attribution label limit")
    );
    assert_eq!(
        ProvenanceManifest::decode_with_limit(&entries, 10).unwrap_err(),
        corrupt("provenance serialized size limit")
    );
}

fn entry(name: &str) -> TreeEntry {
    TreeEntry {
        name: name.to_string(),
        kind: EntryKind::Blob,
        id: ObjectId([1; 32]),
        executable: false,
    }
}

#[test]
fn entries_are_refused_by_the_first_bad_or_the_least_repeated_name() {
    assert_eq!(
        Tree::new(vec![entry("ok"), entry("."), entry("")]).unwrap_err(),
        invalid("tree name . or ..")
    );
    assert_eq!(
        Tree::new(vec![entry("b"), entry("a"), entry("b"), entry("a")]).unwrap_err(),
        invalid("duplicate tree name a")
    );
    assert_eq!(
        Tree { entries: vec![entry("a\0b")] }.encode().unwrap_err(),
        invalid("illegal tree name \"a\\0b\"")
    );
}

#[test]
fn paths_are_refused_by_what_stands_in_the_way() {
    let mut store = Store::with_object_store(MemoryObjectStore::new());
    let blob = store.put_blob_data(b"x").unwrap();
    let file = TreeEntry { name: "f".to_string(), kind: EntryKind::Blob, id: blob, executable: false };
    let root = store.put_tree(&Tree::new(vec![file]).unwrap()).unwrap();
    let mounts = vec![Mount { path: "/w".to_string(), spec: "main".to_string(), mode: Mode::Ro }];
    let staged = vec![OverlayRow {
        path: "g".to_string(),
        blob_oid: Some(blob),
        executable: false,
    }];
    let mut at = |p: &str| resolve(&mut store, &mounts, &staged, root, p).unwrap_err();
    assert_eq!(at("/x"), Error::NotFound("no mount for /x".to_string()));
    assert_eq!(at("/w/../x"), invalid("tree name . or .."));
    assert_eq!(at("/w/g/h"), invalid("overlay file in middle of path"));
    assert_eq!(at("/w/f/h"), Error::NotFound("f".to_string()));
    assert_eq!(at("/w/n"), Error::NotFound("n".to_string()));
    let bad = vec![Mount { path: "/a//b".to_string(), spec: "main".to_string(), mode: Mode::Ro }];
    assert_eq!(
        resolve(&mut store, &bad, &staged, root, "/w").unwrap_err(),
        invalid("tree name length")
    );
    assert_eq!(ls(&mut store, &staged, root, "f").unwrap_err(), invalid("ls on blob"));
    assert_eq!(ls(&mut store, &staged, root, "n").unwrap_err(), Error::NotFound("n".to_string()));
    assert_eq!(ls(&mut store, &staged, root, "a/./b").unwrap_err(), invalid("tree name . or .."));
}
