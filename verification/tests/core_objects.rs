//! Object files: encoding, decoding and identity.
use forgefs::commit::Commit;
use forgefs::hash::hash_bytes;
use forgefs::object::{parse_file, Blob};
use forgefs::snapshot::Snapshot;
use forgefs::tree::{Tree, TreeEntry};
use forgefs::types::{EntryKind, ObjectId, ObjectType};

#[test]
fn empty_tree_roundtrip_stable_hash() {
    let t = Tree::new(vec![]).unwrap();
    let bytes = t.encode().unwrap();
    let t2 = Tree::decode(&bytes).unwrap();
    assert_eq!(t, t2);
    let id = hash_bytes(&bytes);
    assert_eq!(bytes[0], ObjectType::Tree.to_u8());
    // Length-prefixed file: type + u32be + header. Pin the exact bytes.
    assert_eq!(bytes.len(), 5 + 4); // empty map {e: []} is 4 cbor bytes: a1 61 65 80
    assert_eq!(&bytes[5..], &[0xa1, 0x61, b'e', 0x80]);
    let _ = id;
    let (_ty, header, payload) = parse_file(&bytes).unwrap();
    assert!(payload.is_empty());
    assert!(!header.is_empty());
    // Second encode identical.
    assert_eq!(bytes, t.encode().unwrap());
    // Malleability: longer-form uint length in the header size is a different
    // file; a non-canonical CBOR uint inside the header must be rejected.
    let noncanon = vec![0x02, 0, 0, 0, 5, 0xa1, 0x61, b'e', 0x98, 0x00];
    assert!(Tree::decode(&noncanon).is_err());
}

#[test]
fn blob_roundtrip() {
    let b = Blob {
        data: b"hello forge".to_vec(),
    };
    let bytes = b.encode();
    let b2 = Blob::decode(&bytes).unwrap();
    assert_eq!(b, b2);
    assert_eq!(hash_bytes(&bytes), hash_bytes(&b.encode()));
}

#[test]
fn commit_roundtrip() {
    let tree = hash_bytes(&[1, 2, 3]);
    let c = Commit {
        tree,
        parents: vec![],
        agent: "init".to_string(),
        msg: "init".to_string(),
        ts: 1,
        landmark: true,
        contribution: None,
    };
    let bytes = c.encode();
    assert_eq!(Commit::decode(&bytes).unwrap(), c);
}

#[test]
fn tree_with_blob_sorted() {
    let e1 = TreeEntry {
        name: "b".to_string(),
        kind: EntryKind::Blob,
        id: ObjectId([1; 32]),
        executable: false,
    };
    let e2 = TreeEntry {
        name: "a".to_string(),
        kind: EntryKind::Blob,
        id: ObjectId([2; 32]),
        executable: true,
    };
    let t = Tree::new(vec![e1, e2]).unwrap();
    assert_eq!(t.entries[0].name, "a");
    let bytes = t.encode().unwrap();
    let t2 = Tree::decode(&bytes).unwrap();
    assert_eq!(t, t2);
}

#[test]
fn snapshot_unsigned_differs_by_sig_only_in_bytes() {
    let s = Snapshot {
        tree: ObjectId([9; 32]),
        commit: ObjectId([8; 32]),
        tag: "v1.0".to_string(),
        ts: 42,
        prov: ObjectId([7; 32]),
        pk: [3; 32],
        sig: [4; 64],
    };
    let u = s.encode_unsigned();
    let s2 = Snapshot::decode(&u).unwrap();
    assert_eq!(s2.sig, [0u8; 64]);
    assert_eq!(s2.tag, "v1.0");
}

#[test]
fn sorted_tree_get_finds_hits_and_misses() {
    let tree = Tree::new(vec![
        TreeEntry {
            name: "zeta".to_string(),
            kind: EntryKind::Blob,
            id: ObjectId([1u8; 32]),
            executable: false,
        },
        TreeEntry {
            name: "alpha".to_string(),
            kind: EntryKind::Blob,
            id: ObjectId([2u8; 32]),
            executable: false,
        },
        TreeEntry {
            name: "middle".to_string(),
            kind: EntryKind::Blob,
            id: ObjectId([3u8; 32]),
            executable: false,
        },
    ])
    .unwrap();

    assert_eq!(tree.get("alpha").unwrap().id, ObjectId([2u8; 32]));
    assert_eq!(tree.get("middle").unwrap().id, ObjectId([3u8; 32]));
    assert_eq!(tree.get("zeta").unwrap().id, ObjectId([1u8; 32]));
    assert!(tree.get("absent").is_none());
}
