//! Decoders accept canonical bytes, and nothing else.
use forgefs::cbor::{
    encode_array_header, encode_bool, encode_bytes, encode_map_header, encode_text, encode_u64,
    Reader,
};
use forgefs::commit::Commit;
use forgefs::conflict::Conflict;
use forgefs::contribution::{Contribution, ContributionRead};
use forgefs::hash::hash_bytes;
use forgefs::object::{encode_file, parse_file, Blob};
use forgefs::overlay::split_path;
use forgefs::snapshot::Snapshot;
use forgefs::tree::{validate_name, Tree, TreeEntry};
use forgefs::types::{EntryKind, Error, ObjectId, ObjectType};

fn mutations(bytes: &[u8]) -> Vec<Vec<u8>> {
    let mut out = Vec::new();

    // Every truncation is a useful parser boundary case.
    for end in 0..bytes.len() {
        out.push(bytes[..end].to_vec());
    }

    // Flip every bit of every byte. Bound the corpus while still covering the
    // complete valid encoding surface of these small golden objects.
    for i in 0..bytes.len() {
        for bit in 0..8 {
            let mut mutated = bytes.to_vec();
            mutated[i] ^= 1 << bit;
            out.push(mutated);
        }
    }

    // Exercise trailing-data rejection explicitly.
    let mut trailing = bytes.to_vec();
    trailing.extend_from_slice(&[0, 0xff, 0x80]);
    out.push(trailing);
    out
}

#[test]
fn accepted_blob_mutations_are_canonical() {
    let original = Blob {
        data: b"forgefs-canonical-blob".to_vec(),
    }
    .encode();

    for candidate in std::iter::once(original.clone()).chain(mutations(&original)) {
        if let Ok(decoded) = Blob::decode(&candidate) {
            assert_eq!(
                decoded.encode(),
                candidate,
                "blob decoder accepted a non-canonical representation"
            );
        }
    }
}

#[test]
fn accepted_tree_mutations_are_canonical() {
    let original = Tree::new(vec![
        TreeEntry {
            name: "alpha".to_string(),
            kind: EntryKind::Blob,
            id: ObjectId([0x11; 32]),
            executable: false,
        },
        TreeEntry {
            name: "omega".to_string(),
            kind: EntryKind::Tree,
            id: ObjectId([0x22; 32]),
            executable: false,
        },
    ])
    .unwrap()
    .encode()
    .unwrap();

    for candidate in std::iter::once(original.clone()).chain(mutations(&original)) {
        if let Ok(decoded) = Tree::decode(&candidate) {
            assert_eq!(
                decoded.encode().unwrap(),
                candidate,
                "tree decoder accepted a non-canonical representation"
            );
        }
    }
}

#[test]
fn accepted_commit_mutations_are_canonical() {
    let original = Commit {
        tree: ObjectId([0x33; 32]),
        parents: vec![ObjectId([0x44; 32]), ObjectId([0x55; 32])],
        agent: "agent-a".to_string(),
        msg: "deterministic mutation corpus".to_string(),
        ts: 42,
        landmark: true,
        contribution: None,
    }
    .encode();

    for candidate in std::iter::once(original.clone()).chain(mutations(&original)) {
        if let Ok(decoded) = Commit::decode(&candidate) {
            assert_eq!(
                decoded.encode(),
                candidate,
                "commit decoder accepted a non-canonical representation"
            );
        }
    }
}

// Canonical map order is by encoded key bytes, so a 24-byte text key
// (0x78 0x18 ...) sorts after every real key in the v1 format. The only
// non-canonical property of a spliced object is the unknown field itself.
const UNKNOWN_KEY: &str = "zzzzzzzzzzzzzzzzzzzzzzzz";

fn with_unknown_field(bytes: &[u8]) -> Vec<u8> {
    let (ty, header, payload) = parse_file(bytes).expect("valid object parses");
    assert_eq!(
        header[0] & 0xe0,
        0xa0,
        "object header must start with a CBOR map"
    );
    let count = header[0] & 0x1f;
    assert!(count < 23, "map count must stay in the one-byte form");
    let mut grown = header.to_vec();
    grown[0] = 0xa0 | (count + 1);
    encode_text(&mut grown, UNKNOWN_KEY);
    encode_text(&mut grown, "ignored");
    encode_file(ty, &grown, payload)
}

fn assert_corrupt(what: &str, decoded: Result<(), Error>) {
    match decoded {
        Err(Error::Corrupt(_)) => {}
        Err(other) => panic!("{what} rejected an unknown field as {other:?}, not Corrupt"),
        Ok(()) => panic!("{what} decoder accepted an unknown header field"),
    }
}

fn append_kv(out: &mut Vec<u8>, key: &str, value: &[u8]) {
    encode_text(out, key);
    out.extend_from_slice(value);
}

#[test]
fn commit_rejects_unsorted_map_keys() {
    let mut header = Vec::new();
    encode_map_header(&mut header, 6);

    let mut agent = Vec::new();
    encode_text(&mut agent, "agent");
    let mut lm = Vec::new();
    encode_bool(&mut lm, false);
    let mut msg = Vec::new();
    encode_text(&mut msg, "msg");
    let mut parents = Vec::new();
    encode_array_header(&mut parents, 0);
    let mut tree = Vec::new();
    encode_bytes(&mut tree, ObjectId([1; 32]).as_bytes());
    let mut ts = Vec::new();
    encode_u64(&mut ts, 1);

    // Deliberately not canonical CBOR encoded-key order: `agent` (0x65...)
    // precedes shorter keys such as `lm` (0x62...).
    append_kv(&mut header, "agent", &agent);
    append_kv(&mut header, "lm", &lm);
    append_kv(&mut header, "msg", &msg);
    append_kv(&mut header, "parents", &parents);
    append_kv(&mut header, "tree", &tree);
    append_kv(&mut header, "ts", &ts);

    let bytes = encode_file(ObjectType::Commit, &header, &[]);
    assert!(Commit::decode(&bytes).is_err());
}

#[test]
fn commit_rejects_trailing_header_bytes() {
    let c = Commit {
        tree: ObjectId([1; 32]),
        parents: vec![],
        agent: "a".to_string(),
        msg: "m".to_string(),
        ts: 1,
        landmark: false,
        contribution: None,
    };
    let mut bytes = c.encode();
    let n = u32::from_be_bytes([bytes[1], bytes[2], bytes[3], bytes[4]]) as usize;
    bytes.insert(5 + n, 0xf6);
    let new_n = (n + 1) as u32;
    bytes[1..5].copy_from_slice(&new_n.to_be_bytes());
    assert!(Commit::decode(&bytes).is_err());
}

#[test]
fn conflict_and_snapshot_reject_payloads() {
    let c = Conflict {
        bases: vec![],
        ours: ObjectId([1; 32]),
        theirs: ObjectId([2; 32]),
        paths: vec![],
        causal: vec![],
    };
    let mut conflict = c.encode();
    conflict.push(0);
    assert!(Conflict::decode(&conflict).is_err());

    let s = Snapshot {
        tree: ObjectId([1; 32]),
        commit: ObjectId([2; 32]),
        tag: "t".to_string(),
        ts: 1,
        prov: ObjectId([3; 32]),
        pk: [4; 32],
        sig: [5; 64],
    };
    let mut snapshot = s.encode();
    snapshot.push(0);
    assert!(Snapshot::decode(&snapshot).is_err());
}

#[test]
fn huge_declared_length_is_an_error() {
    let bytes = [0x5b, 0xff, 0xff, 0xff, 0xff, 0xff, 0xff, 0xff, 0xff];
    let mut r = Reader::new(&bytes);
    assert!(r.bytes().is_err());
}

/// I1: unknown header fields are Corrupt. A decoder that skipped an unknown key
/// would accept bytes it cannot reproduce, so `Decode(encode(x)) == encode(x)`
/// would no longer hold and two distinct byte strings would name one object.
#[test]
fn i1_decoders_reject_unknown_header_fields() {
    let blob = Blob {
        data: b"forgefs-unknown-field".to_vec(),
    }
    .encode();
    assert_corrupt("blob", Blob::decode(&with_unknown_field(&blob)).map(|_| ()));

    let tree = Tree::new(vec![TreeEntry {
        name: "alpha".to_string(),
        kind: EntryKind::Blob,
        id: ObjectId([0x11; 32]),
        executable: false,
    }])
    .unwrap()
    .encode()
    .unwrap();
    assert_corrupt("tree", Tree::decode(&with_unknown_field(&tree)).map(|_| ()));

    let commit = Commit {
        tree: ObjectId([0x33; 32]),
        parents: vec![ObjectId([0x44; 32])],
        agent: "agent-a".to_string(),
        msg: "unknown field must not be tolerated".to_string(),
        ts: 42,
        landmark: false,
        contribution: None,
    }
    .encode();
    assert_corrupt(
        "commit",
        Commit::decode(&with_unknown_field(&commit)).map(|_| ()),
    );

    let conflict = Conflict {
        bases: vec![ObjectId([1; 32])],
        ours: ObjectId([2; 32]),
        theirs: ObjectId([3; 32]),
        paths: vec![],
        causal: vec![],
    }
    .encode();
    assert_corrupt(
        "conflict",
        Conflict::decode(&with_unknown_field(&conflict)).map(|_| ()),
    );

    let snapshot = Snapshot {
        tree: ObjectId([1; 32]),
        commit: ObjectId([2; 32]),
        tag: "v0".to_string(),
        ts: 1,
        prov: ObjectId([3; 32]),
        pk: [4; 32],
        sig: [5; 64],
    }
    .encode();
    assert_corrupt(
        "snapshot",
        Snapshot::decode(&with_unknown_field(&snapshot)).map(|_| ()),
    );

    let contribution = Contribution {
        base: ObjectId([0x10; 32]),
        tree: ObjectId([0x20; 32]),
        parents: vec![ObjectId([0x30; 32])],
        reads: vec![ContributionRead {
            path: "src/lib.rs".to_string(),
            id: ObjectId([0x40; 32]),
        }],
        writes: vec!["README.md".to_string()],
        agent: "agent-a".to_string(),
        ts: 1,
    }
    .encode()
    .unwrap();
    assert_corrupt(
        "contribution",
        Contribution::decode(&with_unknown_field(&contribution)).map(|_| ()),
    );
}

fn sample() -> Contribution {
    Contribution {
        base: ObjectId([0x10; 32]),
        tree: ObjectId([0x20; 32]),
        parents: vec![ObjectId([0x30; 32])],
        reads: vec![
            ContributionRead {
                path: "Cargo.lock".to_string(),
                id: ObjectId([0x40; 32]),
            },
            ContributionRead {
                path: "src/lib.rs".to_string(),
                id: ObjectId([0x41; 32]),
            },
        ],
        writes: vec!["README.md".to_string(), "src/lib.rs".to_string()],
        agent: "agent-a".to_string(),
        ts: 1,
    }
}

#[test]
fn contribution_requires_bytewise_sorted_unique_sets() {
    let mut value = sample();
    value.writes.reverse();
    assert!(value.encode().is_err());

    let mut value = sample();
    value.reads[1].path = value.reads[0].path.clone();
    assert!(value.encode().is_err());
}

#[test]
fn contribution_decoder_is_type_strict() {
    let blob = Blob {
        data: b"x".to_vec(),
    }
    .encode();
    assert!(Contribution::decode(&blob).is_err());
}

#[test]
fn commit_contribution_link_roundtrips() {
    let link = ObjectId([9; 32]);
    let commit = Commit {
        tree: ObjectId([1; 32]),
        parents: vec![ObjectId([2; 32])],
        agent: "agent".to_string(),
        msg: "msg".to_string(),
        ts: 7,
        landmark: false,
        contribution: Some(link),
    };
    let decoded = Commit::decode(&commit.encode()).unwrap();
    assert_eq!(decoded.contribution, Some(link));
}

#[test]
fn v1_object_type_registry_is_frozen() {
    let assigned = [
        (0x01, ObjectType::Blob),
        (0x02, ObjectType::Tree),
        (0x03, ObjectType::Commit),
        (0x04, ObjectType::Conflict),
        (0x05, ObjectType::Snapshot),
        (0x06, ObjectType::Contribution),
    ];
    for &(tag, expected) in &assigned {
        assert_eq!(expected.to_u8(), tag);
        assert_eq!(ObjectType::from_u8(tag).unwrap(), expected);
    }

    for unassigned in u8::MIN..=u8::MAX {
        if assigned.iter().any(|(tag, _)| *tag == unassigned) {
            continue;
        }
        assert!(
            ObjectType::from_u8(unassigned).is_err(),
            "VERSION 1 must reject unassigned type 0x{unassigned:02x}"
        );
    }
}

#[test]
fn i16_unicode_normalization_does_not_change_tree_identity() {
    let composed = "caf\u{00e9}";
    let decomposed = "cafe\u{0301}";
    assert_ne!(composed.as_bytes(), decomposed.as_bytes());

    let tree = Tree::new(vec![
        TreeEntry {
            name: composed.to_string(),
            kind: EntryKind::Blob,
            id: ObjectId([1; 32]),
            executable: false,
        },
        TreeEntry {
            name: decomposed.to_string(),
            kind: EntryKind::Blob,
            id: ObjectId([2; 32]),
            executable: false,
        },
    ])
    .unwrap();

    assert_eq!(tree.entries.len(), 2);
    assert_eq!(tree.get(composed).unwrap().id, ObjectId([1; 32]));
    assert_eq!(tree.get(decomposed).unwrap().id, ObjectId([2; 32]));
}

#[test]
fn i16_case_distinct_names_remain_distinct() {
    let tree = Tree::new(vec![
        TreeEntry {
            name: "Foo".to_string(),
            kind: EntryKind::Blob,
            id: ObjectId([3; 32]),
            executable: false,
        },
        TreeEntry {
            name: "foo".to_string(),
            kind: EntryKind::Blob,
            id: ObjectId([4; 32]),
            executable: false,
        },
    ])
    .unwrap();

    assert_eq!(tree.entries.len(), 2);
    assert_eq!(tree.get("Foo").unwrap().id, ObjectId([3; 32]));
    assert_eq!(tree.get("foo").unwrap().id, ObjectId([4; 32]));
}

/// I16: a tree name is exactly one path component, held as its exact UTF-8
/// bytes. A name carrying the path separator or a NUL byte would let two
/// byte-distinct trees claim the same resolved path, so core identity must
/// reject such a name outright rather than reshape it.
#[test]
fn i16_tree_name_rejects_path_separator_and_nul() {
    for illegal in ["a/b", "/", "dir/", "nul\0byte", "\0"] {
        assert!(
            validate_name(illegal).is_err(),
            "validate_name must reject the tree name {illegal:?}"
        );

        let entry = TreeEntry {
            name: illegal.to_string(),
            kind: EntryKind::Blob,
            id: ObjectId([5; 32]),
            executable: false,
        };
        assert!(
            Tree::new(vec![entry.clone()]).is_err(),
            "Tree::new must reject the tree name {illegal:?}"
        );
        assert!(
            Tree::from_canonical(vec![entry]).is_err(),
            "decode must reject the tree name {illegal:?}"
        );
    }

    assert!(
        split_path("dir/nul\0byte").is_err(),
        "a NUL byte must not survive path splitting into a tree name"
    );
}

#[test]
fn contribution_roundtrip_and_golden_identity() {
    let value = sample();
    let bytes = value.encode().unwrap();
    assert_eq!(Contribution::decode(&bytes).unwrap(), value);
}

#[test]
fn v1_object_ids_are_userspace_abi() {
    let commit = Commit {
        tree: ObjectId([0x22; 32]),
        parents: vec![ObjectId([0x33; 32]), ObjectId([0x44; 32])],
        agent: "golden".to_string(),
        msg: "v1".to_string(),
        ts: 42,
        landmark: true,
        contribution: None,
    };
    let commit_bytes = commit.encode();
    assert_eq!(Commit::decode(&commit_bytes).unwrap(), commit);
    let linked = Commit {
        contribution: Some(ObjectId([0x55; 32])),
        ..commit
    };
    let linked_bytes = linked.encode();
    assert_eq!(Commit::decode(&linked_bytes).unwrap(), linked);
    assert_ne!(hash_bytes(&commit_bytes), hash_bytes(&linked_bytes));
}

#[test]
fn huge_declared_length_returns_error_without_panicking() {
    let bytes = [0x5b, 0xff, 0xff, 0xff, 0xff, 0xff, 0xff, 0xff, 0xff];
    let mut r = Reader::new(&bytes);
    assert!(r.bytes().is_err());
}

#[test]
fn a_conflict_beyond_the_limits_is_written_and_not_read() {
    let mut conflict = Conflict {
        bases: vec![],
        ours: ObjectId([1; 32]),
        theirs: ObjectId([2; 32]),
        paths: vec![],
        causal: vec![ObjectId([3; 32]); 100_000],
    };
    assert_eq!(Conflict::decode(&conflict.encode()).unwrap(), conflict);
    conflict.causal.push(ObjectId([4; 32]));
    assert!(matches!(
        Conflict::decode(&conflict.encode()),
        Err(Error::Corrupt(_))
    ));
}

#[test]
fn an_entry_of_an_unknown_kind_is_invalid_and_other_damage_corrupt() {
    let tree = Tree::new(vec![TreeEntry {
        name: "a".to_string(),
        kind: EntryKind::Blob,
        id: ObjectId([7; 32]),
        executable: false,
    }])
    .unwrap();
    let good = tree.encode().unwrap();
    let kind = good.windows(3).position(|w| w == [0x61, b'k', 1]).unwrap() + 2;
    let mut odd = good.clone();
    odd[kind] = 9;
    assert!(matches!(Tree::decode(&odd), Err(Error::Invalid(_))));
    let mut damaged = good;
    damaged[kind - 1] = b'z';
    assert!(matches!(Tree::decode(&damaged), Err(Error::Corrupt(_))));
}

#[test]
fn a_key_that_is_refused_leaves_the_last_one() {
    let bytes = [0x61, b'b', 0x61, b'a', 0x61, b'c'];
    let mut r = Reader::new(&bytes);
    let mut last = None;
    assert_eq!(r.text_map_key(&mut last).unwrap(), "b");
    assert!(matches!(r.text_map_key(&mut last), Err(Error::Corrupt(_))));
    assert_eq!(last, Some(vec![0x61, b'b']));
    assert_eq!(r.text_map_key(&mut last).unwrap(), "c");
}
