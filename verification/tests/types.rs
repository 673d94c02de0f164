//! Identifiers and errors.
use forgefs::types::{Error, ObjectId};

#[test]
fn hex_roundtrip() {
    let id = ObjectId([0xab; 32]);
    let h = id.hex();
    assert_eq!(h.len(), 64);
    assert_eq!(ObjectId::from_hex(&h).unwrap(), id);
}

#[test]
fn shard_dirs() {
    let mut raw = [0u8; 32];
    raw[0] = 0xde;
    raw[1] = 0xad;
    let id = ObjectId(raw);
    let (a, b) = id.shard_dirs();
    assert_eq!(a, "de");
    assert_eq!(b, "ad");
}

#[test]
fn hex_that_is_too_short_or_odd_is_refused() {
    assert!(matches!(ObjectId::from_hex("abcd"), Err(Error::Invalid(_))));
    assert!(matches!(ObjectId::from_hex("abc"), Err(Error::Invalid(_))));
    assert!(matches!(ObjectId::from_hex("zz"), Err(Error::Invalid(_))));
}

#[test]
fn every_error_has_its_class_and_its_exit_code() {
    let id = ObjectId([7; 32]);
    let all = [
        (Error::Denied("x".to_string()), "denied", 1, "denied: x".to_string()),
        (Error::NotFound("x".to_string()), "not_found", 1, "not found: x".to_string()),
        (Error::Sealed("x".to_string()), "sealed", 2, "sealed: x".to_string()),
        (Error::Invalid("x".to_string()), "invalid", 1, "invalid: x".to_string()),
        (Error::Corrupt("x".to_string()), "corrupt", 2, "corrupt: x".to_string()),
        (Error::Busy("x".to_string()), "busy", 4, "busy: x".to_string()),
        (Error::MergeConflict(id), "conflict", 3, format!("conflict object {}", id.hex())),
        (Error::Io("x".to_string()), "internal", 5, "io: x".to_string()),
        (Error::Sqlite("x".to_string()), "internal", 5, "sqlite: x".to_string()),
        (Error::Internal("x".to_string()), "internal", 5, "internal: x".to_string()),
    ];
    for (error, code, exit, message) in all {
        assert_eq!(error.code(), code);
        assert_eq!(error.exit_code(), exit);
        assert_eq!(error.message(), message);
    }
}

#[test]
fn a_new_fork_has_the_name_of_its_ref_and_a_ulid() {
    let name = forgefs::names::new_fork_ref("heads/x", "Agent A");
    let parts: Vec<&str> = name.rsplitn(2, '/').collect();
    assert_eq!(parts[0].len(), 26);
    assert_eq!(name, forgefs::names::fork_ref("heads/x", "Agent A", parts[0]));
}
