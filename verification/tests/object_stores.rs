//! What every object store owes, asserted of the one in memory, and the store above it.
use forgefs::hash::hash_bytes;
use forgefs::memory::MemoryObjectStore;
use forgefs::object::Blob;
use forgefs::objectstore::{DurabilityClass, ObjectBatch, ObjectPlane, ObjectStore};
use forgefs::overlay::TreeStore;
use forgefs::store::Store;
use forgefs::tree::Tree;
use forgefs::types::Error;

type MemStore = Store<MemoryObjectStore>;

fn open() -> MemStore {
    Store::with_object_store(MemoryObjectStore::new())
}

fn declares_its_durability_class(who: &str) {
    assert_eq!(
        MemoryObjectStore::new().durability_class(),
        DurabilityClass::ProcessLifetime,
        "{who}: a backend must declare what its finish barrier is worth"
    );
}

fn content_addressed_and_idempotent(who: &str) {
    let mut s = MemoryObjectStore::new();
    let a = s.put(b"abc").unwrap();
    let b = s.put(b"abc").unwrap();
    assert_eq!(a, b, "{who}: identical bytes must publish to one address");
    assert_eq!(a, hash_bytes(b"abc"), "{who}: address must be the content");
    assert_eq!(
        s.get(a).unwrap(),
        b"abc",
        "{who}: read back what was written"
    );
    assert!(s.has(a), "{who}: a published object is visible");
}

/// A publisher writes the caller's payload
/// in place instead of allocating the concatenation, and `put_blob_data` frames
/// a blob as `[prefix, data]`. That only preserves I2 if every backend agrees
/// that `parts` is one object cut anywhere, never a structure inside it. A
/// backend that hashed the parts separately, framed them, or reordered them
/// would publish a different object under the same call, and the same repository
/// would have two addresses for one byte string depending on how it was written.
fn gather_addresses_the_concatenation(who: &str) {
    let mut s = MemoryObjectStore::new();
    let whole: &[u8] = b"a frame prefix and then the payload";
    let id = s.put(whole).unwrap();

    for cut in 0..=whole.len() {
        let (head, tail) = whole.split_at(cut);
        assert_eq!(
            s.put_parts(&[head, tail]).unwrap(),
            id,
            "{who}: put_parts must address the concatenation, not the split at {cut}"
        );
    }
    assert_eq!(
        s.get(id).unwrap(),
        whole,
        "{who}: a gathered publication stores the joined bytes"
    );

    // The batch form is the one a real publisher uses, and it is the one that
    // owes the naming barrier, so assert it separately rather than trusting the
    // single-object default to stand in for it.
    let mut batch = s.begin_batch();
    let (head, tail) = whole.split_at(7);
    assert_eq!(
        batch.put_parts(&mut s, &[head, tail]).unwrap(),
        id,
        "{who}: a batched gather addresses the same object"
    );
    batch.finish(&mut s).unwrap();

    // Empty parts are still parts of nothing: they must not change the address.
    let empty = s.put(b"").unwrap();
    assert_eq!(
        s.put_parts(&[]).unwrap(),
        empty,
        "{who}: no parts is the empty object"
    );
    assert_eq!(
        s.put_parts(&[b"", b"", b""]).unwrap(),
        empty,
        "{who}: empty parts do not frame anything"
    );
    let (head, tail) = whole.split_at(3);
    assert_eq!(
        s.put_parts(&[b"", head, b"", tail, b""]).unwrap(),
        id,
        "{who}: interleaved empty parts do not change the concatenation"
    );
}

fn absent_object_is_not_found(who: &str) {
    let mut s = MemoryObjectStore::new();
    let id = hash_bytes(b"never published");
    assert!(!s.has(id), "{who}: an unpublished object is not visible");
    assert!(
        matches!(s.get(id), Err(Error::NotFound(_))),
        "{who}: an unpublished object must be NotFound"
    );
}

fn batch_publishes_every_object(who: &str) {
    let mut s = MemoryObjectStore::new();
    let payloads: [&[u8]; 3] = [b"one", b"two", b"three"];
    let mut batch = s.begin_batch();
    let ids: Vec<_> = payloads
        .iter()
        .map(|bytes| batch.put(&mut s, bytes).unwrap())
        .collect();
    batch.finish(&mut s).unwrap();
    for (id, bytes) in ids.iter().zip(payloads) {
        assert_eq!(
            s.get(*id).unwrap(),
            bytes,
            "{who}: every object in a finished batch must be readable"
        );
    }
}

/// I4's negative half at the accounting level: nothing a dropped batch touched
/// may be reported as published, because no ref is allowed to name it.
fn dropped_batch_publishes_no_accounting(who: &str) {
    let mut s = MemoryObjectStore::new();
    let before = s.stats();
    let mut batch = s.begin_batch();
    batch.put(&mut s, b"abandoned publication").unwrap();
    drop(batch);
    let after = s.stats();
    assert_eq!(
        after.puts, before.puts,
        "{who}: a dropped batch must not count as a publication"
    );
    assert_eq!(
        after.dedup_hits, before.dedup_hits,
        "{who}: a dropped batch must not count as a dedup hit"
    );
}

/// I4's positive half: bytes AND the name that reaches them, both proven by the
/// time `finish` returns, with the publication itself only counted then.
fn new_publication_pays_object_and_naming_barriers(who: &str) {
    let mut s = MemoryObjectStore::new();
    let before = s.stats();
    let mut batch = s.begin_batch();
    let id = batch.put(&mut s, b"a brand new durable object").unwrap();
    assert_eq!(
        s.stats().puts,
        before.puts,
        "{who}: publication accounting must be deferred to finish"
    );
    batch.finish(&mut s).unwrap();
    let after = s.stats();
    assert_eq!(
        after.puts,
        before.puts + 1,
        "{who}: a finished batch publishes exactly its new objects"
    );
    assert!(
        after.fsync_file > before.fsync_file,
        "{who}: a new object must pay an object-bytes barrier"
    );
    assert!(
        after.fsync_dir > before.fsync_dir,
        "{who}: a new object must pay a naming barrier by finish"
    );
    assert_eq!(s.get(id).unwrap(), b"a brand new durable object");
}

fn dedup_of_a_proven_object_pays_no_barrier(who: &str) {
    let mut s = MemoryObjectStore::new();
    let bytes = b"already proven durable";
    let id = s.put(bytes).unwrap();
    let before = s.stats();

    let mut batch = s.begin_batch();
    assert_eq!(batch.put(&mut s, bytes).unwrap(), id);
    batch.finish(&mut s).unwrap();

    let after = s.stats();
    assert_eq!(
        after.puts, before.puts,
        "{who}: a dedup hit is not a publication"
    );
    assert_eq!(
        after.dedup_hits,
        before.dedup_hits + 1,
        "{who}: a dedup hit must be counted as one"
    );
    assert_eq!(
        after.fsync_file, before.fsync_file,
        "{who}: an already-proven object must not re-pay the bytes barrier"
    );
    assert_eq!(
        after.fsync_dir, before.fsync_dir,
        "{who}: an already-proven name must not re-pay the naming barrier"
    );
}

/// The rule a naive put/get/has trait loses, and the reason this seam is not
/// three methods. A batch that deduplicates against an object made *visible*
/// by another batch that has not finished inherits no proof at all: visibility
/// is never durability (I4). It must reproduce both barriers itself, because
/// its caller is about to CAS-publish a ref naming that object while the peer
/// that made it visible may already be dead.
fn join_of_an_unfinished_peer_reproves_the_whole_path(who: &str) {
    let mut s = MemoryObjectStore::new();
    let bytes = b"joined from an unfinished peer";

    let mut winner = s.begin_batch();
    let id = winner.put(&mut s, bytes).unwrap();
    let before = s.stats();

    let mut joiner = s.begin_batch();
    assert_eq!(joiner.put(&mut s, bytes).unwrap(), id);
    // Model the peer dying after making the object visible and before it ever
    // proved anything. The joiner is now the only batch that can.
    drop(winner);
    joiner.finish(&mut s).unwrap();

    let after = s.stats();
    assert_eq!(
        after.puts, before.puts,
        "{who}: joining an existing object is not a new publication"
    );
    assert_eq!(
        after.dedup_hits,
        before.dedup_hits + 1,
        "{who}: joining an existing object is a dedup hit"
    );
    assert!(
        after.fsync_file > before.fsync_file,
        "{who}: a joiner must re-prove the bytes of an unproven visible object"
    );
    assert!(
        after.fsync_dir > before.fsync_dir,
        "{who}: a joiner must re-prove the name of an unproven visible object"
    );
    assert_eq!(s.get(id).unwrap(), bytes);
}

fn read_only_store_refuses_publication(who: &str) {
    let mut s = MemoryObjectStore::new_read_only();
    assert!(s.read_only(), "{who}: a read-only store must say so");
    assert!(
        matches!(s.put(b"forbidden"), Err(Error::Denied(_))),
        "{who}: a read-only store must refuse at the write boundary"
    );
    let mut batch = s.begin_batch();
    assert!(
        matches!(batch.put(&mut s, b"forbidden"), Err(Error::Denied(_))),
        "{who}: a read-only store must refuse inside a batch too"
    );
}

/// I15: a content-addressed read that trusts its own index is not a read.
fn get_reverifies_the_content_address(who: &str) {
    let mut s = MemoryObjectStore::new();
    let id = s.put(b"trust boundary").unwrap();
    s.corrupt(id, b"evil");
    assert!(
        matches!(s.get(id), Err(Error::Corrupt(_))),
        "{who}: get must re-hash durable bytes and reject a mismatch"
    );
}

#[test]
fn memory_object_store_satisfies_the_object_store_contract() {
    let who = "MemoryObjectStore";
    declares_its_durability_class(who);
    content_addressed_and_idempotent(who);
    gather_addresses_the_concatenation(who);
    absent_object_is_not_found(who);
    batch_publishes_every_object(who);
    dropped_batch_publishes_no_accounting(who);
    new_publication_pays_object_and_naming_barriers(who);
    dedup_of_a_proven_object_pays_no_barrier(who);
    join_of_an_unfinished_peer_reproves_the_whole_path(who);
    read_only_store_refuses_publication(who);
    get_reverifies_the_content_address(who);
}

#[test]
fn dropping_a_batch_leaves_the_object_visible_but_unproven() {
    let mut s = MemoryObjectStore::new();
    let mut batch = s.begin_batch();
    let id = batch.put(&mut s, b"unproven").unwrap();
    drop(batch);
    assert!(s.has(id), "the bytes are readable");
    assert!(!s.is_durable(id), "but nothing proved the name");
    assert_eq!(s.stats().puts, 0, "a dropped batch publishes no accounting");
}

/// `Store` is written against the trait, not against files.
#[test]
fn store_runs_end_to_end_on_a_non_filesystem_object_plane() {
    let mut store = open();

    let payload = b"hello from a second backend";
    let blob = store.put_blob_data(payload).unwrap();
    assert_eq!(store.get_blob_data(blob).unwrap(), payload);
    assert_eq!(
        blob,
        hash_bytes(
            &Blob {
                data: payload.to_vec()
            }
            .encode()
        ),
        "a gathered publication must address the canonical buffered encoding"
    );

    let empty = store.empty_tree_id().unwrap();
    assert_eq!(store.reachable_oids(empty).unwrap(), vec![empty]);

    // The batched publication path is the one checkin uses.
    let mut batch = store.begin_publish_batch();
    let batched = batch.put_tree(&Tree::new(vec![]).unwrap()).unwrap();
    let (store, finished) = batch.finish();
    finished.unwrap();
    assert_eq!(batched, empty);

    assert!(store.blobs.has(empty));
    assert_eq!(
        store.blobs.durability_class(),
        DurabilityClass::ProcessLifetime,
        "a test backend must not masquerade as crash-durable"
    );
    assert!(store.blobs.stats().puts >= 2);
}

#[test]
fn verified_read_bypasses_warm_cache_after_disk_corruption() {
    let mut store = open();
    let id = store.put_raw(b"immutable bytes").unwrap();

    assert_eq!(store.get_raw(id).unwrap(), b"immutable bytes");
    store.blobs.corrupt(id, b"corrupt backing bytes");

    // The normal hot path may still serve immutable bytes verified earlier.
    assert_eq!(store.get_raw(id).unwrap(), b"immutable bytes");
    // Integrity boundaries must always reread and rehash durable storage.
    assert!(matches!(store.get_raw_verified(id), Err(Error::Corrupt(_))));
}

/// An object that is gone is served from memory until it is forgotten there.
#[test]
fn a_forgotten_object_is_read_from_the_store_again() {
    let mut store = open();
    let id = store.put_raw(b"bytes that will change").unwrap();
    assert_eq!(store.get_raw(id).unwrap(), b"bytes that will change");
    store.blobs.corrupt(id, b"other bytes");
    assert_eq!(store.get_raw(id).unwrap(), b"bytes that will change");
    store.forget_cached(id);
    assert!(matches!(store.get_raw(id), Err(Error::Corrupt(_))));
}
