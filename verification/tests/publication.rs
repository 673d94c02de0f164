//! Publication of object files, barriers and planned failures.
use forgefs::barrier::{
    fail_at, inject_barrier_failure, BarrierGate, DirectoryBarrier, DurabilityBarrier, GateStep,
};
use forgefs::hash::hash_bytes;
use forgefs::object::{blob_frame_prefix, Blob};
use forgefs::publish::{
    is_stale_tmp, object_paths, verify_blob_frame, BarrierStep, PublishBatch, PutEvent, PutStage,
    StagedBlobReader, STALE_TMP_MS,
};
use forgefs::types::{Error, ObjectId};

fn id(n: u8) -> ObjectId {
    ObjectId([n; 32])
}

fn points(steps: &[BarrierStep]) -> (usize, usize, usize) {
    let mut counted = (0, 0, 0);
    for step in steps {
        match step {
            BarrierStep::Point(_) => counted.0 += 1,
            BarrierStep::SyncDir { .. } => counted.1 += 1,
            BarrierStep::SyncFilesystem => counted.2 += 1,
        }
    }
    counted
}

#[test]
fn an_object_lies_below_two_levels_of_its_digits() {
    let (file, shard, leaf) = object_paths(&id(0xab));
    assert_eq!(shard, "objects/ab");
    assert_eq!(leaf, "objects/ab/ab");
    assert_eq!(file, format!("objects/ab/ab/{}", id(0xab).hex()));
}

#[test]
fn a_new_object_is_written_linked_and_owed() {
    let mut batch = PublishBatch::begin(DirectoryBarrier::PerDirectory);
    let mut put = PublishBatch::begin_put(false, &[b"abc", b"def"]).unwrap();
    assert_eq!(put.id, hash_bytes(b"abcdef"));
    assert_eq!(put.bytes, 6);
    for (event, stage) in [
        (PutEvent::Present(false), PutStage::Write),
        (PutEvent::Written, PutStage::Link),
        (PutEvent::Linked, PutStage::Done),
    ] {
        assert!(batch.advance(&mut put, event));
        assert_eq!(put.stage, stage);
    }
    assert!(!batch.advance(&mut put, PutEvent::Linked), "a publication counts once");
    let done = batch.published();
    assert_eq!((done.puts, done.put_bytes, done.dedup_hits, done.dedup_bytes), (1, 6, 0, 0));
    assert_eq!(done.oids, vec![put.id]);
}

#[test]
fn a_proven_object_is_joined_without_a_barrier() {
    let mut batch = PublishBatch::begin(DirectoryBarrier::PerDirectory);
    let mut put = PublishBatch::begin_put(false, &[b"abc"]).unwrap();
    assert!(batch.advance(&mut put, PutEvent::Present(true)));
    assert!(batch.advance(&mut put, PutEvent::Refreshed { present: true, proven: true }));
    assert_eq!(put.stage, PutStage::JoinFound { proven: true });
    assert!(batch.advance(&mut put, PutEvent::Verified));
    let done = batch.published();
    assert_eq!((done.puts, done.dedup_hits, done.dedup_bytes), (0, 1, 3));
    assert!(done.oids.is_empty());
    assert!(batch.finish_plan(false).is_empty());
}

#[test]
fn an_unproven_object_is_joined_and_owed() {
    let mut batch = PublishBatch::begin(DirectoryBarrier::PerDirectory);
    let mut put = PublishBatch::begin_put(false, &[b"abc"]).unwrap();
    assert!(batch.advance(&mut put, PutEvent::Present(true)));
    assert!(batch.advance(&mut put, PutEvent::Refreshed { present: true, proven: false }));
    assert!(batch.advance(&mut put, PutEvent::Verified));
    assert_eq!(batch.published().oids, vec![put.id]);
    assert_eq!(points(&batch.finish_plan(false)), (1, 1, 0));
}

#[test]
fn an_object_that_was_collected_meanwhile_is_written_again() {
    let mut batch = PublishBatch::begin(DirectoryBarrier::PerDirectory);
    let mut put = PublishBatch::begin_put(false, &[b"abc"]).unwrap();
    assert!(batch.advance(&mut put, PutEvent::Present(true)));
    assert!(batch.advance(&mut put, PutEvent::Refreshed { present: false, proven: true }));
    assert_eq!(put.stage, PutStage::Write);
    assert!(batch.advance(&mut put, PutEvent::Written));
    assert!(batch.advance(&mut put, PutEvent::Taken));
    assert_eq!(put.stage, PutStage::RefreshTaken);
    assert!(batch.advance(&mut put, PutEvent::Refreshed { present: false, proven: true }));
    assert_eq!(put.stage, PutStage::LinkAgain);
    assert!(batch.advance(&mut put, PutEvent::Taken));
    assert_eq!(put.stage, PutStage::JoinLost);
    assert!(batch.advance(&mut put, PutEvent::Verified));
    let done = batch.published();
    assert_eq!((done.puts, done.dedup_hits), (0, 1));
    assert_eq!(done.oids, vec![put.id], "whoever came last owes the proof");
}

#[test]
fn a_read_only_store_publishes_nothing() {
    assert!(matches!(PublishBatch::begin_put(true, &[b"x"]), Err(Error::Denied(_))));
}

#[test]
fn policies_differ_in_barriers_only() {
    // Two objects in two directories, each below a directory of its own.
    for (barrier, has_fs, expected) in [
        (DirectoryBarrier::PerDirectory, false, (2, 2, 0)),
        (DirectoryBarrier::Deferred, false, (2, 5, 0)),
        (DirectoryBarrier::Collapsed, true, (6, 0, 1)),
        (DirectoryBarrier::Collapsed, false, (2, 5, 0)),
    ] {
        let mut batch = PublishBatch::begin(barrier);
        for data in [&b"one"[..], &b"two"[..]] {
            let mut put = PublishBatch::begin_put(false, &[data]).unwrap();
            let (_, shard, leaf) = object_paths(&put.id);
            let now = batch.owe_dir("objects", &shard);
            assert_eq!(now, !barrier.defers());
            assert_eq!(batch.owe_dir(&shard, &leaf), now);
            assert!(batch.advance(&mut put, PutEvent::Present(false)));
            assert!(batch.advance(&mut put, PutEvent::Written));
            assert!(batch.advance(&mut put, PutEvent::Linked));
        }
        assert_eq!(points(&batch.finish_plan(has_fs)), expected, "{barrier:?}");
        let proofs = batch.published().proofs.len();
        assert_eq!(proofs, if barrier.defers() { 4 } else { 0 });
    }
}

#[test]
fn one_directory_takes_its_own_barrier() {
    let mut batch = PublishBatch::begin(DirectoryBarrier::Collapsed);
    let mut put = PublishBatch::begin_put(false, &[b"one"]).unwrap();
    assert!(batch.advance(&mut put, PutEvent::Present(false)));
    assert!(batch.advance(&mut put, PutEvent::Written));
    assert!(batch.advance(&mut put, PutEvent::Linked));
    let plan = batch.finish_plan(true);
    assert!(matches!(
        &plan[0],
        BarrierStep::SyncDir { path, point: DurabilityBarrier::ObjectPublicationDirectory }
            if *path == object_paths(&put.id).2
    ));
}

#[test]
fn settings_select_a_policy() {
    assert_eq!(DirectoryBarrier::from_setting(None), DirectoryBarrier::PerDirectory);
    assert_eq!(DirectoryBarrier::from_setting(Some("deferred")), DirectoryBarrier::Deferred);
    assert_eq!(DirectoryBarrier::from_setting(Some("collapsed")), DirectoryBarrier::Collapsed);
    assert_eq!(DirectoryBarrier::from_setting(Some("odd")), DirectoryBarrier::PerDirectory);
    assert_eq!(DirectoryBarrier::Collapsed.settled(false), DirectoryBarrier::Deferred);
    assert_eq!(DirectoryBarrier::Collapsed.settled(true), DirectoryBarrier::Collapsed);
}

/// A caller behind a barrier that runs waits for the next one.
#[test]
fn collapsed_gate_never_acknowledges_a_barrier_that_started_first() {
    let mut state = BarrierGate::default();
    state.in_flight = Some(1);
    let waiting = state.target();
    assert_eq!(waiting, 2, "a caller behind an in-flight barrier waits for the next one");
    // Completing generation 1 must not release that caller.
    state.in_flight = None;
    state.completed = 1;
    assert!(state.completed < waiting);
    assert!(!state.passed(waiting));
}

#[test]
fn a_failed_barrier_releases_nobody() {
    let mut state = BarrierGate::default();
    let target = state.target();
    assert_eq!(state.next(target), GateStep::Lead(1));
    assert_eq!(state.next(target), GateStep::Wait);
    state.finish(false);
    assert!(!state.passed(target));
    assert_eq!(state.next(target), GateStep::Lead(1));
    state.finish(true);
    assert!(state.passed(target));
}

#[test]
fn a_plan_fails_one_occurrence() {
    let point = DurabilityBarrier::ObjectFile;
    let mut plan = Some(fail_at(point, 2));
    assert!(inject_barrier_failure(&mut plan, point).is_ok());
    assert!(inject_barrier_failure(&mut plan, DurabilityBarrier::InitFile).is_ok());
    assert!(!plan.unwrap().fired());
    let error = inject_barrier_failure(&mut plan, point).unwrap_err();
    assert_eq!(error.message(), "io: injected durability barrier failure at ObjectFile");
    assert!(plan.unwrap().fired());
    assert!(inject_barrier_failure(&mut plan, point).is_ok());
    assert_eq!(plan.unwrap().matches, 2);
    assert!(inject_barrier_failure(&mut None, point).is_ok());
    let mut first = Some(fail_at(point, 1));
    assert!(inject_barrier_failure(&mut first, point).is_err());
    assert!(inject_barrier_failure(&mut first, point).is_ok());
}

#[test]
fn the_frame_of_a_blob_is_checked_without_its_payload() {
    let file = Blob { data: vec![7; 300] }.encode();
    let head = &file[..file.len() - 300];
    let (prefix, n) = verify_blob_frame(head, file.len() as u64).unwrap();
    assert_eq!(n, 300);
    assert_eq!(prefix, blob_frame_prefix(300));
    // Another length, another type, or too little of the file.
    assert!(matches!(verify_blob_frame(head, file.len() as u64 + 1), Err(Error::Corrupt(_))));
    let mut tree = file.clone();
    tree[0] = 2;
    assert!(matches!(verify_blob_frame(&tree, tree.len() as u64), Err(Error::Corrupt(_))));
    assert!(matches!(verify_blob_frame(&file[..4], 4), Err(Error::Corrupt(_))));
    assert!(matches!(verify_blob_frame(&file[..4], 300), Err(Error::Io(_))));
}

#[test]
fn staged_output_counts_only_when_all_of_it_was_checked() {
    let frame = blob_frame_prefix(5);
    let bytes = Blob {
        data: b"hello".to_vec(),
    }
    .encode();
    let len = bytes.len() as u64;
    let mut reader = StagedBlobReader::begin(hash_bytes(&bytes), &frame, 5, len);
    assert_eq!(reader.payload_len(), 5);
    assert_eq!(reader.want(3), 3);
    reader.took(b"hel").unwrap();
    assert_eq!(reader.want(10), 2);
    assert!(matches!(reader.took(b""), Err(Error::Io(_))));
    assert!(matches!(reader.finish(false), Err(Error::Corrupt(_))));
    reader.took(b"lo").unwrap();
    assert_eq!(reader.want(10), 0);
    assert!(matches!(reader.finish(true), Err(Error::Corrupt(_))));
    assert_eq!(reader.finish(false).unwrap(), len);
    let mut other = StagedBlobReader::begin(hash_bytes(&bytes), &frame, 5, len);
    other.took(b"jello").unwrap();
    match other.finish(false) {
        Err(Error::Corrupt(msg)) => {
            assert_eq!(msg, format!("hash mismatch {}", hash_bytes(&bytes).hex()))
        }
        _ => panic!("other bytes are refused"),
    }
}

#[test]
fn only_old_files_named_by_a_ulid_are_debris() {
    let nil = "00000000000000000000000000";
    assert!(is_stale_tmp(nil, STALE_TMP_MS));
    assert!(!is_stale_tmp(nil, STALE_TMP_MS - 1));
    assert!(!is_stale_tmp(".gc-lock", u64::MAX));
    let fresh = ulid::Ulid::new();
    let now = fresh.timestamp_ms();
    assert!(!is_stale_tmp(&fresh.to_string(), now));
    assert!(!is_stale_tmp(&fresh.to_string(), now - 5));
    assert!(!is_stale_tmp(&fresh.to_string(), now + STALE_TMP_MS - 1));
    assert!(is_stale_tmp(&fresh.to_string(), now + STALE_TMP_MS));
}
