//! Publication of objects in files: what a batch does step by step, which barriers it
//! still owes, and how an object file is checked without reading its payload.
use crate::barrier::{DirectoryBarrier, DurabilityBarrier};
use crate::bytes::{
    big_endian, big_endian_value, bytes_eq, lemma_big_endian_len, lemma_big_endian_roundtrip,
    lemma_big_endian_value_roundtrip, lemma_pow256_values, read_be,
};
use crate::hash::{blake3_digest, hash_parts, joined, ObjectHasher};
use crate::idmap::{ids_differ, lemma_insert, IdMap};
use crate::names::{is_ulid, ulid_millis, ulid_timestamp};
use crate::object::{
    blob_bytes, blob_frame_prefix, blob_header, file_bytes, lemma_blob_header_len,
};
use crate::objectstore::capped;
use crate::scan::{told, Fault};
use crate::text::{cat2, cat3, cat5, decimal, decimal_text, text_values};
use crate::textmap::TextMap;
use crate::types::{
    corrupt, hex_of, lemma_id_ext, type_of, unknown_type, Error, ObjectId, ObjectType,
};
use vstd::prelude::*;
use vstd::slice::slice_subrange;

verus! {

/// Where the object with an id has its file, below the root of the store.
pub open spec fn object_path(id: ObjectId) -> Seq<char> {
    let hex = hex_of(id@);
    "objects/"@ + hex.subrange(0, 2) + "/"@ + hex.subrange(2, 4) + ("/"@ + hex)
}

/// The directories above the file of an object.
pub open spec fn shard_path(id: ObjectId) -> Seq<char> {
    "objects/"@ + hex_of(id@).subrange(0, 2)
}

pub open spec fn leaf_path(id: ObjectId) -> Seq<char> {
    shard_path(id) + "/"@ + hex_of(id@).subrange(2, 4)
}

/// The paths of an object: of its file, and of the two directories above it.
pub fn object_paths(id: &ObjectId) -> (r: (String, String, String))
    ensures
        r.0@ == object_path(*id),
        r.1@ == shard_path(*id),
        r.2@ == leaf_path(*id),
{
    let (a, b) = id.shard_dirs();
    let hex = id.hex();
    let shard = cat2("objects/", a.as_str());
    let leaf = cat3(shard.as_str(), "/", b.as_str());
    let file = cat2(leaf.as_str(), cat2("/", hex.as_str()).as_str());
    (file, shard, leaf)
}

/// The part of a publication that comes next. The work is done outside; what came of
/// it comes back as an event.
#[derive(Clone, Copy, Debug, PartialEq, Eq, Structural)]
pub enum PutStage {
    /// Look whether the file of the object is there.
    Look,
    /// It is: refresh its age, so that no collection takes it.
    RefreshFound,
    /// Check its bytes; where it is not proven durable, make it so.
    JoinFound { proven: bool },
    /// Write the bytes to a file of their own, and make that durable.
    Write,
    /// Give that file the name of the object.
    Link,
    /// Another publisher was faster: refresh the age of its file.
    RefreshTaken,
    /// Check its bytes; where it is not proven durable, make it so.
    JoinTaken { proven: bool },
    /// The file of the other publisher was collected: link again.
    LinkAgain,
    /// And yet another was faster: check its bytes and make it durable.
    JoinLost,
    /// The object is published.
    Done,
}

/// What came of the work outside.
#[derive(Clone, Copy, Debug, PartialEq, Eq, Structural)]
pub enum PutEvent {
    /// The file is there, or not.
    Present(bool),
    /// The age was refreshed, or the file was gone. `proven` tells whether this process
    /// has proven the object durable.
    Refreshed { present: bool, proven: bool },
    /// The bytes are those of the object, and durable where that was asked.
    Verified,
    /// The bytes are written and durable.
    Written,
    /// The file has the name of the object.
    Linked,
    /// The name was taken.
    Taken,
}

/// How a publication counts.
#[derive(Clone, Copy, Debug, PartialEq, Eq, Structural)]
pub enum PutCount {
    /// Not yet.
    Nothing,
    /// The bytes were written.
    New,
    /// The bytes were there. `owed` tells whether the batch has to prove them durable.
    Joined { owed: bool },
}

/// What comes after an event, and how the publication counts then. Other events do not
/// belong to the stage.
pub open spec fn put_next(stage: PutStage, event: PutEvent) -> Option<(PutStage, PutCount)> {
    match (stage, event) {
        (PutStage::Look, PutEvent::Present(there)) => Some(
            (
                if there {
                    PutStage::RefreshFound
                } else {
                    PutStage::Write
                },
                PutCount::Nothing,
            ),
        ),
        (PutStage::RefreshFound, PutEvent::Refreshed { present, proven }) => Some(
            (
                if present {
                    PutStage::JoinFound { proven }
                } else {
                    PutStage::Write
                },
                PutCount::Nothing,
            ),
        ),
        (PutStage::JoinFound { proven }, PutEvent::Verified) => Some(
            (PutStage::Done, PutCount::Joined { owed: !proven }),
        ),
        (PutStage::Write, PutEvent::Written) => Some((PutStage::Link, PutCount::Nothing)),
        (PutStage::Link, PutEvent::Linked) => Some((PutStage::Done, PutCount::New)),
        (PutStage::Link, PutEvent::Taken) => Some((PutStage::RefreshTaken, PutCount::Nothing)),
        (PutStage::RefreshTaken, PutEvent::Refreshed { present, proven }) => Some(
            (
                if present {
                    PutStage::JoinTaken { proven }
                } else {
                    PutStage::LinkAgain
                },
                PutCount::Nothing,
            ),
        ),
        (PutStage::JoinTaken { proven }, PutEvent::Verified) => Some(
            (PutStage::Done, PutCount::Joined { owed: !proven }),
        ),
        (PutStage::LinkAgain, PutEvent::Linked) => Some((PutStage::Done, PutCount::New)),
        (PutStage::LinkAgain, PutEvent::Taken) => Some((PutStage::JoinLost, PutCount::Nothing)),
        (PutStage::JoinLost, PutEvent::Verified) => Some(
            (PutStage::Done, PutCount::Joined { owed: true }),
        ),
        _ => None,
    }
}

fn next_stage(stage: PutStage, event: PutEvent) -> (r: Option<(PutStage, PutCount)>)
    ensures
        r == put_next(stage, event),
{
    match (stage, event) {
        (PutStage::Look, PutEvent::Present(there)) => {
            let next = if there {
                PutStage::RefreshFound
            } else {
                PutStage::Write
            };
            Some((next, PutCount::Nothing))
        },
        (PutStage::RefreshFound, PutEvent::Refreshed { present, proven }) => {
            let next = if present {
                PutStage::JoinFound { proven }
            } else {
                PutStage::Write
            };
            Some((next, PutCount::Nothing))
        },
        (PutStage::JoinFound { proven }, PutEvent::Verified) => Some(
            (PutStage::Done, PutCount::Joined { owed: !proven }),
        ),
        (PutStage::Write, PutEvent::Written) => Some((PutStage::Link, PutCount::Nothing)),
        (PutStage::Link, PutEvent::Linked) => Some((PutStage::Done, PutCount::New)),
        (PutStage::Link, PutEvent::Taken) => Some((PutStage::RefreshTaken, PutCount::Nothing)),
        (PutStage::RefreshTaken, PutEvent::Refreshed { present, proven }) => {
            let next = if present {
                PutStage::JoinTaken { proven }
            } else {
                PutStage::LinkAgain
            };
            Some((next, PutCount::Nothing))
        },
        (PutStage::JoinTaken { proven }, PutEvent::Verified) => Some(
            (PutStage::Done, PutCount::Joined { owed: !proven }),
        ),
        (PutStage::LinkAgain, PutEvent::Linked) => Some((PutStage::Done, PutCount::New)),
        (PutStage::LinkAgain, PutEvent::Taken) => Some((PutStage::JoinLost, PutCount::Nothing)),
        (PutStage::JoinLost, PutEvent::Verified) => Some(
            (PutStage::Done, PutCount::Joined { owed: true }),
        ),
        _ => None,
    }
}

/// The stage after some events.
pub open spec fn put_run(events: Seq<PutEvent>) -> Option<(PutStage, PutCount)>
    decreases events.len(),
{
    if events.len() == 0 {
        Some((PutStage::Look, PutCount::Nothing))
    } else {
        match put_run(events.drop_last()) {
            Some((stage, PutCount::Nothing)) => put_next(stage, events.last()),
            _ => None,
        }
    }
}

/// Whatever happens, a publication that is done has counted once, and its object is
/// either owed a barrier by the batch or was proven durable when its age was last
/// refreshed. One that wrote the bytes is always owed.
pub proof fn lemma_put_is_covered(events: Seq<PutEvent>)
    ensures
        put_run(events) matches Some((stage, count)) ==> {
            &&& stage == PutStage::Done <==> count != PutCount::Nothing
            &&& count == (PutCount::Joined { owed: false }) ==> exists|i: int|
                0 <= i < events.len() && #[trigger] events[i] == (PutEvent::Refreshed {
                    present: true,
                    proven: true,
                })
            &&& count == PutCount::New ==> exists|i: int|
                0 <= i < events.len() && #[trigger] events[i] == PutEvent::Linked
        },
    decreases events.len(),
{
    if events.len() > 0 {
        let d = events.drop_last();
        lemma_put_is_covered(d);
        if let Some((stage, count)) = put_run(events) {
            let (before, c) = put_run(d)->0;
            assert(events[events.len() - 1] == events.last());
            if before == (PutStage::JoinFound { proven: true }) || before == (
            PutStage::JoinTaken { proven: true }) {
                lemma_joined_proven(d);
                let i = choose|i: int|
                    0 <= i < d.len() && #[trigger] d[i] == (PutEvent::Refreshed {
                        present: true,
                        proven: true,
                    });
                assert(events[i] == d[i]);
            }
        }
    }
}

proof fn lemma_joined_proven(events: Seq<PutEvent>)
    requires
        put_run(events) matches Some((stage, _)) && (stage == (PutStage::JoinFound { proven: true })
            || stage == (PutStage::JoinTaken { proven: true })),
    ensures
        exists|i: int|
            0 <= i < events.len() && #[trigger] events[i] == (PutEvent::Refreshed {
                present: true,
                proven: true,
            }),
{
    assert(events.len() > 0);
    assert(events[events.len() - 1] == events.last());
}

/// A publication under way.
#[derive(Debug)]
pub struct Put {
    pub id: ObjectId,
    pub bytes: u64,
    pub stage: PutStage,
}

/// A batch of publications. Every object file is durable before it gets its name; the
/// directories that lead to it are, at the latest, when the batch is done, and only
/// then may anything name the object.
pub struct PublishBatch {
    pub barrier: DirectoryBarrier,
    /// The directories with names of objects that are owed a barrier.
    pub dirs: TextMap<bool>,
    /// The directories above those that are owed one.
    pub path_dirs: TextMap<bool>,
    /// The directories that those barriers prove.
    pub proofs: TextMap<bool>,
    /// The objects that the batch proves.
    pub oids: IdMap<bool>,
    pub new_puts: u64,
    pub new_put_bytes: u64,
    pub new_dedup: u64,
    pub new_dedup_bytes: u64,
}

impl PublishBatch {
    pub open spec fn valid(self) -> bool {
        ids_differ(self.oids.pairs())
    }

    /// An empty batch.
    pub fn begin(barrier: DirectoryBarrier) -> (r: Self)
        ensures
            r.valid(),
            r.barrier == barrier,
            forall|d: Seq<char>| !(#[trigger] r.dirs.has(d)),
            forall|d: Seq<char>| !(#[trigger] r.path_dirs.has(d)),
            forall|d: Seq<char>| !(#[trigger] r.proofs.has(d)),
            r.oids.pairs().len() == 0,
            r.new_puts == 0 && r.new_put_bytes == 0 && r.new_dedup == 0 && r.new_dedup_bytes == 0,
    {
        PublishBatch {
            barrier,
            dirs: TextMap::new(),
            path_dirs: TextMap::new(),
            proofs: TextMap::new(),
            oids: IdMap::new(),
            new_puts: 0,
            new_put_bytes: 0,
            new_dedup: 0,
            new_dedup_bytes: 0,
        }
    }

    /// Begin to publish the object that the parts form when joined. A read-only store
    /// publishes nothing.
    pub fn begin_put(read_only: bool, parts: &[&[u8]]) -> (r: Result<Put, Error>)
        ensures
            if read_only {
                r matches Err(Error::Denied(msg)) && msg@
                    == "repository is open read-only; objects cannot be published"@
            } else {
                r matches Ok(p) && p.id@ == blake3_digest(joined(parts@)) && p.bytes == capped(
                    joined(parts@).len() as int,
                ) && p.stage == PutStage::Look
            },
    {
        if read_only {
            return Err(
                Error::Denied(
                    "repository is open read-only; objects cannot be published".to_string(),
                ),
            );
        }
        let mut bytes: u64 = 0;
        let mut i: usize = 0;
        assert(parts@.take(0) =~= Seq::<&[u8]>::empty());
        while i < parts.len()
            invariant
                i <= parts@.len(),
                bytes == capped(joined(parts@.take(i as int)).len() as int),
            decreases parts@.len() - i,
        {
            proof {
                let next = parts@.take(i + 1);
                assert(next.drop_last() =~= parts@.take(i as int));
                assert(next.last() == parts@[i as int]);
            }
            bytes = bytes.saturating_add(parts[i].len() as u64);
            i += 1;
        }
        assert(parts@.take(i as int) =~= parts@);
        Ok(Put { id: hash_parts(parts), bytes, stage: PutStage::Look })
    }

    /// A directory was made, or found, that is not proven durable. Whether the barrier of
    /// the directory above it has to be taken now; else the batch owes it.
    pub fn owe_dir(&mut self, parent: &str, child: &str) -> (now: bool)
        requires
            old(self).valid(),
        ensures
            final(self).valid(),
            now == !old(self).barrier.deferring(),
            final(self).barrier == old(self).barrier,
            final(self).dirs == old(self).dirs,
            final(self).oids == old(self).oids,
            final(self).new_puts == old(self).new_puts,
            final(self).new_put_bytes == old(self).new_put_bytes,
            final(self).new_dedup == old(self).new_dedup,
            final(self).new_dedup_bytes == old(self).new_dedup_bytes,
            now ==> final(self).path_dirs == old(self).path_dirs && final(self).proofs
                == old(self).proofs,
            !now ==> forall|d: Seq<char>| #[trigger]
                final(self).path_dirs.has(d) <==> old(self).path_dirs.has(d) || d == parent@,
            !now ==> forall|d: Seq<char>| #[trigger]
                final(self).proofs.has(d) <==> old(self).proofs.has(d) || d == child@,
    {
        if !self.barrier.defers() {
            return true;
        }
        self.path_dirs.insert(parent.to_string(), true);
        self.proofs.insert(child.to_string(), true);
        false
    }

    /// The object of a publication has to be proven by the batch.
    fn owe_object(&mut self, id: ObjectId)
        requires
            old(self).valid(),
        ensures
            final(self).valid(),
            final(self).barrier == old(self).barrier,
            final(self).path_dirs == old(self).path_dirs,
            final(self).proofs == old(self).proofs,
            final(self).new_puts == old(self).new_puts,
            final(self).new_put_bytes == old(self).new_put_bytes,
            final(self).new_dedup == old(self).new_dedup,
            final(self).new_dedup_bytes == old(self).new_dedup_bytes,
            forall|d: Seq<char>| #[trigger]
                final(self).dirs.has(d) <==> old(self).dirs.has(d) || d == leaf_path(id),
            forall|x: ObjectId| #[trigger]
                final(self).oids.has(x) <==> old(self).oids.has(x) || x == id,
    {
        let (_, _, leaf) = object_paths(&id);
        self.dirs.insert(leaf, true);
        let ghost before = self.oids;
        self.oids.insert(id, true);
        proof {
            lemma_insert(before, self.oids, id, true);
        }
    }

    /// Go on with a publication after an event. Where it is done, it counts, and where the
    /// object is not proven durable, the batch owes it a barrier. An event that does not
    /// belong to the stage changes nothing.
    pub fn advance(&mut self, put: &mut Put, event: PutEvent) -> (fits: bool)
        requires
            old(self).valid(),
        ensures
            final(self).valid(),
            final(put).id == old(put).id,
            final(put).bytes == old(put).bytes,
            final(self).barrier == old(self).barrier,
            final(self).path_dirs == old(self).path_dirs,
            final(self).proofs == old(self).proofs,
            fits == (put_next(old(put).stage, event) is Some),
            match put_next(old(put).stage, event) {
                None => *final(put) == *old(put) && *final(self) == *old(self),
                Some((stage, count)) => {
                    let owed = count == PutCount::New || count == (PutCount::Joined { owed: true });
                    &&& final(put).stage == stage
                    &&& forall|d: Seq<char>| #[trigger]
                        final(self).dirs.has(d) <==> old(self).dirs.has(d) || (owed && d
                            == leaf_path(old(put).id))
                    &&& forall|x: ObjectId| #[trigger]
                        final(self).oids.has(x) <==> old(self).oids.has(x) || (owed && x
                            == old(put).id)
                    &&& final(self).new_puts == if count == PutCount::New {
                        capped(old(self).new_puts + 1)
                    } else {
                        old(self).new_puts
                    }
                    &&& final(self).new_put_bytes == if count == PutCount::New {
                        capped(old(self).new_put_bytes + old(put).bytes)
                    } else {
                        old(self).new_put_bytes
                    }
                    &&& final(self).new_dedup == if count is Joined {
                        capped(old(self).new_dedup + 1)
                    } else {
                        old(self).new_dedup
                    }
                    &&& final(self).new_dedup_bytes == if count is Joined {
                        capped(old(self).new_dedup_bytes + old(put).bytes)
                    } else {
                        old(self).new_dedup_bytes
                    }
                },
            },
    {
        let (stage, count) = match next_stage(put.stage, event) {
            Some(x) => x,
            None => return false,
        };
        put.stage = stage;
        match count {
            PutCount::Nothing => {},
            PutCount::New => {
                self.owe_object(put.id);
                self.new_puts = self.new_puts.saturating_add(1);
                self.new_put_bytes = self.new_put_bytes.saturating_add(put.bytes);
            },
            PutCount::Joined { owed } => {
                if owed {
                    self.owe_object(put.id);
                }
                self.new_dedup = self.new_dedup.saturating_add(1);
                self.new_dedup_bytes = self.new_dedup_bytes.saturating_add(put.bytes);
            },
        }
        true
    }
}

/// A part of the last phase of a batch.
#[derive(Debug)]
pub enum BarrierStep {
    /// Pass a point at which a test may have planned a failure.
    Point(DurabilityBarrier),
    /// Take the barrier of a directory.
    SyncDir { path: String, point: DurabilityBarrier },
    /// Wait for a barrier of the whole filesystem.
    SyncFilesystem,
}

pub ghost enum BarrierLine {
    Point(DurabilityBarrier),
    SyncDir(Seq<char>, DurabilityBarrier),
    SyncFilesystem,
}

impl View for BarrierStep {
    type V = BarrierLine;

    open spec fn view(&self) -> BarrierLine {
        match *self {
            BarrierStep::Point(p) => BarrierLine::Point(p),
            BarrierStep::SyncDir { path, point } => BarrierLine::SyncDir(path@, point),
            BarrierStep::SyncFilesystem => BarrierLine::SyncFilesystem,
        }
    }
}

/// The values of some steps.
pub open spec fn step_values(v: Seq<BarrierStep>) -> Seq<BarrierLine> {
    Seq::new(v.len(), |i: int| v[i]@)
}

/// A point, so many times.
pub open spec fn points(n: nat, p: DurabilityBarrier) -> Seq<BarrierLine> {
    Seq::new(n, |i: int| BarrierLine::Point(p))
}

/// The barriers of directories above others, in their order.
pub open spec fn path_syncs(dirs: Seq<Seq<char>>) -> Seq<BarrierLine> {
    Seq::new(
        dirs.len(),
        |i: int| BarrierLine::SyncDir(dirs[i], DurabilityBarrier::ObjectPathDirectory),
    )
}

/// The barriers of directories with objects, in their order, each with the point after
/// it.
pub open spec fn leaf_syncs(dirs: Seq<Seq<char>>) -> Seq<BarrierLine>
    decreases dirs.len(),
{
    if dirs.len() == 0 {
        Seq::empty()
    } else {
        leaf_syncs(dirs.drop_last()).push(
            BarrierLine::SyncDir(dirs.last(), DurabilityBarrier::ObjectPublicationDirectory),
        ).push(BarrierLine::Point(DurabilityBarrier::ObjectPublicationDirectoryAfter))
    }
}

/// The last phase of a batch.
///
/// A barrier of the whole filesystem is the cheaper proof only where it stands for more
/// than one directory. It presents the same points as the barriers that it stands for.
pub open spec fn finish_steps(
    barrier: DirectoryBarrier,
    has_fs_barrier: bool,
    path_dirs: Seq<Seq<char>>,
    dirs: Seq<Seq<char>>,
) -> Seq<BarrierLine> {
    if barrier == DirectoryBarrier::Collapsed && has_fs_barrier && path_dirs.len() + dirs.len()
        > 1 {
        points(path_dirs.len(), DurabilityBarrier::ObjectPathDirectory) + points(
            dirs.len(),
            DurabilityBarrier::ObjectPublicationDirectory,
        ) + seq![
            BarrierLine::SyncFilesystem,
            BarrierLine::Point(DurabilityBarrier::ObjectPublicationDirectoryAfter),
        ]
    } else {
        path_syncs(path_dirs) + leaf_syncs(dirs)
    }
}

/// Every directory that a batch owes a barrier gets one: its own, or that of the whole
/// filesystem.
pub proof fn lemma_finish_covers(
    barrier: DirectoryBarrier,
    has_fs_barrier: bool,
    path_dirs: Seq<Seq<char>>,
    dirs: Seq<Seq<char>>,
    d: Seq<char>,
)
    requires
        path_dirs.contains(d) || dirs.contains(d),
    ensures
        ({
            let steps = finish_steps(barrier, has_fs_barrier, path_dirs, dirs);
            ||| steps.contains(BarrierLine::SyncFilesystem)
            ||| steps.contains(BarrierLine::SyncDir(d, DurabilityBarrier::ObjectPathDirectory))
            ||| steps.contains(
                BarrierLine::SyncDir(d, DurabilityBarrier::ObjectPublicationDirectory),
            )
        }),
{
    let steps = finish_steps(barrier, has_fs_barrier, path_dirs, dirs);
    if barrier == DirectoryBarrier::Collapsed && has_fs_barrier && path_dirs.len() + dirs.len()
        > 1 {
        assert(steps[steps.len() - 2] == BarrierLine::SyncFilesystem);
    } else if path_dirs.contains(d) {
        let i = choose|i: int| 0 <= i < path_dirs.len() && path_dirs[i] == d;
        assert(steps[i] == BarrierLine::SyncDir(d, DurabilityBarrier::ObjectPathDirectory));
    } else {
        lemma_leaf_synced(dirs, d);
        let line = BarrierLine::SyncDir(d, DurabilityBarrier::ObjectPublicationDirectory);
        let i = choose|i: int| 0 <= i < leaf_syncs(dirs).len() && leaf_syncs(dirs)[i] == line;
        assert(steps[path_syncs(path_dirs).len() + i] == line);
    }
}

proof fn lemma_leaf_synced(dirs: Seq<Seq<char>>, d: Seq<char>)
    requires
        dirs.contains(d),
    ensures
        leaf_syncs(dirs).contains(
            BarrierLine::SyncDir(d, DurabilityBarrier::ObjectPublicationDirectory),
        ),
    decreases dirs.len(),
{
    let line = BarrierLine::SyncDir(d, DurabilityBarrier::ObjectPublicationDirectory);
    let all = leaf_syncs(dirs);
    let before = leaf_syncs(dirs.drop_last());
    if dirs.last() == d {
        assert(all[before.len() as int] == line);
    } else {
        let i = choose|i: int| 0 <= i < dirs.len() && dirs[i] == d;
        assert(dirs.drop_last()[i] == d);
        lemma_leaf_synced(dirs.drop_last(), d);
        let j = choose|j: int| 0 <= j < before.len() && before[j] == line;
        assert(all[j] == line);
    }
}

/// What a batch has established once its last phase has succeeded.
#[derive(Debug)]
pub struct Published {
    pub proofs: Vec<String>,
    pub oids: Vec<ObjectId>,
    pub puts: u64,
    pub put_bytes: u64,
    pub dedup_hits: u64,
    pub dedup_bytes: u64,
}

fn push_points(out: &mut Vec<BarrierStep>, n: usize, p: DurabilityBarrier)
    ensures
        step_values(final(out)@) == step_values(old(out)@) + points(n as nat, p),
{
    let ghost start = step_values(out@);
    let mut i: usize = 0;
    assert(points(0, p) =~= Seq::empty());
    assert(start + points(0, p) =~= start);
    while i < n
        invariant
            i <= n,
            step_values(out@) == start + points(i as nat, p),
        decreases n - i,
    {
        let ghost before = step_values(out@);
        out.push(BarrierStep::Point(p));
        assert(step_values(out@) =~= before.push(BarrierLine::Point(p)));
        assert(step_values(out@) =~= start + points((i + 1) as nat, p));
        i += 1;
    }
}

impl PublishBatch {
    /// The last phase of the batch, in order. The batch is done when all of it has
    /// succeeded.
    pub fn finish_plan(&self, has_fs_barrier: bool) -> (r: Vec<BarrierStep>)
        ensures
            step_values(r@) == finish_steps(
                self.barrier,
                has_fs_barrier,
                self.path_dirs.key_list(),
                self.dirs.key_list(),
            ),
    {
        let paths = self.path_dirs.len();
        let leaves = self.dirs.len();
        let ghost pk = self.path_dirs.key_list();
        let ghost dk = self.dirs.key_list();
        let mut out: Vec<BarrierStep> = Vec::new();
        let many = paths > 1 || leaves > 1 || (paths > 0 && leaves > 0);
        if self.barrier == DirectoryBarrier::Collapsed && has_fs_barrier && many {
            push_points(&mut out, paths, DurabilityBarrier::ObjectPathDirectory);
            push_points(&mut out, leaves, DurabilityBarrier::ObjectPublicationDirectory);
            out.push(BarrierStep::SyncFilesystem);
            out.push(BarrierStep::Point(DurabilityBarrier::ObjectPublicationDirectoryAfter));
            assert(step_values(out@) =~= finish_steps(self.barrier, has_fs_barrier, pk, dk));
            return out;
        }
        let mut i: usize = 0;
        while i < paths
            invariant
                i <= paths,
                paths == pk.len(),
                pk == self.path_dirs.key_list(),
                step_values(out@) == path_syncs(pk.take(i as int)),
            decreases paths - i,
        {
            let path = self.path_dirs.key(i);
            let ghost before = step_values(out@);
            out.push(
                BarrierStep::SyncDir {
                    path: path.clone(),
                    point: DurabilityBarrier::ObjectPathDirectory,
                },
            );
            assert(step_values(out@) =~= before.push(
                BarrierLine::SyncDir(pk[i as int], DurabilityBarrier::ObjectPathDirectory),
            ));
            assert(step_values(out@) =~= path_syncs(pk.take(i + 1)));
            i += 1;
        }
        assert(pk.take(i as int) =~= pk);
        let ghost start = step_values(out@);
        let mut k: usize = 0;
        assert(dk.take(0) =~= Seq::empty());
        assert(step_values(out@) =~= start + leaf_syncs(dk.take(0)));
        while k < leaves
            invariant
                k <= leaves,
                leaves == dk.len(),
                dk == self.dirs.key_list(),
                step_values(out@) == start + leaf_syncs(dk.take(k as int)),
            decreases leaves - k,
        {
            let path = self.dirs.key(k);
            let ghost before = step_values(out@);
            proof {
                let next = dk.take(k + 1);
                assert(next.drop_last() =~= dk.take(k as int));
                assert(next.last() == dk[k as int]);
            }
            out.push(
                BarrierStep::SyncDir {
                    path: path.clone(),
                    point: DurabilityBarrier::ObjectPublicationDirectory,
                },
            );
            out.push(BarrierStep::Point(DurabilityBarrier::ObjectPublicationDirectoryAfter));
            assert(step_values(out@) =~= before.push(
                BarrierLine::SyncDir(dk[k as int], DurabilityBarrier::ObjectPublicationDirectory),
            ).push(BarrierLine::Point(DurabilityBarrier::ObjectPublicationDirectoryAfter)));
            assert(step_values(out@) =~= start + leaf_syncs(dk.take(k + 1)));
            k += 1;
        }
        assert(dk.take(k as int) =~= dk);
        out
    }

    /// What the batch has established. Only now do its directories and objects count as
    /// proven: a batch that failed, or was dropped, teaches nothing.
    pub fn published(&self) -> (r: Published)
        ensures
            text_values(r.proofs@) == self.proofs.key_list(),
            r.oids@.len() == self.oids.pairs().len(),
            forall|i: int|
                0 <= i < r.oids@.len() ==> #[trigger] r.oids@[i] == self.oids.pairs()[i].0,
            r.puts == self.new_puts,
            r.put_bytes == self.new_put_bytes,
            r.dedup_hits == self.new_dedup,
            r.dedup_bytes == self.new_dedup_bytes,
    {
        let mut proofs: Vec<String> = Vec::new();
        let count = self.proofs.len();
        let ghost ks = self.proofs.key_list();
        let mut i: usize = 0;
        while i < count
            invariant
                i <= count,
                count == ks.len(),
                ks == self.proofs.key_list(),
                proofs@.len() == i,
                forall|j: int| 0 <= j < i ==> (#[trigger] proofs@[j])@ == ks[j],
            decreases count - i,
        {
            proofs.push(self.proofs.key(i).clone());
            i += 1;
        }
        assert(text_values(proofs@) =~= ks);
        let mut oids: Vec<ObjectId> = Vec::new();
        let n = self.oids.len();
        let mut k: usize = 0;
        while k < n
            invariant
                k <= n,
                n == self.oids.pairs().len(),
                oids@.len() == k,
                forall|j: int| 0 <= j < k ==> #[trigger] oids@[j] == self.oids.pairs()[j].0,
            decreases n - k,
        {
            oids.push(self.oids.key(k));
            k += 1;
        }
        Published {
            proofs,
            oids,
            puts: self.new_puts,
            put_bytes: self.new_put_bytes,
            dedup_hits: self.new_dedup,
            dedup_bytes: self.new_dedup_bytes,
        }
    }
}

/// What comes before the payload of a blob.
pub open spec fn blob_prefix(n: u64) -> Seq<u8> {
    file_bytes(ObjectType::Blob, blob_header(n), Seq::<u8>::empty())
}

/// The first bytes of an object file, and its length, are those of a blob with so many
/// bytes of payload.
pub open spec fn frames(head: Seq<u8>, object_len: u64, n: u64) -> bool {
    blob_prefix(n).len() + n == object_len && blob_prefix(n).is_prefix_of(head)
}

proof fn lemma_prefix_parts(n: u64)
    ensures
        blob_prefix(n).len() == 5 + blob_header(n).len(),
        blob_prefix(n)[0] == ObjectType::Blob.tag(),
        blob_prefix(n).subrange(1, 5) == big_endian(blob_header(n).len(), 4),
        big_endian_value(big_endian(blob_header(n).len(), 4)) == blob_header(n).len(),
        blob_header(n).len() <= 30,
{
    lemma_blob_header_len(n);
    lemma_big_endian_len(blob_header(n).len(), 4);
    lemma_pow256_values();
    lemma_big_endian_roundtrip(blob_header(n).len(), 4);
    assert(blob_prefix(n).subrange(1, 5) =~= big_endian(blob_header(n).len(), 4));
}

/// Why the frame of a blob is refused, given the first bytes of the file and the length of
/// the whole: fewer bytes than the frame are no damage but a failed read.
pub open spec fn frame_refused(head: Seq<u8>, object_len: u64, e: Error) -> bool {
    let end = 5 + big_endian_value(head.subrange(1, 5));
    let prefix = blob_prefix((object_len - end) as u64);
    if object_len < 5 {
        told(e, Fault::Corrupt("object file too short"@))
    } else if head.len() < 5 {
        e is Io
    } else if type_of(head[0]) is None {
        told(e, Fault::Corrupt(unknown_type(head[0])))
    } else if type_of(head[0]) != Some(ObjectType::Blob) {
        told(e, Fault::Corrupt("not a blob"@))
    } else if end > object_len {
        told(e, Fault::Corrupt("object header truncated"@))
    } else if prefix.len() != end {
        told(e, Fault::Corrupt("non-canonical blob header"@))
    } else if head.len() < end {
        e is Io
    } else {
        told(e, Fault::Corrupt("invalid blob header"@))
    }
}

/// Check the frame of a blob without its payload, given the first bytes of the file and
/// the length of the whole. What comes before the payload, and the length of the payload,
/// come back.
pub fn verify_blob_frame(head: &[u8], object_len: u64) -> (r: Result<(Vec<u8>, u64), Error>)
    ensures
        match r {
            Ok((prefix, n)) => frames(head@, object_len, n) && prefix@ == blob_prefix(n),
            Err(e) => frame_refused(head@, object_len, e) && forall|n: u64|
                !(#[trigger] frames(head@, object_len, n)),
        },
        r matches Err(Error::Io(_)) ==> head@.len() < 35,
{
    proof {
        assert forall|n: u64| #[trigger] frames(head@, object_len, n) implies object_len >= 5
            && head@.len() >= 5 && head@[0] == ObjectType::Blob.tag() && big_endian_value(
            head@.subrange(1, 5),
        ) == blob_header(n).len() && blob_prefix(n).len() == 5 + blob_header(n).len()
            && head@.len() >= blob_prefix(n).len() by {
            lemma_prefix_parts(n);
            assert(head@.subrange(1, 5) =~= blob_prefix(n).subrange(1, 5));
            assert(head@[0] == blob_prefix(n)[0]);
        }
    }
    if object_len < 5 {
        return Err(corrupt("object file too short"));
    }
    if head.len() < 5 {
        return Err(Error::Io("failed to fill whole buffer".to_string()));
    }
    let ty = ObjectType::from_u8(head[0])?;
    if ty != ObjectType::Blob {
        return Err(corrupt("not a blob"));
    }
    let field = slice_subrange(head, 1, 5);
    let header_len: u64 = read_be(field);
    proof {
        lemma_pow256_values();
        lemma_big_endian_value_roundtrip(field@);
    }
    let header_end: u64 = 5 + header_len;
    if header_end > object_len {
        return Err(corrupt("object header truncated"));
    }
    let payload_len: u64 = object_len - header_end;
    let expected = blob_frame_prefix(payload_len);
    proof {
        lemma_prefix_parts(payload_len);
    }
    if expected.len() as u64 != header_end {
        proof {
            assert forall|n: u64| !(#[trigger] frames(head@, object_len, n)) by {
                if frames(head@, object_len, n) {
                    assert(n == payload_len);
                }
            }
        }
        return Err(corrupt("non-canonical blob header"));
    }
    if head.len() < expected.len() {
        proof {
            assert forall|n: u64| !(#[trigger] frames(head@, object_len, n)) by {
                if frames(head@, object_len, n) {
                    assert(n == payload_len);
                }
            }
        }
        return Err(Error::Io("failed to fill whole buffer".to_string()));
    }
    let observed = slice_subrange(head, 0, expected.len());
    if !bytes_eq(observed, expected.as_slice()) {
        proof {
            assert forall|n: u64| !(#[trigger] frames(head@, object_len, n)) by {
                if frames(head@, object_len, n) {
                    assert(n == payload_len);
                    assert(observed@ =~= expected@);
                }
            }
        }
        return Err(corrupt("invalid blob header"));
    }
    assert(frames(head@, object_len, payload_len)) by {
        assert(observed@ == expected@);
        assert(expected@.is_prefix_of(head@));
    }
    Ok((expected, payload_len))
}

/// The payload of a blob on its way to a sink that is not published. The bytes count as
/// those of the blob only once the end was checked.
#[derive(Debug)]
pub struct StagedBlobReader {
    pub id: ObjectId,
    pub remaining: u64,
    pub payload_len: u64,
    pub object_len: u64,
    pub hasher: ObjectHasher,
}

impl StagedBlobReader {
    /// What was read and what is left make up the object.
    pub open spec fn valid(self) -> bool {
        &&& self.remaining <= self.payload_len
        &&& self.hasher.seen().len() + self.remaining == self.object_len
    }

    /// Begin to read a blob, given its frame and how long the payload and the object are.
    pub fn begin(id: ObjectId, frame: &[u8], payload_len: u64, object_len: u64) -> (r: Self)
        requires
            frame@.len() + payload_len == object_len,
        ensures
            r.valid(),
            r.id == id,
            r.remaining == payload_len,
            r.payload_len == payload_len,
            r.object_len == object_len,
            r.hasher.seen() == frame@,
    {
        let mut hasher = ObjectHasher::new();
        hasher.update(frame);
        assert(hasher.seen() =~= frame@);
        StagedBlobReader { id, remaining: payload_len, payload_len, object_len, hasher }
    }

    pub fn payload_len(&self) -> (r: u64)
        ensures
            r == self.payload_len,
    {
        self.payload_len
    }

    /// How many bytes to read next into a buffer of this size: none at the end.
    pub fn want(&self, room: usize) -> (n: usize)
        ensures
            n == if self.remaining < room {
                self.remaining as int
            } else {
                room as int
            },
    {
        if self.remaining < room as u64 {
            self.remaining as usize
        } else {
            room
        }
    }

    /// These bytes were read. None, where some were wanted, means that the file ended
    /// early.
    pub fn took(&mut self, bytes: &[u8]) -> (r: Result<(), Error>)
        requires
            old(self).valid(),
            bytes@.len() <= old(self).remaining,
        ensures
            final(self).valid(),
            final(self).id == old(self).id,
            final(self).payload_len == old(self).payload_len,
            final(self).object_len == old(self).object_len,
            final(self).remaining == old(self).remaining - bytes@.len(),
            final(self).hasher.seen() == old(self).hasher.seen() + bytes@,
            if bytes@.len() == 0 {
                r matches Err(Error::Io(msg)) && msg@ == "blob "@ + hex_of(old(self).id@)
                    + " payload truncated"@
            } else {
                r is Ok
            },
    {
        if bytes.len() == 0 {
            assert(self.hasher.seen() + bytes@ =~= self.hasher.seen());
            return Err(Error::Io(cat3("blob ", self.id.hex().as_str(), " payload truncated")));
        }
        self.hasher.update(bytes);
        self.remaining = self.remaining - bytes.len() as u64;
        Ok(())
    }

    /// Check the end: all of the payload was read, nothing follows it, and the bytes have
    /// the id of the blob. Their number comes back.
    pub fn finish(&self, more: bool) -> (r: Result<u64, Error>)
        ensures
            match r {
                Ok(n) => self.remaining == 0 && !more && blake3_digest(self.hasher.seen())
                    == self.id@ && n == self.object_len,
                Err(e) => !(self.remaining == 0 && !more && blake3_digest(self.hasher.seen())
                    == self.id@) && (e matches Error::Corrupt(msg) && msg@ == if self.remaining != 0 {
                    "blob "@ + hex_of(self.id@) + " ended with "@ + decimal(self.remaining as nat)
                        + " payload bytes unread"@
                } else if more {
                    "blob "@ + hex_of(self.id@) + " grew while staged output was being built"@
                } else {
                    "hash mismatch "@ + hex_of(self.id@)
                }),
            },
    {
        let hex = self.id.hex();
        if self.remaining != 0 {
            return Err(
                Error::Corrupt(
                    cat5(
                        "blob ",
                        hex.as_str(),
                        " ended with ",
                        decimal_text(self.remaining).as_str(),
                        " payload bytes unread",
                    ),
                ),
            );
        }
        if more {
            return Err(
                Error::Corrupt(
                    cat3("blob ", hex.as_str(), " grew while staged output was being built"),
                ),
            );
        }
        let actual = self.hasher.id();
        if !actual.same(&self.id) {
            proof {
                if actual@ == self.id@ {
                    lemma_id_ext(actual, self.id);
                }
            }
            return Err(Error::Corrupt(cat2("hash mismatch ", hex.as_str())));
        }
        Ok(self.object_len)
    }
}

/// What has been read of a blob whose end was checked is the blob: the payload, behind
/// the frame of its length.
pub proof fn lemma_staged_is_blob(reader: StagedBlobReader, payload: Seq<u8>)
    requires
        reader.valid(),
        reader.remaining == 0,
        reader.payload_len == payload.len(),
        reader.hasher.seen() == blob_prefix(reader.payload_len) + payload,
        blake3_digest(reader.hasher.seen()) == reader.id@,
    ensures
        reader.hasher.seen() == blob_bytes(payload),
        blake3_digest(blob_bytes(payload)) == reader.id@,
{
    assert(blob_prefix(reader.payload_len) + payload =~= blob_bytes(payload));
}

/// How long a temporary file lives at least, in milliseconds: a day.
pub const STALE_TMP_MS: u64 = 86_400_000;

/// Whether a file among the temporary ones is debris: it is named by a ULID, and that is
/// older than any publication can be. Everything else is left alone.
pub fn is_stale_tmp(name: &str, now_ms: u64) -> (r: bool)
    ensures
        r == (is_ulid(name@) && now_ms - ulid_millis(name@) >= STALE_TMP_MS),
{
    match ulid_timestamp(name) {
        Some(ms) => ms <= now_ms && now_ms - ms >= STALE_TMP_MS,
        None => false,
    }
}

} // verus!
