//! The object plane: immutable byte strings by the digest of their bytes.
//!
//! Publication has two phases. `ObjectBatch::put_parts` makes an object
//! readable, which proves nothing about its durability. Only a
//! `ObjectBatch::finish` that succeeds proves every object that the batch made
//! readable, or found readable and unproven. A batch that is dropped proves
//! nothing.
use crate::hash::{blake3_digest, joined};
use crate::object::{blob_bytes, blob_fault, Blob};
use crate::scan::told;
use crate::types::{object_id, Error, ObjectId};
use vstd::prelude::*;

verus! {

/// What a successful `finish` is worth.
#[derive(Clone, Copy, Debug, PartialEq, Eq, Structural)]
#[non_exhaustive]
pub enum DurabilityClass {
    /// Object bytes and every naming edge are on stable media.
    CrashDurable,
    /// Durable for the lifetime of the process only. Never under a ref that a
    /// reader may trust after a loss of power.
    ProcessLifetime,
}

/// Counters of a process for physical durability work.
#[derive(Clone, Copy, Debug, PartialEq, Eq, Structural)]
pub struct BlobStoreStats {
    /// Newly published objects.
    pub puts: u64,
    /// Publications satisfied by an object that was already present.
    pub dedup_hits: u64,
    /// Object-byte barriers.
    pub fsync_file: u64,
    pub fsync_file_us: u64,
    /// Naming barriers.
    pub fsync_dir: u64,
    pub fsync_dir_us: u64,
    /// Filesystem-wide barriers.
    pub barrier_fs: u64,
    pub barrier_fs_us: u64,
    /// Batches that a filesystem-wide barrier satisfied.
    pub barrier_fs_batches: u64,
    /// Bytes written for new objects.
    pub put_bytes: u64,
    /// Bytes that did not have to be written.
    pub dedup_bytes: u64,
    /// Bytes read back.
    pub get_bytes: u64,
    /// Objects whose bytes did not hash to their id.
    pub hash_failures: u64,
}

impl Default for BlobStoreStats {
    fn default() -> (r: Self)
        ensures
            r == no_work(),
    {
        BlobStoreStats {
            puts: 0,
            dedup_hits: 0,
            fsync_file: 0,
            fsync_file_us: 0,
            fsync_dir: 0,
            fsync_dir_us: 0,
            barrier_fs: 0,
            barrier_fs_us: 0,
            barrier_fs_batches: 0,
            put_bytes: 0,
            dedup_bytes: 0,
            get_bytes: 0,
            hash_failures: 0,
        }
    }
}

/// The counters before any work.
pub open spec fn no_work() -> BlobStoreStats {
    BlobStoreStats {
        puts: 0,
        dedup_hits: 0,
        fsync_file: 0,
        fsync_file_us: 0,
        fsync_dir: 0,
        fsync_dir_us: 0,
        barrier_fs: 0,
        barrier_fs_us: 0,
        barrier_fs_batches: 0,
        put_bytes: 0,
        dedup_bytes: 0,
        get_bytes: 0,
        hash_failures: 0,
    }
}

/// A sum that stops at the largest number.
pub open spec fn capped(n: int) -> u64 {
    if n > u64::MAX {
        u64::MAX
    } else {
        n as u64
    }
}

impl BlobStoreStats {
    /// All time spent in barriers.
    pub fn barrier_us(&self) -> (r: u64)
        ensures
            r == capped(self.fsync_file_us + self.fsync_dir_us + self.barrier_fs_us),
    {
        self.fsync_file_us.saturating_add(self.fsync_dir_us).saturating_add(self.barrier_fs_us)
    }

    /// All barriers that proved a directory edge, whichever policy took them.
    pub fn directory_barriers(&self) -> (r: u64)
        ensures
            r == capped(self.fsync_dir + self.barrier_fs),
    {
        self.fsync_dir.saturating_add(self.barrier_fs)
    }
}

/// The id of a byte string.
pub open spec fn bytes_id(b: Seq<u8>) -> ObjectId {
    object_id(blake3_digest(b))
}

/// Nothing is stored under the id of a byte string that does not hash to it.
pub open spec fn undamaged(objects: Map<ObjectId, Seq<u8>>, b: Seq<u8>) -> bool {
    objects.dom().contains(bytes_id(b)) ==> readable(objects, bytes_id(b))
}

/// From `a` to `b` nothing was added but the given bytes, under their id.
pub open spec fn adds_only(
    a: Map<ObjectId, Seq<u8>>,
    b: Map<ObjectId, Seq<u8>>,
    bytes: Seq<u8>,
) -> bool {
    forall|id: ObjectId| #[trigger]
        b.dom().contains(id) ==> a.dom().contains(id) || id == bytes_id(bytes) && readable(b, id)
            && b[id] == bytes
}

/// All that `a` holds, `b` holds unchanged.
pub open spec fn keeps(a: Map<ObjectId, Seq<u8>>, b: Map<ObjectId, Seq<u8>>) -> bool {
    forall|id: ObjectId| #[trigger]
        a.dom().contains(id) ==> b.dom().contains(id) && b[id] == a[id]
}

/// An object is readable: its bytes are there and hash to its id.
pub open spec fn readable(objects: Map<ObjectId, Seq<u8>>, id: ObjectId) -> bool {
    objects.dom().contains(id) && blake3_digest(objects[id]) == id@
}

/// Why a read of an object of some type fails: the object is missing, its bytes are
/// damaged, or, where the backend itself does not fail, they are no such object.
pub open spec fn read_refused(
    objects: Map<ObjectId, Seq<u8>>,
    steady: bool,
    id: ObjectId,
    e: Error,
) -> bool {
    &&& !objects.dom().contains(id) ==> e is NotFound
    &&& objects.dom().contains(id) && !readable(objects, id) ==> e is Corrupt
    &&& steady && readable(objects, id) ==> e is Corrupt
}

/// The reading side of an object plane.
///
/// What a plane holds is stated by its ghost functions. They have bodies so that a
/// backend in ordinary Rust can implement the trait by its executable methods alone;
/// nothing is then proved of that backend.
pub trait ObjectPlane: Sized {
    /// The bytes that are stored under each id.
    open spec fn objects(&self) -> Map<ObjectId, Seq<u8>> {
        Map::empty()
    }

    /// The objects that a successful `finish` has proved.
    open spec fn proven(&self) -> Set<ObjectId> {
        Set::empty()
    }

    /// The plane refuses every publication.
    open spec fn refuses(&self) -> bool {
        true
    }

    /// The backend itself does not fail: nothing but the absence or the damage
    /// of an object makes a read fail, and nothing but a refusal or damage
    /// under the object's id makes a publication fail.
    open spec fn steady(&self) -> bool {
        false
    }

    /// The counters.
    open spec fn work(&self) -> BlobStoreStats {
        no_work()
    }

    /// What a successful `finish` is worth.
    fn durability_class(&self) -> DurabilityClass;

    /// Read an object and hash its bytes again: an object is returned only if
    /// the bytes are those of its id.
    fn get(&self, id: ObjectId) -> (r: Result<Vec<u8>, Error>)
        ensures
            r matches Ok(b) ==> readable(self.objects(), id) && b@ == self.objects()[id],
            !self.objects().dom().contains(id) ==> r matches Err(Error::NotFound(_)),
            self.objects().dom().contains(id) && !readable(self.objects(), id) ==> r matches Err(
                Error::Corrupt(_),
            ),
            self.steady() && readable(self.objects(), id) ==> r is Ok,
    ;

    /// Check that an id names a well-formed blob.
    fn verify_blob(&self, id: ObjectId) -> (r: Result<(), Error>)
        ensures
            r is Ok ==> readable(self.objects(), id) && exists|data: Seq<u8>|
                self.objects()[id] == #[trigger] blob_bytes(data),
            self.steady() && readable(self.objects(), id) && (exists|data: Seq<u8>|
                self.objects()[id] == #[trigger] blob_bytes(data)) ==> r is Ok,
            r matches Err(e) ==> read_refused(self.objects(), self.steady(), id, e) && (
            self.steady() && readable(self.objects(), id) ==> told(
                e,
                blob_fault(self.objects()[id]),
            )),
    {
        let bytes = match self.get(id) {
            Ok(b) => b,
            Err(e) => return Err(e),
        };
        match Blob::decode(bytes.as_slice()) {
            Ok(b) => {
                assert(blob_bytes(b.data@) == self.objects()[id]);
                Ok(())
            },
            Err(e) => Err(e),
        }
    }

    /// Whether something is stored under an id. This is visibility, never a
    /// proof of durability.
    fn has(&self, id: ObjectId) -> (r: bool)
        ensures
            r == self.objects().dom().contains(id),
    ;

    fn read_only(&self) -> (r: bool)
        ensures
            r == self.refuses(),
    ;

    fn stats(&self) -> (r: BlobStoreStats)
        ensures
            r == self.work(),
    ;
}

/// One unit of publication on an object plane.
pub trait ObjectBatch<S: ObjectPlane>: Sized {
    /// The objects that `finish` has to prove.
    open spec fn owed(&self) -> Set<ObjectId> {
        Set::empty()
    }

    /// Publish the object that the parts form when joined. Its id is that of
    /// the joined bytes, wherever the cuts are. The object is readable from
    /// now on; unless it was proved before, this batch owes the proof.
    fn put_parts(&mut self, store: &mut S, parts: &[&[u8]]) -> (r: Result<ObjectId, Error>)
        ensures
            keeps(old(store).objects(), final(store).objects()),
            final(store).proven() == old(store).proven(),
            final(store).refuses() == old(store).refuses(),
            final(store).steady() == old(store).steady(),
            final(store).work().puts == old(store).work().puts,
            final(store).work().dedup_hits == old(store).work().dedup_hits,
            old(self).owed().subset_of(final(self).owed()),
            old(store).refuses() ==> (r matches Err(Error::Denied(_))) && final(store).objects()
                == old(store).objects(),
            adds_only(old(store).objects(), final(store).objects(), joined(parts@)),
            old(store).steady() && !old(store).refuses() && undamaged(
                old(store).objects(),
                joined(parts@),
            ) ==> r is Ok,
            !old(store).refuses() && !undamaged(old(store).objects(), joined(parts@)) ==> (r matches Err(
                Error::Corrupt(_),
            )),
            r matches Ok(id) ==> id@ == blake3_digest(joined(parts@)) && readable(
                final(store).objects(),
                id,
            ) && (!old(store).objects().dom().contains(id) ==> final(store).objects()[id]
                == joined(parts@)) && (final(store).proven().contains(id)
                || final(self).owed().contains(id)),
    ;

    /// Prove every object that the batch owes.
    fn finish(self, store: &mut S) -> (r: Result<(), Error>)
        ensures
            final(store).objects() == old(store).objects(),
            final(store).refuses() == old(store).refuses(),
            final(store).steady() == old(store).steady(),
            old(store).proven().subset_of(final(store).proven()),
            r is Ok ==> self.owed().subset_of(final(store).proven()),
            old(store).steady() ==> r is Ok,
    ;

    /// Publish one byte string.
    fn put(&mut self, store: &mut S, bytes: &[u8]) -> (r: Result<ObjectId, Error>)
        ensures
            keeps(old(store).objects(), final(store).objects()),
            final(store).proven() == old(store).proven(),
            final(store).refuses() == old(store).refuses(),
            final(store).steady() == old(store).steady(),
            final(store).work().puts == old(store).work().puts,
            final(store).work().dedup_hits == old(store).work().dedup_hits,
            old(self).owed().subset_of(final(self).owed()),
            old(store).refuses() ==> (r matches Err(Error::Denied(_))) && final(store).objects()
                == old(store).objects(),
            adds_only(old(store).objects(), final(store).objects(), bytes@),
            old(store).steady() && !old(store).refuses() && undamaged(
                old(store).objects(),
                bytes@,
            ) ==> r is Ok,
            !old(store).refuses() && !undamaged(old(store).objects(), bytes@) ==> (r matches Err(
                Error::Corrupt(_),
            )),
            r matches Ok(id) ==> id@ == blake3_digest(bytes@) && readable(
                final(store).objects(),
                id,
            ) && (!old(store).objects().dom().contains(id) ==> final(store).objects()[id]
                == bytes@) && (final(store).proven().contains(id) || final(self).owed().contains(
                id,
            )),
    {
        let parts: [&[u8]; 1] = [bytes];
        proof {
            lemma_joined_one(bytes);
            assert(parts@ =~= seq![bytes]);
        }
        self.put_parts(store, parts.as_slice())
    }
}

/// One part alone is the whole.
pub proof fn lemma_joined_one(a: &[u8])
    ensures
        joined(seq![a]) == a@,
{
    reveal_with_fuel(joined, 2);
    assert(seq![a].drop_last() =~= Seq::<&[u8]>::empty());
    assert(joined(seq![a]) =~= a@);
}

/// An object plane with publication.
pub trait ObjectStore: ObjectPlane {
    type Batch: ObjectBatch<Self>;

    /// Begin a publication.
    fn begin_batch(&self) -> (b: Self::Batch)
        ensures
            b.owed() == Set::<ObjectId>::empty(),
    ;

    /// Publish one object, given in parts: one batch, finished at once.
    fn put_parts(&mut self, parts: &[&[u8]]) -> (r: Result<ObjectId, Error>)
        ensures
            keeps(old(self).objects(), final(self).objects()),
            old(self).proven().subset_of(final(self).proven()),
            final(self).refuses() == old(self).refuses(),
            final(self).steady() == old(self).steady(),
            old(self).refuses() ==> (r matches Err(Error::Denied(_))) && final(self).objects()
                == old(self).objects(),
            adds_only(old(self).objects(), final(self).objects(), joined(parts@)),
            old(self).steady() && !old(self).refuses() && undamaged(
                old(self).objects(),
                joined(parts@),
            ) ==> r is Ok,
            !old(self).refuses() && !undamaged(old(self).objects(), joined(parts@)) ==> (r matches Err(
                Error::Corrupt(_),
            )),
            r matches Ok(id) ==> id@ == blake3_digest(joined(parts@)) && readable(
                final(self).objects(),
                id,
            ) && (!old(self).objects().dom().contains(id) ==> final(self).objects()[id] == joined(
                parts@,
            )) && final(self).proven().contains(id),
    {
        let mut batch = self.begin_batch();
        let id = match batch.put_parts(self, parts) {
            Ok(id) => id,
            Err(e) => return Err(e),
        };
        match batch.finish(self) {
            Ok(_) => Ok(id),
            Err(e) => Err(e),
        }
    }

    /// Publish one object.
    fn put(&mut self, bytes: &[u8]) -> (r: Result<ObjectId, Error>)
        ensures
            keeps(old(self).objects(), final(self).objects()),
            old(self).proven().subset_of(final(self).proven()),
            final(self).refuses() == old(self).refuses(),
            final(self).steady() == old(self).steady(),
            old(self).refuses() ==> (r matches Err(Error::Denied(_))) && final(self).objects()
                == old(self).objects(),
            adds_only(old(self).objects(), final(self).objects(), bytes@),
            old(self).steady() && !old(self).refuses() && undamaged(
                old(self).objects(),
                bytes@,
            ) ==> r is Ok,
            !old(self).refuses() && !undamaged(old(self).objects(), bytes@) ==> (r matches Err(
                Error::Corrupt(_),
            )),
            r matches Ok(id) ==> id@ == blake3_digest(bytes@) && readable(
                final(self).objects(),
                id,
            ) && (!old(self).objects().dom().contains(id) ==> final(self).objects()[id] == bytes@)
                && final(self).proven().contains(id),
    {
        let parts: [&[u8]; 1] = [bytes];
        proof {
            lemma_joined_one(bytes);
            assert(parts@ =~= seq![bytes]);
        }
        self.put_parts(parts.as_slice())
    }
}

} // verus!
