//! An object plane in memory, for tests and benchmarks.
use crate::bytes::extend_bytes;
use crate::hash::{blake3_digest, hash_bytes, hash_parts, joined};
use crate::idmap::{lemma_insert, IdMap};
use crate::objectstore::{
    no_work, readable, BlobStoreStats, DurabilityClass, ObjectBatch, ObjectPlane, ObjectStore,
};
use crate::types::{hex_of, lemma_id_ext, lemma_object_id, object_id, Error, ObjectId};
use vstd::prelude::*;

verus! {

/// Objects by their ids. What is readable and what has been proved durable
/// are kept apart: only a finished batch adds to the latter.
pub struct MemoryObjectStore {
    visible: IdMap<Vec<u8>>,
    durable: IdMap<bool>,
    stats: BlobStoreStats,
    closed: bool,
}

impl MemoryObjectStore {
    /// An empty store.
    pub fn new() -> (r: Self)
        ensures
            r.objects() == Map::<ObjectId, Seq<u8>>::empty(),
            r.proven() == Set::<ObjectId>::empty(),
            r.work() == no_work(),
            !r.refuses(),
    {
        let r = MemoryObjectStore {
            visible: IdMap::new(),
            durable: IdMap::new(),
            stats: BlobStoreStats::default(),
            closed: false,
        };
        assert(r.objects() =~= Map::<ObjectId, Seq<u8>>::empty());
        assert(r.proven() =~= Set::<ObjectId>::empty());
        r
    }

    /// An empty store that refuses publication.
    pub fn new_read_only() -> (r: Self)
        ensures
            r.objects() == Map::<ObjectId, Seq<u8>>::empty(),
            r.proven() == Set::<ObjectId>::empty(),
            r.work() == no_work(),
            r.refuses(),
    {
        let r = MemoryObjectStore {
            visible: IdMap::new(),
            durable: IdMap::new(),
            stats: BlobStoreStats::default(),
            closed: true,
        };
        assert(r.objects() =~= Map::<ObjectId, Seq<u8>>::empty());
        assert(r.proven() =~= Set::<ObjectId>::empty());
        r
    }

    /// Put other bytes under an id, as damaged media would.
    pub fn corrupt(&mut self, id: ObjectId, bytes: &[u8])
        ensures
            final(self).objects() == old(self).objects().insert(id, bytes@),
            final(self).proven() == old(self).proven(),
            final(self).work() == old(self).work(),
            final(self).refuses() == old(self).refuses(),
    {
        let mut copy: Vec<u8> = Vec::new();
        extend_bytes(&mut copy, bytes);
        let n = self.visible.len();
        let ghost before = self.visible;
        self.visible.insert(id, copy);
        proof {
            lemma_insert(before, self.visible, id, copy);
            assert(self.objects() =~= old(self).objects().insert(id, bytes@));
            assert(self.proven() =~= old(self).proven());
        }
    }

    /// Whether a finished batch has proved an object.
    pub fn is_durable(&self, id: ObjectId) -> (r: bool)
        ensures
            r == self.proven().contains(id),
    {
        self.durable.contains(&id)
    }
}

impl ObjectPlane for MemoryObjectStore {
    closed spec fn objects(&self) -> Map<ObjectId, Seq<u8>> {
        Map::new(|id: ObjectId| self.visible.has(id), |id: ObjectId| self.visible.at(id)@)
    }

    closed spec fn proven(&self) -> Set<ObjectId> {
        Set::new(|id: ObjectId| self.durable.has(id))
    }

    closed spec fn refuses(&self) -> bool {
        self.closed
    }

    open spec fn steady(&self) -> bool {
        true
    }

    closed spec fn work(&self) -> BlobStoreStats {
        self.stats
    }

    fn durability_class(&self) -> (r: DurabilityClass)
        ensures
            r == DurabilityClass::ProcessLifetime,
    {
        DurabilityClass::ProcessLifetime
    }

    fn get(&self, id: ObjectId) -> (r: Result<Vec<u8>, Error>)
        ensures
            r matches Err(e) ==> if self.objects().dom().contains(id) {
                e matches Error::Corrupt(msg) && msg@ == "hash mismatch "@ + hex_of(id@)
            } else {
                e matches Error::NotFound(msg) && msg@ == "object "@ + hex_of(id@)
            },
    {
        match self.visible.get(&id) {
            None => {
                let mut msg = "object ".to_string();
                msg.append(id.hex().as_str());
                Err(Error::NotFound(msg))
            },
            Some(bytes) => {
                let actual = hash_bytes(bytes.as_slice());
                if !actual.same(&id) {
                    proof {
                        if blake3_digest(bytes@) == id@ {
                            lemma_id_ext(actual, id);
                        }
                    }
                    let mut msg = "hash mismatch ".to_string();
                    msg.append(id.hex().as_str());
                    return Err(Error::Corrupt(msg));
                }
                let mut out: Vec<u8> = Vec::new();
                extend_bytes(&mut out, bytes.as_slice());
                Ok(out)
            },
        }
    }

    fn has(&self, id: ObjectId) -> (r: bool) {
        self.visible.contains(&id)
    }

    fn read_only(&self) -> (r: bool) {
        self.closed
    }

    fn stats(&self) -> (r: BlobStoreStats) {
        self.stats
    }
}

/// A publication in memory.
pub struct MemoryBatch {
    owed: Vec<ObjectId>,
    new_puts: u64,
    new_dedup: u64,
}

impl MemoryBatch {
    /// How many objects the batch has made readable.
    pub closed spec fn fresh(self) -> u64 {
        self.new_puts
    }

    /// How many objects the batch has found readable.
    pub closed spec fn joins(self) -> u64 {
        self.new_dedup
    }
}

/// The counters after one object-byte barrier.
pub open spec fn byte_barrier(s: BlobStoreStats) -> BlobStoreStats {
    BlobStoreStats {
        fsync_file: s.fsync_file.wrapping_add(1),
        fsync_file_us: s.fsync_file_us.wrapping_add(1),
        ..s
    }
}

/// The counters after one naming barrier.
pub open spec fn name_barrier(s: BlobStoreStats) -> BlobStoreStats {
    BlobStoreStats {
        fsync_dir: s.fsync_dir.wrapping_add(1),
        fsync_dir_us: s.fsync_dir_us.wrapping_add(1),
        ..s
    }
}

/// The counters once a batch is accounted for.
pub open spec fn accounted(s: BlobStoreStats, fresh: u64, joins: u64) -> BlobStoreStats {
    BlobStoreStats {
        puts: s.puts.wrapping_add(fresh),
        dedup_hits: s.dedup_hits.wrapping_add(joins),
        ..s
    }
}

impl ObjectBatch<MemoryObjectStore> for MemoryBatch {
    closed spec fn owed(&self) -> Set<ObjectId> {
        self.owed@.to_set()
    }

    /// An object that is readable but unproven costs the same barriers as a
    /// new one: some other batch made it readable and may never finish.
    fn put_parts(&mut self, store: &mut MemoryObjectStore, parts: &[&[u8]]) -> (r: Result<
        ObjectId,
        Error,
    >)
        ensures
            ({
                let id = object_id(blake3_digest(joined(parts@)));
                let objects = old(store).objects();
                if old(store).refuses() {
                    &&& r matches Err(Error::Denied(msg)) && msg@
                        == "repository is open read-only; objects cannot be published"@
                    &&& final(store).work() == old(store).work()
                    &&& *final(self) == *old(self)
                } else if objects.dom().contains(id) && !readable(objects, id) {
                    &&& r matches Err(Error::Corrupt(msg)) && msg@
                        == "existing object does not match its id: "@ + hex_of(id@)
                    &&& final(store).objects() == objects
                    &&& final(store).work() == old(store).work()
                    &&& *final(self) == *old(self)
                } else {
                    &&& r == Ok::<ObjectId, Error>(id)
                    &&& final(store).objects() == (if objects.dom().contains(id) {
                        objects
                    } else {
                        objects.insert(id, joined(parts@))
                    })
                    &&& final(store).work() == (if old(store).proven().contains(id) && objects.dom().contains(id) {
                        old(store).work()
                    } else {
                        byte_barrier(old(store).work())
                    })
                    &&& final(self).owed() == (if old(store).proven().contains(id) && objects.dom().contains(id) {
                        old(self).owed()
                    } else {
                        old(self).owed().insert(id)
                    })
                    &&& final(self).fresh() == (if objects.dom().contains(id) {
                        old(self).fresh()
                    } else {
                        old(self).fresh().wrapping_add(1)
                    })
                    &&& final(self).joins() == (if objects.dom().contains(id) {
                        old(self).joins().wrapping_add(1)
                    } else {
                        old(self).joins()
                    })
                }
            }),
    {
        if store.closed {
            return Err(
                Error::Denied(
                    "repository is open read-only; objects cannot be published".to_string(),
                ),
            );
        }
        let id = hash_parts(parts);
        proof {
            lemma_object_id(id);
        }
        let known: bool = match store.visible.get(&id) {
            Some(existing) => {
                let actual = hash_bytes(existing.as_slice());
                if !actual.same(&id) {
                    proof {
                        if blake3_digest(existing@) == id@ {
                            lemma_id_ext(actual, id);
                        }
                    }
                    let mut msg = "existing object does not match its id: ".to_string();
                    msg.append(id.hex().as_str());
                    return Err(Error::Corrupt(msg));
                }
                true
            },
            None => false,
        };
        if known {
            self.new_dedup = self.new_dedup.wrapping_add(1);
            if store.durable.contains(&id) {
                return Ok(id);
            }
        } else {
            let copy = join_parts(parts);
            let n = store.visible.len();
            let ghost before = store.visible;
            store.visible.insert(id, copy);
            proof {
                lemma_insert(before, store.visible, id, copy);
                assert(store.objects() =~= old(store).objects().insert(id, joined(parts@)));
            }
            self.new_puts = self.new_puts.wrapping_add(1);
        }
        store.stats.fsync_file = store.stats.fsync_file.wrapping_add(1);
        store.stats.fsync_file_us = store.stats.fsync_file_us.wrapping_add(1);
        self.owed.push(id);
        proof {
            assert(self.owed@.to_set() =~= old(self).owed@.to_set().insert(id)) by {
                assert forall|x: ObjectId| #[trigger] self.owed@.contains(x) <==> (
                old(self).owed@.contains(x) || x == id) by {
                    if old(self).owed@.contains(x) {
                        let i = choose|i: int| 0 <= i < old(self).owed@.len() && old(self).owed@[i] == x;
                        assert(self.owed@[i] == x);
                    }
                    if x == id {
                        assert(self.owed@[old(self).owed@.len() as int] == x);
                    }
                }
            }
            assert(store.proven() =~= old(store).proven());
        }
        Ok(id)
    }

    fn finish(self, store: &mut MemoryObjectStore) -> (r: Result<(), Error>)
        ensures
            r is Ok,
            final(store).proven() == old(store).proven().union(self.owed()),
            final(store).work() == accounted(
                if self.owed() == Set::<ObjectId>::empty() {
                    old(store).work()
                } else {
                    name_barrier(old(store).work())
                },
                self.fresh(),
                self.joins(),
            ),
    {
        if self.owed.len() > 0 {
            proof {
                assert(self.owed@.contains(self.owed@[0]));
                assert(self.owed().contains(self.owed@[0]));
            }
            store.stats.fsync_dir = store.stats.fsync_dir.wrapping_add(1);
            store.stats.fsync_dir_us = store.stats.fsync_dir_us.wrapping_add(1);
        } else {
            assert(self.owed() =~= Set::<ObjectId>::empty());
        }
        let ghost mid = *store;
        let mut i: usize = 0;
        assert(mid.proven() =~= old(store).proven());
        assert(self.owed@.take(0).to_set() =~= Set::<ObjectId>::empty());
        assert(store.proven() =~= mid.proven().union(self.owed@.take(0).to_set()));
        while i < self.owed.len()
            invariant
                i <= self.owed@.len(),
                store.visible == mid.visible,
                store.stats == mid.stats,
                store.closed == mid.closed,
                store.proven() == mid.proven().union(self.owed@.take(i as int).to_set()),
            decreases self.owed@.len() - i,
        {
            let ghost before = store.durable;
            let ghost shown = store.proven();
            let n = store.durable.len();
            store.durable.insert(self.owed[i], true);
            proof {
                lemma_insert(before, store.durable, self.owed@[i as int], true);
                let a = self.owed@.take(i as int);
                let b = self.owed@.take(i + 1);
                assert(b =~= a.push(self.owed@[i as int]));
                assert forall|x: ObjectId| #[trigger] b.contains(x) <==> a.contains(x) || x
                    == self.owed@[i as int] by {
                    if a.contains(x) {
                        let k = choose|k: int| 0 <= k < a.len() && a[k] == x;
                        assert(b[k] == x);
                    }
                    if x == self.owed@[i as int] {
                        assert(b[i as int] == x);
                    }
                }
                assert forall|x: ObjectId| #[trigger] store.proven().contains(x)
                    <==> mid.proven().union(b.to_set()).contains(x) by {
                    assert(shown.contains(x) <==> mid.proven().contains(x) || a.contains(x));
                    assert(shown.contains(x) <==> before.has(x));
                    assert(store.durable.has(x) <==> before.has(x) || x == self.owed@[i as int]);
                    assert(b.to_set().contains(x) <==> b.contains(x));
                }
                assert(store.proven() =~= mid.proven().union(b.to_set()));
            }
            i += 1;
        }
        assert(self.owed@.take(i as int) =~= self.owed@);
        store.stats.puts = store.stats.puts.wrapping_add(self.new_puts);
        store.stats.dedup_hits = store.stats.dedup_hits.wrapping_add(self.new_dedup);
        proof {
            assert(store.proven() =~= old(store).proven().union(self.owed()));
            assert(store.objects() =~= old(store).objects());
        }
        Ok(())
    }
}

impl ObjectStore for MemoryObjectStore {
    type Batch = MemoryBatch;

    fn begin_batch(&self) -> (b: MemoryBatch)
        ensures
            b.fresh() == 0,
            b.joins() == 0,
    {
        let b = MemoryBatch { owed: Vec::new(), new_puts: 0, new_dedup: 0 };
        assert(b.owed() =~= Set::<ObjectId>::empty());
        b
    }
}

/// The parts joined.
fn join_parts(parts: &[&[u8]]) -> (r: Vec<u8>)
    ensures
        r@ == joined(parts@),
{
    let mut out: Vec<u8> = Vec::new();
    let mut i: usize = 0;
    assert(parts@.take(0) =~= Seq::<&[u8]>::empty());
    while i < parts.len()
        invariant
            i <= parts@.len(),
            out@ == joined(parts@.take(i as int)),
        decreases parts@.len() - i,
    {
        proof {
            let next = parts@.take(i + 1);
            assert(next.drop_last() =~= parts@.take(i as int));
            assert(next.last() == parts@[i as int]);
        }
        extend_bytes(&mut out, parts[i]);
        i += 1;
    }
    assert(parts@.take(i as int) =~= parts@);
    out
}

} // verus!
