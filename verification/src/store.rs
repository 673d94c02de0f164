//! Typed access to an object plane, with the hot caches.
use crate::bytes::extend_bytes;
use crate::cache::{
    fitted, holds, is_listing, is_tree, pushed, spot, used, weight, without, ObjectCache, TreeCache,
    OBJECT_CACHE_MAX_BYTES, OBJECT_CACHE_MAX_ENTRIES, TREE_CACHE_MAX_ENTRIES,
};
use crate::commit::{
    commit_bytes, commit_fault, commit_header, commit_valid, lemma_commit_unique, Commit,
    CommitValue,
};
use crate::conflict::{
    conflict_bounded, conflict_bytes, conflict_fault, conflict_form_bytes, conflict_header,
    form_valid, form_value, full_form, lemma_conflict_unique, Conflict, ConflictForm,
};
use crate::contribution::{
    bounds_fault, contribution_bytes, contribution_fault, contribution_valid,
    lemma_contribution_len, lemma_contribution_unique, Contribution, ContributionValue,
};
use crate::graph::{
    beyond, graph_ok, lists_reachable, on_list, over_ceiling, walk_complete, walk_graph,
    walk_refused, VerifiedGraphObject, DEFAULT_MAX_GRAPH_OBJECTS,
};
use crate::hash::{blake3_digest, joined, lemma_joined_pair};
use crate::object::{
    blob_bytes, blob_fault, blob_frame_prefix, decode_object_type, lemma_blob_frame,
    lemma_blob_unique, lemma_tree_header_len, lemma_tree_unique, lists, tree_bytes,
    tree_encodable, tree_fault, type_fault, unencodable, Blob, MAX_TREE_ENTRIES,
};
use crate::objectstore::{
    adds_only, keeps, read_refused, readable, undamaged, BlobStoreStats, ObjectBatch, ObjectPlane,
    ObjectStore,
};
use crate::overlay::{extends, has_tree, tree_id, TreeStore};
use crate::snapshot::{
    lemma_snapshot_unique, snapshot_bytes, snapshot_fault, snapshot_header, snapshot_valid,
    Snapshot, SnapshotValue,
};
use crate::scan::{told, Fault};
use crate::tree::{canonical, names_increasing, Entry, Tree};
use crate::types::{lemma_id_ext, lemma_object_id, Error, ObjectId, ObjectType};
use vstd::prelude::*;

verus! {

/// How often the two caches had what was asked for. A miss is counted where
/// the lookup failed, so hits and misses add up to the lookups.
#[derive(Clone, Copy, Debug, PartialEq, Eq, Structural)]
pub struct StoreCacheStats {
    pub object_cache_hits: u64,
    pub object_cache_misses: u64,
    pub tree_cache_hits: u64,
    pub tree_cache_misses: u64,
}

impl Default for StoreCacheStats {
    fn default() -> (r: Self)
        ensures
            r == no_lookups(),
    {
        StoreCacheStats {
            object_cache_hits: 0,
            object_cache_misses: 0,
            tree_cache_hits: 0,
            tree_cache_misses: 0,
        }
    }
}

/// The counts before any lookup.
pub open spec fn no_lookups() -> StoreCacheStats {
    StoreCacheStats {
        object_cache_hits: 0,
        object_cache_misses: 0,
        tree_cache_hits: 0,
        tree_cache_misses: 0,
    }
}

/// All that is cached is stored, as it is cached.
pub open spec fn agree(es: Seq<(Seq<u8>, Seq<u8>)>, objects: Map<ObjectId, Seq<u8>>) -> bool {
    forall|i: int, id: ObjectId|
        0 <= i < es.len() && (#[trigger] es[i]).0 == #[trigger] id@ ==> objects.dom().contains(id)
            && objects[id] == es[i].1
}

proof fn lemma_agree_keeps(
    es: Seq<(Seq<u8>, Seq<u8>)>,
    a: Map<ObjectId, Seq<u8>>,
    b: Map<ObjectId, Seq<u8>>,
)
    requires
        agree(es, a),
        keeps(a, b),
    ensures
        agree(es, b),
{
    assert forall|i: int, id: ObjectId|
        0 <= i < es.len() && (#[trigger] es[i]).0 == #[trigger] id@ implies b.dom().contains(id)
        && b[id] == es[i].1 by {
        assert(a.dom().contains(id));
    }
}

proof fn lemma_agree_remove(
    es: Seq<(Seq<u8>, Seq<u8>)>,
    objects: Map<ObjectId, Seq<u8>>,
    k: int,
)
    requires
        agree(es, objects),
        0 <= k < es.len(),
    ensures
        agree(es.remove(k), objects),
{
    let r = es.remove(k);
    assert forall|i: int, id: ObjectId|
        0 <= i < r.len() && (#[trigger] r[i]).0 == #[trigger] id@ implies objects.dom().contains(
        id,
    ) && objects[id] == r[i].1 by {
        if i < k {
            assert(r[i] == es[i]);
        } else {
            assert(r[i] == es[i + 1]);
        }
    }
}

proof fn lemma_agree_push(
    es: Seq<(Seq<u8>, Seq<u8>)>,
    objects: Map<ObjectId, Seq<u8>>,
    id: ObjectId,
    v: Seq<u8>,
)
    requires
        agree(es, objects),
        objects.dom().contains(id),
        objects[id] == v,
    ensures
        agree(es.push((id@, v)), objects),
{
    let r = es.push((id@, v));
    assert forall|i: int, x: ObjectId|
        0 <= i < r.len() && (#[trigger] r[i]).0 == #[trigger] x@ implies objects.dom().contains(x)
        && objects[x] == r[i].1 by {
        if i < es.len() {
            assert(r[i] == es[i]);
        } else {
            lemma_id_ext(x, id);
        }
    }
}

proof fn lemma_agree_used(
    es: Seq<(Seq<u8>, Seq<u8>)>,
    objects: Map<ObjectId, Seq<u8>>,
    id: ObjectId,
)
    requires
        agree(es, objects),
    ensures
        agree(used(es, id@), objects),
        agree(without(es, id@), objects),
        holds(es, id@) ==> objects.dom().contains(id) && objects[id] == es[spot(es, id@)].1,
{
    if holds(es, id@) {
        let i = spot(es, id@);
        assert(es[i].0 == id@);
        lemma_agree_remove(es, objects, i);
        lemma_agree_push(es.remove(i), objects, id, es[i].1);
        assert(es[i] == (id@, es[i].1));
    }
}

proof fn lemma_agree_pushed(
    es: Seq<(Seq<u8>, Seq<u8>)>,
    objects: Map<ObjectId, Seq<u8>>,
    cap: nat,
    id: ObjectId,
    v: Seq<u8>,
)
    requires
        agree(es, objects),
        objects.dom().contains(id),
        objects[id] == v,
        cap > 0,
    ensures
        agree(pushed(es, cap, id@, v), objects),
{
    if holds(es, id@) {
        let i = spot(es, id@);
        lemma_agree_remove(es, objects, i);
        lemma_agree_push(es.remove(i), objects, id, v);
    } else if es.len() == cap {
        lemma_agree_remove(es, objects, 0);
        lemma_agree_push(es.remove(0), objects, id, v);
    } else {
        lemma_agree_push(es, objects, id, v);
    }
}

proof fn lemma_agree_fitted(
    es: Seq<(Seq<u8>, Seq<u8>)>,
    objects: Map<ObjectId, Seq<u8>>,
    max: nat,
)
    requires
        agree(es, objects),
    ensures
        agree(fitted(es, max), objects),
    decreases es.len(),
{
    if !(weight(es) <= max || es.len() == 0) {
        lemma_agree_remove(es, objects, 0);
        lemma_agree_fitted(es.remove(0), objects, max);
    }
}

/// What the raw-object cache holds once an object has been put there.
pub open spec fn cached_after(
    es: Seq<(Seq<u8>, Seq<u8>)>,
    id: ObjectId,
    v: Seq<u8>,
) -> Seq<(Seq<u8>, Seq<u8>)> {
    if v.len() > OBJECT_CACHE_MAX_BYTES {
        without(es, id@)
    } else {
        fitted(
            pushed(es, OBJECT_CACHE_MAX_ENTRIES as nat, id@, v),
            OBJECT_CACHE_MAX_BYTES as nat,
        )
    }
}

/// The tree whose object file the bytes are.
pub open spec fn the_tree(b: Seq<u8>) -> Seq<Entry> {
    choose|t: Seq<Entry>|
        canonical(t) && t.len() <= MAX_TREE_ENTRIES && #[trigger] tree_bytes(t) == b
}

/// The trees among some objects.
pub open spec fn trees_of(objects: Map<ObjectId, Seq<u8>>) -> Map<ObjectId, Seq<Entry>> {
    Map::new(
        |id: ObjectId| readable(objects, id) && is_tree(objects[id]),
        |id: ObjectId| the_tree(objects[id]),
    )
}

/// A tree is found under its bytes.
pub proof fn lemma_the_tree(t: Seq<Entry>)
    requires
        canonical(t),
        t.len() <= MAX_TREE_ENTRIES,
    ensures
        is_tree(tree_bytes(t)),
        the_tree(tree_bytes(t)) == t,
{
    assert(is_tree(tree_bytes(t)));
    lemma_tree_unique(t, the_tree(tree_bytes(t)));
}

/// The id of a tree, by its bytes.
pub proof fn lemma_tree_id(t: Seq<Entry>, id: ObjectId)
    requires
        id@ == blake3_digest(tree_bytes(t)),
    ensures
        id == tree_id(t),
{
    lemma_object_id(id);
}

/// Typed access to an object plane. The caches are memory policy only: what a
/// read returns always hashes to its id.
pub struct Store<O: ObjectStore> {
    pub blobs: O,
    pub tree_cache: TreeCache,
    pub object_cache: ObjectCache,
    pub counts: StoreCacheStats,
    pub walk_limit: usize,
    /// Whether a tree was put whose id was that of other bytes: a digest that collides.
    pub collided: Ghost<bool>,
}

impl<O: ObjectStore> Store<O> {
    /// What the raw-object cache holds.
    pub open spec fn cached_objects(self) -> Seq<(Seq<u8>, Seq<u8>)> {
        self.object_cache.held()
    }

    /// What the tree cache holds.
    pub open spec fn cached_trees(self) -> Seq<(Seq<u8>, Seq<u8>)> {
        self.tree_cache.held()
    }

    /// The counts of lookups.
    pub open spec fn lookups(self) -> StoreCacheStats {
        self.counts
    }

    /// Most objects that a walk of the graph may hold.
    pub open spec fn walk_ceiling(self) -> usize {
        self.walk_limit
    }

    /// The cached objects are as they are stored. Only damage or removal behind the
    /// store's back can break this.
    pub open spec fn coherent(self) -> bool {
        agree(self.cached_objects(), self.blobs.objects())
    }

    /// The cached trees are as they are stored, unless a digest collided.
    pub open spec fn in_step(self) -> bool {
        self.collided@ || agree(self.cached_trees(), self.blobs.objects())
    }

    /// The cached trees read back: none was put with its entries out of order.
    pub open spec fn orderly(self) -> bool {
        all_read_back(self.cached_trees())
    }

    /// What is cached is what a read of the plane gives, but for a digest that collided.
    pub open spec fn settled(self) -> bool {
        self.coherent() && self.in_step() && self.orderly()
    }

    /// A store over any object plane.
    pub fn with_object_store(blobs: O) -> (r: Self)
        ensures
            r.blobs == blobs,
            r.settled(),
            !r.collided@,
            r.cached_objects() == Seq::<(Seq<u8>, Seq<u8>)>::empty(),
            r.cached_trees() == Seq::<(Seq<u8>, Seq<u8>)>::empty(),
            r.lookups() == no_lookups(),
            r.walk_ceiling() == DEFAULT_MAX_GRAPH_OBJECTS,
    {
        Store {
            blobs,
            tree_cache: TreeCache::new(),
            object_cache: ObjectCache::new(),
            counts: StoreCacheStats::default(),
            walk_limit: DEFAULT_MAX_GRAPH_OBJECTS,
            collided: Ghost(false),
        }
    }

    /// Let walks of the graph hold at most so many objects.
    pub fn set_walk_ceiling(&mut self, limit: usize)
        ensures
            final(self).walk_ceiling() == limit,
            final(self).blobs == old(self).blobs,
            final(self).cached_objects() == old(self).cached_objects(),
            final(self).cached_trees() == old(self).cached_trees(),
            final(self).lookups() == old(self).lookups(),
            kept(*old(self), *final(self)),
    {
        self.walk_limit = limit;
    }

    /// Whether the object plane refuses every publication.
    pub fn read_only(&self) -> (r: bool)
        ensures
            r == self.blobs.refuses(),
    {
        self.blobs.read_only()
    }

    /// The counters of the object plane.
    pub fn stats(&self) -> (r: BlobStoreStats)
        ensures
            r == self.blobs.work(),
    {
        self.blobs.stats()
    }

    pub fn cache_stats(&self) -> (r: StoreCacheStats)
        ensures
            r == self.lookups(),
    {
        self.counts
    }

    pub fn put_raw(&mut self, bytes: &[u8]) -> (r: Result<ObjectId, Error>)
        ensures
            final(self).cached_objects() == old(self).cached_objects(),
            final(self).cached_trees() == old(self).cached_trees(),
            final(self).lookups() == old(self).lookups(),
            final(self).walk_ceiling() == old(self).walk_ceiling(),
            kept(*old(self), *final(self)),
            published(old(self).blobs, final(self).blobs, bytes@, r),
    {
        let r = self.blobs.put(bytes);
        proof {
            if old(self).coherent() {
                lemma_agree_keeps(
                    self.cached_objects(),
                    old(self).blobs.objects(),
                    self.blobs.objects(),
                );
            }
            if agree(self.cached_trees(), old(self).blobs.objects()) {
                lemma_agree_keeps(
                    self.cached_trees(),
                    old(self).blobs.objects(),
                    self.blobs.objects(),
                );
            }
        }
        r
    }

    /// Publish the object that the parts form when joined.
    pub fn put_raw_parts(&mut self, parts: &[&[u8]]) -> (r: Result<ObjectId, Error>)
        ensures
            final(self).cached_objects() == old(self).cached_objects(),
            final(self).cached_trees() == old(self).cached_trees(),
            final(self).lookups() == old(self).lookups(),
            final(self).walk_ceiling() == old(self).walk_ceiling(),
            kept(*old(self), *final(self)),
            published(old(self).blobs, final(self).blobs, joined(parts@), r),
    {
        let r = self.blobs.put_parts(parts);
        proof {
            if old(self).coherent() {
                lemma_agree_keeps(
                    self.cached_objects(),
                    old(self).blobs.objects(),
                    self.blobs.objects(),
                );
            }
            if agree(self.cached_trees(), old(self).blobs.objects()) {
                lemma_agree_keeps(
                    self.cached_trees(),
                    old(self).blobs.objects(),
                    self.blobs.objects(),
                );
            }
        }
        r
    }

    /// Read an object, from memory where it is cached.
    pub fn get_raw(&mut self, id: ObjectId) -> (r: Result<Vec<u8>, Error>)
        ensures
            final(self).blobs == old(self).blobs,
            final(self).cached_trees() == old(self).cached_trees(),
            final(self).walk_ceiling() == old(self).walk_ceiling(),
            kept(*old(self), *final(self)),
            raw_read(*old(self), *final(self), id, r),
    {
        let ghost es = self.object_cache.held();
        let ghost objects = self.blobs.objects();
        proof {
            if self.coherent() {
                lemma_agree_used(es, objects, id);
            }
        }
        let cached = self.object_cache.get(&id);
        if let Some(bytes) = cached {
            self.counts.object_cache_hits = self.counts.object_cache_hits.wrapping_add(1);
            return Ok(bytes);
        }
        assert(used(es, id@) == es);
        self.counts.object_cache_misses = self.counts.object_cache_misses.wrapping_add(1);
        let bytes = self.get_raw_verified(id)?;
        let mut copy: Vec<u8> = Vec::new();
        extend_bytes(&mut copy, bytes.as_slice());
        assert(copy@ == bytes@);
        proof {
            if old(self).coherent() {
                let cap = OBJECT_CACHE_MAX_ENTRIES as nat;
                lemma_agree_pushed(es, objects, cap, id, bytes@);
                lemma_agree_fitted(
                    pushed(es, cap, id@, bytes@),
                    objects,
                    OBJECT_CACHE_MAX_BYTES as nat,
                );
            }
        }
        self.object_cache.put(id, copy);
        Ok(bytes)
    }

    /// Read what is stored, whatever is cached, and hash it again.
    pub fn get_raw_verified(&self, id: ObjectId) -> (r: Result<Vec<u8>, Error>)
        ensures
            stored_read(self.blobs, id, r),
    {
        self.blobs.get(id)
    }

    /// Drop every cached copy of an object: after its removal its absence can
    /// be seen.
    pub fn forget_cached(&mut self, id: ObjectId)
        ensures
            final(self).blobs == old(self).blobs,
            final(self).cached_objects() == without(old(self).cached_objects(), id@),
            final(self).cached_trees() == without(old(self).cached_trees(), id@),
            final(self).lookups() == old(self).lookups(),
            final(self).walk_ceiling() == old(self).walk_ceiling(),
            kept(*old(self), *final(self)),
    {
        proof {
            if self.orderly() {
                lemma_orderly_used(self.cached_trees(), id@);
            }
            if self.coherent() {
                lemma_agree_used(self.cached_objects(), self.blobs.objects(), id);
            }
            if agree(self.cached_trees(), self.blobs.objects()) {
                lemma_agree_used(self.cached_trees(), self.blobs.objects(), id);
            }
        }
        self.tree_cache.pop(&id);
        self.object_cache.pop(&id);
    }

    /// Publish data as a blob, without a second copy of it.
    pub fn put_blob_data(&mut self, data: &[u8]) -> (r: Result<ObjectId, Error>)
        ensures
            final(self).cached_objects() == old(self).cached_objects(),
            final(self).cached_trees() == old(self).cached_trees(),
            final(self).lookups() == old(self).lookups(),
            final(self).walk_ceiling() == old(self).walk_ceiling(),
            kept(*old(self), *final(self)),
            published(old(self).blobs, final(self).blobs, blob_bytes(data@), r),
    {
        let prefix = blob_frame_prefix(data.len() as u64);
        let parts: [&[u8]; 2] = [prefix.as_slice(), data];
        proof {
            lemma_joined_pair(parts@[0], data);
            assert(parts@ =~= seq![parts@[0], data]);
            lemma_blob_frame(data@);
        }
        self.put_raw_parts(parts.as_slice())
    }

    pub fn get_blob_data(&mut self, id: ObjectId) -> (r: Result<Vec<u8>, Error>)
        ensures
            final(self).blobs == old(self).blobs,
            kept(*old(self), *final(self)),
            r matches Ok(data) ==> blake3_digest(blob_bytes(data@)) == id@,
            old(self).coherent() ==> (r matches Ok(data) ==> readable(
                old(self).blobs.objects(),
                id,
            ) && old(self).blobs.objects()[id] == blob_bytes(data@)),
            old(self).coherent() && old(self).blobs.steady() && readable(
                old(self).blobs.objects(),
                id,
            ) && (exists|d: Seq<u8>|
                #[trigger] blob_bytes(d) == old(self).blobs.objects()[id]) ==> r is Ok,
            old(self).coherent() ==> (r matches Err(e) ==> read_refused(
                old(self).blobs.objects(),
                old(self).blobs.steady(),
                id,
                e,
            )),
            exists|raw: Result<Vec<u8>, Error>| #[trigger]
                raw_read(*old(self), *final(self), id, raw) && (raw matches Err(e) ==> r == Err::<
                    Vec<u8>,
                    Error,
                >(e)) && (raw matches Ok(b) ==> (r matches Err(e) ==> told(e, blob_fault(b@)))),
            final(self).cached_trees() == old(self).cached_trees(),
            final(self).walk_ceiling() == old(self).walk_ceiling(),
    {
        let bytes = self.get_raw(id)?;
        let blob = Blob::decode(bytes.as_slice())?;
        Ok(blob.data)
    }

    /// Publish a tree, and cache it.
    pub fn put_tree(&mut self, tree: &Tree) -> (r: Result<ObjectId, Error>)
        ensures
            final(self).cached_objects() == old(self).cached_objects(),
            final(self).lookups() == old(self).lookups(),
            final(self).walk_ceiling() == old(self).walk_ceiling(),
            tree_kept(*old(self), *final(self), tree@, r),
            tree_cached(*old(self), *final(self), tree_bytes(tree@), r),
            if tree_encodable(tree@) {
                published(old(self).blobs, final(self).blobs, tree_bytes(tree@), r)
            } else {
                &&& final(self).blobs == old(self).blobs
                &&& r matches Err(e) && told(e, unencodable(tree@))
            },
    {
        let bytes = tree.encode()?;
        let id = self.put_raw(bytes.as_slice())?;
        proof {
            lemma_tree_id(tree@, id);
        }
        self.keep_tree(id, bytes, Ghost(tree@), Ghost(old(self).blobs.objects()));
        Ok(id)
    }

    /// Cache a tree that has just been put.
    fn keep_tree(
        &mut self,
        id: ObjectId,
        bytes: Vec<u8>,
        Ghost(es): Ghost<Seq<Entry>>,
        Ghost(before): Ghost<Map<ObjectId, Seq<u8>>>,
    )
        requires
            tree_encodable(es),
            bytes@ == tree_bytes(es),
            id == tree_id(es),
            id@ == blake3_digest(bytes@),
            keeps(before, old(self).blobs.objects()),
            readable(old(self).blobs.objects(), id),
            !before.dom().contains(id) ==> old(self).blobs.objects()[id] == bytes@,
        ensures
            final(self).blobs == old(self).blobs,
            final(self).cached_objects() == old(self).cached_objects(),
            final(self).lookups() == old(self).lookups(),
            final(self).walk_ceiling() == old(self).walk_ceiling(),
            final(self).collided@ == (old(self).collided@ || collides(before, es)),
            old(self).in_step() ==> final(self).in_step(),
            old(self).orderly() && names_increasing(es) ==> final(self).orderly(),
            final(self).cached_trees() == pushed(
                old(self).cached_trees(),
                TREE_CACHE_MAX_ENTRIES as nat,
                id@,
                bytes@,
            ),
    {
        let ghost hit = collides(before, es);
        proof {
            if !self.collided@ && !hit && self.in_step() {
                lemma_agree_pushed(
                    self.cached_trees(),
                    self.blobs.objects(),
                    TREE_CACHE_MAX_ENTRIES as nat,
                    id,
                    bytes@,
                );
            }
            if self.orderly() && names_increasing(es) {
                assert(is_tree(bytes@));
                lemma_orderly_pushed(
                    self.cached_trees(),
                    TREE_CACHE_MAX_ENTRIES as nat,
                    id@,
                    bytes@,
                );
            }
            assert(is_listing(bytes@));
        }
        self.tree_cache.put(id, bytes);
        proof {
            self.collided@ = self.collided@ || hit;
        }
    }

    /// Read a tree, from memory where it is cached. One that was put with its entries
    /// out of order is there as it was put.
    pub fn get_tree(&mut self, id: ObjectId) -> (r: Result<Tree, Error>)
        ensures
            final(self).blobs == old(self).blobs,
            final(self).walk_ceiling() == old(self).walk_ceiling(),
            kept(*old(self), *final(self)),
            tree_read(*old(self), *final(self), id, r),
            r matches Ok(t) ==> tree_encodable(t@) && tree_id(t@) == id,
            old(self).orderly() ==> (r matches Ok(t) ==> canonical(t@)),
            old(self).coherent() && old(self).in_step() && !old(self).collided@ ==> (r matches Ok(t)
                ==> readable(old(self).blobs.objects(), id) && old(self).blobs.objects()[id]
                == tree_bytes(t@)),
            old(self).coherent() && old(self).blobs.steady() && trees_of(
                old(self).blobs.objects(),
            ).dom().contains(id) ==> r is Ok,
            old(self).coherent() ==> (r matches Err(e) ==> tree_refused(
                old(self).blobs.objects(),
                old(self).blobs.steady(),
                id,
                e,
            )),
    {
        let ghost es = self.tree_cache.held();
        let ghost objects = self.blobs.objects();
        proof {
            if agree(es, objects) {
                lemma_agree_used(es, objects, id);
            }
            if self.orderly() {
                lemma_orderly_used(es, id@);
            }
        }
        let cached = self.tree_cache.get(&id);
        if let Some(bytes) = cached {
            self.counts.tree_cache_hits = self.counts.tree_cache_hits.wrapping_add(1);
            proof {
                let held = choose|t: Seq<Entry>|
                    tree_encodable(t) && #[trigger] tree_bytes(t) == bytes@;
                lemma_tree_header_len(held);
                assert(lists(bytes@, held));
            }
            let entries = Tree::decode_listed(bytes.as_slice())?;
            let t = Tree { entries };
            proof {
                lemma_tree_id(t@, id);
                if old(self).orderly() {
                    assert(is_tree(es[spot(es, id@)].1));
                    let read = the_tree(bytes@);
                    lemma_tree_unique(read, t@);
                }
            }
            return Ok(t);
        }
        assert(used(es, id@) == es);
        self.counts.tree_cache_misses = self.counts.tree_cache_misses.wrapping_add(1);
        let ghost before = *self;
        assert(old(self).coherent() ==> before.coherent());
        let raw = self.get_raw(id);
        let ghost seen = raw;
        let bytes = match raw {
            Ok(b) => b,
            Err(e) => {
                assert(raw_missed(*old(self), *self, id, seen));
                return Err(e);
            },
        };
        let decoded = Tree::decode(bytes.as_slice());
        let t = match decoded {
            Ok(t) => t,
            Err(e) => {
                assert(raw_missed(*old(self), *self, id, seen));
                return Err(e);
            },
        };
        proof {
            lemma_tree_id(t@, id);
            assert(is_tree(bytes@));
            assert(is_listing(bytes@));
            if agree(es, objects) && old(self).coherent() {
                lemma_agree_pushed(es, objects, TREE_CACHE_MAX_ENTRIES as nat, id, bytes@);
            }
            if old(self).orderly() {
                lemma_orderly_pushed(es, TREE_CACHE_MAX_ENTRIES as nat, id@, bytes@);
            }
        }
        self.tree_cache.put(id, bytes);
        assert(raw_missed(*old(self), *self, id, seen));
        Ok(t)
    }

    /// Publish a commit. Its header has to fit in 32 bits of length.
    pub fn put_commit(&mut self, c: &Commit) -> (r: Result<ObjectId, Error>)
        requires
            commit_header(c@).len() <= u32::MAX,
        ensures
            kept(*old(self), *final(self)),
            published(old(self).blobs, final(self).blobs, commit_bytes(c@), r),
            final(self).cached_objects() == old(self).cached_objects(),
            final(self).cached_trees() == old(self).cached_trees(),
            final(self).lookups() == old(self).lookups(),
            final(self).walk_ceiling() == old(self).walk_ceiling(),
    {
        let bytes = c.encode();
        self.put_raw(bytes.as_slice())
    }

    pub fn get_commit(&mut self, id: ObjectId) -> (r: Result<Commit, Error>)
        ensures
            final(self).blobs == old(self).blobs,
            kept(*old(self), *final(self)),
            r matches Ok(c) ==> commit_valid(c@) && blake3_digest(commit_bytes(c@)) == id@,
            old(self).coherent() ==> (r matches Ok(c) ==> readable(old(self).blobs.objects(), id)
                && old(self).blobs.objects()[id] == commit_bytes(c@)),
            old(self).coherent() && old(self).blobs.steady() && readable(
                old(self).blobs.objects(),
                id,
            ) && (exists|c: CommitValue|
                commit_valid(c) && #[trigger] commit_bytes(c) == old(self).blobs.objects()[id]) ==> r is Ok,
            old(self).coherent() ==> (r matches Err(e) ==> read_refused(
                old(self).blobs.objects(),
                old(self).blobs.steady(),
                id,
                e,
            )),
            exists|raw: Result<Vec<u8>, Error>| #[trigger]
                raw_read(*old(self), *final(self), id, raw) && (raw matches Err(e) ==> r == Err::<
                    Commit,
                    Error,
                >(e)) && (raw matches Ok(b) ==> (r matches Err(e) ==> told(e, commit_fault(b@)))),
            final(self).cached_trees() == old(self).cached_trees(),
            final(self).walk_ceiling() == old(self).walk_ceiling(),
    {
        let bytes = self.get_raw(id)?;
        Commit::decode(bytes.as_slice())
    }

    /// Publish a contribution that is within its bounds.
    pub fn put_contribution(&mut self, contribution: &Contribution) -> (r: Result<ObjectId, Error>)
        ensures
            kept(*old(self), *final(self)),
            contribution_valid(contribution@) ==> published(
                old(self).blobs,
                final(self).blobs,
                contribution_bytes(contribution@),
                r,
            ),
            !contribution_valid(contribution@) ==> (r matches Err(e) && told(
                e,
                Fault::Invalid(bounds_fault(contribution@)),
            )) && final(self).blobs == old(self).blobs,
            final(self).cached_objects() == old(self).cached_objects(),
            final(self).cached_trees() == old(self).cached_trees(),
            final(self).lookups() == old(self).lookups(),
            final(self).walk_ceiling() == old(self).walk_ceiling(),
    {
        let bytes = contribution.encode()?;
        self.put_raw(bytes.as_slice())
    }

    pub fn get_contribution(&mut self, id: ObjectId) -> (r: Result<Contribution, Error>)
        ensures
            final(self).blobs == old(self).blobs,
            kept(*old(self), *final(self)),
            r matches Ok(c) ==> contribution_valid(c@) && blake3_digest(contribution_bytes(c@))
                == id@,
            old(self).coherent() ==> (r matches Ok(c) ==> readable(old(self).blobs.objects(), id)
                && old(self).blobs.objects()[id] == contribution_bytes(c@)),
            old(self).coherent() && old(self).blobs.steady() && readable(
                old(self).blobs.objects(),
                id,
            ) && (exists|c: ContributionValue|
                contribution_valid(c) && #[trigger] contribution_bytes(c) == old(self).blobs.objects()[id]) ==> r is Ok,
            old(self).coherent() ==> (r matches Err(e) ==> read_refused(
                old(self).blobs.objects(),
                old(self).blobs.steady(),
                id,
                e,
            )),
            exists|raw: Result<Vec<u8>, Error>| #[trigger]
                raw_read(*old(self), *final(self), id, raw) && (raw matches Err(e) ==> r == Err::<
                    Contribution,
                    Error,
                >(e)) && (raw matches Ok(b) ==> (r matches Err(e) ==> told(e, contribution_fault(b@)))),
            final(self).cached_trees() == old(self).cached_trees(),
            final(self).walk_ceiling() == old(self).walk_ceiling(),
    {
        let bytes = self.get_raw(id)?;
        Contribution::decode(bytes.as_slice())
    }

    /// Publish a conflict. One with more items than can be read back is
    /// refused as a request, not reported as damage.
    pub fn put_conflict(&mut self, c: &Conflict) -> (r: Result<ObjectId, Error>)
        requires
            conflict_header(full_form(c@)).len() <= u32::MAX,
        ensures
            kept(*old(self), *final(self)),
            conflict_bounded(c@) ==> published(
                old(self).blobs,
                final(self).blobs,
                conflict_bytes(c@),
                r,
            ),
            !conflict_bounded(c@) ==> (r matches Err(e) && told(
                e,
                Fault::Invalid("conflict fanout exceeds limit"@),
            )) && final(self).blobs == old(self).blobs,
            final(self).cached_objects() == old(self).cached_objects(),
            final(self).cached_trees() == old(self).cached_trees(),
            final(self).lookups() == old(self).lookups(),
            final(self).walk_ceiling() == old(self).walk_ceiling(),
    {
        c.validate()?;
        let bytes = c.encode();
        self.put_raw(bytes.as_slice())
    }

    pub fn get_conflict(&mut self, id: ObjectId) -> (r: Result<Conflict, Error>)
        ensures
            final(self).blobs == old(self).blobs,
            kept(*old(self), *final(self)),
            r matches Ok(c) ==> exists|f: ConflictForm| #[trigger]
                form_valid(f) && form_value(f) == c@ && blake3_digest(conflict_form_bytes(f))
                    == id@ && (old(self).coherent() ==> readable(old(self).blobs.objects(), id)
                    && old(self).blobs.objects()[id] == conflict_form_bytes(f)),
            old(self).coherent() && old(self).blobs.steady() && readable(
                old(self).blobs.objects(),
                id,
            ) && (exists|f: ConflictForm|
                form_valid(f) && #[trigger] conflict_form_bytes(f) == old(self).blobs.objects()[id]) ==> r is Ok,
            old(self).coherent() ==> (r matches Err(e) ==> read_refused(
                old(self).blobs.objects(),
                old(self).blobs.steady(),
                id,
                e,
            )),
            exists|raw: Result<Vec<u8>, Error>| #[trigger]
                raw_read(*old(self), *final(self), id, raw) && (raw matches Err(e) ==> r == Err::<
                    Conflict,
                    Error,
                >(e)) && (raw matches Ok(b) ==> (r matches Err(e) ==> told(e, conflict_fault(b@)))),
            final(self).cached_trees() == old(self).cached_trees(),
            final(self).walk_ceiling() == old(self).walk_ceiling(),
    {
        let bytes = self.get_raw(id)?;
        Conflict::decode(bytes.as_slice())
    }

    /// Publish a snapshot. Its header has to fit in 32 bits of length.
    pub fn put_snapshot(&mut self, s: &Snapshot) -> (r: Result<ObjectId, Error>)
        requires
            snapshot_header(s@).len() <= u32::MAX,
        ensures
            kept(*old(self), *final(self)),
            published(old(self).blobs, final(self).blobs, snapshot_bytes(s@), r),
            final(self).cached_objects() == old(self).cached_objects(),
            final(self).cached_trees() == old(self).cached_trees(),
            final(self).lookups() == old(self).lookups(),
            final(self).walk_ceiling() == old(self).walk_ceiling(),
    {
        let bytes = s.encode();
        self.put_raw(bytes.as_slice())
    }

    pub fn get_snapshot(&mut self, id: ObjectId) -> (r: Result<Snapshot, Error>)
        ensures
            final(self).blobs == old(self).blobs,
            kept(*old(self), *final(self)),
            r matches Ok(s) ==> snapshot_valid(s@) && blake3_digest(snapshot_bytes(s@)) == id@,
            old(self).coherent() ==> (r matches Ok(s) ==> readable(old(self).blobs.objects(), id)
                && old(self).blobs.objects()[id] == snapshot_bytes(s@)),
            old(self).coherent() && old(self).blobs.steady() && readable(
                old(self).blobs.objects(),
                id,
            ) && (exists|s: SnapshotValue|
                snapshot_valid(s) && #[trigger] snapshot_bytes(s) == old(self).blobs.objects()[id]) ==> r is Ok,
            old(self).coherent() ==> (r matches Err(e) ==> read_refused(
                old(self).blobs.objects(),
                old(self).blobs.steady(),
                id,
                e,
            )),
            exists|raw: Result<Vec<u8>, Error>| #[trigger]
                raw_read(*old(self), *final(self), id, raw) && (raw matches Err(e) ==> r == Err::<
                    Snapshot,
                    Error,
                >(e)) && (raw matches Ok(b) ==> (r matches Err(e) ==> told(e, snapshot_fault(b@)))),
            final(self).cached_trees() == old(self).cached_trees(),
            final(self).walk_ceiling() == old(self).walk_ceiling(),
    {
        let bytes = self.get_raw(id)?;
        Snapshot::decode(bytes.as_slice())
    }

    /// The type that an object opens with.
    pub fn object_type(&mut self, id: ObjectId) -> (r: Result<ObjectType, Error>)
        ensures
            final(self).blobs == old(self).blobs,
            kept(*old(self), *final(self)),
            old(self).coherent() ==> (r matches Ok(ty) ==> readable(old(self).blobs.objects(), id)
                && old(self).blobs.objects()[id].len() > 0 && old(self).blobs.objects()[id][0]
                == ty.tag()),
            old(self).coherent() && old(self).blobs.steady() && readable(
                old(self).blobs.objects(),
                id,
            ) ==> match r {
                Ok(_) => true,
                Err(e) => told(e, type_fault(old(self).blobs.objects()[id])) && (
                old(self).blobs.objects()[id].len() == 0 || !(1 <= old(self).blobs.objects()[id][0]
                    <= 6)),
            },
            old(self).coherent() ==> (r matches Err(e) ==> read_refused(
                old(self).blobs.objects(),
                old(self).blobs.steady(),
                id,
                e,
            )),
            exists|raw: Result<Vec<u8>, Error>| #[trigger]
                raw_read(*old(self), *final(self), id, raw) && (raw matches Err(e) ==> r == Err::<
                    ObjectType,
                    Error,
                >(e)) && (raw matches Ok(b) ==> (r matches Err(e) ==> told(e, type_fault(b@)))),
            final(self).cached_trees() == old(self).cached_trees(),
            final(self).walk_ceiling() == old(self).walk_ceiling(),
    {
        let b = self.get_raw(id)?;
        decode_object_type(b.as_slice())
    }

    /// Publish the tree without entries.
    pub fn empty_tree_id(&mut self) -> (r: Result<ObjectId, Error>)
        ensures
            tree_kept(*old(self), *final(self), Seq::<Entry>::empty(), r),
            published(
                old(self).blobs,
                final(self).blobs,
                tree_bytes(Seq::<Entry>::empty()),
                r,
            ),
            tree_cached(*old(self), *final(self), tree_bytes(Seq::<Entry>::empty()), r),
            final(self).cached_objects() == old(self).cached_objects(),
            final(self).lookups() == old(self).lookups(),
            final(self).walk_ceiling() == old(self).walk_ceiling(),
    {
        let tree = Tree { entries: Vec::new() };
        assert(tree@ =~= Seq::<Entry>::empty());
        self.put_tree(&tree)
    }

    /// Read and check everything that can be reached from the root.
    pub fn reachable_graph_verified(&self, root: ObjectId, expected: ObjectType) -> (r: Result<
        Vec<VerifiedGraphObject>,
        Error,
    >)
        ensures
            match r {
                Ok(v) => graph_ok(self.blobs.objects(), root, expected) && lists_reachable(
                    v@,
                    self.blobs.objects(),
                    root,
                ) && walk_complete(v@, self.blobs.objects(), root, expected) && v@.len()
                    <= self.walk_ceiling(),
                Err(e) => self.blobs.steady() && graph_ok(self.blobs.objects(), root, expected)
                    ==> beyond(self.blobs.objects(), root, self.walk_ceiling() as nat) && (
                e matches Error::Invalid(msg) && msg@ == over_ceiling(
                    self.walk_ceiling() as nat,
                )),
            },
            r matches Err(e) ==> walk_refused(
                self.blobs.objects(),
                self.blobs.steady(),
                root,
                expected,
                self.walk_ceiling() as nat,
                e,
            ),
    {
        walk_graph(&self.blobs, root, expected, self.walk_limit)
    }

    /// The ids of everything that can be reached from a tree.
    pub fn reachable_oids(&self, tree: ObjectId) -> (r: Result<Vec<ObjectId>, Error>)
        ensures
            reaches(self.blobs, tree, self.walk_ceiling(), r),
    {
        self.reachable_oids_verified(tree)
    }

    /// The ids of everything that can be reached from a tree, in their order.
    /// Nothing is listed where anything reachable fails its checks.
    pub fn reachable_oids_verified(&self, tree: ObjectId) -> (r: Result<Vec<ObjectId>, Error>)
        ensures
            reaches(self.blobs, tree, self.walk_ceiling(), r),
    {
        let objects = self.reachable_graph_verified(tree, ObjectType::Tree)?;
        let mut ids: Vec<ObjectId> = Vec::new();
        let mut i: usize = 0;
        while i < objects.len()
            invariant
                i <= objects@.len(),
                ids@.len() == i,
                forall|k: int| 0 <= k < i ==> #[trigger] ids@[k] == objects@[k].id,
            decreases objects@.len() - i,
        {
            ids.push(objects[i].id);
            i += 1;
        }
        proof {
            assert(ids@ =~= ids_of(objects@));
            assert forall|x: ObjectId| #[trigger] ids@.contains(x) <==> on_list(
                objects@,
                x,
                None,
            ) by {
                if on_list(objects@, x, None) {
                    let k = choose|k: int| 0 <= k < objects@.len() && (#[trigger] objects@[k]).id == x;
                    assert(ids@[k] == x);
                }
                if ids@.contains(x) {
                    let k = choose|k: int| 0 <= k < ids@.len() && ids@[k] == x;
                    assert(objects@[k].id == x);
                }
            }
        }
        Ok(ids)
    }
}

/// The ids of some objects.
pub open spec fn ids_of(v: Seq<VerifiedGraphObject>) -> Seq<ObjectId> {
    Seq::new(v.len(), |i: int| v[i].id)
}

/// What a listing of the reachable ids returns.
pub open spec fn reaches<O: ObjectPlane>(
    plane: O,
    tree: ObjectId,
    limit: usize,
    r: Result<Vec<ObjectId>, Error>,
) -> bool {
    match r {
        Ok(ids) => exists|v: Seq<VerifiedGraphObject>|
            graph_ok(plane.objects(), tree, ObjectType::Tree) && #[trigger] lists_reachable(
                v,
                plane.objects(),
                tree,
            ) && walk_complete(v, plane.objects(), tree, ObjectType::Tree) && ids@ == ids_of(v) && (
            forall|x: ObjectId| #[trigger] ids@.contains(x) <==> on_list(v, x, None)) && v.len()
                <= limit,
        Err(e) => {
            &&& plane.steady() && graph_ok(plane.objects(), tree, ObjectType::Tree) ==> beyond(
                plane.objects(),
                tree,
                limit as nat,
            ) && (e matches Error::Invalid(msg) && msg@ == over_ceiling(limit as nat))
            &&& walk_refused(
                plane.objects(),
                plane.steady(),
                tree,
                ObjectType::Tree,
                limit as nat,
                e,
            )
        },
    }
}

/// What a read of a stored object returns.
pub open spec fn stored_read<O: ObjectPlane>(
    plane: O,
    id: ObjectId,
    r: Result<Vec<u8>, Error>,
) -> bool {
    &&& r matches Ok(b) ==> readable(plane.objects(), id) && b@ == plane.objects()[id]
    &&& !plane.objects().dom().contains(id) ==> (r matches Err(Error::NotFound(_)))
    &&& plane.objects().dom().contains(id) && !readable(plane.objects(), id) ==> (r matches Err(
        Error::Corrupt(_),
    ))
    &&& plane.steady() && readable(plane.objects(), id) ==> r is Ok
}

/// What a read through the cache of raw objects does to the cache and the counts.
pub open spec fn raw_step<O: ObjectPlane>(
    plane: O,
    es: Seq<(Seq<u8>, Seq<u8>)>,
    n: StoreCacheStats,
    es_after: Seq<(Seq<u8>, Seq<u8>)>,
    n_after: StoreCacheStats,
    id: ObjectId,
    r: Result<Vec<u8>, Error>,
) -> bool {
    if holds(es, id@) {
        &&& r matches Ok(b) && b@ == es[spot(es, id@)].1
        &&& es_after == used(es, id@)
        &&& n_after == (StoreCacheStats {
            object_cache_hits: n.object_cache_hits.wrapping_add(1),
            ..n
        })
    } else {
        &&& stored_read(plane, id, r)
        &&& es_after == (match r {
            Ok(b) => cached_after(es, id, b@),
            Err(_) => es,
        })
        &&& n_after == (StoreCacheStats {
            object_cache_misses: n.object_cache_misses.wrapping_add(1),
            ..n
        })
    }
}

/// What a read through the cache does.
pub open spec fn raw_read<O: ObjectStore>(
    before: Store<O>,
    after: Store<O>,
    id: ObjectId,
    r: Result<Vec<u8>, Error>,
) -> bool {
    &&& r matches Ok(b) ==> blake3_digest(b@) == id@
    &&& before.coherent() ==> (r matches Ok(b) ==> readable(before.blobs.objects(), id) && b@
        == before.blobs.objects()[id])
    &&& raw_step(
        before.blobs,
        before.cached_objects(),
        before.lookups(),
        after.cached_objects(),
        after.lookups(),
        id,
        r,
    )
}

/// The raw read that a tree which is not cached takes, with the miss counted first.
pub open spec fn raw_missed<O: ObjectStore>(
    before: Store<O>,
    after: Store<O>,
    id: ObjectId,
    raw: Result<Vec<u8>, Error>,
) -> bool {
    raw_step(
        before.blobs,
        before.cached_objects(),
        StoreCacheStats {
            tree_cache_misses: before.lookups().tree_cache_misses.wrapping_add(1),
            ..before.lookups()
        },
        after.cached_objects(),
        after.lookups(),
        id,
        raw,
    )
}

/// What a read of a tree returns and does to the caches: a cached tree is returned as it
/// was cached, any other is read, checked and cached.
pub open spec fn tree_read<O: ObjectStore>(
    before: Store<O>,
    after: Store<O>,
    id: ObjectId,
    r: Result<Tree, Error>,
) -> bool {
    let es = before.cached_trees();
    if holds(es, id@) {
        &&& r matches Ok(t) && tree_encodable(t@) && tree_bytes(t@) == es[spot(es, id@)].1
        &&& after.cached_trees() == used(es, id@)
        &&& after.cached_objects() == before.cached_objects()
        &&& after.lookups() == (StoreCacheStats {
            tree_cache_hits: before.lookups().tree_cache_hits.wrapping_add(1),
            ..before.lookups()
        })
    } else {
        exists|raw: Result<Vec<u8>, Error>| #[trigger]
            raw_missed(before, after, id, raw) && match raw {
                Err(e) => r == Err::<Tree, Error>(e) && after.cached_trees() == es,
                Ok(b) => match r {
                    Ok(t) => canonical(t@) && t@.len() <= MAX_TREE_ENTRIES && tree_bytes(t@) == b@
                        && after.cached_trees() == pushed(
                        es,
                        TREE_CACHE_MAX_ENTRIES as nat,
                        id@,
                        b@,
                    ),
                    Err(e) => !is_tree(b@) && after.cached_trees() == es && told(
                        e,
                        tree_fault(b@),
                    ),
                },
            }
    }
}

/// Why a read of a tree fails.
pub open spec fn tree_refused(
    objects: Map<ObjectId, Seq<u8>>,
    steady: bool,
    id: ObjectId,
    e: Error,
) -> bool {
    &&& !objects.dom().contains(id) ==> e is NotFound
    &&& objects.dom().contains(id) && !readable(objects, id) ==> e is Corrupt
    &&& steady && readable(objects, id) ==> !is_tree(objects[id]) && told(
        e,
        tree_fault(objects[id]),
    )
}

/// What the tree cache holds once a tree has been put.
pub open spec fn tree_cached<O: ObjectStore>(
    before: Store<O>,
    after: Store<O>,
    b: Seq<u8>,
    r: Result<ObjectId, Error>,
) -> bool {
    let es = before.cached_trees();
    after.cached_trees() == match r {
        Ok(id) => pushed(es, TREE_CACHE_MAX_ENTRIES as nat, id@, b),
        Err(_) => es,
    }
}

/// What every call but a put of a tree keeps.
pub open spec fn kept<O: ObjectStore>(before: Store<O>, after: Store<O>) -> bool {
    &&& after.collided@ == before.collided@
    &&& before.coherent() ==> after.coherent()
    &&& before.coherent() && before.in_step() ==> after.in_step()
    &&& before.orderly() ==> after.orderly()
}

/// Other bytes than those of a tree are stored under its id: the digest collides.
pub open spec fn collides(objects: Map<ObjectId, Seq<u8>>, es: Seq<Entry>) -> bool {
    objects.dom().contains(tree_id(es)) && objects[tree_id(es)] != tree_bytes(es)
}

/// What a put of a tree keeps. Where the digest collides, that is remembered; entries out
/// of order stay cached as they were put.
pub open spec fn tree_kept<O: ObjectStore>(
    before: Store<O>,
    after: Store<O>,
    es: Seq<Entry>,
    r: Result<ObjectId, Error>,
) -> bool {
    &&& after.collided@ == (before.collided@ || (r is Ok && collides(before.blobs.objects(), es)))
    &&& before.coherent() ==> after.coherent()
    &&& before.coherent() && before.in_step() ==> after.in_step()
    &&& before.orderly() && (r is Err || names_increasing(es)) ==> after.orderly()
}

/// Every cached tree reads back.
pub open spec fn all_read_back(es: Seq<(Seq<u8>, Seq<u8>)>) -> bool {
    forall|i: int| 0 <= i < es.len() ==> is_tree((#[trigger] es[i]).1)
}

proof fn lemma_orderly_remove(es: Seq<(Seq<u8>, Seq<u8>)>, k: int)
    requires
        0 <= k < es.len(),
        all_read_back(es),
    ensures
        all_read_back(es.remove(k)),
{
    let r = es.remove(k);
    assert forall|i: int| 0 <= i < r.len() implies is_tree((#[trigger] r[i]).1) by {
        if i < k {
            assert(r[i] == es[i]);
        } else {
            assert(r[i] == es[i + 1]);
        }
    }
}

proof fn lemma_orderly_used(es: Seq<(Seq<u8>, Seq<u8>)>, key: Seq<u8>)
    requires
        all_read_back(es),
    ensures
        all_read_back(used(es, key)),
        all_read_back(without(es, key)),
{
    if holds(es, key) {
        lemma_orderly_remove(es, spot(es, key));
    }
}

proof fn lemma_orderly_pushed(
    es: Seq<(Seq<u8>, Seq<u8>)>,
    cap: nat,
    key: Seq<u8>,
    v: Seq<u8>,
)
    requires
        all_read_back(es),
        is_tree(v),
        cap > 0,
    ensures
        all_read_back(pushed(es, cap, key, v)),
{
    if holds(es, key) {
        lemma_orderly_remove(es, spot(es, key));
    } else if es.len() == cap {
        lemma_orderly_remove(es, 0);
    }
}

/// What a publication of some bytes does to an object plane.
pub open spec fn published<O: ObjectPlane>(
    before: O,
    after: O,
    b: Seq<u8>,
    r: Result<ObjectId, Error>,
) -> bool {
    &&& keeps(before.objects(), after.objects())
    &&& before.proven().subset_of(after.proven())
    &&& after.refuses() == before.refuses()
    &&& after.steady() == before.steady()
    &&& before.refuses() ==> (r matches Err(Error::Denied(_))) && after.objects()
        == before.objects()
    &&& adds_only(before.objects(), after.objects(), b)
    &&& before.steady() && !before.refuses() && undamaged(before.objects(), b) ==> r is Ok
    &&& !before.refuses() && !undamaged(before.objects(), b) ==> (r matches Err(Error::Corrupt(_)))
    &&& r matches Ok(id) ==> id@ == blake3_digest(b) && readable(after.objects(), id) && (
    !before.objects().dom().contains(id) ==> after.objects()[id] == b) && after.proven().contains(
        id,
    )
}

/// Whatever may be published can be, and whatever is stored can be read.
pub open spec fn sound<O: ObjectPlane>(plane: O) -> bool {
    &&& plane.steady()
    &&& !plane.refuses()
    &&& forall|id: ObjectId| #[trigger]
        plane.objects().dom().contains(id) ==> readable(plane.objects(), id)
}

/// What was written can be read, unless other bytes were stored under its id
/// before.
pub proof fn lemma_published_readable<O: ObjectPlane>(
    before: O,
    after: O,
    b: Seq<u8>,
    id: ObjectId,
)
    requires
        published(before, after, b, Ok(id)),
    ensures
        readable(after.objects(), id),
        before.objects().dom().contains(id) ==> after.objects()[id] == before.objects()[id],
        !before.objects().dom().contains(id) ==> after.objects()[id] == b,
{
}

/// A blob that was put is the one that is read back, unless other bytes were
/// stored under its id before.
pub proof fn lemma_blob_reads_back<O: ObjectPlane>(
    before: O,
    after: O,
    v: Seq<u8>,
    id: ObjectId,
)
    requires
        published(before, after, blob_bytes(v), Ok(id)),
        before.objects().dom().contains(id) ==> before.objects()[id] == blob_bytes(v),
    ensures
        readable(after.objects(), id),
        after.objects()[id] == blob_bytes(v),
        forall|got: Seq<u8>|
            #[trigger] blob_bytes(got) == after.objects()[id] ==> got == v,
{
    lemma_published_readable(before, after, blob_bytes(v), id);
    assert forall|got: Seq<u8>|
        #[trigger] blob_bytes(got) == after.objects()[id] implies got == v by {
        lemma_blob_unique(got, v);
    }
}

/// A tree that was put is the one that is read back, unless other bytes were
/// stored under its id before.
pub proof fn lemma_tree_reads_back<O: ObjectPlane>(
    before: O,
    after: O,
    v: Seq<Entry>,
    id: ObjectId,
)
    requires
        tree_encodable(v),
        published(before, after, tree_bytes(v), Ok(id)),
        before.objects().dom().contains(id) ==> before.objects()[id] == tree_bytes(v),
    ensures
        readable(after.objects(), id),
        after.objects()[id] == tree_bytes(v),
        forall|got: Seq<Entry>|
            tree_encodable(got) && #[trigger] tree_bytes(got) == after.objects()[id] ==> got == v,
{
    lemma_published_readable(before, after, tree_bytes(v), id);
    assert forall|got: Seq<Entry>|
        tree_encodable(got) && #[trigger] tree_bytes(got) == after.objects()[id] implies got == v by {
        lemma_tree_unique(got, v);
    }
}

/// A commit that was put is the one that is read back, unless other bytes were
/// stored under its id before.
pub proof fn lemma_commit_reads_back<O: ObjectPlane>(
    before: O,
    after: O,
    v: CommitValue,
    id: ObjectId,
)
    requires
        commit_valid(v),
        published(before, after, commit_bytes(v), Ok(id)),
        before.objects().dom().contains(id) ==> before.objects()[id] == commit_bytes(v),
    ensures
        readable(after.objects(), id),
        after.objects()[id] == commit_bytes(v),
        forall|got: CommitValue|
            commit_valid(got) && #[trigger] commit_bytes(got) == after.objects()[id] ==> got == v,
{
    lemma_published_readable(before, after, commit_bytes(v), id);
    assert forall|got: CommitValue|
        commit_valid(got) && #[trigger] commit_bytes(got) == after.objects()[id] implies got == v by {
        lemma_commit_unique(got, v);
    }
}

/// A contribution that was put is the one that is read back, unless other bytes were
/// stored under its id before.
pub proof fn lemma_contribution_reads_back<O: ObjectPlane>(
    before: O,
    after: O,
    v: ContributionValue,
    id: ObjectId,
)
    requires
        contribution_valid(v),
        published(before, after, contribution_bytes(v), Ok(id)),
        before.objects().dom().contains(id) ==> before.objects()[id] == contribution_bytes(v),
    ensures
        readable(after.objects(), id),
        after.objects()[id] == contribution_bytes(v),
        forall|got: ContributionValue|
            contribution_valid(got) && #[trigger] contribution_bytes(got) == after.objects()[id] ==> got == v,
{
    lemma_published_readable(before, after, contribution_bytes(v), id);
    assert forall|got: ContributionValue|
        contribution_valid(got) && #[trigger] contribution_bytes(got) == after.objects()[id] implies got == v by {
        lemma_contribution_len(got);
        lemma_contribution_len(v);
        lemma_contribution_unique(got, v);
    }
}

/// A snapshot that was put is the one that is read back, unless other bytes were
/// stored under its id before.
pub proof fn lemma_snapshot_reads_back<O: ObjectPlane>(
    before: O,
    after: O,
    v: SnapshotValue,
    id: ObjectId,
)
    requires
        snapshot_valid(v),
        published(before, after, snapshot_bytes(v), Ok(id)),
        before.objects().dom().contains(id) ==> before.objects()[id] == snapshot_bytes(v),
    ensures
        readable(after.objects(), id),
        after.objects()[id] == snapshot_bytes(v),
        forall|got: SnapshotValue|
            snapshot_valid(got) && #[trigger] snapshot_bytes(got) == after.objects()[id] ==> got == v,
{
    lemma_published_readable(before, after, snapshot_bytes(v), id);
    assert forall|got: SnapshotValue|
        snapshot_valid(got) && #[trigger] snapshot_bytes(got) == after.objects()[id] implies got == v by {
        lemma_snapshot_unique(got, v);
    }
}

/// A conflict that was put is the one that is read back, unless other bytes were
/// stored under its id before.
pub proof fn lemma_conflict_reads_back<O: ObjectPlane>(
    before: O,
    after: O,
    v: ConflictForm,
    id: ObjectId,
)
    requires
        form_valid(v),
        published(before, after, conflict_form_bytes(v), Ok(id)),
        before.objects().dom().contains(id) ==> before.objects()[id] == conflict_form_bytes(v),
    ensures
        readable(after.objects(), id),
        after.objects()[id] == conflict_form_bytes(v),
        forall|got: ConflictForm|
            form_valid(got) && #[trigger] conflict_form_bytes(got) == after.objects()[id] ==> got == v,
{
    lemma_published_readable(before, after, conflict_form_bytes(v), id);
    assert forall|got: ConflictForm|
        form_valid(got) && #[trigger] conflict_form_bytes(got) == after.objects()[id] implies got == v by {
        lemma_conflict_unique(got, v);
    }
}

/// What the trees of a store keep when objects are added.
proof fn lemma_trees_keep(a: Map<ObjectId, Seq<u8>>, b: Map<ObjectId, Seq<u8>>)
    requires
        keeps(a, b),
    ensures
        extends(trees_of(a), trees_of(b)),
{
    assert forall|id: ObjectId| #[trigger] trees_of(a).dom().contains(id) implies trees_of(
        b,
    ).dom().contains(id) && trees_of(b)[id] == trees_of(a)[id] by {
        assert(a.dom().contains(id));
    }
}

/// What a publication of a tree adds to the trees of a store.
proof fn lemma_tree_published(
    a: Map<ObjectId, Seq<u8>>,
    b: Map<ObjectId, Seq<u8>>,
    t: Seq<Entry>,
)
    requires
        keeps(a, b),
        adds_only(a, b, tree_bytes(t)),
        t.len() <= MAX_TREE_ENTRIES,
    ensures
        extends(trees_of(a), trees_of(b)),
        forall|id: ObjectId| #[trigger]
            b.dom().contains(id) ==> a.dom().contains(id) || id == tree_id(t),
        forall|id: ObjectId| #[trigger]
            a.dom().contains(id) ==> (trees_of(b).dom().contains(id) ==> trees_of(
                a,
            ).dom().contains(id)),
        canonical(t) && b.dom().contains(tree_id(t)) && !a.dom().contains(tree_id(t))
            ==> trees_of(b).dom().contains(tree_id(t)) && trees_of(b)[tree_id(t)] == t,
        canonical(t) && readable(b, tree_id(t)) && !collides(a, t) ==> has_tree(trees_of(b), t),
{
    lemma_trees_keep(a, b);
    if canonical(t) {
        lemma_the_tree(t);
        if readable(b, tree_id(t)) && !collides(a, t) {
            assert(b[tree_id(t)] == tree_bytes(t));
        }
    }
}

impl<O: ObjectStore> TreeStore for Store<O> {
    open spec fn trees(&self) -> Map<ObjectId, Seq<Entry>> {
        trees_of(self.blobs.objects())
    }

    open spec fn sane(&self) -> bool {
        self.settled()
    }

    open spec fn confused(&self) -> bool {
        self.collided@
    }

    open spec fn holds(&self, id: ObjectId) -> bool {
        self.blobs.objects().dom().contains(id)
    }

    open spec fn steady(&self) -> bool {
        sound(self.blobs)
    }

    open spec fn refusal(&self, id: ObjectId, e: Error) -> bool {
        tree_refused(self.blobs.objects(), self.blobs.steady(), id, e)
    }

    fn get_tree(&mut self, id: ObjectId) -> (r: Result<Tree, Error>) {
        let r = Store::<O>::get_tree(self, id);
        proof {
            if r is Ok {
                lemma_the_tree(r->Ok_0@);
            }
        }
        r
    }

    fn put_tree(&mut self, tree: &Tree) -> (r: Result<ObjectId, Error>) {
        let r = Store::<O>::put_tree(self, tree);
        proof {
            if tree_encodable(tree@) {
                lemma_tree_published(old(self).blobs.objects(), self.blobs.objects(), tree@);
            }
            if let Ok(id) = r {
                lemma_tree_id(tree@, id);
            }
        }
        r
    }
}

/// A publication on a store, which it holds until it ends.
pub struct StorePublishBatch<O: ObjectStore> {
    pub store: Store<O>,
    pub objects: O::Batch,
}

impl<O: ObjectStore> Store<O> {
    /// Begin a publication.
    pub fn begin_publish_batch(self) -> (b: StorePublishBatch<O>)
        ensures
            b.store == self,
            b.objects.owed() == Set::<ObjectId>::empty(),
    {
        let objects = self.blobs.begin_batch();
        StorePublishBatch { store: self, objects }
    }
}

/// What a publication of some bytes in a batch does.
pub open spec fn batched<O: ObjectStore>(
    before: StorePublishBatch<O>,
    after: StorePublishBatch<O>,
    b: Seq<u8>,
    r: Result<ObjectId, Error>,
) -> bool {
    let old_objects = before.store.blobs.objects();
    let new_objects = after.store.blobs.objects();
    &&& keeps(old_objects, new_objects)
    &&& after.store.blobs.proven() == before.store.blobs.proven()
    &&& before.objects.owed().subset_of(after.objects.owed())
    &&& after.store.blobs.refuses() == before.store.blobs.refuses()
    &&& after.store.blobs.steady() == before.store.blobs.steady()
    &&& before.store.blobs.refuses() ==> (r matches Err(Error::Denied(_))) && new_objects
        == old_objects
    &&& adds_only(old_objects, new_objects, b)
    &&& before.store.blobs.steady() && !before.store.blobs.refuses() && undamaged(old_objects, b)
        ==> r is Ok
    &&& !before.store.blobs.refuses() && !undamaged(old_objects, b) ==> (r matches Err(
        Error::Corrupt(_),
    ))
    &&& r matches Ok(id) ==> id@ == blake3_digest(b) && readable(new_objects, id) && (
    !old_objects.dom().contains(id) ==> new_objects[id] == b) && (
    after.store.blobs.proven().contains(id) || after.objects.owed().contains(id))
}

impl<O: ObjectStore> StorePublishBatch<O> {
    fn put_bytes(&mut self, bytes: &[u8]) -> (r: Result<ObjectId, Error>)
        ensures
            batched(*old(self), *final(self), bytes@, r),
            final(self).store.cached_objects() == old(self).store.cached_objects(),
            final(self).store.cached_trees() == old(self).store.cached_trees(),
            final(self).store.lookups() == old(self).store.lookups(),
            final(self).store.walk_ceiling() == old(self).store.walk_ceiling(),
            kept(old(self).store, final(self).store),
    {
        let r = self.objects.put(&mut self.store.blobs, bytes);
        proof {
            if old(self).store.coherent() {
                lemma_agree_keeps(
                    self.store.cached_objects(),
                    old(self).store.blobs.objects(),
                    self.store.blobs.objects(),
                );
            }
            if agree(self.store.cached_trees(), old(self).store.blobs.objects()) {
                lemma_agree_keeps(
                    self.store.cached_trees(),
                    old(self).store.blobs.objects(),
                    self.store.blobs.objects(),
                );
            }
        }
        r
    }

    pub fn put_commit(&mut self, commit: &Commit) -> (r: Result<ObjectId, Error>)
        requires
            commit_header(commit@).len() <= u32::MAX,
        ensures
            batched(*old(self), *final(self), commit_bytes(commit@), r),
            kept(old(self).store, final(self).store),
    {
        let bytes = commit.encode();
        self.put_bytes(bytes.as_slice())
    }

    pub fn put_contribution(&mut self, contribution: &Contribution) -> (r: Result<ObjectId, Error>)
        ensures
            contribution_valid(contribution@) ==> batched(
                *old(self),
                *final(self),
                contribution_bytes(contribution@),
                r,
            ),
            !contribution_valid(contribution@) ==> (r matches Err(e) && told(
                e,
                Fault::Invalid(bounds_fault(contribution@)),
            )) && *final(self) == *old(self),
            kept(old(self).store, final(self).store),
    {
        let bytes = contribution.encode()?;
        self.put_bytes(bytes.as_slice())
    }

    /// End the publication: on success every object of it is proved.
    pub fn finish(self) -> (r: (Store<O>, Result<(), Error>))
        ensures
            r.0.blobs.objects() == self.store.blobs.objects(),
            r.0.cached_objects() == self.store.cached_objects(),
            r.0.cached_trees() == self.store.cached_trees(),
            self.store.blobs.proven().subset_of(r.0.blobs.proven()),
            r.1 is Ok ==> self.objects.owed().subset_of(r.0.blobs.proven()),
            self.store.blobs.steady() ==> r.1 is Ok,
            r.0.blobs.refuses() == self.store.blobs.refuses(),
            r.0.blobs.steady() == self.store.blobs.steady(),
            kept(self.store, r.0),
    {
        let mut store = self.store;
        let done = self.objects.finish(&mut store.blobs);
        (store, done)
    }

    /// Give up the publication: nothing is proved.
    pub fn abandon(self) -> (r: Store<O>)
        ensures
            r == self.store,
    {
        self.store
    }
}

impl<O: ObjectStore> TreeStore for StorePublishBatch<O> {
    open spec fn trees(&self) -> Map<ObjectId, Seq<Entry>> {
        trees_of(self.store.blobs.objects())
    }

    open spec fn sane(&self) -> bool {
        self.store.settled()
    }

    open spec fn confused(&self) -> bool {
        self.store.collided@
    }

    open spec fn holds(&self, id: ObjectId) -> bool {
        self.store.blobs.objects().dom().contains(id)
    }

    open spec fn steady(&self) -> bool {
        sound(self.store.blobs)
    }

    open spec fn refusal(&self, id: ObjectId, e: Error) -> bool {
        tree_refused(self.store.blobs.objects(), self.store.blobs.steady(), id, e)
    }

    fn get_tree(&mut self, id: ObjectId) -> (r: Result<Tree, Error>) {
        let r = Store::<O>::get_tree(&mut self.store, id);
        proof {
            if r is Ok {
                lemma_the_tree(r->Ok_0@);
            }
        }
        r
    }

    fn put_tree(&mut self, tree: &Tree) -> (r: Result<ObjectId, Error>)
        ensures
            if tree_encodable(tree@) {
                batched(*old(self), *final(self), tree_bytes(tree@), r)
            } else {
                &&& *final(self) == *old(self)
                &&& r matches Err(e) && told(e, unencodable(tree@))
            },
            tree_kept(old(self).store, final(self).store, tree@, r),
            tree_cached(old(self).store, final(self).store, tree_bytes(tree@), r),
            final(self).store.cached_objects() == old(self).store.cached_objects(),
            final(self).store.lookups() == old(self).store.lookups(),
    {
        let bytes = match tree.encode() {
            Ok(bytes) => bytes,
            Err(e) => {
                return Err(e);
            },
        };
        let r = self.put_bytes(bytes.as_slice());
        proof {
            lemma_tree_published(
                old(self).store.blobs.objects(),
                self.store.blobs.objects(),
                tree@,
            );
        }
        let id = match r {
            Ok(id) => id,
            Err(e) => {
                return Err(e);
            },
        };
        proof {
            lemma_tree_id(tree@, id);
        }
        self.store.keep_tree(id, bytes, Ghost(tree@), Ghost(old(self).store.blobs.objects()));
        Ok(id)
    }
}

} // verus!
