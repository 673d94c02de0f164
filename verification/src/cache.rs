//! The hot caches of a store: byte strings by their ids, the least recently
//! used dropped first.
use crate::hash::blake3_digest;
use crate::object::{tree_bytes, tree_encodable, MAX_TREE_ENTRIES};
use crate::tree::{canonical, Entry};
use crate::types::ObjectId;
use vstd::prelude::*;

verus! {

/// Most objects that the raw-object cache holds.
pub const OBJECT_CACHE_MAX_ENTRIES: usize = 256;

/// Most trees that the tree cache holds.
pub const TREE_CACHE_MAX_ENTRIES: usize = 4096;

/// Most encoded bytes that the raw-object cache holds, 64 MiB. A single object
/// larger than this is read normally and not cached.
pub const OBJECT_CACHE_MAX_BYTES: usize = 67_108_864;

/// The hasher of a cache, `lru::DefaultHasher`.
#[verifier::external_type_specification]
#[verifier::external_body]
pub struct ExDefaultHasher(lru::DefaultHasher);

/// A cache that drops what was used least recently, `lru::LruCache`.
#[verifier::external_type_specification]
#[verifier::external_body]
#[verifier::reject_recursive_types(K)]
#[verifier::reject_recursive_types(V)]
#[verifier::reject_recursive_types(S)]
pub struct ExLruCache<K, V, S>(lru::LruCache<K, V, S>);

/// What a cache holds: ids with their bytes, from the least to the most
/// recently used.
pub uninterp spec fn held(c: lru::LruCache<[u8; 32], Vec<u8>, lru::DefaultHasher>) -> Seq<
    (Seq<u8>, Seq<u8>),
>;

/// How many ids a cache was made for.
pub uninterp spec fn room(c: lru::LruCache<[u8; 32], Vec<u8>, lru::DefaultHasher>) -> nat;

/// Some bytes are held under an id.
pub open spec fn holds(es: Seq<(Seq<u8>, Seq<u8>)>, key: Seq<u8>) -> bool {
    exists|i: int| 0 <= i < es.len() && (#[trigger] es[i]).0 == key
}

/// Where an id stands.
pub open spec fn spot(es: Seq<(Seq<u8>, Seq<u8>)>, key: Seq<u8>) -> int {
    choose|i: int| 0 <= i < es.len() && (#[trigger] es[i]).0 == key
}

/// All but what is held under an id.
pub open spec fn without(es: Seq<(Seq<u8>, Seq<u8>)>, key: Seq<u8>) -> Seq<(Seq<u8>, Seq<u8>)> {
    if holds(es, key) {
        es.remove(spot(es, key))
    } else {
        es
    }
}

/// What is held once an id has been used.
pub open spec fn used(es: Seq<(Seq<u8>, Seq<u8>)>, key: Seq<u8>) -> Seq<(Seq<u8>, Seq<u8>)> {
    if holds(es, key) {
        es.remove(spot(es, key)).push(es[spot(es, key)])
    } else {
        es
    }
}

/// What is held once bytes have been put under an id: they replace what was
/// there, and where a new id finds no room the least recently used leaves.
pub open spec fn pushed(
    es: Seq<(Seq<u8>, Seq<u8>)>,
    cap: nat,
    key: Seq<u8>,
    value: Seq<u8>,
) -> Seq<(Seq<u8>, Seq<u8>)> {
    if holds(es, key) {
        es.remove(spot(es, key)).push((key, value))
    } else if es.len() == cap {
        es.remove(0).push((key, value))
    } else {
        es.push((key, value))
    }
}

/// What leaves when bytes are put under an id.
pub open spec fn displaced(
    es: Seq<(Seq<u8>, Seq<u8>)>,
    cap: nat,
    key: Seq<u8>,
) -> Option<(Seq<u8>, Seq<u8>)> {
    if holds(es, key) {
        Some(es[spot(es, key)])
    } else if es.len() == cap {
        Some(es[0])
    } else {
        None
    }
}

/// Calls `lru::LruCache::new`: an empty cache for that many ids.
#[verifier::external_body]
fn lru_new(cap: usize) -> (c: lru::LruCache<[u8; 32], Vec<u8>, lru::DefaultHasher>)
    requires
        cap > 0,
    ensures
        held(c) == Seq::<(Seq<u8>, Seq<u8>)>::empty(),
        room(c) == cap,
{
    lru::LruCache::new(core::num::NonZeroUsize::new(cap).unwrap())
}

/// Calls `lru::LruCache::get` and copies the bytes: it returns what is held
/// under the id, if anything is, and makes the id the most recently used.
#[verifier::external_body]
fn lru_get(
    c: &mut lru::LruCache<[u8; 32], Vec<u8>, lru::DefaultHasher>,
    key: &[u8; 32],
) -> (r: Option<Vec<u8>>)
    ensures
        r is Some <==> holds(held(*old(c)), key@),
        r matches Some(v) ==> v@ == held(*old(c))[spot(held(*old(c)), key@)].1,
        held(*final(c)) == used(held(*old(c)), key@),
        room(*final(c)) == room(*old(c)),
{
    c.get(key).cloned()
}

/// Calls `lru::LruCache::push`: the bytes become the most recently used. It
/// returns what left: the bytes that were held under the id, or where a new id
/// found the cache full, what was used least recently.
#[verifier::external_body]
fn lru_push(
    c: &mut lru::LruCache<[u8; 32], Vec<u8>, lru::DefaultHasher>,
    key: [u8; 32],
    value: Vec<u8>,
) -> (r: Option<([u8; 32], Vec<u8>)>)
    requires
        held(*old(c)).len() <= room(*old(c)),
    ensures
        r is Some <==> displaced(held(*old(c)), room(*old(c)), key@) is Some,
        r matches Some(p) ==> displaced(held(*old(c)), room(*old(c)), key@) == Some(
            (p.0@, p.1@),
        ),
        held(*final(c)) == pushed(held(*old(c)), room(*old(c)), key@, value@),
        room(*final(c)) == room(*old(c)),
{
    c.push(key, value)
}

/// Calls `lru::LruCache::pop`: it removes and returns what is held under the
/// id, if anything is.
#[verifier::external_body]
fn lru_pop(
    c: &mut lru::LruCache<[u8; 32], Vec<u8>, lru::DefaultHasher>,
    key: &[u8; 32],
) -> (r: Option<Vec<u8>>)
    ensures
        r is Some <==> holds(held(*old(c)), key@),
        r matches Some(v) ==> v@ == held(*old(c))[spot(held(*old(c)), key@)].1,
        held(*final(c)) == without(held(*old(c)), key@),
        room(*final(c)) == room(*old(c)),
{
    c.pop(key)
}

/// Calls `lru::LruCache::pop_lru`: it removes and returns what was used least
/// recently, if anything is held.
#[verifier::external_body]
fn lru_pop_lru(c: &mut lru::LruCache<[u8; 32], Vec<u8>, lru::DefaultHasher>) -> (r: Option<
    ([u8; 32], Vec<u8>),
>)
    ensures
        r is Some <==> held(*old(c)).len() > 0,
        r matches Some(p) ==> held(*old(c))[0] == (p.0@, p.1@) && held(*final(c)) == held(
            *old(c),
        ).remove(0),
        r is None ==> held(*final(c)) == held(*old(c)),
        room(*final(c)) == room(*old(c)),
{
    c.pop_lru()
}

/// Every id is held once.
pub open spec fn once(es: Seq<(Seq<u8>, Seq<u8>)>) -> bool {
    forall|i: int, j: int| 0 <= i < j < es.len() ==> (#[trigger] es[i]).0 != (#[trigger] es[j]).0
}

/// How many bytes are held.
pub open spec fn weight(es: Seq<(Seq<u8>, Seq<u8>)>) -> nat
    decreases es.len(),
{
    if es.len() == 0 {
        0
    } else {
        weight(es.drop_last()) + es.last().1.len()
    }
}

/// Drop what was used least recently until no more than `max` bytes are held.
pub open spec fn fitted(es: Seq<(Seq<u8>, Seq<u8>)>, max: nat) -> Seq<(Seq<u8>, Seq<u8>)>
    decreases es.len(),
{
    if weight(es) <= max || es.len() == 0 {
        es
    } else {
        fitted(es.remove(0), max)
    }
}

proof fn lemma_weight_remove(es: Seq<(Seq<u8>, Seq<u8>)>, i: int)
    requires
        0 <= i < es.len(),
    ensures
        weight(es.remove(i)) + es[i].1.len() == weight(es),
    decreases es.len(),
{
    if i == es.len() - 1 {
        assert(es.remove(i) =~= es.drop_last());
    } else {
        lemma_weight_remove(es.drop_last(), i);
        assert(es.remove(i).drop_last() =~= es.drop_last().remove(i));
        assert(es.remove(i).last() == es.last());
    }
}

proof fn lemma_weight_push(es: Seq<(Seq<u8>, Seq<u8>)>, x: (Seq<u8>, Seq<u8>))
    ensures
        weight(es.push(x)) == weight(es) + x.1.len(),
{
    assert(es.push(x).drop_last() =~= es);
}

proof fn lemma_once_remove(es: Seq<(Seq<u8>, Seq<u8>)>, i: int)
    requires
        once(es),
        0 <= i < es.len(),
    ensures
        once(es.remove(i)),
        !holds(es.remove(i), es[i].0),
{
    let r = es.remove(i);
    assert forall|p: int, q: int| 0 <= p < q < r.len() implies (#[trigger] r[p]).0 != (
    #[trigger] r[q]).0 by {
        let p1 = if p < i {
            p
        } else {
            p + 1
        };
        let q1 = if q < i {
            q
        } else {
            q + 1
        };
        assert(es[p1].0 != es[q1].0);
    }
    if holds(r, es[i].0) {
        let p = spot(r, es[i].0);
        if p < i {
            assert(es[p].0 != es[i].0);
        } else {
            assert(es[i].0 != es[p + 1].0);
        }
    }
}

proof fn lemma_pushed(es: Seq<(Seq<u8>, Seq<u8>)>, cap: nat, key: Seq<u8>, value: Seq<u8>)
    requires
        once(es),
        es.len() <= cap,
        cap > 0,
    ensures
        once(pushed(es, cap, key, value)),
        pushed(es, cap, key, value).len() <= cap,
        weight(pushed(es, cap, key, value)) + (match displaced(es, cap, key) {
            Some(p) => p.1.len(),
            None => 0,
        }) == weight(es) + value.len(),
{
    if holds(es, key) {
        let i = spot(es, key);
        lemma_once_remove(es, i);
        lemma_weight_remove(es, i);
        lemma_weight_push(es.remove(i), (key, value));
    } else if es.len() == cap {
        lemma_once_remove(es, 0);
        lemma_weight_remove(es, 0);
        let r = es.remove(0);
        if holds(r, key) {
            let p = spot(r, key);
            assert(es[p + 1].0 == key);
        }
        lemma_weight_push(r, (key, value));
    } else {
        lemma_weight_push(es, (key, value));
    }
}

proof fn lemma_used(es: Seq<(Seq<u8>, Seq<u8>)>, key: Seq<u8>)
    requires
        once(es),
    ensures
        once(used(es, key)),
        used(es, key).len() == es.len(),
        weight(used(es, key)) == weight(es),
{
    if holds(es, key) {
        let i = spot(es, key);
        lemma_once_remove(es, i);
        lemma_weight_remove(es, i);
        lemma_weight_push(es.remove(i), es[i]);
    }
}

/// Every object hashes to the id that it is held under.
pub open spec fn genuine(es: Seq<(Seq<u8>, Seq<u8>)>) -> bool {
    forall|i: int| 0 <= i < es.len() ==> blake3_digest((#[trigger] es[i]).1) == es[i].0
}

/// Every object is the object file of a tree, though its entries may be out of order.
pub open spec fn all_listings(es: Seq<(Seq<u8>, Seq<u8>)>) -> bool {
    forall|i: int| 0 <= i < es.len() ==> is_listing((#[trigger] es[i]).1)
}

/// The bytes are what a tree is written as. One whose entries are out of order can be
/// written, and does not read back.
pub open spec fn is_listing(b: Seq<u8>) -> bool {
    exists|t: Seq<Entry>| tree_encodable(t) && #[trigger] tree_bytes(t) == b
}

/// The bytes are the object file of a tree that reads back.
pub open spec fn is_tree(b: Seq<u8>) -> bool {
    exists|t: Seq<Entry>|
        canonical(t) && t.len() <= MAX_TREE_ENTRIES && #[trigger] tree_bytes(t) == b
}

/// What the raw-object cache may hold.
pub open spec fn objects_within(es: Seq<(Seq<u8>, Seq<u8>)>) -> bool {
    &&& once(es)
    &&& genuine(es)
    &&& es.len() <= OBJECT_CACHE_MAX_ENTRIES
    &&& weight(es) <= OBJECT_CACHE_MAX_BYTES
}

/// What the tree cache may hold.
pub open spec fn trees_within(es: Seq<(Seq<u8>, Seq<u8>)>) -> bool {
    &&& once(es)
    &&& genuine(es)
    &&& all_listings(es)
    &&& es.len() <= TREE_CACHE_MAX_ENTRIES
}

proof fn lemma_genuine_remove(es: Seq<(Seq<u8>, Seq<u8>)>, i: int)
    requires
        0 <= i < es.len(),
    ensures
        genuine(es) ==> genuine(es.remove(i)),
        all_listings(es) ==> all_listings(es.remove(i)),
{
    let r = es.remove(i);
    assert forall|j: int| 0 <= j < r.len() implies es.contains(#[trigger] r[j]) by {
        if j < i {
            assert(r[j] == es[j]);
        } else {
            assert(r[j] == es[j + 1]);
        }
    }
}

/// A cache with the count of its bytes.
struct Shelf {
    entries: lru::LruCache<[u8; 32], Vec<u8>, lru::DefaultHasher>,
    bytes: usize,
}

spec fn shelf_held(s: Option<Shelf>) -> Seq<(Seq<u8>, Seq<u8>)> {
    match s {
        Some(s) => held(s.entries),
        None => Seq::<(Seq<u8>, Seq<u8>)>::empty(),
    }
}

/// The raw-object cache: at most 256 objects and 64 MiB.
pub struct ObjectCache {
    shelf: Option<Shelf>,
}

impl ObjectCache {
    #[verifier::type_invariant]
    spec fn inv(self) -> bool {
        match self.shelf {
            Some(s) => objects_within(held(s.entries)) && room(s.entries)
                == OBJECT_CACHE_MAX_ENTRIES && s.bytes == weight(held(s.entries)),
            None => true,
        }
    }

    /// The objects held, from the least to the most recently used.
    pub closed spec fn held(self) -> Seq<(Seq<u8>, Seq<u8>)> {
        shelf_held(self.shelf)
    }

    pub fn new() -> (r: Self)
        ensures
            r.held() == Seq::<(Seq<u8>, Seq<u8>)>::empty(),
    {
        ObjectCache { shelf: None }
    }

    /// The object of an id, which becomes the most recently used.
    pub fn get(&mut self, id: &ObjectId) -> (r: Option<Vec<u8>>)
        ensures
            objects_within(final(self).held()),
            final(self).held() == used(old(self).held(), id@),
            r is Some <==> holds(old(self).held(), id@),
            r matches Some(v) ==> v@ == old(self).held()[spot(old(self).held(), id@)].1
                && blake3_digest(v@) == id@,
    {
        proof {
            use_type_invariant(&*self);
        }
        let ghost before = self.held();
        let mut shelf: Option<Shelf> = None;
        core::mem::swap(&mut self.shelf, &mut shelf);
        match shelf {
            None => None,
            Some(s) => {
                let mut s = s;
                proof {
                    lemma_used(before, id@);
                    if holds(before, id@) {
                        lemma_genuine_remove(before, spot(before, id@));
                    }
                }
                let r = lru_get(&mut s.entries, &id.0);
                self.shelf = Some(s);
                r
            },
        }
    }

    /// Hold an object: what was used least recently leaves until the limits
    /// are kept. An object above the byte limit is not held, nor is what was
    /// held under its id.
    pub fn put(&mut self, id: ObjectId, value: Vec<u8>)
        requires
            blake3_digest(value@) == id@,
        ensures
            objects_within(final(self).held()),
            value@.len() > OBJECT_CACHE_MAX_BYTES ==> final(self).held() == without(
                old(self).held(),
                id@,
            ),
            value@.len() <= OBJECT_CACHE_MAX_BYTES ==> final(self).held() == fitted(
                pushed(old(self).held(), OBJECT_CACHE_MAX_ENTRIES as nat, id@, value@),
                OBJECT_CACHE_MAX_BYTES as nat,
            ),
    {
        let incoming: usize = value.len();
        if incoming > OBJECT_CACHE_MAX_BYTES {
            self.pop(&id);
            return ;
        }
        proof {
            use_type_invariant(&*self);
        }
        let ghost cap = OBJECT_CACHE_MAX_ENTRIES as nat;
        let ghost before = self.held();
        let ghost whole = pushed(before, cap, id@, value@);
        proof {
            lemma_pushed(before, cap, id@, value@);
            if holds(before, id@) {
                lemma_genuine_remove(before, spot(before, id@));
            } else if before.len() == cap {
                lemma_genuine_remove(before, 0);
            }
            assert(genuine(whole));
        }
        let mut shelf: Option<Shelf> = None;
        core::mem::swap(&mut self.shelf, &mut shelf);
        let mut s: Shelf = match shelf {
            Some(s) => s,
            None => Shelf { entries: lru_new(OBJECT_CACHE_MAX_ENTRIES), bytes: 0 },
        };
        s.bytes = s.bytes + incoming;
        let out = lru_push(&mut s.entries, id.0, value);
        if let Some(pair) = out {
            s.bytes = s.bytes - pair.1.len();
        }
        while s.bytes > OBJECT_CACHE_MAX_BYTES
            invariant
                once(held(s.entries)),
                genuine(held(s.entries)),
                held(s.entries).len() <= room(s.entries),
                room(s.entries) == OBJECT_CACHE_MAX_ENTRIES,
                s.bytes == weight(held(s.entries)),
                fitted(held(s.entries), OBJECT_CACHE_MAX_BYTES as nat) == fitted(
                    whole,
                    OBJECT_CACHE_MAX_BYTES as nat,
                ),
            decreases held(s.entries).len(),
        {
            let ghost now = held(s.entries);
            proof {
                lemma_once_remove(now, 0);
                lemma_weight_remove(now, 0);
                lemma_genuine_remove(now, 0);
            }
            let out = lru_pop_lru(&mut s.entries);
            match out {
                Some(pair) => {
                    s.bytes = s.bytes - pair.1.len();
                },
                None => {
                    assert(false);
                },
            }
        }
        self.shelf = Some(s);
    }

    /// Hold nothing under an id.
    pub fn pop(&mut self, id: &ObjectId)
        ensures
            objects_within(final(self).held()),
            final(self).held() == without(old(self).held(), id@),
    {
        proof {
            use_type_invariant(&*self);
        }
        let ghost before = self.held();
        let mut shelf: Option<Shelf> = None;
        core::mem::swap(&mut self.shelf, &mut shelf);
        if let Some(s) = shelf {
            let mut s = s;
            proof {
                if holds(before, id@) {
                    lemma_once_remove(before, spot(before, id@));
                    lemma_weight_remove(before, spot(before, id@));
                    lemma_genuine_remove(before, spot(before, id@));
                }
            }
            let out = lru_pop(&mut s.entries, &id.0);
            if let Some(v) = out {
                s.bytes = s.bytes - v.len();
            }
            self.shelf = Some(s);
        }
    }
}

/// The tree cache: at most 4096 trees, in their encoded form.
pub struct TreeCache {
    entries: Option<lru::LruCache<[u8; 32], Vec<u8>, lru::DefaultHasher>>,
}

impl TreeCache {
    #[verifier::type_invariant]
    spec fn inv(self) -> bool {
        match self.entries {
            Some(c) => trees_within(held(c)) && room(c) == TREE_CACHE_MAX_ENTRIES,
            None => true,
        }
    }

    /// The trees held, from the least to the most recently used.
    pub closed spec fn held(self) -> Seq<(Seq<u8>, Seq<u8>)> {
        match self.entries {
            Some(c) => held(c),
            None => Seq::<(Seq<u8>, Seq<u8>)>::empty(),
        }
    }

    pub fn new() -> (r: Self)
        ensures
            r.held() == Seq::<(Seq<u8>, Seq<u8>)>::empty(),
    {
        TreeCache { entries: None }
    }

    /// The tree of an id, which becomes the most recently used.
    pub fn get(&mut self, id: &ObjectId) -> (r: Option<Vec<u8>>)
        ensures
            trees_within(final(self).held()),
            final(self).held() == used(old(self).held(), id@),
            r is Some <==> holds(old(self).held(), id@),
            r matches Some(v) ==> v@ == old(self).held()[spot(old(self).held(), id@)].1
                && blake3_digest(v@) == id@ && is_listing(v@),
    {
        proof {
            use_type_invariant(&*self);
        }
        let ghost before = self.held();
        let mut entries: Option<lru::LruCache<[u8; 32], Vec<u8>, lru::DefaultHasher>> = None;
        core::mem::swap(&mut self.entries, &mut entries);
        match entries {
            None => None,
            Some(c) => {
                let mut c = c;
                proof {
                    lemma_used(before, id@);
                    if holds(before, id@) {
                        lemma_genuine_remove(before, spot(before, id@));
                    }
                }
                let r = lru_get(&mut c, &id.0);
                self.entries = Some(c);
                r
            },
        }
    }

    /// Hold a tree.
    pub fn put(&mut self, id: ObjectId, value: Vec<u8>)
        requires
            blake3_digest(value@) == id@,
            is_listing(value@),
        ensures
            trees_within(final(self).held()),
            final(self).held() == pushed(
                old(self).held(),
                TREE_CACHE_MAX_ENTRIES as nat,
                id@,
                value@,
            ),
    {
        proof {
            use_type_invariant(&*self);
        }
        let ghost cap = TREE_CACHE_MAX_ENTRIES as nat;
        let ghost before = self.held();
        proof {
            lemma_pushed(before, cap, id@, value@);
            if holds(before, id@) {
                lemma_genuine_remove(before, spot(before, id@));
            } else if before.len() == cap {
                lemma_genuine_remove(before, 0);
            }
        }
        let mut entries: Option<lru::LruCache<[u8; 32], Vec<u8>, lru::DefaultHasher>> = None;
        core::mem::swap(&mut self.entries, &mut entries);
        let mut c: lru::LruCache<[u8; 32], Vec<u8>, lru::DefaultHasher> = match entries {
            Some(c) => c,
            None => lru_new(TREE_CACHE_MAX_ENTRIES),
        };
        lru_push(&mut c, id.0, value);
        self.entries = Some(c);
    }

    /// Hold nothing under an id.
    pub fn pop(&mut self, id: &ObjectId)
        ensures
            trees_within(final(self).held()),
            final(self).held() == without(old(self).held(), id@),
    {
        proof {
            use_type_invariant(&*self);
        }
        let ghost before = self.held();
        let mut entries: Option<lru::LruCache<[u8; 32], Vec<u8>, lru::DefaultHasher>> = None;
        core::mem::swap(&mut self.entries, &mut entries);
        if let Some(c) = entries {
            let mut c = c;
            proof {
                if holds(before, id@) {
                    lemma_once_remove(before, spot(before, id@));
                    lemma_genuine_remove(before, spot(before, id@));
                }
            }
            lru_pop(&mut c, &id.0);
            self.entries = Some(c);
        }
    }
}

} // verus!
