//! First introductions: the objects that a tree brings and its predecessor
//! did not have.
use crate::cache::is_tree;
use crate::catalog::{introduced, txn_after, Meta};
use crate::object::{blob_bytes, decode_object_type, tree_fault, type_fault, MAX_TREE_ENTRIES};
use crate::objectstore::{read_refused, readable, ObjectStore};
use crate::renames::too_deep;
use crate::overlay::{entry_named, find_entry};
use crate::scan::{told, Fault};
use crate::store::{lemma_the_tree, trees_of, Store};
use crate::tables::Rows;
use crate::tree::{canonical, names_increasing, Entry, Tree};
use crate::types::{hex_of, type_of, EntryKind, Error, ObjectId, ObjectType};
use vstd::prelude::*;

verus! {

/// How deep trees may be nested.
pub const MAX_NESTING: u64 = 18_446_744_073_709_551_615;

/// What stood in the place of an entry before, if it was of the same kind.
pub open spec fn predecessor(
    trees: Map<ObjectId, Seq<Entry>>,
    old: Option<ObjectId>,
    e: Entry,
) -> Option<ObjectId> {
    match old {
        Some(o) => match entry_named(trees[o], e.name) {
            Some(x) => if x.kind == e.kind {
                Some(x.id)
            } else {
                None
            },
            None => None,
        },
        None => None,
    }
}

/// What an object brings that its predecessor was not: nothing where they are
/// the same; else itself, and what its entries bring. Trees are followed `n`
/// levels deep.
pub open spec fn intros(
    trees: Map<ObjectId, Seq<Entry>>,
    old: Option<ObjectId>,
    new: ObjectId,
    kind: EntryKind,
    n: nat,
) -> Seq<ObjectId>
    decreases n, 0nat,
{
    if old == Some(new) {
        Seq::<ObjectId>::empty()
    } else if kind == EntryKind::Blob || n == 0 {
        seq![new]
    } else {
        seq![new] + entry_intros(trees, old, trees[new], (n - 1) as nat)
    }
}

/// What some entries bring, one after the other.
pub open spec fn entry_intros(
    trees: Map<ObjectId, Seq<Entry>>,
    old: Option<ObjectId>,
    es: Seq<Entry>,
    n: nat,
) -> Seq<ObjectId>
    decreases n, es.len() + 1,
{
    if es.len() == 0 {
        Seq::<ObjectId>::empty()
    } else {
        let e = es.last();
        entry_intros(trees, old, es.drop_last(), n) + intros(
            trees,
            predecessor(trees, old, e),
            e.id,
            e.kind,
            n,
        )
    }
}

/// Every object that has to be read to tell what a tree brings is there and of
/// its kind, no more than `n` levels deep.
#[verifier::opaque]
pub open spec fn introducible(
    objects: Map<ObjectId, Seq<u8>>,
    old: Option<ObjectId>,
    new: ObjectId,
    kind: EntryKind,
    n: nat,
) -> bool
    decreases n,
{
    let trees = trees_of(objects);
    if old == Some(new) {
        true
    } else if kind == EntryKind::Blob {
        readable(objects, new) && is_blob(objects[new])
    } else {
        &&& n > 0
        &&& trees.dom().contains(new)
        &&& old matches Some(o) ==> trees.dom().contains(o)
        &&& forall|i: int|
            0 <= i < trees[new].len() ==> {
                let e = #[trigger] trees[new][i];
                introducible(objects, predecessor(trees, old, e), e.id, e.kind, (n - 1) as nat)
            }
    }
}

/// The bytes are those of a blob.
pub open spec fn is_blob(b: Seq<u8>) -> bool {
    exists|data: Seq<u8>| b == #[trigger] blob_bytes(data)
}

/// What holds of a tree whose objects are all there holds of each entry.
proof fn lemma_introducible(
    objects: Map<ObjectId, Seq<u8>>,
    old: Option<ObjectId>,
    new: ObjectId,
    n: nat,
)
    requires
        old != Some(new),
    ensures
        introducible(objects, old, new, EntryKind::Tree, n) <==> {
            let trees = trees_of(objects);
            &&& n > 0
            &&& trees.dom().contains(new)
            &&& old matches Some(o) ==> trees.dom().contains(o)
            &&& forall|i: int|
                0 <= i < trees[new].len() ==> {
                    let e = #[trigger] trees[new][i];
                    introducible(
                        objects,
                        predecessor(trees, old, e),
                        e.id,
                        e.kind,
                        (n - 1) as nat,
                    )
                }
        },
{
    reveal_with_fuel(introducible, 1);
}

/// What is wrong with the object at an edge that leads to a tree. An object of another
/// type is told with its type between the texts `before` and `after`.
pub open spec fn edge_fault(
    b: Seq<u8>,
    id: ObjectId,
    before: Seq<char>,
    after: Seq<char>,
) -> Fault {
    if b.len() == 0 {
        type_fault(b)
    } else {
        match type_of(b[0]) {
            Some(ty) => if ty == ObjectType::Tree {
                tree_fault(b)
            } else {
                Fault::Corrupt(before + ty.name() + after + hex_of(id@))
            },
            None => type_fault(b),
        }
    }
}

/// Why a read of the tree at an edge fails.
pub open spec fn edge_refused(
    objects: Map<ObjectId, Seq<u8>>,
    steady: bool,
    id: ObjectId,
    before: Seq<char>,
    after: Seq<char>,
    e: Error,
) -> bool {
    &&& !objects.dom().contains(id) ==> e is NotFound
    &&& objects.dom().contains(id) && !readable(objects, id) ==> e is Corrupt
    &&& steady && readable(objects, id) ==> !is_tree(objects[id]) && told(
        e,
        edge_fault(objects[id], id, before, after),
    )
}

/// Why it cannot be told what a tree brings: an object that it brings, or the tree that
/// stood in its place, is missing, damaged or not of its kind, or the trees are nested
/// too deeply.
#[verifier::opaque]
pub open spec fn intro_refused(
    objects: Map<ObjectId, Seq<u8>>,
    steady: bool,
    old: Option<ObjectId>,
    new: ObjectId,
    kind: EntryKind,
    n: nat,
    e: Error,
) -> bool
    decreases n,
{
    let trees = trees_of(objects);
    old != Some(new) && if kind == EntryKind::Blob {
        read_refused(objects, steady, new, e) && (steady ==> !(readable(objects, new) && is_blob(
            objects[new],
        )))
    } else {
        ||| edge_refused(objects, steady, new, "typed edge expected tree, found "@, " at "@, e)
        ||| old matches Some(o) && edge_refused(
            objects,
            steady,
            o,
            "unexpected "@,
            " in previous tree edge at "@,
            e,
        )
        ||| n == 0 && too_deep(e)
        ||| n > 0 && trees.dom().contains(new) && exists|i: int|
            0 <= i < trees[new].len() && {
                let x = #[trigger] trees[new][i];
                intro_refused(
                    objects,
                    steady,
                    predecessor(trees, old, x),
                    x.id,
                    x.kind,
                    (n - 1) as nat,
                    e,
                )
            }
    }
}

proof fn lemma_intro_refused(
    objects: Map<ObjectId, Seq<u8>>,
    steady: bool,
    old: Option<ObjectId>,
    new: ObjectId,
    n: nat,
    e: Error,
    i: int,
)
    requires
        old != Some(new),
        edge_refused(objects, steady, new, "typed edge expected tree, found "@, " at "@, e) || (
        old matches Some(o) && edge_refused(
            objects,
            steady,
            o,
            "unexpected "@,
            " in previous tree edge at "@,
            e,
        )) || (n == 0 && too_deep(e)) || {
            let trees = trees_of(objects);
            let x = trees[new][i];
            n > 0 && trees.dom().contains(new) && 0 <= i < trees[new].len() && intro_refused(
                objects,
                steady,
                predecessor(trees, old, x),
                x.id,
                x.kind,
                (n - 1) as nat,
                e,
            )
        },
    ensures
        intro_refused(objects, steady, old, new, EntryKind::Tree, n, e),
{
    reveal_with_fuel(intro_refused, 1);
}

/// All of these can be read.
pub open spec fn all_readable(objects: Map<ObjectId, Seq<u8>>, ids: Seq<ObjectId>) -> bool {
    forall|i: int| 0 <= i < ids.len() ==> readable(objects, #[trigger] ids[i])
}

impl<O: ObjectStore> Store<O> {
    /// Every object of the new tree that the old tree did not have in the same
    /// place, a tree before what it holds.
    pub fn collect_intros(&mut self, old_tree: Option<ObjectId>, new: ObjectId) -> (r: Result<
        Vec<ObjectId>,
        Error,
    >)
        requires
            old(self).coherent(),
        ensures
            final(self).blobs == old(self).blobs,
            final(self).coherent(),
            ({
                let there = introducible(
                    old(self).blobs.objects(),
                    old_tree,
                    new,
                    EntryKind::Tree,
                    MAX_NESTING as nat,
                );
                &&& r is Ok ==> there
                &&& old(self).blobs.steady() && there ==> r is Ok
            }),
            r matches Err(e) ==> intro_refused(
                old(self).blobs.objects(),
                old(self).blobs.steady(),
                old_tree,
                new,
                EntryKind::Tree,
                MAX_NESTING as nat,
                e,
            ),
            r matches Ok(ids) ==> ids@ == intros(
                trees_of(old(self).blobs.objects()),
                old_tree,
                new,
                EntryKind::Tree,
                MAX_NESTING as nat,
            ) && all_readable(old(self).blobs.objects(), ids@),
    {
        let mut oids: Vec<ObjectId> = Vec::new();
        match self.intro_walk(old_tree, new, EntryKind::Tree, &mut oids, MAX_NESTING) {
            Ok(_) => {
                proof {
                    assert(oids@ =~= intros(
                        trees_of(old(self).blobs.objects()),
                        old_tree,
                        new,
                        EntryKind::Tree,
                        MAX_NESTING as nat,
                    ));
                }
                Ok(oids)
            },
            Err(e) => Err(e),
        }
    }

    /// Record which commit introduced the objects of a tree that its
    /// predecessor did not have in the same place.
    pub fn record_intros(
        &mut self,
        meta: &mut Meta,
        old_tree: Option<ObjectId>,
        new: ObjectId,
        commit: ObjectId,
        agent: &str,
        ts_ms: i64,
    ) -> (r: Result<(), Error>)
        requires
            old(self).coherent(),
        ensures
            final(self).blobs == old(self).blobs,
            final(self).coherent(),
            ({
                let there = introducible(
                    old(self).blobs.objects(),
                    old_tree,
                    new,
                    EntryKind::Tree,
                    MAX_NESTING as nat,
                );
                &&& r is Ok ==> there
                &&& old(self).blobs.steady() && there ==> r is Ok
            }),
            r matches Err(e) ==> intro_refused(
                old(self).blobs.objects(),
                old(self).blobs.steady(),
                old_tree,
                new,
                EntryKind::Tree,
                MAX_NESTING as nat,
                e,
            ),
            r is Err ==> *final(meta) == *old(meta),
            r is Ok ==> final(meta).counters == txn_after(old(meta).counters, true, true),
            r is Ok ==> final(meta).rows() == (Rows {
                object_intro: introduced(
                    old(meta).rows().object_intro,
                    intros(
                        trees_of(old(self).blobs.objects()),
                        old_tree,
                        new,
                        EntryKind::Tree,
                        MAX_NESTING as nat,
                    ),
                    commit,
                    agent@,
                    ts_ms,
                ),
                ..old(meta).rows()
            }),
    {
        let oids = match self.collect_intros(old_tree, new) {
            Ok(oids) => oids,
            Err(e) => return Err(e),
        };
        meta.intro_insert_many(oids.as_slice(), commit, agent, ts_ms);
        Ok(())
    }

    /// Read a tree through the raw-object cache.
    fn read_tree(&mut self, id: ObjectId, before: &str, after: &str) -> (r: Result<Tree, Error>)
        requires
            old(self).coherent(),
        ensures
            final(self).blobs == old(self).blobs,
            final(self).coherent(),
            r matches Ok(t) ==> canonical(t@) && t@.len() <= MAX_TREE_ENTRIES && readable(
                old(self).blobs.objects(),
                id,
            ) && trees_of(old(self).blobs.objects()).dom().contains(id) && trees_of(
                old(self).blobs.objects(),
            )[id] == t@,
            old(self).blobs.steady() && trees_of(old(self).blobs.objects()).dom().contains(id)
                ==> r is Ok,
            r matches Err(e) ==> edge_refused(
                old(self).blobs.objects(),
                old(self).blobs.steady(),
                id,
                before@,
                after@,
                e,
            ),
    {
        let bytes = match self.get_raw(id) {
            Ok(b) => b,
            Err(e) => return Err(e),
        };
        let actual = match decode_object_type(bytes.as_slice()) {
            Ok(t) => t,
            Err(e) => return Err(e),
        };
        if actual != ObjectType::Tree {
            let mut msg = before.to_string();
            msg.append(actual.as_str());
            msg.append(after);
            msg.append(id.hex().as_str());
            return Err(Error::Corrupt(msg));
        }
        match Tree::decode(bytes.as_slice()) {
            Ok(t) => {
                proof {
                    lemma_the_tree(t@);
                }
                Ok(t)
            },
            Err(e) => Err(e),
        }
    }

    fn intro_walk(
        &mut self,
        old_id: Option<ObjectId>,
        new: ObjectId,
        kind: EntryKind,
        oids: &mut Vec<ObjectId>,
        depth: u64,
    ) -> (r: Result<(), Error>)
        requires
            old(self).coherent(),
        ensures
            final(self).blobs == old(self).blobs,
            final(self).coherent(),
            r is Ok ==> introducible(
                old(self).blobs.objects(),
                old_id,
                new,
                kind,
                depth as nat,
            ),
            old(self).blobs.steady() && introducible(
                old(self).blobs.objects(),
                old_id,
                new,
                kind,
                depth as nat,
            ) ==> r is Ok,
            r matches Err(e) ==> intro_refused(
                old(self).blobs.objects(),
                old(self).blobs.steady(),
                old_id,
                new,
                kind,
                depth as nat,
                e,
            ),
            r is Ok ==> final(oids)@ == old(oids)@ + intros(
                trees_of(old(self).blobs.objects()),
                old_id,
                new,
                kind,
                depth as nat,
            ),
            r is Ok && all_readable(old(self).blobs.objects(), old(oids)@) ==> all_readable(
                old(self).blobs.objects(),
                final(oids)@,
            ),
        decreases depth,
    {
        let ghost objects = self.blobs.objects();
        let ghost trees = trees_of(objects);
        let ghost steady = self.blobs.steady();
        if let Some(o) = old_id {
            if o.same(&new) {
                proof {
                    reveal_with_fuel(introducible, 1);
                }
                assert(oids@ =~= oids@ + Seq::<ObjectId>::empty());
                return Ok(());
            }
        }
        if kind == EntryKind::Blob {
            proof {
                reveal_with_fuel(introducible, 1);
                reveal_with_fuel(intro_refused, 1);
            }
            match self.blobs.verify_blob(new) {
                Ok(_) => {},
                Err(e) => return Err(e),
            }
            oids.push(new);
            assert(oids@ =~= old(oids)@ + seq![new]);
            return Ok(());
        }
        proof {
            lemma_introducible(objects, old_id, new, depth as nat);
        }
        let new_tree = match self.read_tree(new, "typed edge expected tree, found ", " at ") {
            Ok(t) => t,
            Err(e) => {
                proof {
                    lemma_intro_refused(objects, steady, old_id, new, depth as nat, e, 0);
                }
                return Err(e);
            },
        };
        oids.push(new);
        let previous: Option<Tree> = match old_id {
            Some(o) => match self.read_tree(o, "unexpected ", " in previous tree edge at ") {
                Ok(t) => Some(t),
                Err(e) => {
                    proof {
                        lemma_intro_refused(objects, steady, old_id, new, depth as nat, e, 0);
                    }
                    return Err(e);
                },
            },
            None => None,
        };
        if depth == 0 {
            let e = Error::Corrupt("trees are nested too deeply".to_string());
            proof {
                lemma_intro_refused(objects, steady, old_id, new, depth as nat, e, 0);
            }
            return Err(e);
        }
        let ghost start = oids@;
        let mut i: usize = 0;
        assert(new_tree@.take(0) =~= Seq::<Entry>::empty());
        assert(oids@ =~= start + entry_intros(trees, old_id, new_tree@.take(0), (depth - 1) as nat));
        while i < new_tree.entries.len()
            invariant
                depth > 0,
                kind == EntryKind::Tree,
                i <= new_tree.entries@.len(),
                new_tree@.len() == new_tree.entries@.len(),
                objects == old(self).blobs.objects(),
                steady == old(self).blobs.steady(),
                old_id != Some(new),
                trees == trees_of(objects),
                trees.dom().contains(new),
                trees[new] == new_tree@,
                introducible(objects, old_id, new, EntryKind::Tree, depth as nat) <==> {
                    &&& depth > 0
                    &&& trees.dom().contains(new)
                    &&& old_id matches Some(o) ==> trees.dom().contains(o)
                    &&& forall|m: int|
                        0 <= m < trees[new].len() ==> {
                            let e = #[trigger] trees[new][m];
                            introducible(
                                objects,
                                predecessor(trees, old_id, e),
                                e.id,
                                e.kind,
                                (depth - 1) as nat,
                            )
                        }
                },
                forall|m: int|
                    0 <= m < i ==> {
                        let e = #[trigger] new_tree@[m];
                        introducible(
                            objects,
                            predecessor(trees, old_id, e),
                            e.id,
                            e.kind,
                            (depth - 1) as nat,
                        )
                    },
                old_id matches Some(o) ==> trees.dom().contains(o),
                self.blobs == old(self).blobs,
                self.coherent(),
                match previous {
                    Some(t) => old_id matches Some(o) && trees[o] == t@ && names_increasing(t@),
                    None => old_id is None,
                },
                oids@ == start + entry_intros(
                    trees,
                    old_id,
                    new_tree@.take(i as int),
                    (depth - 1) as nat,
                ),
                all_readable(objects, old(oids)@) ==> all_readable(objects, oids@),
            decreases new_tree.entries@.len() - i,
        {
            let entry = &new_tree.entries[i];
            let before: Option<ObjectId> = match &previous {
                Some(t) => match find_entry(t, entry.name.as_str()) {
                    Some(x) => if x.kind == entry.kind {
                        Some(x.id)
                    } else {
                        None
                    },
                    None => None,
                },
                None => None,
            };
            proof {
                let next = new_tree@.take(i + 1);
                assert(next.drop_last() =~= new_tree@.take(i as int));
                assert(next.last() == entry@);
                assert(before == predecessor(trees, old_id, entry@));
                assert(entry@ == trees[new][i as int]);
            }
            match self.intro_walk(before, entry.id, entry.kind, oids, depth - 1) {
                Ok(_) => {},
                Err(e) => {
                    proof {
                        lemma_intro_refused(
                            objects,
                            steady,
                            old_id,
                            new,
                            depth as nat,
                            e,
                            i as int,
                        );
                    }
                    return Err(e);
                },
            }
            proof {
                assert(oids@ =~= start + entry_intros(
                    trees,
                    old_id,
                    new_tree@.take(i + 1),
                    (depth - 1) as nat,
                ));
            }
            i += 1;
        }
        proof {
            assert(new_tree@.take(i as int) =~= new_tree@);
            assert(oids@ =~= old(oids)@ + intros(trees, old_id, new, kind, depth as nat));
        }
        Ok(())
    }
}

} // verus!
