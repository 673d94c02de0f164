//! Maps from object ids to values, in the order in which the ids came.
use crate::types::ObjectId;
use vstd::prelude::*;

verus! {

/// How many slots the ids are spread over.
const SLOTS: usize = 4096;

/// The slot of an id: its first twelve bits.
spec fn slot_of(id: ObjectId) -> int {
    id.0[0] * 16 + id.0[1] / 16
}

fn slot(id: &ObjectId) -> (s: usize)
    ensures
        s == slot_of(*id),
        s < SLOTS,
{
    (id.0[0] as usize) * 16 + (id.0[1] as usize) / 16
}

/// No id stands twice.
pub open spec fn ids_differ<V>(ps: Seq<(ObjectId, V)>) -> bool {
    forall|i: int, j: int| 0 <= i < j < ps.len() ==> (#[trigger] ps[i]).0 != (#[trigger] ps[j]).0
}

/// An id stands among the pairs.
pub open spec fn has_id<V>(ps: Seq<(ObjectId, V)>, id: ObjectId) -> bool {
    exists|i: int| 0 <= i < ps.len() && (#[trigger] ps[i]).0 == id
}

/// Where an id stands.
pub open spec fn id_place<V>(ps: Seq<(ObjectId, V)>, id: ObjectId) -> int {
    choose|i: int| 0 <= i < ps.len() && (#[trigger] ps[i]).0 == id
}

struct Index<V> {
    items: Vec<(ObjectId, V)>,
    slots: Vec<Vec<usize>>,
}

/// Every pair can be found through the slot of its id.
spec fn indexed<V>(ix: Index<V>) -> bool {
    &&& ids_differ(ix.items@)
    &&& ix.items@.len() > 0 ==> ix.slots@.len() == SLOTS
    &&& ix.slots@.len() == 0 || ix.slots@.len() == SLOTS
    &&& forall|s: int, k: int|
        0 <= s < ix.slots@.len() && 0 <= k < ix.slots@[s]@.len() ==> (#[trigger] ix.slots@[s]@[k])
            < ix.items@.len()
    &&& forall|i: int|
        0 <= i < ix.items@.len() ==> in_slot(ix.slots@, #[trigger] ix.items@[i].0, i)
}

spec fn in_slot(slots: Seq<Vec<usize>>, id: ObjectId, i: int) -> bool {
    exists|k: int| 0 <= k < slots[slot_of(id)]@.len() && #[trigger] slots[slot_of(id)]@[k] == i
}

/// A map from object ids to values.
pub struct IdMap<V> {
    index: Index<V>,
}

impl<V> IdMap<V> {
    #[verifier::type_invariant]
    spec fn inv(self) -> bool {
        indexed(self.index)
    }

    /// The ids with their values, in the order in which the ids came.
    pub closed spec fn pairs(self) -> Seq<(ObjectId, V)> {
        self.index.items@
    }

    /// The map has an id.
    pub open spec fn has(self, id: ObjectId) -> bool {
        has_id(self.pairs(), id)
    }

    /// The value of an id.
    pub open spec fn at(self, id: ObjectId) -> V {
        self.pairs()[id_place(self.pairs(), id)].1
    }

    pub fn new() -> (r: Self)
        ensures
            r.pairs() == Seq::<(ObjectId, V)>::empty(),
    {
        let r = IdMap { index: Index { items: Vec::new(), slots: Vec::new() } };
        assert(r.pairs() =~= Seq::<(ObjectId, V)>::empty());
        r
    }

    pub fn len(&self) -> (n: usize)
        ensures
            n == self.pairs().len(),
            ids_differ(self.pairs()),
    {
        proof {
            use_type_invariant(self);
        }
        self.index.items.len()
    }

    /// The id at a place.
    pub fn key(&self, i: usize) -> (id: ObjectId)
        requires
            i < self.pairs().len(),
        ensures
            id == self.pairs()[i as int].0,
    {
        self.index.items[i].0
    }

    /// The value at a place.
    pub fn value(&self, i: usize) -> (v: &V)
        requires
            i < self.pairs().len(),
        ensures
            *v == self.pairs()[i as int].1,
    {
        &self.index.items[i].1
    }

    /// Where an id stands, if the map has it.
    fn find(&self, id: &ObjectId) -> (r: Option<usize>)
        ensures
            match r {
                Some(i) => i < self.pairs().len() && self.pairs()[i as int].0 == *id
                    && id_place(self.pairs(), *id) == i,
                None => !self.has(*id),
            },
    {
        proof {
            use_type_invariant(self);
        }
        if self.index.slots.len() == 0 {
            return None;
        }
        let s = slot(id);
        let mut k: usize = 0;
        while k < self.index.slots[s].len()
            invariant
                indexed(self.index),
                s == slot_of(*id),
                s < SLOTS,
                self.index.slots@.len() == SLOTS,
                k <= self.index.slots@[s as int]@.len(),
                forall|j: int|
                    0 <= j < k ==> self.index.items@[(#[trigger] self.index.slots@[s as int]@[j])
                        as int].0 != *id,
            decreases self.index.slots@[s as int]@.len() - k,
        {
            let i: usize = self.index.slots[s][k];
            if self.index.items[i].0.same(id) {
                proof {
                    let ps = self.pairs();
                    let p = id_place(ps, *id);
                    assert(ps[i as int].0 == *id);
                    if p < i {
                        assert(ps[p].0 != ps[i as int].0);
                    } else if i < p {
                        assert(ps[i as int].0 != ps[p].0);
                    }
                }
                return Some(i);
            }
            k += 1;
        }
        proof {
            if self.has(*id) {
                let p = id_place(self.pairs(), *id);
                assert(in_slot(self.index.slots@, self.index.items@[p].0, p));
            }
        }
        None
    }

    /// The value of an id, if the map has it.
    pub fn get(&self, id: &ObjectId) -> (r: Option<&V>)
        ensures
            match r {
                Some(v) => self.has(*id) && *v == self.at(*id),
                None => !self.has(*id),
            },
    {
        match self.find(id) {
            Some(i) => Some(&self.index.items[i].1),
            None => None,
        }
    }

    pub fn contains(&self, id: &ObjectId) -> (r: bool)
        ensures
            r == self.has(*id),
    {
        self.find(id).is_some()
    }

    /// Set the value of an id; the value that it had before comes back. A new
    /// id comes last.
    pub fn insert(&mut self, id: ObjectId, v: V) -> (r: Option<V>)
        ensures
            ids_differ(final(self).pairs()),
            match r {
                Some(w) => old(self).has(id) && w == old(self).at(id) && final(self).pairs()
                    == old(self).pairs().update(id_place(old(self).pairs(), id), (id, v)),
                None => !old(self).has(id) && final(self).pairs() == old(self).pairs().push(
                    (id, v),
                ),
            },
    {
        proof {
            use_type_invariant(&*self);
        }
        let found = self.find(&id);
        let ghost before = self.index;
        let mut index: Index<V> = Index { items: Vec::new(), slots: Vec::new() };
        core::mem::swap(&mut self.index, &mut index);
        match found {
            Some(i) => {
                let ghost val = v;
                let mut v = v;
                core::mem::swap(&mut index.items[i].1, &mut v);
                proof {
                    assert(index.items@ =~= before.items@.update(i as int, (id, val)));
                    assert forall|p: int, q: int| 0 <= p < q < index.items@.len() implies (
                    #[trigger] index.items@[p]).0 != (#[trigger] index.items@[q]).0 by {
                        assert(before.items@[p].0 != before.items@[q].0);
                    }
                    assert forall|p: int| 0 <= p < index.items@.len() implies in_slot(
                        index.slots@,
                        #[trigger] index.items@[p].0,
                        p,
                    ) by {
                        assert(in_slot(before.slots@, before.items@[p].0, p));
                    }
                }
                self.index = index;
                Some(v)
            },
            None => {
                if index.slots.len() == 0 {
                    index.slots = empty_slots();
                }
                let ghost mid = index;
                let s = slot(&id);
                let n = index.items.len();
                index.slots[s].push(n);
                index.items.push((id, v));
                proof {
                    assert(index.items@ =~= before.items@.push((id, v)));
                    assert forall|p: int| 0 <= p < index.items@.len() implies in_slot(
                        index.slots@,
                        #[trigger] index.items@[p].0,
                        p,
                    ) by {
                        let x = index.items@[p].0;
                        if p < n {
                            assert(before.items@[p].0 == x);
                            assert(in_slot(mid.slots@, x, p));
                            let k = choose|k: int|
                                0 <= k < mid.slots@[slot_of(x)]@.len()
                                    && #[trigger] mid.slots@[slot_of(x)]@[k] == p;
                            assert(index.slots@[slot_of(x)]@[k] == p);
                        } else {
                            let k = mid.slots@[s as int]@.len() as int;
                            assert(index.slots@[slot_of(x)]@[k] == p);
                        }
                    }
                    assert forall|a: int, k: int|
                        0 <= a < index.slots@.len() && 0 <= k < index.slots@[a]@.len() implies (
                    #[trigger] index.slots@[a]@[k]) < index.items@.len() by {
                        if a == s && k == mid.slots@[a]@.len() {
                        } else {
                            assert(mid.slots@[a]@[k] == index.slots@[a]@[k]);
                        }
                    }
                }
                self.index = index;
                None
            },
        }
    }
}

fn empty_slots() -> (r: Vec<Vec<usize>>)
    ensures
        r@.len() == SLOTS,
        forall|s: int| 0 <= s < SLOTS ==> (#[trigger] r@[s])@.len() == 0,
{
    let mut r: Vec<Vec<usize>> = Vec::new();
    let mut i: usize = 0;
    while i < SLOTS
        invariant
            i <= SLOTS,
            r@.len() == i,
            forall|s: int| 0 <= s < i ==> (#[trigger] r@[s])@.len() == 0,
        decreases SLOTS - i,
    {
        r.push(Vec::new());
        i += 1;
    }
    r
}

/// What an insertion does to the ids and the values.
pub proof fn lemma_insert<V>(before: IdMap<V>, after: IdMap<V>, id: ObjectId, v: V)
    requires
        ids_differ(before.pairs()),
        after.pairs() == (if before.has(id) {
            before.pairs().update(id_place(before.pairs(), id), (id, v))
        } else {
            before.pairs().push((id, v))
        }),
    ensures
        ids_differ(after.pairs()),
        forall|x: ObjectId| #[trigger] after.has(x) <==> before.has(x) || x == id,
        after.at(id) == v,
        forall|x: ObjectId| before.has(x) && x != id ==> #[trigger] after.at(x) == before.at(x),
{
    let a = after.pairs();
    let b = before.pairs();
    let p = if before.has(id) {
        id_place(b, id)
    } else {
        b.len() as int
    };
    assert(a[p] == (id, v));
    assert forall|i: int, j: int| 0 <= i < j < a.len() implies (#[trigger] a[i]).0 != (
    #[trigger] a[j]).0 by {
        if j < b.len() {
            assert(b[i].0 != b[j].0);
        } else {
            assert(b[i].0 != id);
        }
    }
    assert forall|x: ObjectId| #[trigger] after.has(x) <==> before.has(x) || x == id by {
        if after.has(x) {
            let i = id_place(a, x);
            if i < b.len() {
                assert(b[i].0 == a[i].0);
            }
        }
        if before.has(x) {
            let i = id_place(b, x);
            assert(a[i].0 == x);
        }
    }
    lemma_place(a, p);
    assert forall|x: ObjectId| before.has(x) && x != id implies #[trigger] after.at(x)
        == before.at(x) by {
        let i = id_place(b, x);
        assert(a[i] == b[i]);
        lemma_place(a, i);
        lemma_place(b, i);
    }
}

/// An id stands where it stands.
pub proof fn lemma_place<V>(ps: Seq<(ObjectId, V)>, i: int)
    requires
        ids_differ(ps),
        0 <= i < ps.len(),
    ensures
        has_id(ps, ps[i].0),
        id_place(ps, ps[i].0) == i,
{
    let j = id_place(ps, ps[i].0);
    if j < i {
        assert(ps[j].0 != ps[i].0);
    } else if i < j {
        assert(ps[i].0 != ps[j].0);
    }
}

/// A map whose ids another map has too has no more of them.
pub proof fn lemma_fewer<V, W>(a: Seq<(ObjectId, V)>, b: Seq<(ObjectId, W)>)
    requires
        ids_differ(a),
        forall|id: ObjectId| #[trigger] has_id(a, id) ==> has_id(b, id),
    ensures
        a.len() <= b.len(),
{
    let x = Seq::new(a.len(), |i: int| a[i].0);
    let y = Seq::new(b.len(), |i: int| b[i].0);
    assert(x.no_duplicates()) by {
        assert forall|i: int, j: int| 0 <= i < x.len() && 0 <= j < x.len() && i != j implies x[i]
            != x[j] by {
            if i < j {
                assert(a[i].0 != a[j].0);
            } else {
                assert(a[j].0 != a[i].0);
            }
        }
    }
    x.unique_seq_to_set();
    assert forall|id: ObjectId| x.to_set().contains(id) implies y.to_set().contains(id) by {
        let i = choose|i: int| 0 <= i < x.len() && x[i] == id;
        assert(a[i].0 == id);
        assert(has_id(a, id));
        let j = id_place(b, id);
        assert(y[j] == id);
    }
    y.lemma_cardinality_of_set();
    vstd::set_lib::lemma_len_subset(x.to_set(), y.to_set());
}

} // verus!
