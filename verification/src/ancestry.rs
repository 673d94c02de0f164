//! The ancestry of commits and their best common ancestors.
use crate::bytes::{
    lemma_lex_antisymmetric, lemma_lex_irreflexive, lemma_lex_total, lemma_lex_transitive, lex_lt,
};
use crate::commit::{commit_bytes, commit_fault, commit_valid, lemma_commit_unique, CommitValue};
use crate::idmap::{
    has_id, id_place, ids_differ, lemma_fewer, lemma_insert, IdMap,
};
use crate::objectstore::{read_refused, readable, ObjectPlane, ObjectStore};
use crate::order::{stable_sort, Sortable};
use crate::scan::told;
use crate::store::Store;
use crate::types::{corrupt, hex_of, invalid, lemma_id_ext, Error, ObjectId};
use vstd::prelude::*;

verus! {

/// Most commits of one ancestry that are held in memory.
pub const MAX_ANCESTRY_COMMITS: usize = 1_000_000;

/// The bytes are the object file of a commit.
pub open spec fn is_commit(b: Seq<u8>) -> bool {
    exists|c: CommitValue| commit_valid(c) && #[trigger] commit_bytes(c) == b
}

/// The commit whose object file the bytes are.
pub open spec fn the_commit(b: Seq<u8>) -> CommitValue {
    choose|c: CommitValue| commit_valid(c) && #[trigger] commit_bytes(c) == b
}

/// A commit can be read.
pub open spec fn has_commit(objects: Map<ObjectId, Seq<u8>>, id: ObjectId) -> bool {
    readable(objects, id) && is_commit(objects[id])
}

/// The parents of a commit: none where it cannot be read.
pub open spec fn parents(objects: Map<ObjectId, Seq<u8>>, id: ObjectId) -> Seq<ObjectId> {
    if has_commit(objects, id) {
        the_commit(objects[id]).parents
    } else {
        Seq::<ObjectId>::empty()
    }
}

proof fn lemma_parents(objects: Map<ObjectId, Seq<u8>>, id: ObjectId, c: CommitValue)
    requires
        readable(objects, id),
        commit_valid(c),
        objects[id] == commit_bytes(c),
    ensures
        has_commit(objects, id),
        parents(objects, id) == c.parents,
{
    assert(is_commit(objects[id]));
    lemma_commit_unique(c, the_commit(objects[id]));
}

/// A parent follows at a place of a sequence.
pub open spec fn descends(objects: Map<ObjectId, Seq<u8>>, p: Seq<ObjectId>, i: int) -> bool {
    parents(objects, p[i]).contains(p[i + 1])
}

/// A sequence that follows parents from one commit to another.
pub open spec fn lineage(
    objects: Map<ObjectId, Seq<u8>>,
    p: Seq<ObjectId>,
    from: ObjectId,
    to: ObjectId,
) -> bool {
    &&& p.len() > 0
    &&& p[0] == from
    &&& p.last() == to
    &&& forall|i: int| 0 <= i < p.len() - 1 ==> #[trigger] descends(objects, p, i)
}

/// `id` is `from`, or can be reached from it through parents.
pub open spec fn ancestor(objects: Map<ObjectId, Seq<u8>>, from: ObjectId, id: ObjectId) -> bool {
    exists|p: Seq<ObjectId>| #[trigger] lineage(objects, p, from, id)
}

/// `id` can be reached from `from` through at least one parent.
pub open spec fn proper_ancestor(
    objects: Map<ObjectId, Seq<u8>>,
    from: ObjectId,
    id: ObjectId,
) -> bool {
    exists|p: ObjectId| parents(objects, from).contains(p) && #[trigger] ancestor(objects, p, id)
}

/// Every commit is among its own ancestors.
pub proof fn lemma_ancestor_self(objects: Map<ObjectId, Seq<u8>>, id: ObjectId)
    ensures
        ancestor(objects, id, id),
{
    assert(lineage(objects, seq![id], id, id));
}

/// The parents of an ancestor are ancestors.
pub proof fn lemma_ancestor_step(
    objects: Map<ObjectId, Seq<u8>>,
    from: ObjectId,
    a: ObjectId,
    b: ObjectId,
)
    requires
        ancestor(objects, from, a),
        parents(objects, a).contains(b),
    ensures
        ancestor(objects, from, b),
{
    let p = choose|p: Seq<ObjectId>| #[trigger] lineage(objects, p, from, a);
    let q = p.push(b);
    assert forall|i: int| 0 <= i < q.len() - 1 implies #[trigger] descends(objects, q, i) by {
        if i < p.len() - 1 {
            assert(descends(objects, p, i));
        }
    }
    assert(lineage(objects, q, from, b));
}

/// A set that holds some commits and all their parents, and theirs, holds all
/// ancestors.
pub proof fn lemma_ancestor_closed(
    objects: Map<ObjectId, Seq<u8>>,
    from: ObjectId,
    all: Set<ObjectId>,
    id: ObjectId,
)
    requires
        all.contains(from),
        forall|a: ObjectId, b: ObjectId|
            all.contains(a) && #[trigger] parents(objects, a).contains(b) ==> all.contains(b),
        ancestor(objects, from, id),
    ensures
        all.contains(id),
{
    let p = choose|p: Seq<ObjectId>| #[trigger] lineage(objects, p, from, id);
    lemma_lineage_closed(objects, p, all, p.len() - 1);
}

proof fn lemma_lineage_closed(
    objects: Map<ObjectId, Seq<u8>>,
    p: Seq<ObjectId>,
    all: Set<ObjectId>,
    i: int,
)
    requires
        p.len() > 0,
        all.contains(p[0]),
        forall|j: int| 0 <= j < p.len() - 1 ==> #[trigger] descends(objects, p, j),
        forall|a: ObjectId, b: ObjectId|
            all.contains(a) && #[trigger] parents(objects, a).contains(b) ==> all.contains(b),
        0 <= i < p.len(),
    ensures
        all.contains(p[i]),
    decreases i,
{
    if i > 0 {
        lemma_lineage_closed(objects, p, all, i - 1);
        assert(descends(objects, p, i - 1));
        assert(parents(objects, p[i - 1]).contains(p[i]));
    }
}

/// The ancestors of an ancestor are ancestors.
pub proof fn lemma_ancestor_transitive(
    objects: Map<ObjectId, Seq<u8>>,
    a: ObjectId,
    b: ObjectId,
    c: ObjectId,
)
    requires
        ancestor(objects, a, b),
        ancestor(objects, b, c),
    ensures
        ancestor(objects, a, c),
{
    let all = Set::new(|x: ObjectId| ancestor(objects, a, x));
    assert forall|x: ObjectId, y: ObjectId|
        all.contains(x) && #[trigger] parents(objects, x).contains(y) implies all.contains(y) by {
        lemma_ancestor_step(objects, a, x, y);
    }
    lemma_ancestor_closed(objects, b, all, c);
}

/// The map holds the ancestors of a commit, each with its parents.
pub open spec fn maps_ancestry(
    objects: Map<ObjectId, Seq<u8>>,
    m: IdMap<Vec<ObjectId>>,
    start: ObjectId,
) -> bool {
    &&& ids_differ(m.pairs())
    &&& forall|id: ObjectId| #[trigger] m.has(id) <==> ancestor(objects, start, id)
    &&& forall|id: ObjectId| #[trigger] m.has(id) ==> has_commit(objects, id)
    &&& forall|id: ObjectId| m.has(id) ==> (#[trigger] m.at(id))@ == parents(objects, id)
}

/// Every commit that waits or has been read is an ancestor, and every parent
/// of one that has been read waits or has been read.
#[verifier::opaque]
spec fn climbing(
    objects: Map<ObjectId, Seq<u8>>,
    m: IdMap<Vec<ObjectId>>,
    stack: Seq<ObjectId>,
    start: ObjectId,
) -> bool {
    &&& ids_differ(m.pairs())
    &&& m.has(start) || stack.contains(start)
    &&& forall|i: int| 0 <= i < stack.len() ==> ancestor(objects, start, #[trigger] stack[i])
    &&& forall|id: ObjectId| #[trigger] m.has(id) ==> ancestor(objects, start, id)
    &&& forall|id: ObjectId| #[trigger] m.has(id) ==> has_commit(objects, id)
    &&& forall|id: ObjectId| m.has(id) ==> (#[trigger] m.at(id))@ == parents(objects, id)
    &&& forall|a: ObjectId, b: ObjectId|
        m.has(a) && #[trigger] parents(objects, a).contains(b) ==> m.has(b) || stack.contains(b)
}

proof fn lemma_climbed(
    objects: Map<ObjectId, Seq<u8>>,
    m: IdMap<Vec<ObjectId>>,
    start: ObjectId,
)
    requires
        climbing(objects, m, Seq::<ObjectId>::empty(), start),
    ensures
        maps_ancestry(objects, m, start),
{
    reveal(climbing);
    let all = Set::new(|id: ObjectId| m.has(id));
    assert forall|id: ObjectId| #[trigger] m.has(id) <==> ancestor(objects, start, id) by {
        if ancestor(objects, start, id) {
            lemma_ancestor_closed(objects, start, all, id);
        }
    }
}

proof fn lemma_climb_facts(
    objects: Map<ObjectId, Seq<u8>>,
    m: IdMap<Vec<ObjectId>>,
    stack: Seq<ObjectId>,
    start: ObjectId,
)
    requires
        climbing(objects, m, stack, start),
        stack.len() > 0,
    ensures
        ids_differ(m.pairs()),
        ancestor(objects, start, stack.last()),
        forall|id: ObjectId| #[trigger] m.has(id) ==> ancestor(objects, start, id),
{
    reveal(climbing);
    assert(ancestor(objects, start, stack[stack.len() - 1]));
}

proof fn lemma_climb_pop(
    objects: Map<ObjectId, Seq<u8>>,
    m: IdMap<Vec<ObjectId>>,
    stack: Seq<ObjectId>,
    start: ObjectId,
)
    requires
        climbing(objects, m, stack, start),
        stack.len() > 0,
        m.has(stack.last()),
    ensures
        climbing(objects, m, stack.drop_last(), start),
{
    reveal(climbing);
    let rest = stack.drop_last();
    assert forall|x: ObjectId| stack.contains(x) implies rest.contains(x) || m.has(x) by {
        let i = choose|i: int| 0 <= i < stack.len() && stack[i] == x;
        if i < rest.len() {
            assert(rest[i] == x);
        }
    }
    assert forall|i: int| 0 <= i < rest.len() implies ancestor(
        objects,
        start,
        #[trigger] rest[i],
    ) by {
        assert(rest[i] == stack[i]);
    }
}

proof fn lemma_climb_read(
    objects: Map<ObjectId, Seq<u8>>,
    before: IdMap<Vec<ObjectId>>,
    after: IdMap<Vec<ObjectId>>,
    stack: Seq<ObjectId>,
    start: ObjectId,
    id: ObjectId,
    up: Vec<ObjectId>,
)
    requires
        climbing(objects, before, stack, start),
        stack.len() > 0,
        id == stack.last(),
        has_commit(objects, id),
        up@ == parents(objects, id),
        ids_differ(after.pairs()),
        forall|x: ObjectId| #[trigger] after.has(x) <==> before.has(x) || x == id,
        after.at(id) == up,
        forall|x: ObjectId| before.has(x) && x != id ==> #[trigger] after.at(x) == before.at(x),
    ensures
        climbing(objects, after, stack.drop_last() + up@, start),
{
    reveal(climbing);
    let rest = stack.drop_last();
    let now = rest + up@;
    assert forall|x: ObjectId| stack.contains(x) implies now.contains(x) || after.has(x) by {
        let i = choose|i: int| 0 <= i < stack.len() && stack[i] == x;
        if i < rest.len() {
            assert(now[i] == x);
        }
    }
    assert(stack[stack.len() - 1] == id);
    assert(ancestor(objects, start, id));
    assert forall|i: int| 0 <= i < now.len() implies ancestor(
        objects,
        start,
        #[trigger] now[i],
    ) by {
        if i < rest.len() {
            assert(now[i] == stack[i]);
        } else {
            assert(now[i] == up@[i - rest.len()]);
            assert(parents(objects, id).contains(now[i]));
            lemma_ancestor_step(objects, start, id, now[i]);
        }
    }
    assert forall|x: ObjectId| after.has(x) implies (#[trigger] after.at(x))@ == parents(
        objects,
        x,
    ) by {
        if x != id {
            assert(before.has(x));
            assert(after.at(x) == before.at(x));
        }
    }
    assert forall|a: ObjectId, b: ObjectId|
        after.has(a) && #[trigger] parents(objects, a).contains(b) implies after.has(b)
        || now.contains(b) by {
        if a == id {
            let i = choose|i: int| 0 <= i < up@.len() && up@[i] == b;
            assert(now[rest.len() + i] == b);
        } else {
            assert(before.has(a));
            assert(before.has(b) || stack.contains(b));
        }
    }
}

fn append_ids(out: &mut Vec<ObjectId>, ids: &Vec<ObjectId>)
    ensures
        final(out)@ == old(out)@ + ids@,
{
    let mut i: usize = 0;
    assert(ids@.take(0) =~= Seq::<ObjectId>::empty());
    assert(out@ =~= old(out)@ + ids@.take(0));
    while i < ids.len()
        invariant
            i <= ids@.len(),
            out@ == old(out)@ + ids@.take(i as int),
        decreases ids@.len() - i,
    {
        out.push(ids[i]);
        assert(out@ =~= old(out)@ + ids@.take(i + 1));
        i += 1;
    }
    assert(ids@.take(i as int) =~= ids@);
}

/// More than the limit of commits are ancestors of a commit.
pub open spec fn ancestry_beyond(objects: Map<ObjectId, Seq<u8>>, start: ObjectId) -> bool {
    exists|ids: Seq<ObjectId>|
        ids.len() > MAX_ANCESTRY_COMMITS && #[trigger] ids.no_duplicates() && forall|i: int|
            0 <= i < ids.len() ==> ancestor(objects, start, #[trigger] ids[i])
}

/// The ancestors of a commit, each with its parents.
fn ancestor_map<O: ObjectStore>(store: &mut Store<O>, start: ObjectId) -> (r: Result<
    IdMap<Vec<ObjectId>>,
    Error,
>)
    requires
        old(store).coherent(),
    ensures
        final(store).blobs == old(store).blobs,
        final(store).coherent(),
        r matches Ok(m) ==> maps_ancestry(old(store).blobs.objects(), m, start),
        r matches Err(e) ==> ancestry_refused(old(store).blobs, start, e),
{
    let ghost objects = store.blobs.objects();
    let mut out: IdMap<Vec<ObjectId>> = IdMap::new();
    let mut stack: Vec<ObjectId> = Vec::new();
    stack.push(start);
    proof {
        reveal(climbing);
        lemma_ancestor_self(objects, start);
        assert(stack@[0] == start);
    }
    while stack.len() > 0
        invariant
            objects == old(store).blobs.objects(),
            store.blobs == old(store).blobs,
            store.coherent(),
            climbing(objects, out, stack@, start),
            out.pairs().len() <= MAX_ANCESTRY_COMMITS,
        decreases MAX_ANCESTRY_COMMITS - out.pairs().len(), stack@.len(),
    {
        let ghost before = stack@;
        let id: ObjectId = match stack.pop() {
            Some(id) => id,
            None => return Err(corrupt("commit stack is empty")),
        };
        assert(id == before.last());
        proof {
            lemma_climb_facts(objects, out, before, start);
        }
        if out.contains(&id) {
            proof {
                lemma_climb_pop(objects, out, before, start);
                assert(stack@ =~= before.drop_last());
            }
            continue ;
        }
        if out.len() >= MAX_ANCESTRY_COMMITS {
            proof {
                lemma_too_many(objects, out, start, id);
            }
            return Err(invalid("commit ancestry exceeds safety limit"));
        }
        let commit = match store.get_commit(id) {
            Ok(commit) => commit,
            Err(e) => {
                assert(ancestor(objects, start, id));
                return Err(e);
            },
        };
        proof {
            lemma_parents(objects, id, commit@);
        }
        append_ids(&mut stack, &commit.parents);
        let ghost out0 = out;
        let ghost up = commit.parents;
        out.insert(id, commit.parents);
        proof {
            lemma_insert(out0, out, id, up);
            lemma_climb_read(objects, out0, out, before, start, id, up);
            assert(stack@ =~= before.drop_last() + up@);
        }
    }
    proof {
        assert(stack@ =~= Seq::<ObjectId>::empty());
        lemma_climbed(objects, out, start);
    }
    Ok(out)
}

/// Why reading an ancestry fails: the ancestors are too many, or one of them is missing,
/// damaged or no commit. One that is none of these is refused only by a backend that
/// fails itself.
pub open spec fn ancestry_refused<O: ObjectPlane>(plane: O, start: ObjectId, e: Error) -> bool {
    ||| ancestry_beyond(plane.objects(), start) && (e matches Error::Invalid(msg) && msg@
        == "commit ancestry exceeds safety limit"@)
    ||| exists|id: ObjectId| #[trigger]
        ancestor(plane.objects(), start, id) && (plane.steady() ==> !has_commit(
            plane.objects(),
            id,
        )) && read_refused(plane.objects(), plane.steady(), id, e) && (plane.steady() && readable(
            plane.objects(),
            id,
        ) ==> told(e, commit_fault(plane.objects()[id])))
}

proof fn lemma_too_many(
    objects: Map<ObjectId, Seq<u8>>,
    m: IdMap<Vec<ObjectId>>,
    start: ObjectId,
    id: ObjectId,
)
    requires
        ids_differ(m.pairs()),
        m.pairs().len() >= MAX_ANCESTRY_COMMITS,
        forall|x: ObjectId| #[trigger] m.has(x) ==> ancestor(objects, start, x),
        !m.has(id),
        ancestor(objects, start, id),
    ensures
        ancestry_beyond(objects, start),
{
    let ps = m.pairs();
    let ids = Seq::new(ps.len(), |i: int| ps[i].0).push(id);
    assert forall|i: int| 0 <= i < ps.len() implies m.has(#[trigger] ids[i]) by {
        assert(ps[i].0 == ids[i]);
    }
    assert forall|i: int, j: int| 0 <= i < j < ids.len() implies ids[i] != ids[j] by {
        if j < ps.len() {
            assert(ps[i].0 != ps[j].0);
        } else {
            assert(m.has(ids[i]));
        }
    }
    assert(ids.no_duplicates());
}

/// An ancestor of both commits.
pub open spec fn common(
    objects: Map<ObjectId, Seq<u8>>,
    a: ObjectId,
    b: ObjectId,
    id: ObjectId,
) -> bool {
    ancestor(objects, a, id) && ancestor(objects, b, id)
}

/// Some common ancestor has the commit among its own ancestors.
pub open spec fn older(
    objects: Map<ObjectId, Seq<u8>>,
    a: ObjectId,
    b: ObjectId,
    id: ObjectId,
) -> bool {
    exists|c: ObjectId| common(objects, a, b, c) && #[trigger] proper_ancestor(objects, c, id)
}

/// A best common ancestor: a common ancestor that no other has as an ancestor.
pub open spec fn best(
    objects: Map<ObjectId, Seq<u8>>,
    a: ObjectId,
    b: ObjectId,
    id: ObjectId,
) -> bool {
    common(objects, a, b, id) && !older(objects, a, b, id)
}

/// The list of the best common ancestors in the order of their ids. A commit
/// is its own best common ancestor with itself.
pub open spec fn lists_bases(
    objects: Map<ObjectId, Seq<u8>>,
    a: ObjectId,
    b: ObjectId,
    v: Seq<ObjectId>,
) -> bool {
    if a == b {
        v == seq![a] && has_commit(objects, a)
    } else {
        &&& ids_increase(v)
        &&& forall|id: ObjectId| #[trigger] v.contains(id) <==> best(objects, a, b, id)
    }
}

/// Ids in increasing order.
pub open spec fn ids_increase(v: Seq<ObjectId>) -> bool {
    forall|i: int, j: int| 0 <= i < j < v.len() ==> lex_lt((#[trigger] v[i])@, (#[trigger] v[j])@)
}

/// The best common ancestors do not depend on the order of the two commits.
pub proof fn lemma_bases_symmetric(
    objects: Map<ObjectId, Seq<u8>>,
    a: ObjectId,
    b: ObjectId,
    v: Seq<ObjectId>,
)
    requires
        lists_bases(objects, a, b, v),
    ensures
        lists_bases(objects, b, a, v),
{
    if a != b {
        assert forall|id: ObjectId| #[trigger] v.contains(id) <==> best(objects, b, a, id) by {
            assert(common(objects, a, b, id) == common(objects, b, a, id));
            if older(objects, a, b, id) {
                let c = choose|c: ObjectId|
                    common(objects, a, b, c) && #[trigger] proper_ancestor(objects, c, id);
                assert(common(objects, b, a, c) && proper_ancestor(objects, c, id));
            }
            if older(objects, b, a, id) {
                let c = choose|c: ObjectId|
                    common(objects, b, a, c) && #[trigger] proper_ancestor(objects, c, id);
                assert(common(objects, a, b, c) && proper_ancestor(objects, c, id));
            }
        }
    }
}

/// There is one list of the best common ancestors.
pub proof fn lemma_bases_unique(
    objects: Map<ObjectId, Seq<u8>>,
    a: ObjectId,
    b: ObjectId,
    v: Seq<ObjectId>,
    w: Seq<ObjectId>,
)
    requires
        lists_bases(objects, a, b, v),
        lists_bases(objects, a, b, w),
    ensures
        v == w,
{
    if a != b {
        assert forall|id: ObjectId| #[trigger] v.contains(id) <==> w.contains(id) by {}
        lemma_increasing_ids_unique(v, w);
    }
}

/// Of one commit: no other is both above and below it. Of two: a common ancestor that is
/// its own parent is a proper ancestor of another one.
pub open spec fn tame(objects: Map<ObjectId, Seq<u8>>, a: ObjectId, b: ObjectId) -> bool {
    if a == b {
        forall|c: ObjectId| c != a && #[trigger] common(objects, a, b, c) ==> !proper_ancestor(
            objects,
            c,
            a,
        )
    } else {
        forall|c: ObjectId| #[trigger]
            common(objects, a, b, c) && parents(objects, c).contains(c) ==> exists|d: ObjectId|
                d != c && common(objects, a, b, d) && #[trigger] proper_ancestor(objects, d, c)
    }
}

/// The best common ancestors are the common ancestors that are a proper ancestor of no
/// other, in the order of their ids. Two inputs are left out: one commit twice where it lies
/// on a cycle with another, which gives the commit itself; and commits of which a common
/// ancestor is its own parent and an ancestor of no other, which is then not listed.
pub proof fn lemma_bases_of_no_other(
    objects: Map<ObjectId, Seq<u8>>,
    a: ObjectId,
    b: ObjectId,
    v: Seq<ObjectId>,
)
    requires
        lists_bases(objects, a, b, v),
        tame(objects, a, b),
    ensures
        ids_increase(v),
        forall|id: ObjectId| #[trigger]
            v.contains(id) <==> common(objects, a, b, id) && forall|c: ObjectId|
                c != id && #[trigger] common(objects, a, b, c) ==> !proper_ancestor(
                    objects,
                    c,
                    id,
                ),
        a == b ==> v == seq![a],
{
    assert forall|id: ObjectId| #[trigger] v.contains(id) <==> common(objects, a, b, id) && forall|
        c: ObjectId,
    |
        c != id && #[trigger] common(objects, a, b, c) ==> !proper_ancestor(objects, c, id) by {
        if a == b {
            lemma_ancestor_self(objects, a);
            assert(v.contains(id) <==> id == a) by {
                assert(v[0] == a);
            }
            if id != a && common(objects, a, b, id) {
                lemma_ancestor_first(objects, a, id);
                assert(common(objects, a, b, a));
            }
        } else if common(objects, a, b, id) && older(objects, a, b, id) {
            let c = choose|c: ObjectId|
                common(objects, a, b, c) && #[trigger] proper_ancestor(objects, c, id);
            assert(common(objects, a, b, c));
            if c == id {
                let p = choose|p: ObjectId|
                    parents(objects, id).contains(p) && #[trigger] ancestor(objects, p, id);
                if p == id {
                    let d = choose|d: ObjectId|
                        d != id && common(objects, a, b, d) && #[trigger] proper_ancestor(
                            objects,
                            d,
                            id,
                        );
                    assert(common(objects, a, b, d));
                } else {
                    lemma_ancestor_step(objects, a, id, p);
                    lemma_ancestor_step(objects, b, id, p);
                    lemma_ancestor_first(objects, p, id);
                    assert(common(objects, a, b, p));
                }
            }
        }
    }
}

/// An ancestor that is not the commit itself is reached through a parent.
proof fn lemma_ancestor_first(objects: Map<ObjectId, Seq<u8>>, from: ObjectId, id: ObjectId)
    requires
        ancestor(objects, from, id),
        from != id,
    ensures
        proper_ancestor(objects, from, id),
{
    let p = choose|p: Seq<ObjectId>| #[trigger] lineage(objects, p, from, id);
    let q = p.drop_first();
    assert(descends(objects, p, 0));
    assert forall|i: int| 0 <= i < q.len() - 1 implies #[trigger] descends(objects, q, i) by {
        assert(descends(objects, p, i + 1));
    }
    assert(lineage(objects, q, p[1], id));
    assert(ancestor(objects, p[1], id));
}

/// The best common ancestors depend on the parents of the commits alone: their times,
/// their agents and their contributions play no part.
pub proof fn lemma_bases_by_parents(
    objects: Map<ObjectId, Seq<u8>>,
    others: Map<ObjectId, Seq<u8>>,
    a: ObjectId,
    b: ObjectId,
    v: Seq<ObjectId>,
)
    requires
        forall|id: ObjectId| #[trigger] parents(objects, id) == parents(others, id),
        has_commit(objects, a) == has_commit(others, a),
        lists_bases(objects, a, b, v),
    ensures
        lists_bases(others, a, b, v),
{
    assert forall|x: ObjectId, y: ObjectId| #[trigger] ancestor(objects, x, y) == ancestor(
        others,
        x,
        y,
    ) by {
        if ancestor(objects, x, y) {
            lemma_lineage_by_parents(objects, others, x, y);
        }
        if ancestor(others, x, y) {
            lemma_lineage_by_parents(others, objects, x, y);
        }
    }
    if a != b {
        assert forall|id: ObjectId| #[trigger] v.contains(id) <==> best(others, a, b, id) by {
            assert(v.contains(id) <==> best(objects, a, b, id));
            assert(common(objects, a, b, id) == common(others, a, b, id));
            if older(objects, a, b, id) {
                let c = choose|c: ObjectId|
                    common(objects, a, b, c) && #[trigger] proper_ancestor(objects, c, id);
                let p = choose|p: ObjectId|
                    parents(objects, c).contains(p) && #[trigger] ancestor(objects, p, id);
                assert(parents(others, c).contains(p) && ancestor(others, p, id));
                assert(common(others, a, b, c) && proper_ancestor(others, c, id));
            }
            if older(others, a, b, id) {
                let c = choose|c: ObjectId|
                    common(others, a, b, c) && #[trigger] proper_ancestor(others, c, id);
                let p = choose|p: ObjectId|
                    parents(others, c).contains(p) && #[trigger] ancestor(others, p, id);
                assert(ancestor(objects, a, c) == ancestor(others, a, c));
                assert(ancestor(objects, b, c) == ancestor(others, b, c));
                assert(ancestor(objects, p, id) == ancestor(others, p, id));
                assert(parents(objects, c).contains(p));
                assert(common(objects, a, b, c) && proper_ancestor(objects, c, id));
            }
        }
    }
}

proof fn lemma_lineage_by_parents(
    objects: Map<ObjectId, Seq<u8>>,
    others: Map<ObjectId, Seq<u8>>,
    x: ObjectId,
    y: ObjectId,
)
    requires
        forall|id: ObjectId| #[trigger] parents(objects, id) == parents(others, id),
        ancestor(objects, x, y),
    ensures
        ancestor(others, x, y),
{
    let p = choose|p: Seq<ObjectId>| #[trigger] lineage(objects, p, x, y);
    assert forall|i: int| 0 <= i < p.len() - 1 implies #[trigger] descends(others, p, i) by {
        assert(descends(objects, p, i));
        assert(parents(objects, p[i]) == parents(others, p[i]));
    }
    assert(lineage(others, p, x, y));
}

/// Increasing ids are determined by which they are.
pub proof fn lemma_increasing_ids_unique(v: Seq<ObjectId>, w: Seq<ObjectId>)
    requires
        ids_increase(v),
        ids_increase(w),
        forall|id: ObjectId| #[trigger] v.contains(id) <==> w.contains(id),
    ensures
        v == w,
    decreases v.len(),
{
    if v.len() == 0 {
        if w.len() > 0 {
            assert(w.contains(w[0]));
            assert(v.contains(w[0]));
        }
        assert(v =~= w);
    } else {
        let x = v.last();
        assert(v.contains(x));
        assert(w.contains(x));
        let y = w.last();
        assert(w.contains(y));
        assert(v.contains(y));
        let i = choose|i: int| 0 <= i < v.len() && v[i] == y;
        let j = choose|j: int| 0 <= j < w.len() && w[j] == x;
        if i < v.len() - 1 && j < w.len() - 1 {
            assert(lex_lt(v[i]@, v[v.len() - 1]@));
            assert(lex_lt(w[j]@, w[w.len() - 1]@));
            lemma_lex_antisymmetric(x@, y@);
        }
        assert(x == y);
        let v1 = v.drop_last();
        let w1 = w.drop_last();
        assert forall|id: ObjectId| #[trigger] v1.contains(id) <==> w1.contains(id) by {
            if v1.contains(id) {
                let p = choose|p: int| 0 <= p < v1.len() && v1[p] == id;
                assert(v[p] == id);
                assert(lex_lt(v[p]@, v[v.len() - 1]@));
                lemma_lex_irreflexive(x@);
                assert(v.contains(id));
                let q = choose|q: int| 0 <= q < w.len() && w[q] == id;
                assert(w1[q] == id);
            }
            if w1.contains(id) {
                let p = choose|p: int| 0 <= p < w1.len() && w1[p] == id;
                assert(w[p] == id);
                assert(lex_lt(w[p]@, w[w.len() - 1]@));
                lemma_lex_irreflexive(x@);
                assert(w.contains(id));
                assert(v.contains(id));
                let q = choose|q: int| 0 <= q < v.len() && v[q] == id;
                assert(v1[q] == id);
            }
        }
        lemma_increasing_ids_unique(v1, w1);
        assert(v =~= v1.push(x));
        assert(w =~= w1.push(y));
    }
}

impl Sortable for ObjectId {
    open spec fn le(self, other: Self) -> bool {
        !lex_lt(other@, self@)
    }

    proof fn le_total(a: Self, b: Self) {
        if lex_lt(b@, a@) {
            lemma_lex_antisymmetric(b@, a@);
        }
    }

    proof fn le_transitive(a: Self, b: Self, c: Self) {
        if lex_lt(c@, a@) {
            lemma_lex_total(b@, c@);
            if lex_lt(b@, c@) {
                lemma_lex_transitive(b@, c@, a@);
            }
        }
    }

    fn strictly_before(&self, other: &Self) -> (r: bool) {
        self.precedes(other)
    }
}

/// Different ids in their order.
pub fn sort_ids(v: Vec<ObjectId>) -> (r: Vec<ObjectId>)
    requires
        v@.no_duplicates(),
    ensures
        ids_increase(r@),
        forall|id: ObjectId| #[trigger] r@.contains(id) <==> v@.contains(id),
{
    let ghost s = v@;
    let r = stable_sort(v);
    proof {
        s.to_multiset_ensures();
        r@.to_multiset_ensures();
        s.lemma_multiset_has_no_duplicates();
        r@.lemma_multiset_has_no_duplicates_conv();
        assert forall|id: ObjectId| #[trigger] r@.contains(id) <==> s.contains(id) by {
            assert(r@.contains(id) <==> r@.to_multiset().count(id) > 0);
            assert(s.contains(id) <==> s.to_multiset().count(id) > 0);
        }
        assert forall|i: int, j: int| 0 <= i < j < r@.len() implies lex_lt(
            (#[trigger] r@[i])@,
            (#[trigger] r@[j])@,
        ) by {
            assert(r@[i].le(r@[j]));
            lemma_lex_total(r@[i]@, r@[j]@);
            if r@[i]@ == r@[j]@ {
                lemma_id_ext(r@[i], r@[j]);
            }
        }
    }
    r
}

/// What a search upwards from the parents of a commit keeps: everything seen
/// or waiting is a proper ancestor, and every parent is seen or waits.
#[verifier::opaque]
spec fn searching(
    objects: Map<ObjectId, Seq<u8>>,
    from: ObjectId,
    seen: IdMap<bool>,
    stack: Seq<ObjectId>,
) -> bool {
    &&& ids_differ(seen.pairs())
    &&& forall|i: int|
        0 <= i < stack.len() ==> proper_ancestor(objects, from, #[trigger] stack[i])
    &&& forall|id: ObjectId| #[trigger] seen.has(id) ==> proper_ancestor(objects, from, id)
    &&& forall|b: ObjectId| #[trigger]
        parents(objects, from).contains(b) ==> seen.has(b) || stack.contains(b)
    &&& forall|a: ObjectId, b: ObjectId|
        seen.has(a) && #[trigger] parents(objects, a).contains(b) ==> seen.has(b)
            || stack.contains(b)
}

proof fn lemma_search_step(
    objects: Map<ObjectId, Seq<u8>>,
    from: ObjectId,
    before: IdMap<bool>,
    after: IdMap<bool>,
    stack: Seq<ObjectId>,
    up: Seq<ObjectId>,
)
    requires
        searching(objects, from, before, stack),
        stack.len() > 0,
        ids_differ(after.pairs()),
        forall|x: ObjectId| #[trigger] after.has(x) <==> before.has(x) || x == stack.last(),
        before.has(stack.last()) && up == Seq::<ObjectId>::empty() || up == parents(
            objects,
            stack.last(),
        ),
    ensures
        searching(objects, from, after, stack.drop_last() + up),
{
    reveal(searching);
    let rest = stack.drop_last();
    let now = rest + up;
    let id = stack.last();
    assert(stack[stack.len() - 1] == id);
    assert(proper_ancestor(objects, from, id));
    assert forall|x: ObjectId| stack.contains(x) implies now.contains(x) || after.has(x) by {
        let i = choose|i: int| 0 <= i < stack.len() && stack[i] == x;
        if i < rest.len() {
            assert(now[i] == x);
        }
    }
    assert forall|i: int| 0 <= i < now.len() implies proper_ancestor(
        objects,
        from,
        #[trigger] now[i],
    ) by {
        if i < rest.len() {
            assert(now[i] == stack[i]);
        } else {
            assert(now[i] == up[i - rest.len()]);
            assert(parents(objects, id).contains(now[i]));
            let p = choose|p: ObjectId|
                parents(objects, from).contains(p) && #[trigger] ancestor(objects, p, id);
            lemma_ancestor_step(objects, p, id, now[i]);
        }
    }
    assert forall|b: ObjectId| #[trigger] parents(objects, from).contains(b) implies after.has(b)
        || now.contains(b) by {
        assert(before.has(b) || stack.contains(b));
    }
    assert forall|a: ObjectId, b: ObjectId|
        after.has(a) && #[trigger] parents(objects, a).contains(b) implies after.has(b)
        || now.contains(b) by {
        if before.has(a) {
            assert(before.has(b) || stack.contains(b));
        } else {
            assert(a == id);
            let i = choose|i: int| 0 <= i < up.len() && up[i] == b;
            assert(now[rest.len() + i] == b);
        }
    }
}

proof fn lemma_searched(
    objects: Map<ObjectId, Seq<u8>>,
    from: ObjectId,
    seen: IdMap<bool>,
)
    requires
        searching(objects, from, seen, Seq::<ObjectId>::empty()),
    ensures
        forall|id: ObjectId| #[trigger] seen.has(id) <==> proper_ancestor(objects, from, id),
{
    reveal(searching);
    let all = Set::new(|id: ObjectId| seen.has(id));
    assert forall|id: ObjectId| #[trigger] seen.has(id) <==> proper_ancestor(
        objects,
        from,
        id,
    ) by {
        if proper_ancestor(objects, from, id) {
            let p = choose|p: ObjectId|
                parents(objects, from).contains(p) && #[trigger] ancestor(objects, p, id);
            assert(seen.has(p));
            lemma_ancestor_closed(objects, p, all, id);
        }
    }
}

/// The proper ancestors of a commit of which the ancestry has been read.
fn proper_ancestors(
    am: &IdMap<Vec<ObjectId>>,
    from: ObjectId,
    Ghost(objects): Ghost<Map<ObjectId, Seq<u8>>>,
    Ghost(start): Ghost<ObjectId>,
) -> (seen: IdMap<bool>)
    requires
        maps_ancestry(objects, *am, start),
        am.has(from),
    ensures
        ids_differ(seen.pairs()),
        forall|id: ObjectId| #[trigger] seen.has(id) <==> proper_ancestor(objects, from, id),
{
    let mut seen: IdMap<bool> = IdMap::new();
    let mut stack: Vec<ObjectId> = Vec::new();
    if let Some(up) = am.get(&from) {
        append_ids(&mut stack, up);
    }
    proof {
        reveal(searching);
        assert(stack@ =~= parents(objects, from));
        assert forall|i: int| 0 <= i < stack@.len() implies proper_ancestor(
            objects,
            from,
            #[trigger] stack@[i],
        ) by {
            assert(parents(objects, from).contains(stack@[i]));
            lemma_ancestor_self(objects, stack@[i]);
        }
        assert(ids_differ(seen.pairs()));
    }
    while stack.len() > 0
        invariant
            maps_ancestry(objects, *am, start),
            am.has(from),
            searching(objects, from, seen, stack@),
            seen.pairs().len() <= am.pairs().len(),
        decreases am.pairs().len() - seen.pairs().len(), stack@.len(),
    {
        let ghost before = stack@;
        let ghost seen0 = seen;
        let id: ObjectId = match stack.pop() {
            Some(id) => id,
            None => {
                assert(false);
                return seen;
            },
        };
        let n = seen.len();
        proof {
            assert(id == before.last());
            lemma_search_within(objects, from, seen, before, *am, start);
        }
        if seen.contains(&id) {
            proof {
                lemma_search_step(objects, from, seen, seen, before, Seq::<ObjectId>::empty());
                assert(stack@ =~= before.drop_last() + Seq::<ObjectId>::empty());
            }
            continue ;
        }
        seen.insert(id, true);
        if let Some(up) = am.get(&id) {
            append_ids(&mut stack, up);
        }
        proof {
            lemma_insert(seen0, seen, id, true);
            assert(stack@ =~= before.drop_last() + parents(objects, id));
            lemma_search_step(objects, from, seen0, seen, before, parents(objects, id));
            assert forall|x: ObjectId| #[trigger] has_id(seen.pairs(), x) implies has_id(
                am.pairs(),
                x,
            ) by {
                assert(seen.has(x));
                assert(am.has(x));
            }
            lemma_fewer(seen.pairs(), am.pairs());
        }
    }
    proof {
        assert(stack@ =~= Seq::<ObjectId>::empty());
        lemma_searched(objects, from, seen);
        reveal(searching);
    }
    seen
}

proof fn lemma_search_within(
    objects: Map<ObjectId, Seq<u8>>,
    from: ObjectId,
    seen: IdMap<bool>,
    stack: Seq<ObjectId>,
    am: IdMap<Vec<ObjectId>>,
    start: ObjectId,
)
    requires
        searching(objects, from, seen, stack),
        stack.len() > 0,
        maps_ancestry(objects, am, start),
        am.has(from),
    ensures
        am.has(stack.last()),
        forall|id: ObjectId| #[trigger] seen.has(id) ==> am.has(id),
        ids_differ(seen.pairs()),
{
    reveal(searching);
    assert(proper_ancestor(objects, from, stack[stack.len() - 1]));
    assert forall|id: ObjectId| proper_ancestor(objects, from, id) implies #[trigger] am.has(
        id,
    ) by {
        let p = choose|p: ObjectId|
            parents(objects, from).contains(p) && #[trigger] ancestor(objects, p, id);
        lemma_ancestor_step(objects, start, from, p);
        lemma_ancestor_transitive(objects, start, p, id);
    }
}

/// The best common ancestors of two commits, in the order of their ids.
#[verifier::rlimit(30)]
pub fn merge_bases<O: ObjectStore>(store: &mut Store<O>, a: ObjectId, b: ObjectId) -> (r: Result<
    Vec<ObjectId>,
    Error,
>)
    requires
        old(store).coherent(),
    ensures
        final(store).blobs == old(store).blobs,
        final(store).coherent(),
        match r {
            Ok(v) => lists_bases(old(store).blobs.objects(), a, b, v@),
            Err(e) => ancestry_refused(old(store).blobs, a, e) || ancestry_refused(
                old(store).blobs,
                b,
                e,
            ),
        },
{
    let ghost objects = store.blobs.objects();
    if a.same(&b) {
        proof {
            lemma_ancestor_self(objects, a);
        }
        let commit = store.get_commit(a)?;
        proof {
            lemma_parents(objects, a, commit@);
        }
        let mut one: Vec<ObjectId> = Vec::new();
        one.push(a);
        assert(one@ =~= seq![a]);
        return Ok(one);
    }
    let am = ancestor_map(store, a)?;
    let bm = ancestor_map(store, b)?;
    let mut shared: Vec<ObjectId> = Vec::new();
    let count = am.len();
    let mut i: usize = 0;
    while i < count
        invariant
            i <= count,
            count == am.pairs().len(),
            maps_ancestry(objects, am, a),
            maps_ancestry(objects, bm, b),
            shared@.no_duplicates(),
            forall|id: ObjectId| #[trigger]
                shared@.contains(id) <==> has_id(am.pairs().take(i as int), id) && bm.has(id),
        decreases count - i,
    {
        let id = am.key(i);
        let ghost before = shared@;
        proof {
            lemma_has_next(am.pairs(), i as int);
        }
        if bm.contains(&id) {
            shared.push(id);
            proof {
                assert(!has_id(am.pairs().take(i as int), id)) by {
                    if has_id(am.pairs().take(i as int), id) {
                        let k = id_place(am.pairs().take(i as int), id);
                        assert(am.pairs()[k].0 == id);
                        assert(am.pairs()[k].0 != am.pairs()[i as int].0);
                    }
                }
                assert(!before.contains(id));
                lemma_push_new(before, id);
            }
        }
        i += 1;
    }
    proof {
        assert(am.pairs().take(i as int) =~= am.pairs());
        assert forall|id: ObjectId| #[trigger] shared@.contains(id) <==> common(
            objects,
            a,
            b,
            id,
        ) by {
            assert(am.has(id) <==> ancestor(objects, a, id));
            assert(bm.has(id) <==> ancestor(objects, b, id));
        }
    }
    let mut dominated: IdMap<bool> = IdMap::new();
    let mut k: usize = 0;
    while k < shared.len()
        invariant
            k <= shared@.len(),
            maps_ancestry(objects, am, a),
            forall|id: ObjectId| #[trigger]
                shared@.contains(id) <==> common(objects, a, b, id),
            ids_differ(dominated.pairs()),
            forall|id: ObjectId| #[trigger]
                dominated.has(id) <==> exists|j: int|
                    0 <= j < k && proper_ancestor(objects, #[trigger] shared@[j], id),
        decreases shared@.len() - k,
    {
        let from = shared[k];
        proof {
            assert(shared@.contains(from));
            assert(common(objects, a, b, from));
            assert(am.has(from));
        }
        let seen = proper_ancestors(&am, from, Ghost(objects), Ghost(a));
        let n = seen.len();
        let mut j: usize = 0;
        let ghost start = dominated;
        while j < n
            invariant
                j <= n,
                n == seen.pairs().len(),
                ids_differ(dominated.pairs()),
                forall|id: ObjectId| #[trigger]
                    dominated.has(id) <==> start.has(id) || has_id(
                        seen.pairs().take(j as int),
                        id,
                    ),
            decreases n - j,
        {
            let ghost d0 = dominated;
            let id = seen.key(j);
            dominated.insert(id, true);
            proof {
                lemma_insert(d0, dominated, id, true);
                lemma_has_next(seen.pairs(), j as int);
            }
            j += 1;
        }
        proof {
            assert(seen.pairs().take(j as int) =~= seen.pairs());
            assert forall|id: ObjectId| #[trigger] dominated.has(id) <==> exists|j: int|
                0 <= j < k + 1 && proper_ancestor(objects, #[trigger] shared@[j], id) by {
                assert(seen.has(id) <==> proper_ancestor(objects, from, id));
                if start.has(id) {
                    let j = choose|j: int|
                        0 <= j < k && proper_ancestor(objects, #[trigger] shared@[j], id);
                    assert(0 <= j < k + 1 && proper_ancestor(objects, shared@[j], id));
                }
                if seen.has(id) {
                    assert(proper_ancestor(objects, shared@[k as int], id));
                }
            }
        }
        k += 1;
    }
    let mut bases: Vec<ObjectId> = Vec::new();
    let mut m: usize = 0;
    while m < shared.len()
        invariant
            m <= shared@.len(),
            shared@.no_duplicates(),
            bases@.no_duplicates(),
            forall|id: ObjectId| #[trigger]
                bases@.contains(id) <==> shared@.take(m as int).contains(id) && !dominated.has(id),
        decreases shared@.len() - m,
    {
        let id = shared[m];
        let ghost before = bases@;
        proof {
            let now = shared@.take(m as int);
            assert(shared@.take(m + 1) =~= now.push(id));
            if now.contains(id) {
                let p = choose|p: int| 0 <= p < now.len() && now[p] == id;
                assert(shared@[p] == shared@[m as int]);
            }
            lemma_push_new(now, id);
        }
        if !dominated.contains(&id) {
            bases.push(id);
            proof {
                lemma_push_new(before, id);
            }
        }
        m += 1;
    }
    let ghost found = bases@;
    let r = sort_ids(bases);
    proof {
        assert(shared@.take(m as int) =~= shared@);
        assert forall|id: ObjectId| #[trigger] r@.contains(id) <==> best(objects, a, b, id) by {
            assert(r@.contains(id) <==> found.contains(id));
            assert(found.contains(id) <==> shared@.contains(id) && !dominated.has(id));
            assert(shared@.contains(id) <==> common(objects, a, b, id));
            if dominated.has(id) {
                let j = choose|j: int|
                    0 <= j < k && proper_ancestor(objects, #[trigger] shared@[j], id);
                assert(shared@.contains(shared@[j]));
                assert(common(objects, a, b, shared@[j]));
                assert(older(objects, a, b, id));
            }
            if older(objects, a, b, id) {
                let c = choose|c: ObjectId|
                    common(objects, a, b, c) && #[trigger] proper_ancestor(objects, c, id);
                assert(shared@.contains(c));
                let j = choose|j: int| 0 <= j < shared@.len() && shared@[j] == c;
                assert(proper_ancestor(objects, shared@[j], id));
            }
        }
    }
    Ok(r)
}

proof fn lemma_has_next<V>(ps: Seq<(ObjectId, V)>, i: int)
    requires
        0 <= i < ps.len(),
    ensures
        forall|id: ObjectId| #[trigger]
            has_id(ps.take(i + 1), id) <==> has_id(ps.take(i), id) || id == ps[i].0,
{
    let a = ps.take(i);
    let b = ps.take(i + 1);
    assert forall|id: ObjectId| #[trigger] has_id(b, id) <==> has_id(a, id) || id == ps[i].0 by {
        if has_id(b, id) {
            let k = id_place(b, id);
            if k < i {
                assert(a[k].0 == id);
            }
        }
        if has_id(a, id) {
            let k = id_place(a, id);
            assert(b[k].0 == id);
        }
        assert(b[i].0 == ps[i].0);
    }
}

proof fn lemma_push_new(s: Seq<ObjectId>, id: ObjectId)
    ensures
        forall|x: ObjectId| #[trigger] s.push(id).contains(x) <==> s.contains(x) || x == id,
        s.no_duplicates() && !s.contains(id) ==> s.push(id).no_duplicates(),
{
    let t = s.push(id);
    assert forall|x: ObjectId| #[trigger] t.contains(x) <==> s.contains(x) || x == id by {
        if s.contains(x) {
            let i = choose|i: int| 0 <= i < s.len() && s[i] == x;
            assert(t[i] == x);
        }
        assert(t[s.len() as int] == id);
    }
    if s.no_duplicates() && !s.contains(id) {
        assert forall|i: int, j: int| 0 <= i < t.len() && 0 <= j < t.len() && i != j implies t[i]
            != t[j] by {
            if i < s.len() && j < s.len() {
                assert(s[i] != s[j]);
            } else if i < s.len() {
                assert(s.contains(s[i]));
            } else {
                assert(s.contains(s[j]));
            }
        }
    }
}

/// The ids in hexadecimal, with commas between them.
pub open spec fn hex_list(v: Seq<ObjectId>) -> Seq<char>
    decreases v.len(),
{
    if v.len() == 0 {
        Seq::<char>::empty()
    } else if v.len() == 1 {
        hex_of(v[0]@)
    } else {
        hex_list(v.drop_last()) + ","@ + hex_of(v.last()@)
    }
}

fn join_hex(v: &Vec<ObjectId>) -> (r: String)
    ensures
        r@ == hex_list(v@),
{
    let mut out = String::new();
    let mut i: usize = 0;
    proof {
        assert(v@.take(0) =~= Seq::<ObjectId>::empty());
        assert(out@ =~= Seq::<char>::empty());
    }
    while i < v.len()
        invariant
            i <= v@.len(),
            out@ == hex_list(v@.take(i as int)),
        decreases v@.len() - i,
    {
        proof {
            let next = v@.take(i + 1);
            assert(next.drop_last() =~= v@.take(i as int));
            assert(next.last() == v@[i as int]);
        }
        if i > 0 {
            out.append(",");
        }
        out.append(v[i].hex().as_str());
        proof {
            assert(out@ =~= hex_list(v@.take(i + 1)));
        }
        i += 1;
    }
    assert(v@.take(i as int) =~= v@);
    out
}

/// The best common ancestor where there is at most one. More than one is a
/// condition of its own, refused here.
pub fn lca<O: ObjectStore>(store: &mut Store<O>, a: ObjectId, b: ObjectId) -> (r: Result<
    Option<ObjectId>,
    Error,
>)
    requires
        old(store).coherent(),
    ensures
        final(store).blobs == old(store).blobs,
        final(store).coherent(),
        match r {
            Ok(None) => lists_bases(
                old(store).blobs.objects(),
                a,
                b,
                Seq::<ObjectId>::empty(),
            ),
            Ok(Some(base)) => lists_bases(old(store).blobs.objects(), a, b, seq![base]),
            Err(e) => {
                ||| exists|v: Seq<ObjectId>|
                    v.len() > 1 && #[trigger] lists_bases(old(store).blobs.objects(), a, b, v) && (
                    e matches Error::Invalid(msg) && msg@ == "multiple best merge bases: "@
                        + hex_list(v))
                ||| ancestry_refused(old(store).blobs, a, e)
                ||| ancestry_refused(old(store).blobs, b, e)
            },
        },
{
    let bases = merge_bases(store, a, b)?;
    if bases.len() == 0 {
        assert(bases@ =~= Seq::<ObjectId>::empty());
        return Ok(None);
    }
    if bases.len() == 1 {
        assert(bases@ =~= seq![bases@[0]]);
        return Ok(Some(bases[0]));
    }
    let mut msg = "multiple best merge bases: ".to_string();
    msg.append(join_hex(&bases).as_str());
    Err(Error::Invalid(msg))
}

/// The ancestors of a commit, each with its parents.
pub fn commit_parent_map<O: ObjectStore>(store: &mut Store<O>, start: ObjectId) -> (r: Result<
    IdMap<Vec<ObjectId>>,
    Error,
>)
    requires
        old(store).coherent(),
    ensures
        final(store).blobs == old(store).blobs,
        final(store).coherent(),
        r matches Ok(m) ==> maps_ancestry(old(store).blobs.objects(), m, start),
        r matches Err(e) ==> ancestry_refused(old(store).blobs, start, e),
{
    ancestor_map(store, start)
}

} // verus!
