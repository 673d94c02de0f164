//! The typed graph that objects form: what each object refers to, and of what
//! type it expects the target to be.
use crate::commit::{commit_bytes, commit_fault, commit_valid, lemma_commit_unique, Commit, CommitValue};
use crate::conflict::{
    conflict_fault, conflict_form_bytes, form_valid, form_value, lemma_conflict_unique, path_values, Conflict,
    ConflictForm, ConflictPath, ConflictValue, PathValue,
};
use crate::contribution::{
    contribution_bytes, contribution_fault, contribution_valid, lemma_contribution_len,
    lemma_contribution_unique, Contribution,
    ContributionRead, ContributionValue, ReadValue,
};
use crate::bytes::{lemma_lex_antisymmetric, lemma_lex_total, lemma_lex_transitive, lex_lt};
use crate::idmap::{id_place, ids_differ, lemma_insert, lemma_place, IdMap};
use crate::items::vals;
use crate::object::{
    blob_bytes, blob_fault, decode_object_type, lemma_tree_unique, tree_bytes, tree_fault, type_fault, Blob,
    MAX_TREE_ENTRIES,
};
use crate::objectstore::{readable, ObjectPlane};
use crate::order::{stable_sort, Sortable};
use crate::scan::{told, Fault};
use crate::snapshot::{
    lemma_snapshot_unique, snapshot_bytes, snapshot_fault, snapshot_valid, Snapshot, SnapshotValue,
};
use crate::text::{chars_of, decimal, decimal_text};
use crate::tree::{canonical, Entry, Tree};
use crate::types::{
    hex_of, lemma_id_ext, lemma_tag_injective, trim, trimmed, type_of, EntryKind, Error,
    ObjectId, ObjectType,
};
use std::collections::VecDeque;
use vstd::prelude::*;

verus! {

/// Most distinct objects that one walk holds in memory unless told otherwise.
/// This bounds a walk, not an object: beyond it a walk is refused, and nothing
/// is said of the objects.
pub const DEFAULT_MAX_GRAPH_OBJECTS: usize = 1_000_000;

/// The environment variable that overrides `DEFAULT_MAX_GRAPH_OBJECTS`.
pub const MAX_GRAPH_OBJECTS_ENV: &'static str = "FORGEFS_MAX_GRAPH_OBJECTS";

/// The number that some digits write, if all are digits.
pub open spec fn digits_value(s: Seq<char>) -> Option<nat>
    decreases s.len(),
{
    if s.len() == 0 {
        Some(0)
    } else if '0' <= s.last() <= '9' {
        match digits_value(s.drop_last()) {
            Some(n) => Some(n * 10 + (s.last() as nat - '0' as nat) as nat),
            None => None,
        }
    } else {
        None
    }
}

/// The number that a text writes in decimal: at least one digit, after an
/// optional plus sign.
pub open spec fn decimal_value(s: Seq<char>) -> Option<nat> {
    let digits = if s.len() > 0 && s[0] == '+' {
        s.skip(1)
    } else {
        s
    };
    if digits.len() == 0 {
        None
    } else {
        digits_value(digits)
    }
}

/// The walk ceiling that a setting asks for: a positive number, white space
/// around it apart. Anything else takes the default.
pub open spec fn ceiling_of(raw: Option<Seq<char>>) -> usize {
    match raw {
        Some(s) => match decimal_value(trimmed(s)) {
            Some(n) => if 0 < n <= usize::MAX {
                n as usize
            } else {
                DEFAULT_MAX_GRAPH_OBJECTS
            },
            None => DEFAULT_MAX_GRAPH_OBJECTS,
        },
        None => DEFAULT_MAX_GRAPH_OBJECTS,
    }
}

proof fn lemma_digits_prefix(s: Seq<char>, i: int)
    requires
        0 <= i <= s.len(),
    ensures
        digits_value(s.take(i)) is None ==> digits_value(s) is None,
        digits_value(s.take(i)) matches Some(m) ==> (digits_value(s) matches Some(n) ==> m <= n),
    decreases s.len() - i,
{
    if i == s.len() {
        assert(s.take(i) =~= s);
    } else {
        lemma_digits_prefix(s, i + 1);
        assert(s.take(i + 1).drop_last() =~= s.take(i));
    }
}

/// The number that a text writes, if it fits.
fn parse_decimal(s: &str) -> (r: Option<usize>)
    ensures
        match r {
            Some(n) => decimal_value(s@) == Some(n as nat),
            None => match decimal_value(s@) {
                Some(n) => n > usize::MAX,
                None => true,
            },
        },
{
    let cs = chars_of(s);
    let start: usize = if cs.len() > 0 && cs[0] == '+' {
        1
    } else {
        0
    };
    if start == cs.len() {
        return None;
    }
    let ghost digits = if start == 1 {
        s@.skip(1)
    } else {
        s@
    };
    let mut n: usize = 0;
    let mut i: usize = start;
    assert(digits.take(0) =~= Seq::<char>::empty());
    while i < cs.len()
        invariant
            start <= i <= cs@.len(),
            start <= 1,
            cs@ == s@,
            digits == (if start == 1 {
                s@.skip(1)
            } else {
                s@
            }),
            digits_value(digits.take(i - start)) == Some(n as nat),
            decimal_value(s@) == digits_value(digits),
        decreases cs@.len() - i,
    {
        let c: char = cs[i];
        proof {
            let next = digits.take(i - start + 1);
            assert(next.drop_last() =~= digits.take(i - start));
            assert(next.last() == c);
            lemma_digits_prefix(digits, i - start + 1);
        }
        if c < '0' || c > '9' {
            return None;
        }
        let d: usize = (c as u32 - '0' as u32) as usize;
        match n.checked_mul(10) {
            None => return None,
            Some(m) => match m.checked_add(d) {
                None => return None,
                Some(k) => {
                    n = k;
                },
            },
        }
        i += 1;
    }
    assert(digits.take(i - start) =~= digits);
    Some(n)
}

/// The walk ceiling, given the value of the variable that overrides it. A
/// value that is absent, unreadable or zero takes the default: a typing error
/// must not break a walk that was fine.
pub fn max_graph_objects(raw: Option<&str>) -> (r: usize)
    ensures
        r == ceiling_of(
            match raw {
                Some(s) => Some(s@),
                None => None,
            },
        ),
{
    match raw {
        None => DEFAULT_MAX_GRAPH_OBJECTS,
        Some(s) => {
            let t = trim(s);
            match parse_decimal(t.as_str()) {
                Some(n) => if n > 0 {
                    n
                } else {
                    DEFAULT_MAX_GRAPH_OBJECTS
                },
                None => DEFAULT_MAX_GRAPH_OBJECTS,
            }
        },
    }
}

/// How a walk over more than `limit` objects is refused.
pub open spec fn over_ceiling(limit: nat) -> Seq<char> {
    "object graph walk reached this build's ceiling of "@ + decimal(limit)
        + " objects. The repository is not corrupt; this is a memory bound on the WALK, not a bound on any object, and no object was found damaged. Re-run with "@
        + MAX_GRAPH_OBJECTS_ENV@ + "=<n> above "@ + decimal(limit)
        + " (the walk holds roughly 100 bytes per object, so budget that much RAM), or reduce what is reachable -- `forge gc --dry-run` reports it -- and re-run. See docs/GC.md."@
}

/// The refusal of a walk over more than `limit` objects: `Invalid`, never
/// `Corrupt`.
pub fn walk_limit_exceeded(limit: usize) -> (e: Error)
    ensures
        e matches Error::Invalid(msg) && msg@ == over_ceiling(limit as nat),
{
    let n = decimal_text(limit as u64);
    let mut msg = "object graph walk reached this build's ceiling of ".to_string();
    msg.append(n.as_str());
    msg.append(
        " objects. The repository is not corrupt; this is a memory bound on the WALK, not a bound on any object, and no object was found damaged. Re-run with ",
    );
    msg.append(MAX_GRAPH_OBJECTS_ENV);
    msg.append("=<n> above ");
    msg.append(n.as_str());
    msg.append(
        " (the walk holds roughly 100 bytes per object, so budget that much RAM), or reduce what is reachable -- `forge gc --dry-run` reports it -- and re-run. See docs/GC.md.",
    );
    Error::Invalid(msg)
}

/// The types that an edge admits.
#[derive(Clone, Copy, Debug, PartialEq, Eq, Structural)]
pub enum GraphExpectation {
    Any,
    Exact(ObjectType),
    TreeEntry,
}

/// How an edge to an object of the wrong type is reported.
pub open spec fn mistyped(
    expected: GraphExpectation,
    actual: ObjectType,
    id: ObjectId,
    resource: Seq<char>,
) -> Seq<char> {
    "typed edge "@ + resource + " expected "@ + expected.words() + ", found "@ + actual.name()
        + " at "@ + hex_of(id@)
}

impl GraphExpectation {
    /// An object of the type may be at the end of the edge.
    pub open spec fn admits(self, actual: ObjectType) -> bool {
        match self {
            GraphExpectation::Any => true,
            GraphExpectation::Exact(expected) => actual == expected,
            GraphExpectation::TreeEntry => actual == ObjectType::Blob || actual
                == ObjectType::Tree,
        }
    }

    pub fn accepts(self, actual: ObjectType) -> (r: bool)
        ensures
            r == self.admits(actual),
    {
        match self {
            GraphExpectation::Any => true,
            GraphExpectation::Exact(expected) => actual == expected,
            GraphExpectation::TreeEntry => actual == ObjectType::Blob || actual
                == ObjectType::Tree,
        }
    }

    /// What is expected, in words.
    pub open spec fn words(self) -> Seq<char> {
        match self {
            GraphExpectation::Any => "any object"@,
            GraphExpectation::Exact(expected) => expected.name(),
            GraphExpectation::TreeEntry => "blob or tree"@,
        }
    }

    pub fn description(self) -> (r: &'static str)
        ensures
            r@ == self.words(),
    {
        match self {
            GraphExpectation::Any => "any object",
            GraphExpectation::Exact(expected) => expected.as_str(),
            GraphExpectation::TreeEntry => "blob or tree",
        }
    }

    /// Check the type at the end of an edge.
    pub fn verify(self, actual: ObjectType, id: ObjectId, resource: &str) -> (r: Result<(), Error>)
        ensures
            match r {
                Ok(_) => self.admits(actual),
                Err(e) => !self.admits(actual) && (e matches Error::Corrupt(msg) && msg@
                    == mistyped(self, actual, id, resource@)),
            },
    {
        if self.accepts(actual) {
            Ok(())
        } else {
            let mut msg = "typed edge ".to_string();
            msg.append(resource);
            msg.append(" expected ");
            msg.append(self.description());
            msg.append(", found ");
            msg.append(actual.as_str());
            msg.append(" at ");
            msg.append(id.hex().as_str());
            Err(Error::Corrupt(msg))
        }
    }

    /// A number that tells expectations apart.
    pub open spec fn number(self) -> u8 {
        match self {
            GraphExpectation::Any => 0,
            GraphExpectation::Exact(ty) => ty.tag(),
            GraphExpectation::TreeEntry => 255,
        }
    }
}

fn expectation_key(expectation: GraphExpectation) -> (r: u8)
    ensures
        r == expectation.number(),
{
    match expectation {
        GraphExpectation::Any => 0,
        GraphExpectation::Exact(object_type) => object_type.to_u8(),
        GraphExpectation::TreeEntry => 255,
    }
}

/// A reference from one object to another.
#[derive(Clone, Debug, PartialEq, Eq)]
pub struct GraphEdge {
    pub id: ObjectId,
    pub expected: GraphExpectation,
    pub resource: String,
}

/// A `GraphEdge` as a value.
pub struct EdgeValue {
    pub id: ObjectId,
    pub expected: GraphExpectation,
    pub resource: Seq<char>,
}

impl View for GraphEdge {
    type V = EdgeValue;

    open spec fn view(&self) -> EdgeValue {
        EdgeValue { id: self.id, expected: self.expected, resource: self.resource@ }
    }
}

/// The values of some edges.
pub open spec fn edge_values(s: Seq<GraphEdge>) -> Seq<EdgeValue> {
    Seq::new(s.len(), |i: int| s[i]@)
}

/// An object's type with what it refers to.
#[derive(Clone, Debug, PartialEq, Eq)]
pub struct DecodedGraphObject {
    pub object_type: ObjectType,
    pub edges: Vec<GraphEdge>,
}

/// An object that a walk has read and checked.
#[derive(Clone, Copy, Debug, PartialEq, Eq)]
pub struct VerifiedGraphObject {
    pub id: ObjectId,
    pub object_type: ObjectType,
}

/// How many constraints the lists of some ids hold.
pub open spec fn constraint_count(ps: Seq<(ObjectId, Vec<u8>)>) -> nat
    decreases ps.len(),
{
    if ps.len() == 0 {
        0
    } else {
        constraint_count(ps.drop_last()) + ps.last().1@.len()
    }
}

/// A queue of edges to visit, each constraint on an object once. Repeated
/// edges cost nothing; different expectations of one object are all kept.
pub struct GraphWorkQueue {
    queue: VecDeque<GraphEdge>,
    scheduled: IdMap<Vec<u8>>,
    limit: usize,
}

/// The numbers of expectations, each at most once.
pub open spec fn proper_keys(ks: Seq<u8>) -> bool {
    ks.no_duplicates() && forall|i: int| 0 <= i < ks.len() ==> #[trigger] ks[i] <= 6 || ks[i] == 255
}

proof fn lemma_few_keys(ks: Seq<u8>)
    requires
        proper_keys(ks),
    ensures
        ks.len() <= 8,
{
    let all: Set<u8> = set![0u8, 1u8, 2u8, 3u8, 4u8, 5u8, 6u8, 255u8];
    ks.unique_seq_to_set();
    assert(ks.to_set().subset_of(all));
    assert(all.len() == 8);
    vstd::set_lib::lemma_len_subset(ks.to_set(), all);
}

proof fn lemma_count_update(ps: Seq<(ObjectId, Vec<u8>)>, i: int, x: (ObjectId, Vec<u8>))
    requires
        0 <= i < ps.len(),
    ensures
        constraint_count(ps.update(i, x)) + ps[i].1@.len() == constraint_count(ps) + x.1@.len(),
    decreases ps.len(),
{
    if i == ps.len() - 1 {
        assert(ps.update(i, x).drop_last() =~= ps.drop_last());
    } else {
        lemma_count_update(ps.drop_last(), i, x);
        assert(ps.update(i, x).drop_last() =~= ps.drop_last().update(i, x));
    }
}

proof fn lemma_count_bound(ps: Seq<(ObjectId, Vec<u8>)>)
    requires
        forall|i: int| 0 <= i < ps.len() ==> proper_keys((#[trigger] ps[i]).1@),
    ensures
        constraint_count(ps) <= 8 * ps.len(),
    decreases ps.len(),
{
    if ps.len() > 0 {
        lemma_count_bound(ps.drop_last());
        assert(proper_keys(ps[ps.len() - 1].1@));
        lemma_few_keys(ps[ps.len() - 1].1@);
    }
}

impl GraphWorkQueue {
    #[verifier::type_invariant]
    spec fn inv(self) -> bool {
        &&& self.scheduled.pairs().len() <= self.limit
        &&& ids_differ(self.scheduled.pairs())
        &&& forall|i: int|
            0 <= i < self.scheduled.pairs().len() ==> proper_keys(
                (#[trigger] self.scheduled.pairs()[i]).1@,
            )
    }

    /// The edges that wait, in their order.
    pub closed spec fn waiting(self) -> Seq<EdgeValue> {
        edge_values(self.queue@)
    }

    /// The objects that some edge has named, in the order in which they came,
    /// each with the numbers of the expectations of it.
    pub closed spec fn named(self) -> Seq<(ObjectId, Vec<u8>)> {
        self.scheduled.pairs()
    }

    /// Some edge has named the object.
    pub closed spec fn knows(self, id: ObjectId) -> bool {
        self.scheduled.has(id)
    }

    /// Some edge has asked for the object with this expectation.
    pub closed spec fn asked(self, id: ObjectId, key: u8) -> bool {
        self.scheduled.has(id) && self.scheduled.at(id)@.contains(key)
    }

    /// Most objects that edges may name.
    pub closed spec fn ceiling(self) -> usize {
        self.limit
    }

    /// A queue with a ceiling on the objects that edges name.
    pub fn with_limit(limit: usize) -> (r: Self)
        ensures
            r.ceiling() == limit,
            r.waiting() == Seq::<EdgeValue>::empty(),
            r.named() == Seq::<(ObjectId, Vec<u8>)>::empty(),
            forall|id: ObjectId| !(#[trigger] r.knows(id)),
            forall|id: ObjectId, key: u8| !(#[trigger] r.asked(id, key)),
    {
        let r = GraphWorkQueue { queue: VecDeque::new(), scheduled: IdMap::new(), limit };
        assert(r.waiting() =~= Seq::<EdgeValue>::empty());
        r
    }

    pub fn limit(&self) -> (r: usize)
        ensures
            r == self.ceiling(),
    {
        self.limit
    }

    /// How many edges wait.
    pub fn waiting_len(&self) -> (n: usize)
        ensures
            n == self.waiting().len(),
    {
        self.queue.len()
    }

    /// How many objects edges have named.
    pub fn named_len(&self) -> (n: usize)
        ensures
            n == self.named().len(),
    {
        self.scheduled.len()
    }

    /// How many constraints edges have set.
    pub fn constraints_len(&self) -> (n: u128)
        ensures
            n == constraint_count(self.named()),
    {
        let mut n: u128 = 0;
        let mut i: usize = 0;
        let count = self.scheduled.len();
        let ghost ps = self.named();
        assert(ps.take(0) =~= Seq::<(ObjectId, Vec<u8>)>::empty());
        while i < count
            invariant
                i <= count,
                count == ps.len(),
                ps == self.scheduled.pairs(),
                n == constraint_count(ps.take(i as int)),
                n <= i * usize::MAX,
            decreases count - i,
        {
            proof {
                assert(ps.take(i + 1).drop_last() =~= ps.take(i as int));
                assert(i * usize::MAX + usize::MAX == (i + 1) * usize::MAX) by (nonlinear_arith);
                assert((i + 1) * usize::MAX <= usize::MAX * usize::MAX) by (nonlinear_arith)
                    requires
                        i + 1 <= usize::MAX,
                ;
                assert(usize::MAX * usize::MAX <= u128::MAX) by (nonlinear_arith)
                    requires
                        usize::MAX <= 0xffff_ffff_ffff_ffff,
                ;
            }
            n = n + self.scheduled.value(i).len() as u128;
            i += 1;
        }
        assert(ps.take(i as int) =~= ps);
        n
    }

    /// Add an edge, unless its object has been asked for with the same
    /// expectation. An object beyond the ceiling is refused.
    pub fn schedule(&mut self, edge: GraphEdge) -> (r: Result<bool, Error>)
        ensures
            scheduled_as(*old(self), *final(self), edge@, r),
    {
        proof {
            use_type_invariant(&*self);
        }
        let key: u8 = expectation_key(edge.expected);
        let known = self.scheduled.len();
        let mut keys: Vec<u8> = Vec::new();
        match self.scheduled.get(&edge.id) {
            Some(list) => {
                let mut i: usize = 0;
                while i < list.len()
                    invariant
                        i <= list@.len(),
                        keys@ == list@.take(i as int),
                        self.scheduled == old(self).scheduled,
                        self.limit == old(self).limit,
                        self.queue == old(self).queue,
                        self.scheduled.has(edge.id),
                        *list == self.scheduled.at(edge.id),
                        forall|j: int| 0 <= j < i ==> list@[j] != key,
                        self.inv(),
                        key == edge.expected.number(),
                    decreases list@.len() - i,
                {
                    if list[i] == key {
                        assert(list@.contains(key));
                        return Ok(false);
                    }
                    keys.push(list[i]);
                    assert(keys@ =~= list@.take(i + 1));
                    i += 1;
                }
                assert(keys@ =~= list@);
            },
            None => {
                if known >= self.limit {
                    return Err(walk_limit_exceeded(self.limit));
                }
            },
        }
        let ghost had = self.scheduled.has(edge.id);
        let ghost list = keys@;
        keys.push(key);
        let ghost before = self.scheduled;
        let ghost v = keys;
        let ghost waiting = self.waiting();
        let mut scheduled: IdMap<Vec<u8>> = IdMap::new();
        core::mem::swap(&mut self.scheduled, &mut scheduled);
        scheduled.insert(edge.id, keys);
        proof {
            lemma_insert(before, scheduled, edge.id, v);
            let ps = before.pairs();
            let p = id_place(ps, edge.id);
            assert(proper_keys(v@)) by {
                if had {
                    assert(proper_keys(ps[p].1@));
                    assert forall|a: int, b: int| 0 <= a < b < v@.len() implies v@[a] != v@[b] by {
                        if b < list.len() {
                            assert(list[a] != list[b]);
                        }
                    }
                }
                assert(v@.no_duplicates());
            }
            assert forall|i: int| 0 <= i < scheduled.pairs().len() implies proper_keys(
                (#[trigger] scheduled.pairs()[i]).1@,
            ) by {
                if i < ps.len() {
                    assert(proper_keys(ps[i].1@));
                }
            }
            if had {
                lemma_count_update(ps, p, (edge.id, v));
            } else {
                assert(scheduled.pairs().drop_last() =~= ps);
            }
            lemma_count_bound(scheduled.pairs());
        }
        self.scheduled = scheduled;
        let mut queue: VecDeque<GraphEdge> = VecDeque::new();
        core::mem::swap(&mut self.queue, &mut queue);
        queue.push_back(edge);
        self.queue = queue;
        proof {
            assert(self.waiting() =~= waiting.push(edge@));
            assert forall|id: ObjectId, k: u8| #[trigger] self.asked(id, k) <==> old(self).asked(
                id,
                k,
            ) || (id == edge.id && k == key) by {
                if id == edge.id {
                    assert(v@ == list.push(key));
                    assert(v@.contains(k) <==> list.contains(k) || k == key) by {
                        if list.contains(k) {
                            let j = choose|j: int| 0 <= j < list.len() && list[j] == k;
                            assert(v@[j] == k);
                        }
                        assert(v@[list.len() as int] == key);
                    }
                }
            }
        }
        Ok(true)
    }

    /// Take the edge that has waited longest.
    pub fn pop_front(&mut self) -> (r: Option<GraphEdge>)
        ensures
            popped_as(
                *old(self),
                *final(self),
                match r {
                    Some(e) => Some(e@),
                    None => None,
                },
            ),
    {
        proof {
            use_type_invariant(&*self);
        }
        let ghost waiting = self.waiting();
        let mut queue: VecDeque<GraphEdge> = VecDeque::new();
        core::mem::swap(&mut self.queue, &mut queue);
        let r = queue.pop_front();
        self.queue = queue;
        proof {
            if waiting.len() > 0 {
                assert(self.waiting() =~= waiting.skip(1));
            }
        }
        r
    }
}

/// What adding an edge does to a queue: nothing where its object has been asked for with
/// the same expectation or is beyond the ceiling; else the edge waits behind all others.
pub open spec fn scheduled_as(
    before: GraphWorkQueue,
    after: GraphWorkQueue,
    edge: EdgeValue,
    r: Result<bool, Error>,
) -> bool {
    let key = edge.expected.number();
    &&& after.ceiling() == before.ceiling()
    &&& if before.asked(edge.id, key) {
        r == Ok::<bool, Error>(false) && after == before
    } else if !before.knows(edge.id) && before.named().len() >= before.ceiling() {
        &&& r matches Err(Error::Invalid(msg)) && msg@ == over_ceiling(before.ceiling() as nat)
        &&& after == before
    } else {
        &&& r == Ok::<bool, Error>(true)
        &&& after.waiting() == before.waiting().push(edge)
        &&& forall|id: ObjectId| #[trigger]
            after.knows(id) <==> before.knows(id) || id == edge.id
        &&& forall|id: ObjectId, k: u8| #[trigger]
            after.asked(id, k) <==> before.asked(id, k) || (id == edge.id && k == key)
        &&& after.named().len() == before.named().len() + (if before.knows(edge.id) {
            0int
        } else {
            1int
        })
        &&& constraint_count(after.named()) == constraint_count(before.named()) + 1
        &&& constraint_count(after.named()) <= 8 * after.ceiling()
    }
}

/// What taking an edge does to a queue: the edge that has waited longest leaves, and
/// nothing that was asked for is forgotten.
pub open spec fn popped_as(
    before: GraphWorkQueue,
    after: GraphWorkQueue,
    r: Option<EdgeValue>,
) -> bool {
    &&& after.ceiling() == before.ceiling()
    &&& after.named() == before.named()
    &&& forall|id: ObjectId| #[trigger] after.knows(id) == before.knows(id)
    &&& forall|id: ObjectId, k: u8| #[trigger] after.asked(id, k) == before.asked(id, k)
    &&& match r {
        Some(e) => before.waiting().len() > 0 && e == before.waiting()[0] && after.waiting()
            == before.waiting().skip(1),
        None => before.waiting().len() == 0 && after.waiting() == before.waiting(),
    }
}

/// A call on a queue, with what it returned.
pub enum QueueCall {
    Schedule(EdgeValue, Result<bool, Error>),
    Pop(Option<EdgeValue>),
}

/// What a call does to a queue.
pub open spec fn called(before: GraphWorkQueue, after: GraphWorkQueue, c: QueueCall) -> bool {
    match c {
        QueueCall::Schedule(edge, r) => scheduled_as(before, after, edge, r),
        QueueCall::Pop(r) => popped_as(before, after, r),
    }
}

/// A queue that nothing was asked of yet, and its states through a sequence of calls.
pub open spec fn queue_history(qs: Seq<GraphWorkQueue>, calls: Seq<QueueCall>) -> bool {
    &&& qs.len() == calls.len() + 1
    &&& qs[0].waiting() == Seq::<EdgeValue>::empty()
    &&& forall|id: ObjectId, k: u8| !(#[trigger] qs[0].asked(id, k))
    &&& forall|i: int| 0 <= i < calls.len() ==> called(qs[i], qs[i + 1], #[trigger] calls[i])
}

/// The edges that were accepted, in the order in which they came.
pub open spec fn accepted_edges(calls: Seq<QueueCall>) -> Seq<EdgeValue>
    decreases calls.len(),
{
    if calls.len() == 0 {
        Seq::<EdgeValue>::empty()
    } else {
        let before = accepted_edges(calls.drop_last());
        match calls.last() {
            QueueCall::Schedule(edge, r) => if r == Ok::<bool, Error>(true) {
                before.push(edge)
            } else {
                before
            },
            QueueCall::Pop(_) => before,
        }
    }
}

/// The edges that were handed out, in their order.
pub open spec fn handed_edges(calls: Seq<QueueCall>) -> Seq<EdgeValue>
    decreases calls.len(),
{
    if calls.len() == 0 {
        Seq::<EdgeValue>::empty()
    } else {
        let before = handed_edges(calls.drop_last());
        match calls.last() {
            QueueCall::Pop(Some(edge)) => before.push(edge),
            _ => before,
        }
    }
}

/// An edge among these asks for the object with the expectation of this number.
pub open spec fn asks(es: Seq<EdgeValue>, id: ObjectId, key: u8) -> bool {
    exists|i: int| 0 <= i < es.len() && (#[trigger] es[i]).id == id && es[i].expected.number() == key
}

/// Whatever the calls on a queue: what it has handed out, and behind that what still
/// waits, are the edges that it accepted, in that order and each once. What it has
/// accepted, handed out or not, is what counts as asked for, and no two accepted edges
/// ask for one object with one expectation.
pub proof fn lemma_queue_history(qs: Seq<GraphWorkQueue>, calls: Seq<QueueCall>)
    requires
        queue_history(qs, calls),
    ensures
        handed_edges(calls) + qs.last().waiting() == accepted_edges(calls),
        forall|id: ObjectId, k: u8| #[trigger]
            qs.last().asked(id, k) <==> asks(accepted_edges(calls), id, k),
        forall|i: int, j: int|
            0 <= i < j < accepted_edges(calls).len() ==> !((#[trigger] accepted_edges(calls)[i]).id
                == (#[trigger] accepted_edges(calls)[j]).id && accepted_edges(
                calls,
            )[i].expected.number() == accepted_edges(calls)[j].expected.number()),
    decreases calls.len(),
{
    if calls.len() == 0 {
        assert(handed_edges(calls) + qs.last().waiting() =~= accepted_edges(calls));
    } else {
        let q0 = qs.drop_last();
        let c0 = calls.drop_last();
        let call = calls.last();
        assert forall|i: int| 0 <= i < c0.len() implies called(
            q0[i],
            q0[i + 1],
            #[trigger] c0[i],
        ) by {
            assert(c0[i] == calls[i]);
        }
        lemma_queue_history(q0, c0);
        let n = calls.len() - 1;
        assert(called(qs[n], qs[n + 1], calls[n]));
        let before = q0.last();
        let after = qs.last();
        let had = accepted_edges(c0);
        let has = accepted_edges(calls);
        match call {
            QueueCall::Schedule(edge, r) => {
                if r == Ok::<bool, Error>(true) {
                    assert(handed_edges(calls) + after.waiting() =~= has);
                    assert forall|id: ObjectId, k: u8| #[trigger] after.asked(id, k) <==> asks(
                        has,
                        id,
                        k,
                    ) by {
                        assert(before.asked(id, k) <==> asks(had, id, k));
                        if asks(had, id, k) {
                            let i = choose|i: int|
                                0 <= i < had.len() && (#[trigger] had[i]).id == id
                                    && had[i].expected.number() == k;
                            assert(has[i] == had[i]);
                        }
                        if id == edge.id && k == edge.expected.number() {
                            assert(has[had.len() as int] == edge);
                        }
                        if asks(has, id, k) {
                            let i = choose|i: int|
                                0 <= i < has.len() && (#[trigger] has[i]).id == id
                                    && has[i].expected.number() == k;
                            if i < had.len() {
                                assert(had[i] == has[i]);
                            }
                        }
                    }
                    assert forall|i: int, j: int| 0 <= i < j < has.len() implies !((
                    #[trigger] has[i]).id == (#[trigger] has[j]).id && has[i].expected.number()
                        == has[j].expected.number()) by {
                        assert(has[i] == had[i]);
                        if j < had.len() {
                            assert(has[j] == had[j]);
                        } else if has[i].id == edge.id && has[i].expected.number()
                            == edge.expected.number() {
                            assert(asks(had, edge.id, edge.expected.number()));
                            assert(before.asked(edge.id, edge.expected.number()));
                        }
                    }
                }
            },
            QueueCall::Pop(r) => {
                if r is Some {
                    assert(handed_edges(calls) + after.waiting() =~= handed_edges(c0)
                        + before.waiting());
                }
            },
        }
    }
}

impl Default for GraphWorkQueue {
    fn default() -> (r: Self)
        ensures
            r.ceiling() == DEFAULT_MAX_GRAPH_OBJECTS,
            r.waiting() == Seq::<EdgeValue>::empty(),
            r.named() == Seq::<(ObjectId, Vec<u8>)>::empty(),
            forall|id: ObjectId| !(#[trigger] r.knows(id)),
            forall|id: ObjectId, key: u8| !(#[trigger] r.asked(id, key)),
    {
        GraphWorkQueue::with_limit(DEFAULT_MAX_GRAPH_OBJECTS)
    }
}

/// How an object refers to another: its type, its id and the part of it.
pub open spec fn label(kind: Seq<char>, id: ObjectId, what: Seq<char>) -> Seq<char> {
    kind + ":"@ + hex_of(id@) + ":"@ + what
}

fn label_text(kind: &str, id: &ObjectId, what: &str) -> (r: String)
    ensures
        r@ == label(kind@, *id, what@),
{
    let mut s = kind.to_string();
    s.append(":");
    s.append(id.hex().as_str());
    s.append(":");
    s.append(what);
    s
}

/// An edge to an object of one type.
pub open spec fn exact_edge(id: ObjectId, ty: ObjectType, resource: Seq<char>) -> EdgeValue {
    EdgeValue { id, expected: GraphExpectation::Exact(ty), resource }
}

/// Edges to objects of one type.
pub open spec fn exact_edges(
    ids: Seq<ObjectId>,
    ty: ObjectType,
    resource: Seq<char>,
) -> Seq<EdgeValue> {
    Seq::new(ids.len(), |i: int| exact_edge(ids[i], ty, resource))
}

/// The type of object that an entry names.
pub open spec fn entry_type(kind: EntryKind) -> ObjectType {
    match kind {
        EntryKind::Blob => ObjectType::Blob,
        EntryKind::Tree => ObjectType::Tree,
    }
}

/// What a tree refers to: its entries.
pub open spec fn tree_edges(id: ObjectId, t: Seq<Entry>) -> Seq<EdgeValue> {
    Seq::new(
        t.len(),
        |i: int| exact_edge(t[i].id, entry_type(t[i].kind), label("tree"@, id, t[i].name)),
    )
}

/// What a commit refers to: its tree, its parents and its contribution.
pub open spec fn commit_edges(id: ObjectId, c: CommitValue) -> Seq<EdgeValue> {
    seq![exact_edge(c.tree, ObjectType::Tree, label("commit"@, id, "tree"@))] + exact_edges(
        c.parents,
        ObjectType::Commit,
        label("commit"@, id, "parent"@),
    ) + (match c.contribution {
        Some(x) => seq![
            exact_edge(x, ObjectType::Contribution, label("commit"@, id, "contribution"@)),
        ],
        None => Seq::<EdgeValue>::empty(),
    })
}

/// An edge to an object of any type, if there is one.
pub open spec fn any_edge(id: Option<ObjectId>, resource: Seq<char>) -> Seq<EdgeValue> {
    match id {
        Some(id) => seq![EdgeValue { id, expected: GraphExpectation::Any, resource }],
        None => Seq::<EdgeValue>::empty(),
    }
}

/// What the paths of a conflict refer to.
pub open spec fn path_edges(id: ObjectId, ps: Seq<PathValue>) -> Seq<EdgeValue>
    decreases ps.len(),
{
    if ps.len() == 0 {
        Seq::<EdgeValue>::empty()
    } else {
        let p = ps.last();
        let resource = label("conflict"@, id, "path:"@ + p.path);
        path_edges(id, ps.drop_last()) + any_edge(p.a, resource) + any_edge(p.b, resource)
            + any_edge(p.base, resource)
    }
}

/// What a conflict refers to.
pub open spec fn conflict_edges(id: ObjectId, c: ConflictValue) -> Seq<EdgeValue> {
    exact_edges(c.bases, ObjectType::Tree, label("conflict"@, id, "base"@)) + seq![
        exact_edge(c.ours, ObjectType::Tree, label("conflict"@, id, "ours"@)),
    ] + seq![exact_edge(c.theirs, ObjectType::Tree, label("conflict"@, id, "theirs"@))]
        + exact_edges(c.causal, ObjectType::Commit, label("conflict"@, id, "causal"@))
        + path_edges(id, c.paths)
}

/// What a snapshot refers to.
pub open spec fn snapshot_edges(id: ObjectId, s: SnapshotValue) -> Seq<EdgeValue> {
    seq![
        exact_edge(s.tree, ObjectType::Tree, label("snapshot"@, id, "tree"@)),
        exact_edge(s.commit, ObjectType::Commit, label("snapshot"@, id, "commit"@)),
        exact_edge(s.prov, ObjectType::Blob, label("snapshot"@, id, "provenance"@)),
    ]
}

/// What the reads of a contribution refer to.
pub open spec fn read_edges(id: ObjectId, rs: Seq<ReadValue>) -> Seq<EdgeValue> {
    Seq::new(
        rs.len(),
        |i: int|
            exact_edge(
                rs[i].id,
                ObjectType::Blob,
                label("contribution"@, id, "read:"@ + rs[i].path),
            ),
    )
}

/// What a contribution refers to.
pub open spec fn contribution_edges(id: ObjectId, c: ContributionValue) -> Seq<EdgeValue> {
    seq![
        exact_edge(c.base, ObjectType::Commit, label("contribution"@, id, "base"@)),
        exact_edge(c.tree, ObjectType::Tree, label("contribution"@, id, "tree"@)),
    ] + exact_edges(c.parents, ObjectType::Commit, label("contribution"@, id, "parent"@))
        + read_edges(id, c.reads)
}

/// The bytes are a canonical object of the type, which under the given id has
/// the given edges.
pub open spec fn refers(id: ObjectId, b: Seq<u8>, ty: ObjectType, edges: Seq<EdgeValue>) -> bool {
    match ty {
        ObjectType::Blob => edges == Seq::<EdgeValue>::empty() && exists|d: Seq<u8>|
            #[trigger] blob_bytes(d) == b,
        ObjectType::Tree => exists|t: Seq<Entry>|
            canonical(t) && t.len() <= MAX_TREE_ENTRIES && #[trigger] tree_bytes(t) == b && edges
                == tree_edges(id, t),
        ObjectType::Commit => exists|c: CommitValue|
            commit_valid(c) && #[trigger] commit_bytes(c) == b && edges == commit_edges(id, c),
        ObjectType::Conflict => exists|f: ConflictForm|
            form_valid(f) && #[trigger] conflict_form_bytes(f) == b && edges == conflict_edges(
                id,
                form_value(f),
            ),
        ObjectType::Snapshot => exists|s: SnapshotValue|
            snapshot_valid(s) && #[trigger] snapshot_bytes(s) == b && edges == snapshot_edges(
                id,
                s,
            ),
        ObjectType::Contribution => exists|c: ContributionValue|
            contribution_valid(c) && #[trigger] contribution_bytes(c) == b && edges
                == contribution_edges(id, c),
    }
}

/// What is wrong with bytes that are no canonical object.
pub open spec fn graph_fault(b: Seq<u8>) -> Fault {
    if b.len() == 0 {
        type_fault(b)
    } else {
        match type_of(b[0]) {
            Some(ObjectType::Blob) => blob_fault(b),
            Some(ObjectType::Tree) => tree_fault(b),
            Some(ObjectType::Commit) => commit_fault(b),
            Some(ObjectType::Conflict) => conflict_fault(b),
            Some(ObjectType::Snapshot) => snapshot_fault(b),
            Some(ObjectType::Contribution) => contribution_fault(b),
            None => type_fault(b),
        }
    }
}

/// How bytes that are no canonical object are refused.
pub open spec fn ill_formed(b: Seq<u8>, e: Error) -> bool {
    told(e, graph_fault(b))
}

/// An object opens with the byte of its type.
pub proof fn lemma_refers_type(id: ObjectId, b: Seq<u8>, ty: ObjectType, edges: Seq<EdgeValue>)
    requires
        refers(id, b, ty, edges),
    ensures
        b.len() > 0,
        b[0] == ty.tag(),
{
}

/// Bytes are of one type and have one list of edges.
pub proof fn lemma_refers_unique(
    id: ObjectId,
    b: Seq<u8>,
    ty: ObjectType,
    edges: Seq<EdgeValue>,
    ty2: ObjectType,
    edges2: Seq<EdgeValue>,
)
    requires
        refers(id, b, ty, edges),
        refers(id, b, ty2, edges2),
    ensures
        ty == ty2,
        edges == edges2,
{
    lemma_refers_type(id, b, ty, edges);
    lemma_refers_type(id, b, ty2, edges2);
    lemma_tag_injective(ty, ty2);
    match ty {
        ObjectType::Blob => {},
        ObjectType::Tree => {
            let t = choose|t: Seq<Entry>|
                canonical(t) && t.len() <= MAX_TREE_ENTRIES && #[trigger] tree_bytes(t) == b
                    && edges == tree_edges(id, t);
            let u = choose|t: Seq<Entry>|
                canonical(t) && t.len() <= MAX_TREE_ENTRIES && #[trigger] tree_bytes(t) == b
                    && edges2 == tree_edges(id, t);
            lemma_tree_unique(t, u);
        },
        ObjectType::Commit => {
            let t = choose|c: CommitValue|
                commit_valid(c) && #[trigger] commit_bytes(c) == b && edges == commit_edges(id, c);
            let u = choose|c: CommitValue|
                commit_valid(c) && #[trigger] commit_bytes(c) == b && edges2 == commit_edges(id, c);
            lemma_commit_unique(t, u);
        },
        ObjectType::Conflict => {
            let t = choose|f: ConflictForm|
                form_valid(f) && #[trigger] conflict_form_bytes(f) == b && edges == conflict_edges(
                    id,
                    form_value(f),
                );
            let u = choose|f: ConflictForm|
                form_valid(f) && #[trigger] conflict_form_bytes(f) == b && edges2 == conflict_edges(
                    id,
                    form_value(f),
                );
            lemma_conflict_unique(t, u);
        },
        ObjectType::Snapshot => {
            let t = choose|s: SnapshotValue|
                snapshot_valid(s) && #[trigger] snapshot_bytes(s) == b && edges == snapshot_edges(
                    id,
                    s,
                );
            let u = choose|s: SnapshotValue|
                snapshot_valid(s) && #[trigger] snapshot_bytes(s) == b && edges2 == snapshot_edges(
                    id,
                    s,
                );
            lemma_snapshot_unique(t, u);
        },
        ObjectType::Contribution => {
            let t = choose|c: ContributionValue|
                contribution_valid(c) && #[trigger] contribution_bytes(c) == b && edges
                    == contribution_edges(id, c);
            let u = choose|c: ContributionValue|
                contribution_valid(c) && #[trigger] contribution_bytes(c) == b && edges2
                    == contribution_edges(id, c);
            lemma_contribution_len(t);
            lemma_contribution_len(u);
            lemma_contribution_unique(t, u);
        },
    }
}

fn push_exact(edges: &mut Vec<GraphEdge>, id: ObjectId, ty: ObjectType, resource: String)
    ensures
        edge_values(final(edges)@) == edge_values(old(edges)@) + seq![
            exact_edge(id, ty, resource@),
        ],
{
    edges.push(GraphEdge { id, expected: GraphExpectation::Exact(ty), resource });
    assert(edge_values(edges@) =~= edge_values(old(edges)@) + seq![exact_edge(id, ty, resource@)]);
}

fn push_all(edges: &mut Vec<GraphEdge>, ids: &Vec<ObjectId>, ty: ObjectType, resource: &str)
    ensures
        edge_values(final(edges)@) == edge_values(old(edges)@) + exact_edges(
            ids@,
            ty,
            resource@,
        ),
{
    let mut i: usize = 0;
    assert(edge_values(edges@) =~= edge_values(old(edges)@) + exact_edges(
        ids@.take(0),
        ty,
        resource@,
    ));
    while i < ids.len()
        invariant
            i <= ids@.len(),
            edge_values(edges@) == edge_values(old(edges)@) + exact_edges(
                ids@.take(i as int),
                ty,
                resource@,
            ),
        decreases ids@.len() - i,
    {
        push_exact(edges, ids[i], ty, resource.to_string());
        proof {
            assert(edge_values(edges@) =~= edge_values(old(edges)@) + exact_edges(
                ids@.take(i + 1),
                ty,
                resource@,
            ));
        }
        i += 1;
    }
    assert(ids@.take(i as int) =~= ids@);
}

fn push_any(edges: &mut Vec<GraphEdge>, id: Option<ObjectId>, resource: &str)
    ensures
        edge_values(final(edges)@) == edge_values(old(edges)@) + any_edge(id, resource@),
{
    if let Some(id) = id {
        edges.push(GraphEdge { id, expected: GraphExpectation::Any, resource: resource.to_string() });
    }
    assert(edge_values(edges@) =~= edge_values(old(edges)@) + any_edge(id, resource@));
}

fn push_entries(edges: &mut Vec<GraphEdge>, id: &ObjectId, tree: &Tree)
    ensures
        edge_values(final(edges)@) == edge_values(old(edges)@) + tree_edges(*id, tree@),
{
    let mut i: usize = 0;
    assert(edge_values(edges@) =~= edge_values(old(edges)@) + tree_edges(*id, tree@.take(0)));
    while i < tree.entries.len()
        invariant
            i <= tree.entries@.len(),
            tree@.len() == tree.entries@.len(),
            edge_values(edges@) == edge_values(old(edges)@) + tree_edges(
                *id,
                tree@.take(i as int),
            ),
        decreases tree.entries@.len() - i,
    {
        let entry = &tree.entries[i];
        let expected = match entry.kind {
            EntryKind::Blob => ObjectType::Blob,
            EntryKind::Tree => ObjectType::Tree,
        };
        push_exact(edges, entry.id, expected, label_text("tree", id, entry.name.as_str()));
        proof {
            assert(tree@[i as int] == entry@);
            assert(edge_values(edges@) =~= edge_values(old(edges)@) + tree_edges(
                *id,
                tree@.take(i + 1),
            ));
        }
        i += 1;
    }
    assert(tree@.take(i as int) =~= tree@);
}

fn push_paths(edges: &mut Vec<GraphEdge>, id: &ObjectId, paths: &Vec<ConflictPath>)
    ensures
        edge_values(final(edges)@) == edge_values(old(edges)@) + path_edges(
            *id,
            path_values(paths@),
        ),
{
    let mut i: usize = 0;
    let ghost ps = path_values(paths@);
    assert(ps.take(0) =~= Seq::<PathValue>::empty());
    assert(edge_values(edges@) =~= edge_values(old(edges)@) + path_edges(*id, ps.take(0)));
    while i < paths.len()
        invariant
            i <= paths@.len(),
            ps == path_values(paths@),
            edge_values(edges@) == edge_values(old(edges)@) + path_edges(*id, ps.take(i as int)),
        decreases paths@.len() - i,
    {
        let path = &paths[i];
        let mut what = "path:".to_string();
        what.append(path.path.as_str());
        let resource = label_text("conflict", id, what.as_str());
        push_any(edges, path.a, resource.as_str());
        push_any(edges, path.b, resource.as_str());
        push_any(edges, path.base, resource.as_str());
        proof {
            let next = ps.take(i + 1);
            assert(next.drop_last() =~= ps.take(i as int));
            assert(next.last() == path@);
            assert(edge_values(edges@) =~= edge_values(old(edges)@) + path_edges(*id, next));
        }
        i += 1;
    }
    assert(ps.take(i as int) =~= ps);
}

fn push_reads(edges: &mut Vec<GraphEdge>, id: &ObjectId, reads: &Vec<ContributionRead>)
    ensures
        edge_values(final(edges)@) == edge_values(old(edges)@) + read_edges(*id, vals(reads@)),
{
    let mut i: usize = 0;
    let ghost rs = vals(reads@);
    assert(edge_values(edges@) =~= edge_values(old(edges)@) + read_edges(*id, rs.take(0)));
    while i < reads.len()
        invariant
            i <= reads@.len(),
            rs == vals(reads@),
            edge_values(edges@) == edge_values(old(edges)@) + read_edges(*id, rs.take(i as int)),
        decreases reads@.len() - i,
    {
        let read = &reads[i];
        let mut what = "read:".to_string();
        what.append(read.path.as_str());
        push_exact(
            edges,
            read.id,
            ObjectType::Blob,
            label_text("contribution", id, what.as_str()),
        );
        proof {
            assert(rs[i as int] == read@);
            assert(edge_values(edges@) =~= edge_values(old(edges)@) + read_edges(
                *id,
                rs.take(i + 1),
            ));
        }
        i += 1;
    }
    assert(rs.take(i as int) =~= rs);
}

/// Decode a canonical object and list everything that it refers to.
#[verifier::rlimit(60)]
pub fn decode_graph_object(id: ObjectId, bytes: &[u8]) -> (r: Result<DecodedGraphObject, Error>)
    ensures
        match r {
            Ok(d) => refers(id, bytes@, d.object_type, edge_values(d.edges@)) && edges_tell(
                bytes@,
                edge_values(d.edges@),
            ),
            Err(e) => ill_formed(bytes@, e) && forall|
                ty: ObjectType,
                edges: Seq<EdgeValue>,
            | !(#[trigger] refers(id, bytes@, ty, edges)),
        },
{
    proof {
        assert forall|ty: ObjectType, edges: Seq<EdgeValue>| #[trigger]
            refers(id, bytes@, ty, edges) implies bytes@.len() > 0 && bytes@[0] == ty.tag() by {
            lemma_refers_type(id, bytes@, ty, edges);
        }
    }
    let object_type = decode_object_type(bytes)?;
    proof {
        assert forall|ty: ObjectType, edges: Seq<EdgeValue>| #[trigger]
            refers(id, bytes@, ty, edges) implies ty == object_type by {
            lemma_tag_injective(ty, object_type);
        }
    }
    let mut edges: Vec<GraphEdge> = Vec::new();
    let ghost none = Seq::<EdgeValue>::empty();
    assert(edge_values(edges@) =~= none);
    match object_type {
        ObjectType::Blob => {
            let blob = Blob::decode(bytes)?;
            assert(blob_bytes(blob.data@) == bytes@);
        },
        ObjectType::Tree => {
            let tree = Tree::decode(bytes)?;
            push_entries(&mut edges, &id, &tree);
            assert(edge_values(edges@) =~= tree_edges(id, tree@));
        },
        ObjectType::Commit => {
            let commit = Commit::decode(bytes)?;
            push_exact(&mut edges, commit.tree, ObjectType::Tree, label_text("commit", &id, "tree"));
            push_all(
                &mut edges,
                &commit.parents,
                ObjectType::Commit,
                label_text("commit", &id, "parent").as_str(),
            );
            if let Some(contribution) = commit.contribution {
                push_exact(
                    &mut edges,
                    contribution,
                    ObjectType::Contribution,
                    label_text("commit", &id, "contribution"),
                );
            }
            proof {
                assert(edge_values(edges@) =~= commit_edges(id, commit@));
                assert(commit_bytes(commit@) == bytes@);
            }
        },
        ObjectType::Conflict => {
            let conflict = Conflict::decode(bytes)?;
            push_all(
                &mut edges,
                &conflict.bases,
                ObjectType::Tree,
                label_text("conflict", &id, "base").as_str(),
            );
            push_exact(
                &mut edges,
                conflict.ours,
                ObjectType::Tree,
                label_text("conflict", &id, "ours"),
            );
            push_exact(
                &mut edges,
                conflict.theirs,
                ObjectType::Tree,
                label_text("conflict", &id, "theirs"),
            );
            push_all(
                &mut edges,
                &conflict.causal,
                ObjectType::Commit,
                label_text("conflict", &id, "causal").as_str(),
            );
            push_paths(&mut edges, &id, &conflict.paths);
            proof {
                assert(edge_values(edges@) =~= conflict_edges(id, conflict@));
                let f = choose|f: ConflictForm| #[trigger]
                    form_valid(f) && form_value(f) == conflict@ && conflict_form_bytes(f)
                        == bytes@;
                assert(conflict_form_bytes(f) == bytes@);
            }
        },
        ObjectType::Snapshot => {
            let snapshot = Snapshot::decode(bytes)?;
            push_exact(
                &mut edges,
                snapshot.tree,
                ObjectType::Tree,
                label_text("snapshot", &id, "tree"),
            );
            push_exact(
                &mut edges,
                snapshot.commit,
                ObjectType::Commit,
                label_text("snapshot", &id, "commit"),
            );
            push_exact(
                &mut edges,
                snapshot.prov,
                ObjectType::Blob,
                label_text("snapshot", &id, "provenance"),
            );
            proof {
                assert(edge_values(edges@) =~= snapshot_edges(id, snapshot@));
                assert(snapshot_bytes(snapshot@) == bytes@);
            }
        },
        ObjectType::Contribution => {
            let contribution = Contribution::decode(bytes)?;
            push_exact(
                &mut edges,
                contribution.base,
                ObjectType::Commit,
                label_text("contribution", &id, "base"),
            );
            push_exact(
                &mut edges,
                contribution.tree,
                ObjectType::Tree,
                label_text("contribution", &id, "tree"),
            );
            push_all(
                &mut edges,
                &contribution.parents,
                ObjectType::Commit,
                label_text("contribution", &id, "parent").as_str(),
            );
            push_reads(&mut edges, &id, &contribution.reads);
            proof {
                assert(edge_values(edges@) =~= contribution_edges(id, contribution@));
                assert(contribution_bytes(contribution@) == bytes@);
            }
        },
    }
    proof {
        lemma_edges_tell(id, bytes@, object_type, edge_values(edges@));
    }
    Ok(DecodedGraphObject { object_type, edges })
}

/// An object is readable and canonical.
pub open spec fn well_formed(objects: Map<ObjectId, Seq<u8>>, id: ObjectId) -> bool {
    readable(objects, id) && exists|ty: ObjectType, edges: Seq<EdgeValue>| #[trigger]
        refers(id, objects[id], ty, edges)
}

/// The type and the edges of a well-formed object.
pub open spec fn shape(objects: Map<ObjectId, Seq<u8>>, id: ObjectId) -> (
    ObjectType,
    Seq<EdgeValue>,
) {
    choose|p: (ObjectType, Seq<EdgeValue>)| #[trigger] refers(id, objects[id], p.0, p.1)
}

/// The type of a well-formed object.
pub open spec fn type_at(objects: Map<ObjectId, Seq<u8>>, id: ObjectId) -> ObjectType {
    shape(objects, id).0
}

/// What an object refers to: nothing where it is not well-formed.
pub open spec fn edges_at(objects: Map<ObjectId, Seq<u8>>, id: ObjectId) -> Seq<EdgeValue> {
    if well_formed(objects, id) {
        shape(objects, id).1
    } else {
        Seq::<EdgeValue>::empty()
    }
}

proof fn lemma_shape(
    objects: Map<ObjectId, Seq<u8>>,
    id: ObjectId,
    ty: ObjectType,
    edges: Seq<EdgeValue>,
)
    requires
        readable(objects, id),
        refers(id, objects[id], ty, edges),
    ensures
        well_formed(objects, id),
        type_at(objects, id) == ty,
        edges_at(objects, id) == edges,
{
    let p = (ty, edges);
    assert(refers(id, objects[id], p.0, p.1));
    let q = shape(objects, id);
    lemma_refers_unique(id, objects[id], ty, edges, q.0, q.1);
}

/// Some edge leads from one object to another.
pub open spec fn points(objects: Map<ObjectId, Seq<u8>>, a: ObjectId, b: ObjectId) -> bool {
    exists|k: int| 0 <= k < edges_at(objects, a).len() && (#[trigger] edges_at(objects, a)[k]).id == b
}

/// An edge leads from a place of a sequence to the next.
pub open spec fn step(objects: Map<ObjectId, Seq<u8>>, p: Seq<ObjectId>, i: int) -> bool {
    points(objects, p[i], p[i + 1])
}

/// A sequence that follows edges from one object to another.
pub open spec fn route(
    objects: Map<ObjectId, Seq<u8>>,
    p: Seq<ObjectId>,
    from: ObjectId,
    to: ObjectId,
) -> bool {
    &&& p.len() > 0
    &&& p[0] == from
    &&& p.last() == to
    &&& forall|i: int| 0 <= i < p.len() - 1 ==> #[trigger] step(objects, p, i)
}

/// Edges lead from the root to the object.
pub open spec fn reachable(
    objects: Map<ObjectId, Seq<u8>>,
    root: ObjectId,
    id: ObjectId,
) -> bool {
    exists|p: Seq<ObjectId>| #[trigger] route(objects, p, root, id)
}

/// The root is reachable.
pub proof fn lemma_reach_root(objects: Map<ObjectId, Seq<u8>>, root: ObjectId)
    ensures
        reachable(objects, root, root),
{
    assert(route(objects, seq![root], root, root));
}

/// What a reachable object refers to is reachable.
pub proof fn lemma_reach_step(
    objects: Map<ObjectId, Seq<u8>>,
    root: ObjectId,
    a: ObjectId,
    b: ObjectId,
)
    requires
        reachable(objects, root, a),
        points(objects, a, b),
    ensures
        reachable(objects, root, b),
{
    let p = choose|p: Seq<ObjectId>| #[trigger] route(objects, p, root, a);
    let q = p.push(b);
    assert forall|i: int| 0 <= i < q.len() - 1 implies #[trigger] step(objects, q, i) by {
        if i < p.len() - 1 {
            assert(step(objects, p, i));
        }
    }
    assert(route(objects, q, root, b));
}

/// A set that holds the root and follows every edge holds all that is
/// reachable.
pub proof fn lemma_reach_closed(
    objects: Map<ObjectId, Seq<u8>>,
    root: ObjectId,
    all: Set<ObjectId>,
    id: ObjectId,
)
    requires
        all.contains(root),
        forall|a: ObjectId, b: ObjectId|
            all.contains(a) && #[trigger] points(objects, a, b) ==> all.contains(b),
        reachable(objects, root, id),
    ensures
        all.contains(id),
{
    let p = choose|p: Seq<ObjectId>| #[trigger] route(objects, p, root, id);
    lemma_route_closed(objects, p, all, p.len() - 1);
}

proof fn lemma_route_closed(
    objects: Map<ObjectId, Seq<u8>>,
    p: Seq<ObjectId>,
    all: Set<ObjectId>,
    i: int,
)
    requires
        p.len() > 0,
        all.contains(p[0]),
        forall|j: int| 0 <= j < p.len() - 1 ==> #[trigger] step(objects, p, j),
        forall|a: ObjectId, b: ObjectId|
            all.contains(a) && #[trigger] points(objects, a, b) ==> all.contains(b),
        0 <= i < p.len(),
    ensures
        all.contains(p[i]),
    decreases i,
{
    if i > 0 {
        lemma_route_closed(objects, p, all, i - 1);
        assert(step(objects, p, i - 1));
    }
}

/// Everything reachable is well-formed, and of a type that every edge to it
/// admits.
pub open spec fn graph_ok(
    objects: Map<ObjectId, Seq<u8>>,
    root: ObjectId,
    expected: ObjectType,
) -> bool {
    &&& forall|id: ObjectId| #[trigger]
        reachable(objects, root, id) ==> well_formed(objects, id)
    &&& type_at(objects, root) == expected
    &&& forall|a: ObjectId, k: int|
        reachable(objects, root, a) && 0 <= k < edges_at(objects, a).len() ==> admitted(
            objects,
            #[trigger] edges_at(objects, a)[k],
        )
}

/// The object at the end of an edge is of a type that the edge admits.
pub open spec fn admitted(objects: Map<ObjectId, Seq<u8>>, e: EdgeValue) -> bool {
    e.expected.admits(type_at(objects, e.id))
}

/// More than `limit` objects are reachable.
pub open spec fn beyond(objects: Map<ObjectId, Seq<u8>>, root: ObjectId, limit: nat) -> bool {
    exists|ids: Seq<ObjectId>| #[trigger] many(objects, root, limit, ids)
}

/// Different reachable objects, more than `limit`.
pub open spec fn many(
    objects: Map<ObjectId, Seq<u8>>,
    root: ObjectId,
    limit: nat,
    ids: Seq<ObjectId>,
) -> bool {
    &&& ids.len() > limit
    &&& ids.no_duplicates()
    &&& forall|i: int| 0 <= i < ids.len() ==> reachable(objects, root, #[trigger] ids[i])
}

/// The list holds every reachable object once, with its type, in the order of
/// the ids.
pub open spec fn lists_reachable(
    v: Seq<VerifiedGraphObject>,
    objects: Map<ObjectId, Seq<u8>>,
    root: ObjectId,
) -> bool {
    &&& forall|i: int, j: int|
        0 <= i < j < v.len() ==> lex_lt((#[trigger] v[i]).id@, (#[trigger] v[j]).id@)
    &&& forall|i: int|
        0 <= i < v.len() ==> reachable(objects, root, (#[trigger] v[i]).id) && v[i].object_type
            == type_at(objects, v[i].id)
    &&& forall|id: ObjectId| #[trigger]
        reachable(objects, root, id) ==> exists|i: int| 0 <= i < v.len() && (#[trigger] v[i]).id == id
}

impl Sortable for VerifiedGraphObject {
    open spec fn le(self, other: Self) -> bool {
        !lex_lt(other.id@, self.id@)
    }

    proof fn le_total(a: Self, b: Self) {
        if lex_lt(b.id@, a.id@) {
            lemma_lex_antisymmetric(b.id@, a.id@);
        }
    }

    proof fn le_transitive(a: Self, b: Self, c: Self) {
        if lex_lt(c.id@, a.id@) {
            lemma_lex_total(b.id@, c.id@);
            if lex_lt(b.id@, c.id@) {
                lemma_lex_transitive(b.id@, c.id@, a.id@);
            }
        }
    }

    fn strictly_before(&self, other: &Self) -> (r: bool) {
        self.id.precedes(&other.id)
    }
}

proof fn lemma_number_injective(a: GraphExpectation, b: GraphExpectation)
    requires
        a.number() == b.number(),
    ensures
        a == b,
{
    match a {
        GraphExpectation::Exact(x) => {
            match b {
                GraphExpectation::Exact(y) => {
                    lemma_tag_injective(x, y);
                },
                _ => {},
            }
        },
        _ => {},
    }
}

/// An edge that waits asks for the object with the expectation.
spec fn awaits(waiting: Seq<EdgeValue>, id: ObjectId, key: u8) -> bool {
    exists|i: int|
        0 <= i < waiting.len() && (#[trigger] waiting[i]).id == id && waiting[i].expected.number()
            == key
}

/// The expectation has been met by an object that has been read.
spec fn met(
    objects: Map<ObjectId, Seq<u8>>,
    seen: IdMap<ObjectType>,
    id: ObjectId,
    key: u8,
) -> bool {
    seen.has(id) && forall|e: GraphExpectation| #[trigger]
        e.number() == key ==> e.admits(type_at(objects, id))
}

/// What a walk keeps at every step.
#[verifier::opaque]
spec fn walking(
    objects: Map<ObjectId, Seq<u8>>,
    root: ObjectId,
    expected: ObjectType,
    queue: GraphWorkQueue,
    seen: IdMap<ObjectType>,
) -> bool {
    &&& ids_differ(seen.pairs())
    &&& forall|id: ObjectId| #[trigger]
        seen.has(id) ==> well_formed(objects, id) && seen.at(id) == type_at(objects, id)
            && queue.knows(id)
    &&& forall|id: ObjectId| #[trigger] queue.knows(id) ==> reachable(objects, root, id)
    &&& forall|i: int|
        0 <= i < queue.waiting().len() ==> queue.asked(
            (#[trigger] queue.waiting()[i]).id,
            queue.waiting()[i].expected.number(),
        )
    &&& forall|i: int|
        0 <= i < queue.waiting().len() ==> sourced(
            objects,
            root,
            expected,
            #[trigger] queue.waiting()[i],
        )
    &&& queue.asked(root, GraphExpectation::Exact(expected).number())
}

/// The edge that a walk starts with.
pub open spec fn root_edge(root: ObjectId, expected: ObjectType) -> EdgeValue {
    EdgeValue {
        id: root,
        expected: GraphExpectation::Exact(expected),
        resource: "root:"@ + hex_of(root@),
    }
}

/// Why a walk fails at an edge: the object is missing or damaged, its bytes are no
/// canonical object, or it is not of the type that the edge expects. An object that is
/// none of these is refused only by a backend that fails itself.
pub open spec fn edge_refused(
    objects: Map<ObjectId, Seq<u8>>,
    steady: bool,
    x: EdgeValue,
    e: Error,
) -> bool {
    if !objects.dom().contains(x.id) {
        e is NotFound
    } else if !readable(objects, x.id) {
        e is Corrupt
    } else if !steady {
        true
    } else if !well_formed(objects, x.id) {
        ill_formed(objects[x.id], e)
    } else {
        !x.expected.admits(type_at(objects, x.id)) && (e matches Error::Corrupt(msg) && msg@
            == mistyped(x.expected, type_at(objects, x.id), x.id, x.resource))
    }
}

/// Why a walk fails: more objects can be reached than it may hold, or an edge that can
/// be reached is refused.
pub open spec fn walk_refused(
    objects: Map<ObjectId, Seq<u8>>,
    steady: bool,
    root: ObjectId,
    expected: ObjectType,
    limit: nat,
    e: Error,
) -> bool {
    ||| beyond(objects, root, limit) && (e matches Error::Invalid(msg) && msg@ == over_ceiling(
        limit,
    ))
    ||| exists|x: EdgeValue| #[trigger]
        sourced(objects, root, expected, x) && edge_refused(objects, steady, x, e)
}

/// An edge that the root or a reachable object sets.
#[verifier::opaque]
pub open spec fn sourced(
    objects: Map<ObjectId, Seq<u8>>,
    root: ObjectId,
    expected: ObjectType,
    e: EdgeValue,
) -> bool {
    ||| e == root_edge(root, expected)
    ||| exists|a: ObjectId, k: int|
        reachable(objects, root, a) && 0 <= k < edges_at(objects, a).len()
            && #[trigger] edges_at(objects, a)[k] == e
}

/// Every constraint waits or has been met, but for those of one edge.
#[verifier::opaque]
spec fn settled_but(
    objects: Map<ObjectId, Seq<u8>>,
    queue: GraphWorkQueue,
    seen: IdMap<ObjectType>,
    spare: Option<EdgeValue>,
) -> bool {
    forall|id: ObjectId, key: u8| #[trigger]
        queue.asked(id, key) ==> awaits(queue.waiting(), id, key) || met(objects, seen, id, key)
            || (spare matches Some(e) && e.id == id && e.expected.number() == key)
}

/// Every edge of an object that has been read has been asked for.
#[verifier::opaque]
spec fn followed(
    objects: Map<ObjectId, Seq<u8>>,
    queue: GraphWorkQueue,
    id: ObjectId,
    n: int,
) -> bool {
    forall|k: int|
        0 <= k < n ==> queue.asked(
            (#[trigger] edges_at(objects, id)[k]).id,
            edges_at(objects, id)[k].expected.number(),
        )
}

proof fn lemma_walk_done(
    objects: Map<ObjectId, Seq<u8>>,
    root: ObjectId,
    expected: ObjectType,
    queue: GraphWorkQueue,
    seen: IdMap<ObjectType>,
)
    requires
        walking(objects, root, expected, queue, seen),
        settled_but(objects, queue, seen, None),
        queue.waiting().len() == 0,
        forall|id: ObjectId| #[trigger]
            seen.has(id) ==> followed(
                    objects,
                    queue,
                    id,
                edges_at(objects, id).len() as int,
            ),
    ensures
        graph_ok(objects, root, expected),
        forall|id: ObjectId| #[trigger] reachable(objects, root, id) <==> seen.has(id),
        forall|id: ObjectId| seen.has(id) ==> #[trigger] seen.at(id) == type_at(objects, id),
{
    reveal(walking);
    reveal(settled_but);
    reveal(followed);
    let all = Set::new(|id: ObjectId| seen.has(id));
    let first = GraphExpectation::Exact(expected);
    assert(met(objects, seen, root, first.number()));
    assert forall|a: ObjectId, b: ObjectId|
        all.contains(a) && #[trigger] points(objects, a, b) implies all.contains(b) by {
        let k = choose|k: int|
            0 <= k < edges_at(objects, a).len() && (#[trigger] edges_at(objects, a)[k]).id == b;
        assert(followed(objects, queue, a, edges_at(objects, a).len() as int));
        let e = edges_at(objects, a)[k];
        assert(queue.asked(e.id, e.expected.number()));
        assert(met(objects, seen, e.id, e.expected.number()));
    }
    assert forall|id: ObjectId| #[trigger] reachable(objects, root, id) <==> seen.has(id) by {
        if reachable(objects, root, id) {
            lemma_reach_closed(objects, root, all, id);
        }
    }
    assert forall|a: ObjectId, k: int|
        reachable(objects, root, a) && 0 <= k < edges_at(objects, a).len() implies admitted(
        objects,
        #[trigger] edges_at(objects, a)[k],
    ) by {
        assert(seen.has(a));
        assert(followed(objects, queue, a, edges_at(objects, a).len() as int));
        let e = edges_at(objects, a)[k];
        assert(queue.asked(e.id, e.expected.number()));
        assert(met(objects, seen, e.id, e.expected.number()));
    }
}

/// What holds before the first step of a walk.
proof fn lemma_walk_starts(
    objects: Map<ObjectId, Seq<u8>>,
    root: ObjectId,
    expected: ObjectType,
    queue: GraphWorkQueue,
    seen: IdMap<ObjectType>,
)
    requires
        seen.pairs().len() == 0,
        queue.waiting().len() == 1,
        queue.waiting()[0] == root_edge(root, expected),
        forall|id: ObjectId| #[trigger] queue.knows(id) <==> id == root,
        forall|id: ObjectId, k: u8| #[trigger]
            queue.asked(id, k) <==> id == root && k == GraphExpectation::Exact(expected).number(),
    ensures
        walking(objects, root, expected, queue, seen),
        settled_but(objects, queue, seen, None),
{
    reveal(walking);
    reveal(settled_but);
    reveal(sourced);
    lemma_reach_root(objects, root);
    assert forall|id: ObjectId, key: u8| #[trigger] queue.asked(id, key) implies awaits(
        queue.waiting(),
        id,
        key,
    ) by {
        assert(queue.waiting()[0].id == id);
    }
}

/// The objects that have been read, in the order of their ids.
fn list_seen(seen: &IdMap<ObjectType>) -> (r: Vec<VerifiedGraphObject>)
    ensures
        r@.len() == seen.pairs().len(),
        forall|i: int, j: int|
            0 <= i < j < r@.len() ==> lex_lt((#[trigger] r@[i]).id@, (#[trigger] r@[j]).id@),
        forall|i: int|
            0 <= i < r@.len() ==> seen.has((#[trigger] r@[i]).id) && r@[i].object_type == seen.at(
                r@[i].id,
            ),
        forall|id: ObjectId| #[trigger]
            seen.has(id) ==> exists|i: int| 0 <= i < r@.len() && (#[trigger] r@[i]).id == id,
{
    let count = seen.len();
    let mut found: Vec<VerifiedGraphObject> = Vec::new();
    let mut i: usize = 0;
    while i < count
        invariant
            i <= count,
            count == seen.pairs().len(),
            found@.len() == i,
            forall|k: int|
                0 <= k < i ==> (#[trigger] found@[k]).id == seen.pairs()[k].0
                    && found@[k].object_type == seen.pairs()[k].1,
        decreases count - i,
    {
        found.push(VerifiedGraphObject { id: seen.key(i), object_type: *seen.value(i) });
        i += 1;
    }
    let ghost s = found@;
    let r = stable_sort(found);
    proof {
        let ps = seen.pairs();
        s.to_multiset_ensures();
        r@.to_multiset_ensures();
        assert(s.no_duplicates()) by {
            assert forall|a: int, b: int| 0 <= a < s.len() && 0 <= b < s.len() && a
                != b implies s[a] != s[b] by {
                if a < b {
                    assert(ps[a].0 != ps[b].0);
                } else {
                    assert(ps[b].0 != ps[a].0);
                }
            }
        }
        s.lemma_multiset_has_no_duplicates();
        r@.lemma_multiset_has_no_duplicates_conv();
        assert forall|k: int| 0 <= k < r@.len() implies s.contains(#[trigger] r@[k]) by {
            assert(r@.contains(r@[k]));
            assert(r@.to_multiset().count(r@[k]) > 0);
        }
        assert forall|a: int, b: int| 0 <= a < b < r@.len() implies lex_lt(
            (#[trigger] r@[a]).id@,
            (#[trigger] r@[b]).id@,
        ) by {
            assert(r@[a].le(r@[b]));
            assert(s.contains(r@[a]));
            assert(s.contains(r@[b]));
            let x = choose|x: int| 0 <= x < s.len() && s[x] == r@[a];
            let y = choose|y: int| 0 <= y < s.len() && s[y] == r@[b];
            lemma_lex_total(r@[a].id@, r@[b].id@);
            if r@[a].id@ == r@[b].id@ {
                lemma_id_ext(r@[a].id, r@[b].id);
                if x < y {
                    assert(ps[x].0 != ps[y].0);
                } else if y < x {
                    assert(ps[y].0 != ps[x].0);
                }
                assert(r@[a] == r@[b]);
            }
        }
        assert forall|k: int| 0 <= k < r@.len() implies seen.has((#[trigger] r@[k]).id)
            && r@[k].object_type == seen.at(r@[k].id) by {
            let x = choose|x: int| 0 <= x < s.len() && s[x] == r@[k];
            lemma_place(ps, x);
        }
        assert forall|id: ObjectId| #[trigger] seen.has(id) implies exists|k: int|
            0 <= k < r@.len() && (#[trigger] r@[k]).id == id by {
            let x = id_place(ps, id);
            assert(s[x].id == id);
            assert(s.contains(s[x]));
            assert(s.to_multiset().count(s[x]) > 0);
            assert(r@.contains(s[x]));
            let k = choose|k: int| 0 <= k < r@.len() && r@[k] == s[x];
            assert(r@[k].id == id);
        }
    }
    r
}

proof fn lemma_beyond(
    objects: Map<ObjectId, Seq<u8>>,
    root: ObjectId,
    queue: GraphWorkQueue,
    id: ObjectId,
)
    requires
        ids_differ(queue.named()),
        forall|x: ObjectId| #[trigger] queue.knows(x) ==> reachable(objects, root, x),
        !queue.knows(id),
        reachable(objects, root, id),
        queue.named().len() >= queue.ceiling(),
    ensures
        beyond(objects, root, queue.ceiling() as nat),
{
    let ps = queue.named();
    let ids = Seq::new(ps.len(), |i: int| ps[i].0).push(id);
    assert forall|i: int| 0 <= i < ps.len() implies queue.knows(#[trigger] ids[i]) by {
        assert(ps[i].0 == ids[i]);
    }
    assert forall|i: int, j: int| 0 <= i < j < ids.len() implies ids[i] != ids[j] by {
        if j < ps.len() {
            assert(ps[i].0 != ps[j].0);
        } else {
            assert(queue.knows(ids[i]));
        }
    }
    assert(ids.no_duplicates());
    assert(many(objects, root, queue.ceiling() as nat, ids));
}

/// Read and check everything that can be reached from the root, each object
/// once. The objects come out in the order of their ids. The walk fails on
/// the first object that cannot be read, is not canonical or is not of the
/// type that an edge expects, and is refused where more than `limit` objects
/// are reachable.
#[verifier::rlimit(50)]
pub fn walk_graph<O: ObjectPlane>(
    plane: &O,
    root: ObjectId,
    expected: ObjectType,
    limit: usize,
) -> (r: Result<Vec<VerifiedGraphObject>, Error>)
    ensures
        match r {
            Ok(v) => graph_ok(plane.objects(), root, expected) && lists_reachable(
                v@,
                plane.objects(),
                root,
            ) && walk_complete(v@, plane.objects(), root, expected) && v@.len() <= limit,
            Err(e) => plane.steady() && graph_ok(plane.objects(), root, expected) ==> beyond(
                plane.objects(),
                root,
                limit as nat,
            ) && (e matches Error::Invalid(msg) && msg@ == over_ceiling(limit as nat)),
        },
        r matches Err(e) ==> walk_refused(
            plane.objects(),
            plane.steady(),
            root,
            expected,
            limit as nat,
            e,
        ),
{
    let ghost objects = plane.objects();
    let ghost steady = plane.steady();
    let mut queue = GraphWorkQueue::with_limit(limit);
    let mut name = "root:".to_string();
    name.append(root.hex().as_str());
    let first = GraphEdge { id: root, expected: GraphExpectation::Exact(expected), resource: name };
    proof {
        use_type_invariant(&queue);
        lemma_reach_root(objects, root);
        if limit == 0 {
            lemma_beyond(objects, root, queue, root);
        }
    }
    let ghost first_value = first@;
    queue.schedule(first)?;
    let mut seen: IdMap<ObjectType> = IdMap::new();
    proof {
        assert(first_value.resource =~= root_edge(root, expected).resource);
        assert(queue.waiting()[0] == first_value);
        lemma_walk_starts(objects, root, expected, queue, seen);
    }
    loop
        invariant
            objects == plane.objects(),
            steady == plane.steady(),
            queue.ceiling() == limit,
            walking(objects, root, expected, queue, seen),
            settled_but(objects, queue, seen, None),
            forall|id: ObjectId| #[trigger]
                seen.has(id) ==> followed(
                    objects,
                    queue,
                    id,
                    edges_at(objects, id).len() as int,
                ),
        ensures
            queue.waiting().len() == 0,
        decreases 8 * limit - constraint_count(queue.named()), queue.waiting().len(),
    {
        proof {
            use_type_invariant(&queue);
            lemma_count_bound(queue.named());
        }
        let ghost queue0 = queue;
        let edge = match queue.pop_front() {
            Some(edge) => edge,
            None => {
                proof {
                    lemma_unmoved(objects, root, expected, queue0, queue, seen);
                    lemma_still_followed(objects, queue0, queue, seen);
                }
                break;
            },
        };
        let ghost e = edge@;
        proof {
            lemma_still_followed(objects, queue0, queue, seen);
            lemma_popped(objects, root, expected, queue0, queue, seen, e);
            lemma_popped_settled(objects, queue0, queue, seen, e);
        }
        if let Some(actual) = seen.get(&edge.id) {
            let actual: ObjectType = *actual;
            proof {
                lemma_refused(objects, root, expected, e);
            }
            let verdict = edge.expected.verify(actual, edge.id, edge.resource.as_str());
            if let Err(why) = verdict {
                assert(well_formed(objects, e.id));
                assert(edge_refused(objects, steady, e, why));
                return Err(why);
            }
            proof {
                lemma_accepted(objects, queue, seen, e);
            }
            continue ;
        }
        if seen.len() >= queue.limit() {
            proof {
                lemma_seen_few(objects, root, expected, queue, seen, e.id);
                assert(false);
            }
            return Err(walk_limit_exceeded(queue.limit()));
        }
        proof {
            lemma_refused(objects, root, expected, e);
        }
        let bytes = match plane.get(edge.id) {
            Ok(bytes) => bytes,
            Err(why) => {
                assert(edge_refused(objects, steady, e, why));
                return Err(why);
            },
        };
        let decoded = match decode_graph_object(edge.id, bytes.as_slice()) {
            Ok(decoded) => decoded,
            Err(why) => {
                assert(edge_refused(objects, steady, e, why));
                return Err(why);
            },
        };
        proof {
            lemma_shape(objects, e.id, decoded.object_type, edge_values(decoded.edges@));
        }
        let verdict = edge.expected.verify(decoded.object_type, edge.id, edge.resource.as_str());
        if let Err(why) = verdict {
            assert(edge_refused(objects, steady, e, why));
            return Err(why);
        }
        let ghost seen0 = seen;
        seen.insert(edge.id, decoded.object_type);
        proof {
            lemma_insert(seen0, seen, e.id, decoded.object_type);
            lemma_read(objects, root, expected, queue, seen0, seen, e);
            lemma_accepted(objects, queue, seen, e);
        }
        follow(
            &mut queue,
            &decoded.edges,
            Ghost(objects),
            Ghost(root),
            Ghost(expected),
            Ghost(seen),
            Ghost(e.id),
        )?;
        proof {
            use_type_invariant(&queue);
            lemma_count_bound(queue.named());
        }
    }
    proof {
        lemma_walk_done(objects, root, expected, queue, seen);
    }
    let v = list_seen(&seen);
    proof {
        use_type_invariant(&queue);
        lemma_seen_within(objects, root, expected, queue, seen);
        lemma_walk_complete(v@, objects, root, expected);
    }
    Ok(v)
}

/// Ask for everything that an object refers to.
fn follow(
    queue: &mut GraphWorkQueue,
    edges: &Vec<GraphEdge>,
    Ghost(objects): Ghost<Map<ObjectId, Seq<u8>>>,
    Ghost(root): Ghost<ObjectId>,
    Ghost(expected): Ghost<ObjectType>,
    Ghost(seen): Ghost<IdMap<ObjectType>>,
    Ghost(at): Ghost<ObjectId>,
) -> (r: Result<(), Error>)
    requires
        walking(objects, root, expected, *old(queue), seen),
        settled_but(objects, *old(queue), seen, None),
        reachable(objects, root, at),
        edges_at(objects, at) == edge_values(edges@),
        forall|id: ObjectId| #[trigger]
            seen.has(id) && id != at ==> followed(
                objects,
                *old(queue),
                id,
                edges_at(objects, id).len() as int,
            ),
    ensures
        final(queue).ceiling() == old(queue).ceiling(),
        match r {
            Ok(_) => {
                &&& walking(objects, root, expected, *final(queue), seen)
                &&& settled_but(objects, *final(queue), seen, None)
                &&& forall|id: ObjectId| #[trigger]
                    seen.has(id) ==> followed(
                        objects,
                        *final(queue),
                        id,
                        edges_at(objects, id).len() as int,
                    )
                &&& constraint_count(final(queue).named()) >= constraint_count(old(queue).named())
                &&& constraint_count(final(queue).named()) == constraint_count(old(queue).named())
                    ==> final(queue).waiting().len() == old(queue).waiting().len()
            },
            Err(e) => beyond(objects, root, old(queue).ceiling() as nat) && (
            e matches Error::Invalid(msg) && msg@ == over_ceiling(old(queue).ceiling() as nat)),
        },
{
    proof {
        reveal(walking);
        reveal(followed);
    }
    let ghost values = edge_values(edges@);
    let mut done: usize = 0;
    while done < edges.len()
        invariant
            queue.ceiling() == old(queue).ceiling(),
            walking(objects, root, expected, *queue, seen),
            settled_but(objects, *queue, seen, None),
            reachable(objects, root, at),
            edges_at(objects, at) == values,
            values == edge_values(edges@),
            done <= edges@.len(),
            followed(objects, *queue, at, done as int),
            forall|id: ObjectId| #[trigger]
                seen.has(id) && id != at ==> followed(
                    objects,
                    *queue,
                    id,
                    edges_at(objects, id).len() as int,
                ),
            constraint_count(queue.named()) >= constraint_count(old(queue).named()),
            constraint_count(queue.named()) == constraint_count(old(queue).named())
                ==> queue.waiting().len() == old(queue).waiting().len(),
        decreases edges@.len() - done,
    {
        proof {
            reveal(walking);
            reveal(followed);
            use_type_invariant(&*queue);
        }
        let ghost before = *queue;
        let next = GraphEdge {
            id: edges[done].id,
            expected: edges[done].expected,
            resource: edges[done].resource.clone(),
        };
        let ghost n = next@;
        proof {
            assert(n == values[done as int]);
            assert(edges_at(objects, at)[done as int].id == n.id);
            assert(points(objects, at, n.id));
            lemma_reach_step(objects, root, at, n.id);
            if !queue.knows(n.id) && queue.named().len() >= queue.ceiling() {
                lemma_beyond(objects, root, *queue, n.id);
            }
        }
        let added = queue.schedule(next)?;
        proof {
            if added {
                assert(edges_at(objects, at)[done as int] == n);
                assert(sourced(objects, root, expected, n)) by {
                    reveal(sourced);
                }
                lemma_scheduled(objects, root, expected, before, *queue, seen, n);
                assert forall|id: ObjectId| #[trigger] seen.has(id) && id != at implies followed(
                    objects,
                    *queue,
                    id,
                    edges_at(objects, id).len() as int,
                ) by {
                    assert(followed(objects, before, id, edges_at(objects, id).len() as int));
                }
            }
            assert(followed(objects, before, at, done as int));
        }
        done += 1;
    }
    Ok(())
}

/// A sound graph has no edge that its target does not meet.
proof fn lemma_refused(
    objects: Map<ObjectId, Seq<u8>>,
    root: ObjectId,
    expected: ObjectType,
    e: EdgeValue,
)
    requires
        sourced(objects, root, expected, e),
        reachable(objects, root, e.id),
    ensures
        graph_ok(objects, root, expected) ==> well_formed(objects, e.id) && e.expected.admits(
            type_at(objects, e.id),
        ),
{
    reveal(sourced);
    if graph_ok(objects, root, expected) {
        if e != root_edge(root, expected) {
            let (a, k) = choose|a: ObjectId, k: int|
                reachable(objects, root, a) && 0 <= k < edges_at(objects, a).len()
                    && #[trigger] edges_at(objects, a)[k] == e;
            assert(admitted(objects, edges_at(objects, a)[k]));
        }
    }
}

/// An expectation that an object meets is settled.
proof fn lemma_accepted(
    objects: Map<ObjectId, Seq<u8>>,
    queue: GraphWorkQueue,
    seen: IdMap<ObjectType>,
    e: EdgeValue,
)
    requires
        settled_but(objects, queue, seen, Some(e)),
        seen.has(e.id),
        e.expected.admits(type_at(objects, e.id)),
    ensures
        settled_but(objects, queue, seen, None),
{
    reveal(settled_but);
    assert(met(objects, seen, e.id, e.expected.number())) by {
        assert forall|x: GraphExpectation| #[trigger] x.number()
            == e.expected.number() implies x.admits(type_at(objects, e.id)) by {
            lemma_number_injective(x, e.expected);
        }
    }
}

/// What reading an object keeps.
proof fn lemma_read(
    objects: Map<ObjectId, Seq<u8>>,
    root: ObjectId,
    expected: ObjectType,
    queue: GraphWorkQueue,
    before: IdMap<ObjectType>,
    after: IdMap<ObjectType>,
    e: EdgeValue,
)
    requires
        walking(objects, root, expected, queue, before),
        settled_but(objects, queue, before, Some(e)),
        queue.knows(e.id),
        well_formed(objects, e.id),
        ids_differ(after.pairs()),
        forall|x: ObjectId| #[trigger] after.has(x) <==> before.has(x) || x == e.id,
        after.at(e.id) == type_at(objects, e.id),
        forall|x: ObjectId| before.has(x) && x != e.id ==> #[trigger] after.at(x) == before.at(x),
    ensures
        walking(objects, root, expected, queue, after),
        settled_but(objects, queue, after, Some(e)),
{
    reveal(walking);
    reveal(settled_but);
    assert forall|id: ObjectId| #[trigger] after.has(id) implies well_formed(objects, id)
        && after.at(id) == type_at(objects, id) && queue.knows(id) by {
        if id != e.id {
            assert(before.has(id));
            assert(after.at(id) == before.at(id));
        }
    }
    assert forall|id: ObjectId, key: u8| #[trigger] queue.asked(id, key) implies awaits(
        queue.waiting(),
        id,
        key,
    ) || met(objects, after, id, key) || (e.id == id && e.expected.number() == key) by {
        if met(objects, before, id, key) {
            assert(after.has(id));
        }
    }
}

/// What taking an edge keeps.
proof fn lemma_popped(
    objects: Map<ObjectId, Seq<u8>>,
    root: ObjectId,
    expected: ObjectType,
    before: GraphWorkQueue,
    after: GraphWorkQueue,
    seen: IdMap<ObjectType>,
    e: EdgeValue,
)
    requires
        walking(objects, root, expected, before, seen),
        before.waiting().len() > 0,
        e == before.waiting()[0],
        after.waiting() == before.waiting().skip(1),
        forall|id: ObjectId| #[trigger] after.knows(id) == before.knows(id),
        forall|id: ObjectId, k: u8| #[trigger] after.asked(id, k) == before.asked(id, k),
    ensures
        walking(objects, root, expected, after, seen),
        sourced(objects, root, expected, e),
        after.knows(e.id),
        reachable(objects, root, e.id),
        seen.has(e.id) ==> seen.at(e.id) == type_at(objects, e.id) && well_formed(objects, e.id),
{
    reveal(walking);
    let w = before.waiting();
    let v = after.waiting();
    assert(before.asked(w[0].id, w[0].expected.number()));
    assert(before.knows(e.id));
    assert forall|i: int| 0 <= i < v.len() implies after.asked(
        (#[trigger] v[i]).id,
        v[i].expected.number(),
    ) && sourced(objects, root, expected, v[i]) by {
        assert(v[i] == w[i + 1]);
        assert(before.asked(w[i + 1].id, w[i + 1].expected.number()));
    }
    assert forall|id: ObjectId| #[trigger] seen.has(id) implies after.knows(id) by {
        assert(before.knows(id));
    }
}

/// Taking an edge leaves every other constraint as it was.
proof fn lemma_popped_settled(
    objects: Map<ObjectId, Seq<u8>>,
    before: GraphWorkQueue,
    after: GraphWorkQueue,
    seen: IdMap<ObjectType>,
    e: EdgeValue,
)
    requires
        settled_but(objects, before, seen, None),
        before.waiting().len() > 0,
        e == before.waiting()[0],
        after.waiting() == before.waiting().skip(1),
        forall|id: ObjectId, k: u8| #[trigger] after.asked(id, k) == before.asked(id, k),
    ensures
        settled_but(objects, after, seen, Some(e)),
{
    reveal(settled_but);
    let w = before.waiting();
    let v = after.waiting();
    assert forall|id: ObjectId, key: u8| #[trigger] after.asked(id, key) implies awaits(
        v,
        id,
        key,
    ) || met(objects, seen, id, key) || (e.id == id && e.expected.number() == key) by {
        assert(before.asked(id, key));
        if awaits(w, id, key) {
            let i = choose|i: int|
                0 <= i < w.len() && (#[trigger] w[i]).id == id && w[i].expected.number() == key;
            if i > 0 {
                assert(v[i - 1] == w[i]);
            }
        }
    }
}

/// What has been asked for stays asked for.
proof fn lemma_still_followed(
    objects: Map<ObjectId, Seq<u8>>,
    before: GraphWorkQueue,
    after: GraphWorkQueue,
    seen: IdMap<ObjectType>,
)
    requires
        forall|id: ObjectId, k: u8| #[trigger] before.asked(id, k) ==> after.asked(id, k),
    ensures
        forall|id: ObjectId, n: int|
            followed(objects, before, id, n) ==> #[trigger] followed(objects, after, id, n),
{
    assert forall|id: ObjectId, n: int|
        followed(objects, before, id, n) implies #[trigger] followed(objects, after, id, n) by {
        reveal(followed);
        assert forall|k: int| 0 <= k < n implies after.asked(
            (#[trigger] edges_at(objects, id)[k]).id,
            edges_at(objects, id)[k].expected.number(),
        ) by {
            assert(before.asked(
                edges_at(objects, id)[k].id,
                edges_at(objects, id)[k].expected.number(),
            ));
        }
    }
}

/// A queue that holds the same keeps the same.
proof fn lemma_unmoved(
    objects: Map<ObjectId, Seq<u8>>,
    root: ObjectId,
    expected: ObjectType,
    before: GraphWorkQueue,
    after: GraphWorkQueue,
    seen: IdMap<ObjectType>,
)
    requires
        walking(objects, root, expected, before, seen),
        settled_but(objects, before, seen, None),
        after.waiting() == before.waiting(),
        forall|id: ObjectId| #[trigger] after.knows(id) == before.knows(id),
        forall|id: ObjectId, k: u8| #[trigger] after.asked(id, k) == before.asked(id, k),
    ensures
        walking(objects, root, expected, after, seen),
        settled_but(objects, after, seen, None),
{
    reveal(walking);
    reveal(settled_but);
    let v = after.waiting();
    assert forall|i: int| 0 <= i < v.len() implies after.asked(
        (#[trigger] v[i]).id,
        v[i].expected.number(),
    ) by {
        assert(before.asked(before.waiting()[i].id, before.waiting()[i].expected.number()));
    }
    assert forall|id: ObjectId| #[trigger] seen.has(id) implies after.knows(id) by {
        assert(before.knows(id));
    }
    assert forall|id: ObjectId, key: u8| #[trigger] after.asked(id, key) implies awaits(
        v,
        id,
        key,
    ) || met(objects, seen, id, key) by {
        assert(before.asked(id, key));
    }
}

/// What scheduling an edge keeps.
proof fn lemma_scheduled(
    objects: Map<ObjectId, Seq<u8>>,
    root: ObjectId,
    expected: ObjectType,
    before: GraphWorkQueue,
    after: GraphWorkQueue,
    seen: IdMap<ObjectType>,
    n: EdgeValue,
)
    requires
        walking(objects, root, expected, before, seen),
        settled_but(objects, before, seen, None),
        sourced(objects, root, expected, n),
        reachable(objects, root, n.id),
        after.waiting() == before.waiting().push(n),
        forall|id: ObjectId| #[trigger] after.knows(id) <==> before.knows(id) || id == n.id,
        forall|id: ObjectId, k: u8| #[trigger]
            after.asked(id, k) <==> before.asked(id, k) || (id == n.id && k
                == n.expected.number()),
    ensures
        walking(objects, root, expected, after, seen),
        settled_but(objects, after, seen, None),
{
    reveal(walking);
    reveal(settled_but);
    let w = before.waiting();
    let v = after.waiting();
    assert forall|i: int| 0 <= i < v.len() implies after.asked(
        (#[trigger] v[i]).id,
        v[i].expected.number(),
    ) && sourced(objects, root, expected, v[i]) by {
        if i < w.len() {
            assert(v[i] == w[i]);
            assert(before.asked(w[i].id, w[i].expected.number()));
        }
    }
    assert forall|id: ObjectId, key: u8| #[trigger] after.asked(id, key) implies awaits(
        v,
        id,
        key,
    ) || met(objects, seen, id, key) by {
        if before.asked(id, key) {
            if awaits(w, id, key) {
                let i = choose|i: int|
                    0 <= i < w.len() && (#[trigger] w[i]).id == id && w[i].expected.number()
                        == key;
                assert(v[i] == w[i]);
            }
        } else {
            assert(v[w.len() as int] == n);
        }
    }
}

/// No more objects have been read than named.
proof fn lemma_seen_within(
    objects: Map<ObjectId, Seq<u8>>,
    root: ObjectId,
    expected: ObjectType,
    queue: GraphWorkQueue,
    seen: IdMap<ObjectType>,
)
    requires
        walking(objects, root, expected, queue, seen),
        ids_differ(queue.named()),
        queue.named().len() <= queue.ceiling(),
    ensures
        seen.pairs().len() <= queue.named().len(),
{
    reveal(walking);
    let a = Seq::new(seen.pairs().len(), |i: int| seen.pairs()[i].0);
    let b = Seq::new(queue.named().len(), |i: int| queue.named()[i].0);
    assert(a.no_duplicates()) by {
        assert forall|i: int, j: int| 0 <= i < a.len() && 0 <= j < a.len() && i != j implies a[i]
            != a[j] by {
            if i < j {
                assert(seen.pairs()[i].0 != seen.pairs()[j].0);
            } else {
                assert(seen.pairs()[j].0 != seen.pairs()[i].0);
            }
        }
    }
    a.unique_seq_to_set();
    assert(a.to_set().subset_of(b.to_set())) by {
        assert forall|id: ObjectId| a.to_set().contains(id) implies b.to_set().contains(id) by {
            let i = choose|i: int| 0 <= i < a.len() && a[i] == id;
            assert(seen.pairs()[i].0 == id);
            assert(seen.has(id));
            assert(queue.knows(id));
            let j = id_place(queue.named(), id);
            assert(b[j] == id);
        }
    }
    b.lemma_cardinality_of_set();
    vstd::set_lib::lemma_len_subset(a.to_set(), b.to_set());
}

/// While an object that has been named is unread, fewer have been read than
/// named.
proof fn lemma_seen_few(
    objects: Map<ObjectId, Seq<u8>>,
    root: ObjectId,
    expected: ObjectType,
    queue: GraphWorkQueue,
    seen: IdMap<ObjectType>,
    id: ObjectId,
)
    requires
        walking(objects, root, expected, queue, seen),
        ids_differ(queue.named()),
        queue.named().len() <= queue.ceiling(),
        queue.knows(id),
        !seen.has(id),
    ensures
        seen.pairs().len() < queue.ceiling(),
{
    reveal(walking);
    let a = Seq::new(seen.pairs().len(), |i: int| seen.pairs()[i].0).push(id);
    let b = Seq::new(queue.named().len(), |i: int| queue.named()[i].0);
    assert(a.no_duplicates()) by {
        assert forall|i: int, j: int| 0 <= i < j < a.len() implies a[i] != a[j] by {
            if j < seen.pairs().len() {
                assert(seen.pairs()[i].0 != seen.pairs()[j].0);
            } else {
                assert(seen.pairs()[i].0 == a[i]);
            }
        }
    }
    a.unique_seq_to_set();
    assert(a.to_set().subset_of(b.to_set())) by {
        assert forall|x: ObjectId| a.to_set().contains(x) implies b.to_set().contains(x) by {
            let i = choose|i: int| 0 <= i < a.len() && a[i] == x;
            if i < seen.pairs().len() {
                assert(seen.pairs()[i].0 == x);
                assert(seen.has(x));
            }
            assert(queue.knows(x));
            let j = id_place(queue.named(), x);
            assert(b[j] == x);
        }
    }
    b.lemma_cardinality_of_set();
    vstd::set_lib::lemma_len_subset(a.to_set(), b.to_set());
}

/// The bytes of an object name another object, and say of which type it is if they say so
/// at all: the entries of a tree; the tree, the parents and the contribution of a commit; the
/// trees, the commits and the sides of a conflict; the tree, the commit and the provenance of
/// a snapshot; the commits, the tree and the blobs of a contribution.
#[verifier::opaque]
pub open spec fn mentions(b: Seq<u8>, x: ObjectId, ty: Option<ObjectType>) -> bool {
    ||| tree_mentions(b, x, ty)
    ||| commit_mentions(b, x, ty)
    ||| conflict_mentions(b, x, ty)
    ||| snapshot_mentions(b, x, ty)
    ||| contribution_mentions(b, x, ty)
}

/// The bytes are a tree that names the object.
#[verifier::opaque]
pub open spec fn tree_mentions(b: Seq<u8>, x: ObjectId, ty: Option<ObjectType>) -> bool {
    exists|t: Seq<Entry>|
        canonical(t) && t.len() <= MAX_TREE_ENTRIES && #[trigger] tree_bytes(t) == b && tree_holds(
            t,
            x,
            ty,
        )
}

/// The bytes are a commit that names the object.
#[verifier::opaque]
pub open spec fn commit_mentions(b: Seq<u8>, x: ObjectId, ty: Option<ObjectType>) -> bool {
    exists|c: CommitValue|
        commit_valid(c) && #[trigger] commit_bytes(c) == b && commit_holds(c, x, ty)
}

/// The bytes are a conflict that names the object.
#[verifier::opaque]
pub open spec fn conflict_mentions(b: Seq<u8>, x: ObjectId, ty: Option<ObjectType>) -> bool {
    exists|f: ConflictForm|
        form_valid(f) && #[trigger] conflict_form_bytes(f) == b && conflict_holds(
            form_value(f),
            x,
            ty,
        )
}

/// The bytes are a snapshot that names the object.
#[verifier::opaque]
pub open spec fn snapshot_mentions(b: Seq<u8>, x: ObjectId, ty: Option<ObjectType>) -> bool {
    exists|s: SnapshotValue|
        snapshot_valid(s) && #[trigger] snapshot_bytes(s) == b && snapshot_holds(s, x, ty)
}

/// The bytes are a contribution that names the object.
#[verifier::opaque]
pub open spec fn contribution_mentions(b: Seq<u8>, x: ObjectId, ty: Option<ObjectType>) -> bool {
    exists|c: ContributionValue|
        contribution_valid(c) && #[trigger] contribution_bytes(c) == b && contribution_holds(
            c,
            x,
            ty,
        )
}

/// What a commit names.
pub open spec fn commit_holds(c: CommitValue, x: ObjectId, ty: Option<ObjectType>) -> bool {
    ||| x == c.tree && ty == Some(ObjectType::Tree)
    ||| c.parents.contains(x) && ty == Some(ObjectType::Commit)
    ||| c.contribution == Some(x) && ty == Some(ObjectType::Contribution)
}

/// What a conflict names.
pub open spec fn conflict_holds(c: ConflictValue, x: ObjectId, ty: Option<ObjectType>) -> bool {
    ||| c.bases.contains(x) && ty == Some(ObjectType::Tree)
    ||| (x == c.ours || x == c.theirs) && ty == Some(ObjectType::Tree)
    ||| c.causal.contains(x) && ty == Some(ObjectType::Commit)
    ||| paths_hold(c.paths, x) && ty is None
}

/// What a snapshot names.
pub open spec fn snapshot_holds(s: SnapshotValue, x: ObjectId, ty: Option<ObjectType>) -> bool {
    ||| x == s.tree && ty == Some(ObjectType::Tree)
    ||| x == s.commit && ty == Some(ObjectType::Commit)
    ||| x == s.prov && ty == Some(ObjectType::Blob)
}

/// What a contribution names.
pub open spec fn contribution_holds(
    c: ContributionValue,
    x: ObjectId,
    ty: Option<ObjectType>,
) -> bool {
    ||| x == c.base && ty == Some(ObjectType::Commit)
    ||| x == c.tree && ty == Some(ObjectType::Tree)
    ||| c.parents.contains(x) && ty == Some(ObjectType::Commit)
    ||| reads_hold(c.reads, x) && ty == Some(ObjectType::Blob)
}

/// An entry of the tree names the object: a directory a tree, anything else a blob.
pub open spec fn tree_holds(t: Seq<Entry>, x: ObjectId, ty: Option<ObjectType>) -> bool {
    exists|k: int|
        0 <= k < t.len() && (#[trigger] t[k]).id == x && ty == Some(
            if t[k].kind == EntryKind::Tree {
                ObjectType::Tree
            } else {
                ObjectType::Blob
            },
        )
}

/// A side or the base of a conflicting path is the object.
pub open spec fn paths_hold(ps: Seq<PathValue>, x: ObjectId) -> bool {
    exists|k: int|
        0 <= k < ps.len() && ((#[trigger] ps[k]).a == Some(x) || ps[k].b == Some(x) || ps[k].base
            == Some(x))
}

/// A recorded read is of the object.
pub open spec fn reads_hold(rs: Seq<ReadValue>, x: ObjectId) -> bool {
    exists|k: int| 0 <= k < rs.len() && (#[trigger] rs[k]).id == x
}

/// The edges lead to an object, with the type that it has to be of.
pub open spec fn leads(edges: Seq<EdgeValue>, x: ObjectId, ty: Option<ObjectType>) -> bool {
    exists|k: int|
        0 <= k < edges.len() && (#[trigger] edges[k]).id == x && edges[k].expected == match ty {
            Some(t) => GraphExpectation::Exact(t),
            None => GraphExpectation::Any,
        }
}

/// The edges of an object lead to exactly the objects that its bytes name.
#[verifier::opaque]
pub open spec fn edges_tell(b: Seq<u8>, edges: Seq<EdgeValue>) -> bool {
    &&& forall|x: ObjectId, ty: Option<ObjectType>| #[trigger]
        mentions(b, x, ty) <==> leads(edges, x, ty)
    &&& forall|k: int|
        0 <= k < edges.len() ==> (#[trigger] edges[k]).expected != GraphExpectation::TreeEntry
}

/// An object is on a list, as one of this type if that is asked.
pub open spec fn on_list(
    v: Seq<VerifiedGraphObject>,
    x: ObjectId,
    ty: Option<ObjectType>,
) -> bool {
    exists|i: int|
        0 <= i < v.len() && (#[trigger] v[i]).id == x && (ty matches Some(t) ==> v[i].object_type
            == t)
}

/// The list of a walk holds its root, of the type that was asked for; of everything on it
/// the bytes are there and hash to its id, and all that they name is on it too, of the type
/// that they name it as. Nothing is on it but the root and what is named so.
#[verifier::opaque]
pub open spec fn walk_complete(
    v: Seq<VerifiedGraphObject>,
    objects: Map<ObjectId, Seq<u8>>,
    root: ObjectId,
    expected: ObjectType,
) -> bool {
    &&& on_list(v, root, Some(expected))
    &&& forall|i: int| 0 <= i < v.len() ==> readable(objects, (#[trigger] v[i]).id)
    &&& forall|i: int, x: ObjectId, ty: Option<ObjectType>|
        0 <= i < v.len() && #[trigger] mentions(objects[(#[trigger] v[i]).id], x, ty) ==> on_list(
            v,
            x,
            ty,
        )
    &&& forall|i: int|
        0 <= i < v.len() && (#[trigger] v[i]).id != root ==> named_by(v, objects, v[i].id)
}

/// An object on the list names another.
#[verifier::opaque]
pub open spec fn named_by(
    v: Seq<VerifiedGraphObject>,
    objects: Map<ObjectId, Seq<u8>>,
    x: ObjectId,
) -> bool {
    exists|j: int, ty: Option<ObjectType>|
        0 <= j < v.len() && #[trigger] mentions(objects[v[j].id], x, ty)
}

proof fn lemma_led(edges: Seq<EdgeValue>, k: int)
    requires
        0 <= k < edges.len(),
        edges[k].expected != GraphExpectation::TreeEntry,
    ensures
        leads(
            edges,
            edges[k].id,
            match edges[k].expected {
                GraphExpectation::Exact(t) => Some(t),
                _ => None,
            },
        ),
{
}

proof fn lemma_leads_join(a: Seq<EdgeValue>, b: Seq<EdgeValue>)
    ensures
        forall|x: ObjectId, ty: Option<ObjectType>| #[trigger]
            leads(a + b, x, ty) <==> leads(a, x, ty) || leads(b, x, ty),
{
    let c = a + b;
    assert forall|x: ObjectId, ty: Option<ObjectType>| #[trigger]
        leads(c, x, ty) <==> leads(a, x, ty) || leads(b, x, ty) by {
        let want = match ty {
            Some(t) => GraphExpectation::Exact(t),
            None => GraphExpectation::Any,
        };
        if leads(a, x, ty) {
            let k = choose|k: int|
                0 <= k < a.len() && (#[trigger] a[k]).id == x && a[k].expected == want;
            assert(c[k] == a[k]);
        }
        if leads(b, x, ty) {
            let k = choose|k: int|
                0 <= k < b.len() && (#[trigger] b[k]).id == x && b[k].expected == want;
            assert(c[a.len() + k] == b[k]);
        }
        if leads(c, x, ty) {
            let k = choose|k: int|
                0 <= k < c.len() && (#[trigger] c[k]).id == x && c[k].expected == want;
            if k < a.len() {
                assert(a[k] == c[k]);
            } else {
                assert(b[k - a.len()] == c[k]);
            }
        }
    }
}

proof fn lemma_leads_exact(ids: Seq<ObjectId>, t: ObjectType, resource: Seq<char>)
    ensures
        forall|x: ObjectId, ty: Option<ObjectType>| #[trigger]
            leads(exact_edges(ids, t, resource), x, ty) <==> ids.contains(x) && ty == Some(t),
{
    let es = exact_edges(ids, t, resource);
    assert forall|x: ObjectId, ty: Option<ObjectType>| #[trigger]
        leads(es, x, ty) <==> ids.contains(x) && ty == Some(t) by {
        if ids.contains(x) && ty == Some(t) {
            let k = choose|k: int| 0 <= k < ids.len() && ids[k] == x;
            assert(es[k].id == x);
        }
        if leads(es, x, ty) {
            let k = choose|k: int| 0 <= k < es.len() && (#[trigger] es[k]).id == x;
            assert(ids[k] == x);
        }
    }
}

proof fn lemma_leads_one(e: EdgeValue)
    ensures
        forall|x: ObjectId, ty: Option<ObjectType>| #[trigger]
            leads(seq![e], x, ty) <==> e.id == x && e.expected == match ty {
                Some(t) => GraphExpectation::Exact(t),
                None => GraphExpectation::Any,
            },
{
    assert forall|x: ObjectId, ty: Option<ObjectType>| #[trigger]
        leads(seq![e], x, ty) <==> e.id == x && e.expected == match ty {
            Some(t) => GraphExpectation::Exact(t),
            None => GraphExpectation::Any,
        } by {
        assert(seq![e][0] == e);
    }
}

proof fn lemma_leads_paths(id: ObjectId, ps: Seq<PathValue>)
    ensures
        forall|x: ObjectId, ty: Option<ObjectType>| #[trigger]
            leads(path_edges(id, ps), x, ty) <==> paths_hold(ps, x) && ty is None,
        forall|k: int|
            0 <= k < path_edges(id, ps).len() ==> (#[trigger] path_edges(id, ps)[k]).expected
                == GraphExpectation::Any,
    decreases ps.len(),
{
    if ps.len() > 0 {
        let d = ps.drop_last();
        let p = ps.last();
        let resource = label("conflict"@, id, "path:"@ + p.path);
        let (e0, e1, e2, e3) = (
            path_edges(id, d),
            any_edge(p.a, resource),
            any_edge(p.b, resource),
            any_edge(p.base, resource),
        );
        lemma_leads_paths(id, d);
        lemma_leads_join(e0, e1);
        lemma_leads_join(e0 + e1, e2);
        lemma_leads_join(e0 + e1 + e2, e3);
        lemma_leads_any(p.a, resource);
        lemma_leads_any(p.b, resource);
        lemma_leads_any(p.base, resource);
        assert forall|x: ObjectId, ty: Option<ObjectType>| #[trigger]
            leads(path_edges(id, ps), x, ty) <==> paths_hold(ps, x) && ty is None by {
            if paths_hold(d, x) {
                let k = choose|k: int|
                    0 <= k < d.len() && ((#[trigger] d[k]).a == Some(x) || d[k].b == Some(x)
                        || d[k].base == Some(x));
                assert(ps[k] == d[k]);
            }
            if p.a == Some(x) || p.b == Some(x) || p.base == Some(x) {
                assert(ps[ps.len() - 1] == p);
            }
            if paths_hold(ps, x) {
                let k = choose|k: int|
                    0 <= k < ps.len() && ((#[trigger] ps[k]).a == Some(x) || ps[k].b == Some(x)
                        || ps[k].base == Some(x));
                if k < d.len() {
                    assert(d[k] == ps[k]);
                }
            }
        }
    }
}

proof fn lemma_leads_any(x: Option<ObjectId>, resource: Seq<char>)
    ensures
        forall|y: ObjectId, ty: Option<ObjectType>| #[trigger]
            leads(any_edge(x, resource), y, ty) <==> x == Some(y) && ty is None,
{
    if let Some(id) = x {
        lemma_leads_one(EdgeValue { id, expected: GraphExpectation::Any, resource });
    }
}

proof fn lemma_tree_tell(id: ObjectId, t: Seq<Entry>)
    ensures
        forall|x: ObjectId, ty: Option<ObjectType>| #[trigger]
            leads(tree_edges(id, t), x, ty) <==> tree_holds(t, x, ty),
        forall|k: int|
            0 <= k < tree_edges(id, t).len() ==> (#[trigger] tree_edges(id, t)[k]).expected
                != GraphExpectation::TreeEntry,
{
    let edges = tree_edges(id, t);
    assert forall|x: ObjectId, want: Option<ObjectType>| #[trigger]
        tree_holds(t, x, want) <==> leads(edges, x, want) by {
        if tree_holds(t, x, want) {
            let k = choose|k: int|
                0 <= k < t.len() && (#[trigger] t[k]).id == x && want == Some(
                    if t[k].kind == EntryKind::Tree {
                        ObjectType::Tree
                    } else {
                        ObjectType::Blob
                    },
                );
            assert(edges[k].id == x);
        }
        if leads(edges, x, want) {
            let k = choose|k: int|
                0 <= k < edges.len() && (#[trigger] edges[k]).id == x && edges[k].expected
                    == match want {
                    Some(t) => GraphExpectation::Exact(t),
                    None => GraphExpectation::Any,
                };
            assert(t[k].id == x);
            assert(tree_holds(t, x, want));
        }
    }
}

proof fn lemma_commit_tell(id: ObjectId, c: CommitValue)
    ensures
        forall|x: ObjectId, ty: Option<ObjectType>| #[trigger]
            leads(commit_edges(id, c), x, ty) <==> commit_holds(c, x, ty),
        forall|k: int|
            0 <= k < commit_edges(id, c).len() ==> (#[trigger] commit_edges(id, c)[k]).expected
                != GraphExpectation::TreeEntry,
{
    let edges = commit_edges(id, c);
    let first = exact_edge(c.tree, ObjectType::Tree, label("commit"@, id, "tree"@));
    let more = exact_edges(
        c.parents,
        ObjectType::Commit,
        label("commit"@, id, "parent"@),
    );
    lemma_leads_one(first);
    lemma_leads_exact(c.parents, ObjectType::Commit, label("commit"@, id, "parent"@));
    lemma_leads_join(seq![first], more);
    let last = match c.contribution {
        Some(x) => seq![
            exact_edge(
                x,
                ObjectType::Contribution,
                label("commit"@, id, "contribution"@),
            ),
        ],
        None => Seq::<EdgeValue>::empty(),
    };
    if c.contribution is Some {
        lemma_leads_one(last[0]);
        assert(last =~= seq![last[0]]);
    }
    lemma_leads_join(seq![first] + more, last);
    assert(edges == seq![first] + more + last);
}

proof fn lemma_conflict_tell(id: ObjectId, c: ConflictValue)
    ensures
        forall|x: ObjectId, ty: Option<ObjectType>| #[trigger]
            leads(conflict_edges(id, c), x, ty) <==> conflict_holds(c, x, ty),
        forall|k: int|
            0 <= k < conflict_edges(id, c).len() ==> (#[trigger] conflict_edges(id, c)[k]).expected
                != GraphExpectation::TreeEntry,
{
    let edges = conflict_edges(id, c);
    let e0 = exact_edges(c.bases, ObjectType::Tree, label("conflict"@, id, "base"@));
    let e1 = seq![exact_edge(c.ours, ObjectType::Tree, label("conflict"@, id, "ours"@))];
    let e2 = seq![
        exact_edge(c.theirs, ObjectType::Tree, label("conflict"@, id, "theirs"@)),
    ];
    let e3 = exact_edges(c.causal, ObjectType::Commit, label("conflict"@, id, "causal"@));
    let e4 = path_edges(id, c.paths);
    lemma_leads_exact(c.bases, ObjectType::Tree, label("conflict"@, id, "base"@));
    lemma_leads_one(e1[0]);
    lemma_leads_one(e2[0]);
    assert(e1 =~= seq![e1[0]]);
    assert(e2 =~= seq![e2[0]]);
    lemma_leads_exact(c.causal, ObjectType::Commit, label("conflict"@, id, "causal"@));
    lemma_leads_paths(id, c.paths);
    lemma_leads_join(e0, e1);
    lemma_leads_join(e0 + e1, e2);
    lemma_leads_join(e0 + e1 + e2, e3);
    lemma_leads_join(e0 + e1 + e2 + e3, e4);
    assert(edges == e0 + e1 + e2 + e3 + e4);
    assert forall|k: int| 0 <= k < edges.len() implies (#[trigger] edges[k]).expected
        != GraphExpectation::TreeEntry by {
        let n = (e0 + e1 + e2 + e3).len();
        if k >= n {
            assert(edges[k] == e4[k - n]);
        }
    }
}

proof fn lemma_snapshot_tell(id: ObjectId, s: SnapshotValue)
    ensures
        forall|x: ObjectId, ty: Option<ObjectType>| #[trigger]
            leads(snapshot_edges(id, s), x, ty) <==> snapshot_holds(s, x, ty),
        forall|k: int|
            0 <= k < snapshot_edges(id, s).len() ==> (#[trigger] snapshot_edges(id, s)[k]).expected
                != GraphExpectation::TreeEntry,
{
    let edges = snapshot_edges(id, s);
    lemma_leads_one(edges[0]);
    lemma_leads_one(edges[1]);
    lemma_leads_one(edges[2]);
    lemma_leads_join(seq![edges[0]], seq![edges[1]]);
    lemma_leads_join(seq![edges[0]] + seq![edges[1]], seq![edges[2]]);
    assert(edges =~= seq![edges[0]] + seq![edges[1]] + seq![edges[2]]);
}

proof fn lemma_contribution_tell(id: ObjectId, c: ContributionValue)
    ensures
        forall|x: ObjectId, ty: Option<ObjectType>| #[trigger]
            leads(contribution_edges(id, c), x, ty) <==> contribution_holds(c, x, ty),
        forall|k: int|
            0 <= k < contribution_edges(id, c).len() ==> (#[trigger] contribution_edges(id, c)[k]).expected
                != GraphExpectation::TreeEntry,
{
    let edges = contribution_edges(id, c);
    let e0 = seq![exact_edge(c.base, ObjectType::Commit, label("contribution"@, id, "base"@))];
    let e1 = seq![exact_edge(c.tree, ObjectType::Tree, label("contribution"@, id, "tree"@))];
    let e2 = exact_edges(
        c.parents,
        ObjectType::Commit,
        label("contribution"@, id, "parent"@),
    );
    let e3 = read_edges(id, c.reads);
    lemma_leads_one(e0[0]);
    lemma_leads_one(e1[0]);
    assert(e0 =~= seq![e0[0]]);
    assert(e1 =~= seq![e1[0]]);
    lemma_leads_exact(
        c.parents,
        ObjectType::Commit,
        label("contribution"@, id, "parent"@),
    );
    assert forall|x: ObjectId, want: Option<ObjectType>| #[trigger]
        leads(e3, x, want) <==> reads_hold(c.reads, x) && want == Some(
            ObjectType::Blob,
        ) by {
        if reads_hold(c.reads, x) && want == Some(ObjectType::Blob) {
            let k = choose|k: int|
                0 <= k < c.reads.len() && (#[trigger] c.reads[k]).id == x;
            assert(e3[k].id == x);
        }
        if leads(e3, x, want) {
            let k = choose|k: int| 0 <= k < e3.len() && (#[trigger] e3[k]).id == x;
            assert(c.reads[k].id == x);
        }
    }
    lemma_leads_join(e0, e1);
    lemma_leads_join(e0 + e1, e2);
    lemma_leads_join(e0 + e1 + e2, e3);
    assert(edges =~= e0 + e1 + e2 + e3);
}

/// An object file opens with the byte of its type.
proof fn lemma_opens(b: Seq<u8>, x: ObjectId, ty: Option<ObjectType>)
    ensures
        tree_mentions(b, x, ty) ==> b.len() > 0 && b[0] == ObjectType::Tree.tag(),
        commit_mentions(b, x, ty) ==> b.len() > 0 && b[0] == ObjectType::Commit.tag(),
        conflict_mentions(b, x, ty) ==> b.len() > 0 && b[0] == ObjectType::Conflict.tag(),
        snapshot_mentions(b, x, ty) ==> b.len() > 0 && b[0] == ObjectType::Snapshot.tag(),
        contribution_mentions(b, x, ty) ==> b.len() > 0 && b[0] == ObjectType::Contribution.tag(),
{
    reveal(tree_mentions);
    reveal(commit_mentions);
    reveal(conflict_mentions);
    reveal(snapshot_mentions);
    reveal(contribution_mentions);
}

proof fn lemma_tree_refers(id: ObjectId, w: Seq<Entry>)
    requires
        canonical(w) && w.len() <= MAX_TREE_ENTRIES,
    ensures
        edges_tell(tree_bytes(w), tree_edges(id, w)),
{
    reveal(edges_tell);
    reveal(mentions);
    let b = tree_bytes(w);
    assert(b.len() > 0 && b[0] == ObjectType::Tree.tag());
    lemma_tree_tell(id, w);
    assert forall|x: ObjectId, ty: Option<ObjectType>| #[trigger]
        mentions(b, x, ty) <==> tree_holds(w, x, ty) by {
        lemma_opens(b, x, ty);
        reveal(tree_mentions);
        if tree_mentions(b, x, ty) {
            assert forall|u: Seq<Entry>| canonical(u) && u.len() <= MAX_TREE_ENTRIES && #[trigger] tree_bytes(u) == b implies u == w by {
                lemma_tree_unique(u, w);
            }
        }
    }
}

proof fn lemma_commit_refers(id: ObjectId, w: CommitValue)
    requires
        commit_valid(w),
    ensures
        edges_tell(commit_bytes(w), commit_edges(id, w)),
{
    reveal(edges_tell);
    reveal(mentions);
    let b = commit_bytes(w);
    assert(b.len() > 0 && b[0] == ObjectType::Commit.tag());
    lemma_commit_tell(id, w);
    assert forall|x: ObjectId, ty: Option<ObjectType>| #[trigger]
        mentions(b, x, ty) <==> commit_holds(w, x, ty) by {
        lemma_opens(b, x, ty);
        reveal(commit_mentions);
        if commit_mentions(b, x, ty) {
            assert forall|u: CommitValue| commit_valid(u) && #[trigger] commit_bytes(u) == b implies u == w by {
                lemma_commit_unique(u, w);
            }
        }
    }
}

proof fn lemma_conflict_refers(id: ObjectId, w: ConflictForm)
    requires
        form_valid(w),
    ensures
        edges_tell(conflict_form_bytes(w), conflict_edges(id, form_value(w))),
{
    reveal(edges_tell);
    reveal(mentions);
    let b = conflict_form_bytes(w);
    assert(b.len() > 0 && b[0] == ObjectType::Conflict.tag());
    lemma_conflict_tell(id, form_value(w));
    assert forall|x: ObjectId, ty: Option<ObjectType>| #[trigger]
        mentions(b, x, ty) <==> conflict_holds(form_value(w), x, ty) by {
        lemma_opens(b, x, ty);
        reveal(conflict_mentions);
        if conflict_mentions(b, x, ty) {
            assert forall|u: ConflictForm| form_valid(u) && #[trigger] conflict_form_bytes(u) == b implies u == w by {
                lemma_conflict_unique(u, w);
            }
        }
    }
}

proof fn lemma_snapshot_refers(id: ObjectId, w: SnapshotValue)
    requires
        snapshot_valid(w),
    ensures
        edges_tell(snapshot_bytes(w), snapshot_edges(id, w)),
{
    reveal(edges_tell);
    reveal(mentions);
    let b = snapshot_bytes(w);
    assert(b.len() > 0 && b[0] == ObjectType::Snapshot.tag());
    lemma_snapshot_tell(id, w);
    assert forall|x: ObjectId, ty: Option<ObjectType>| #[trigger]
        mentions(b, x, ty) <==> snapshot_holds(w, x, ty) by {
        lemma_opens(b, x, ty);
        reveal(snapshot_mentions);
        if snapshot_mentions(b, x, ty) {
            assert forall|u: SnapshotValue| snapshot_valid(u) && #[trigger] snapshot_bytes(u) == b implies u == w by {
                lemma_snapshot_unique(u, w);
            }
        }
    }
}

proof fn lemma_contribution_refers(id: ObjectId, w: ContributionValue)
    requires
        contribution_valid(w),
    ensures
        edges_tell(contribution_bytes(w), contribution_edges(id, w)),
{
    reveal(edges_tell);
    reveal(mentions);
    let b = contribution_bytes(w);
    assert(b.len() > 0 && b[0] == ObjectType::Contribution.tag());
    lemma_contribution_tell(id, w);
    assert forall|x: ObjectId, ty: Option<ObjectType>| #[trigger]
        mentions(b, x, ty) <==> contribution_holds(w, x, ty) by {
        lemma_opens(b, x, ty);
        reveal(contribution_mentions);
        if contribution_mentions(b, x, ty) {
            assert forall|u: ContributionValue| contribution_valid(u) && #[trigger] contribution_bytes(u) == b implies u == w by {
                lemma_contribution_len(u);
                lemma_contribution_len(w);
                lemma_contribution_unique(u, w);
            }
        }
    }
}

/// The edges that an object has under its id lead to what its bytes name, and to nothing
/// else.
pub proof fn lemma_edges_tell(id: ObjectId, b: Seq<u8>, ty: ObjectType, edges: Seq<EdgeValue>)
    requires
        refers(id, b, ty, edges),
    ensures
        edges_tell(b, edges),
{
    match ty {
        ObjectType::Blob => {
            reveal(edges_tell);
            reveal(mentions);
            lemma_refers_type(id, b, ty, edges);
            assert forall|x: ObjectId, want: Option<ObjectType>| !#[trigger] mentions(
                b,
                x,
                want,
            ) by {
                lemma_opens(b, x, want);
            }
        },
        ObjectType::Tree => {
            let w = choose|w: Seq<Entry>|
                canonical(w) && w.len() <= MAX_TREE_ENTRIES && #[trigger] tree_bytes(w) == b && edges == tree_edges(id, w);
            lemma_tree_refers(id, w);
        },
        ObjectType::Commit => {
            let w = choose|w: CommitValue|
                commit_valid(w) && #[trigger] commit_bytes(w) == b && edges == commit_edges(id, w);
            lemma_commit_refers(id, w);
        },
        ObjectType::Conflict => {
            let w = choose|w: ConflictForm|
                form_valid(w) && #[trigger] conflict_form_bytes(w) == b && edges == conflict_edges(id, form_value(w));
            lemma_conflict_refers(id, w);
        },
        ObjectType::Snapshot => {
            let w = choose|w: SnapshotValue|
                snapshot_valid(w) && #[trigger] snapshot_bytes(w) == b && edges == snapshot_edges(id, w);
            lemma_snapshot_refers(id, w);
        },
        ObjectType::Contribution => {
            let w = choose|w: ContributionValue|
                contribution_valid(w) && #[trigger] contribution_bytes(w) == b && edges == contribution_edges(id, w);
            lemma_contribution_refers(id, w);
        },
    }
}

proof fn lemma_listed_read(
    v: Seq<VerifiedGraphObject>,
    objects: Map<ObjectId, Seq<u8>>,
    root: ObjectId,
    expected: ObjectType,
)
    requires
        graph_ok(objects, root, expected),
        lists_reachable(v, objects, root),
    ensures
        on_list(v, root, Some(expected)),
        forall|i: int| 0 <= i < v.len() ==> readable(objects, (#[trigger] v[i]).id),
{
    lemma_reach_root(objects, root);
    let k = choose|k: int| 0 <= k < v.len() && (#[trigger] v[k]).id == root;
    assert(v[k].object_type == expected);
    assert forall|i: int| 0 <= i < v.len() implies readable(objects, (#[trigger] v[i]).id) by {
        assert(reachable(objects, root, v[i].id));
        assert(well_formed(objects, v[i].id));
    }
}

proof fn lemma_named_listed(
    v: Seq<VerifiedGraphObject>,
    objects: Map<ObjectId, Seq<u8>>,
    root: ObjectId,
    expected: ObjectType,
    i: int,
    x: ObjectId,
    ty: Option<ObjectType>,
)
    requires
        graph_ok(objects, root, expected),
        lists_reachable(v, objects, root),
        0 <= i < v.len(),
        mentions(objects[v[i].id], x, ty),
    ensures
        on_list(v, x, ty),
{
    reveal(edges_tell);
    let id = v[i].id;
    assert(reachable(objects, root, id));
    assert(well_formed(objects, id));
    let (k0, e0) = choose|k0: ObjectType, e0: Seq<EdgeValue>| #[trigger]
        refers(id, objects[id], k0, e0);
    lemma_shape(objects, id, k0, e0);
    lemma_edges_tell(id, objects[id], k0, e0);
    assert(leads(e0, x, ty));
    let k = choose|k: int|
        0 <= k < e0.len() && (#[trigger] e0[k]).id == x && e0[k].expected == match ty {
            Some(t) => GraphExpectation::Exact(t),
            None => GraphExpectation::Any,
        };
    assert(edges_at(objects, id)[k] == e0[k]);
    assert(points(objects, id, x));
    lemma_reach_step(objects, root, id, x);
    assert(admitted(objects, edges_at(objects, id)[k]));
    let j = choose|j: int| 0 <= j < v.len() && (#[trigger] v[j]).id == x;
    assert(v[j].object_type == type_at(objects, x));
}

proof fn lemma_listed_named(
    v: Seq<VerifiedGraphObject>,
    objects: Map<ObjectId, Seq<u8>>,
    root: ObjectId,
    expected: ObjectType,
    i: int,
)
    requires
        graph_ok(objects, root, expected),
        lists_reachable(v, objects, root),
        0 <= i < v.len(),
        v[i].id != root,
    ensures
        named_by(v, objects, v[i].id),
{
    reveal(named_by);
    reveal(edges_tell);
    let x = v[i].id;
    assert(reachable(objects, root, x));
    let p = choose|p: Seq<ObjectId>| #[trigger] route(objects, p, root, x);
    let n = p.len() - 2;
    assert(step(objects, p, n));
    let a = p[n];
    let q = p.drop_last();
    assert forall|m: int| 0 <= m < q.len() - 1 implies #[trigger] step(objects, q, m) by {
        assert(step(objects, p, m));
    }
    assert(route(objects, q, root, a));
    assert(reachable(objects, root, a));
    let (k0, e0) = choose|k0: ObjectType, e0: Seq<EdgeValue>| #[trigger]
        refers(a, objects[a], k0, e0);
    lemma_shape(objects, a, k0, e0);
    lemma_edges_tell(a, objects[a], k0, e0);
    let k = choose|k: int|
        0 <= k < edges_at(objects, a).len() && (#[trigger] edges_at(objects, a)[k]).id == x;
    assert(e0[k].id == x);
    lemma_led(e0, k);
    let ty = match e0[k].expected {
        GraphExpectation::Exact(t) => Some(t),
        _ => None,
    };
    assert(mentions(objects[a], x, ty));
    let j = choose|j: int| 0 <= j < v.len() && (#[trigger] v[j]).id == a;
    assert(mentions(objects[v[j].id], v[i].id, ty));
}

/// A walk that comes to its end has followed every reference that the objects on its list
/// hold: the whole history behind a commit or a snapshot, and everything in its trees.
pub proof fn lemma_walk_complete(
    v: Seq<VerifiedGraphObject>,
    objects: Map<ObjectId, Seq<u8>>,
    root: ObjectId,
    expected: ObjectType,
)
    requires
        graph_ok(objects, root, expected),
        lists_reachable(v, objects, root),
    ensures
        walk_complete(v, objects, root, expected),
{
    reveal(walk_complete);
    lemma_listed_read(v, objects, root, expected);
    assert forall|i: int, x: ObjectId, ty: Option<ObjectType>|
        0 <= i < v.len() && #[trigger] mentions(
            objects[(#[trigger] v[i]).id],
            x,
            ty,
        ) implies on_list(v, x, ty) by {
        lemma_named_listed(v, objects, root, expected, i, x, ty);
    }
    assert forall|i: int| 0 <= i < v.len() && (#[trigger] v[i]).id != root implies named_by(
        v,
        objects,
        v[i].id,
    ) by {
        lemma_listed_named(v, objects, root, expected, i);
    }
}

} // verus!
