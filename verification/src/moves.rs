//! What the transactions of the catalog promise: what a request that succeeds changes and what
//! it leaves alone, when it succeeds, and what is read after it.
use crate::catalog::{
    cas_answer, cas_done, cas_in, cas_refusal, cas_rows, find_ns, find_ref, intro_of, introduced,
    lemma_place, log_named, log_tail, ns_named, place, ref_named, retired, Meta,
};
use crate::names::{fork_name, ref_kind, ref_kind_ok};
use crate::refs::CasOutcome;
use crate::tables::{IntroLine, LogLine, RefLine, Rows};
use crate::types::{lemma_id_of, CasResult, Error, ObjectId};
use vstd::prelude::*;

verus! {

/// What is found by a name is the last row of it.
pub proof fn lemma_found(rows: Rows, name: Seq<char>)
    ensures
        match find_ref(rows.refs, name) {
            Some(l) => l.name == name && exists|i: int|
                0 <= i < rows.refs.len() && #[trigger] rows.refs[i] == l && forall|j: int|
                    i < j < rows.refs.len() ==> (#[trigger] rows.refs[j]).name != name,
            None => forall|i: int| 0 <= i < rows.refs.len() ==> (#[trigger] rows.refs[i]).name
                != name,
        },
        match log_tail(rows.reflog, name) {
            Some(l) => l.name == name && exists|i: int|
                0 <= i < rows.reflog.len() && #[trigger] rows.reflog[i] == l && forall|j: int|
                    i < j < rows.reflog.len() ==> (#[trigger] rows.reflog[j]).name != name,
            None => forall|i: int|
                0 <= i < rows.reflog.len() ==> (#[trigger] rows.reflog[i]).name != name,
        },
        match find_ns(rows.namespaces, name) {
            Some(l) => l.id == name && exists|i: int|
                0 <= i < rows.namespaces.len() && #[trigger] rows.namespaces[i] == l && forall|
                    j: int,
                |
                    i < j < rows.namespaces.len() ==> (#[trigger] rows.namespaces[j]).id != name,
            None => forall|i: int|
                0 <= i < rows.namespaces.len() ==> (#[trigger] rows.namespaces[i]).id != name,
        },
{
    lemma_place(rows.refs, ref_named(name));
    lemma_place(rows.reflog, log_named(name));
    lemma_place(rows.namespaces, ns_named(name));
    if let Some(l) = find_ref(rows.refs, name) {
        let i = place(rows.refs, ref_named(name));
        assert(rows.refs[i] == l);
        assert forall|j: int| i < j < rows.refs.len() implies (#[trigger] rows.refs[j]).name
            != name by {
            assert(!ref_named(name)(rows.refs[j]));
        }
    } else {
        assert forall|i: int| 0 <= i < rows.refs.len() implies (#[trigger] rows.refs[i]).name
            != name by {
            assert(!ref_named(name)(rows.refs[i]));
        }
    }
    if let Some(l) = log_tail(rows.reflog, name) {
        let i = place(rows.reflog, log_named(name));
        assert(rows.reflog[i] == l);
        assert forall|j: int| i < j < rows.reflog.len() implies (#[trigger] rows.reflog[j]).name
            != name by {
            assert(!log_named(name)(rows.reflog[j]));
        }
    } else {
        assert forall|i: int| 0 <= i < rows.reflog.len() implies (#[trigger] rows.reflog[i]).name
            != name by {
            assert(!log_named(name)(rows.reflog[i]));
        }
    }
    if let Some(l) = find_ns(rows.namespaces, name) {
        let i = place(rows.namespaces, ns_named(name));
        assert(rows.namespaces[i] == l);
        assert forall|j: int| i < j < rows.namespaces.len() implies (
        #[trigger] rows.namespaces[j]).id != name by {
            assert(!ns_named(name)(rows.namespaces[j]));
        }
    } else {
        assert forall|i: int| 0 <= i < rows.namespaces.len() implies (
        #[trigger] rows.namespaces[i]).id != name by {
            assert(!ns_named(name)(rows.namespaces[i]));
        }
    }
}

/// The log of a name ends with its retirement.
pub open spec fn gone(log: Seq<LogLine>, name: Seq<char>) -> bool {
    exists|i: int|
        0 <= i < log.len() && (#[trigger] log[i]).name == name && log[i].reason == "abandon"@ && (
        forall|j: int| i < j < log.len() ==> (#[trigger] log[j]).name != name)
}

proof fn lemma_gone(log: Seq<LogLine>, name: Seq<char>)
    ensures
        gone(log, name) <==> retired(log, name),
{
    lemma_place(log, log_named(name));
    let k = place(log, log_named(name));
    if gone(log, name) {
        let i = choose|i: int|
            0 <= i < log.len() && (#[trigger] log[i]).name == name && log[i].reason == "abandon"@
                && (forall|j: int| i < j < log.len() ==> (#[trigger] log[j]).name != name);
        if k < i {
            assert(!log_named(name)(log[i]));
        }
        if k > i {
            assert(log[k].name != name);
        }
    }
    if retired(log, name) {
        assert(log[k].name == name);
        assert forall|j: int| k < j < log.len() implies (#[trigger] log[j]).name != name by {
            assert(!log_named(name)(log[j]));
        }
    }
}

/// The log has one more entry, with a greater number than those before it.
pub open spec fn logs_one(
    before: Seq<LogLine>,
    after: Seq<LogLine>,
    name: Seq<char>,
    from: Option<Seq<u8>>,
    to: Seq<u8>,
    agent_id: Seq<char>,
    reason: Seq<char>,
    ts_ms: i64,
) -> bool {
    let e = after.last();
    &&& after.len() == before.len() + 1
    &&& before.is_prefix_of(after)
    &&& before.len() > 0 ==> e.id > before.last().id
    &&& e.name == name
    &&& e.old_oid == from
    &&& e.new_oid == to
    &&& e.agent_id == agent_id
    &&& e.reason == reason
    &&& e.ts_ms == ts_ms
}

/// Every ref but those of a name is as it was.
pub open spec fn other_refs_kept(before: Seq<RefLine>, after: Seq<RefLine>, name: Seq<char>) -> bool {
    forall|n: Seq<char>| n != name ==> #[trigger] find_ref(after, n) == find_ref(before, n)
}

/// A ref is new, at an object.
pub open spec fn ref_made(
    before: Rows,
    after: Rows,
    name: Seq<char>,
    oid: Seq<u8>,
    kind: Seq<char>,
    protected: bool,
    sealed: bool,
    ts_ms: i64,
) -> bool {
    &&& find_ref(before.refs, name) is None
    &&& find_ref(after.refs, name) matches Some(l) && l.oid == oid && l.kind == kind && (l.protected
        != 0) == protected && (l.sealed != 0) == sealed && l.updated_ms == ts_ms
    &&& other_refs_kept(before.refs, after.refs, name)
}

/// A ref that a request may move.
pub open spec fn open_to(l: RefLine, kind: Seq<char>, allow_protected: bool) -> bool {
    l.kind == kind && l.sealed == 0 && (l.protected == 0 || allow_protected)
}

/// The refs and their log after a request to move a ref.
///
/// Where the answer is that the ref was updated, it is at the new object, and it was at the
/// expected one or was new. Where the answer is that there is a fork, the ref was elsewhere and
/// is still there, and the fork is at the new object. A request that fails changes nothing.
pub open spec fn swaps(
    before: Rows,
    after: Rows,
    name: Seq<char>,
    expected: ObjectId,
    new: ObjectId,
    kind: Seq<char>,
    agent_id: Seq<char>,
    allow_protected: bool,
    ts_ms: i64,
    r: Result<CasResult, Error>,
) -> bool {
    match r {
        Err(_) => after == before,
        Ok(CasResult::Updated { name: n, oid }) => {
            &&& n@ == name && oid == new
            &&& match find_ref(before.refs, name) {
                Some(l) => {
                    &&& l.oid == expected@
                    &&& open_to(l, kind, allow_protected)
                    &&& find_ref(after.refs, name) == Some(
                        RefLine { oid: new@, updated_ms: ts_ms, ..l },
                    )
                    &&& logs_one(
                        before.reflog,
                        after.reflog,
                        name,
                        Some(l.oid),
                        new@,
                        agent_id,
                        "cas"@,
                        ts_ms,
                    )
                },
                None => {
                    &&& !gone(before.reflog, name)
                    &&& ref_made(before, after, name, new@, kind, false, false, ts_ms)
                    &&& logs_one(
                        before.reflog,
                        after.reflog,
                        name,
                        None,
                        new@,
                        agent_id,
                        "cas"@,
                        ts_ms,
                    )
                },
            }
            &&& other_refs_kept(before.refs, after.refs, name)
        },
        Ok(CasResult::Forked { requested, fork, ours, theirs }) => {
            &&& requested@ == name && ours == new
            &&& "forks/"@.is_prefix_of(fork@)
            &&& find_ref(before.refs, name) matches Some(l) && l.oid == theirs@ && l.oid
                != expected@ && open_to(l, kind, allow_protected)
            &&& ref_made(before, after, fork@, new@, kind, false, false, ts_ms)
            &&& logs_one(
                before.reflog,
                after.reflog,
                fork@,
                Some(theirs@),
                new@,
                agent_id,
                "fork"@,
                ts_ms,
            )
        },
        Ok(CasResult::Noop { .. }) => false,
    }
}

/// There are numbers left for the log.
pub open spec fn log_open(log: Seq<LogLine>) -> bool {
    log.len() > 0 ==> log.last().id < i64::MAX
}

/// A request to move a ref succeeds where nothing speaks against it.
pub open spec fn swap_owed(
    before: Rows,
    name: Seq<char>,
    expected: ObjectId,
    kind: Seq<char>,
    allow_protected: bool,
    fork: Seq<char>,
    r: Result<CasResult, Error>,
) -> bool {
    ref_kind_ok(name, kind) && !"tags/"@.is_prefix_of(name) && ref_kind(kind) is Some && log_open(
        before.reflog,
    ) ==> match find_ref(before.refs, name) {
        None => !gone(before.reflog, name) ==> r matches Ok(CasResult::Updated { .. }),
        Some(l) => open_to(l, kind, allow_protected) && l.oid.len() == 32 ==> if l.oid
            == expected@ {
            r matches Ok(CasResult::Updated { .. })
        } else {
            ref_kind_ok(fork, kind) && find_ref(before.refs, fork) is None ==> r matches Ok(
                CasResult::Forked { .. },
            )
        },
    }
}

/// An object has its introduction.
pub open spec fn has_intro(rows: Seq<IntroLine>, oid: Seq<u8>) -> bool {
    exists|k: int| 0 <= k < rows.len() && (#[trigger] rows[k]).oid == oid
}

/// An object is among some.
pub open spec fn among(oids: Seq<ObjectId>, oid: Seq<u8>) -> bool {
    exists|i: int| 0 <= i < oids.len() && (#[trigger] oids[i])@ == oid
}

/// A row is a new introduction of one of some objects.
pub open spec fn new_intro(
    l: IntroLine,
    oids: Seq<ObjectId>,
    commit: ObjectId,
    agent_id: Seq<char>,
    ts_ms: i64,
) -> bool {
    &&& l.commit_oid == commit@
    &&& l.agent_id == agent_id
    &&& l.ts_ms == ts_ms
    &&& among(oids, l.oid)
}

/// Objects have their introductions, and those that had one keep it.
pub open spec fn introduces(
    before: Seq<IntroLine>,
    after: Seq<IntroLine>,
    oids: Seq<ObjectId>,
    commit: ObjectId,
    agent_id: Seq<char>,
    ts_ms: i64,
) -> bool {
    &&& before.is_prefix_of(after)
    &&& forall|oid: Seq<u8>| among(oids, oid) ==> #[trigger] has_intro(after, oid)
    &&& forall|k: int|
        before.len() <= k < after.len() ==> new_intro(
            #[trigger] after[k],
            oids,
            commit,
            agent_id,
            ts_ms,
        ) && !has_intro(after.take(k), after[k].oid)
}

proof fn lemma_introduces(
    before: Seq<IntroLine>,
    oids: Seq<ObjectId>,
    commit: ObjectId,
    agent_id: Seq<char>,
    ts_ms: i64,
)
    ensures
        introduces(
            before,
            introduced(before, oids, commit, agent_id, ts_ms),
            oids,
            commit,
            agent_id,
            ts_ms,
        ),
    decreases oids.len(),
{
    let after = introduced(before, oids, commit, agent_id, ts_ms);
    if oids.len() > 0 {
        let d = oids.drop_last();
        let last = oids.last();
        let mid = introduced(before, d, commit, agent_id, ts_ms);
        lemma_introduces(before, d, commit, agent_id, ts_ms);
        lemma_place(mid, intro_of(last));
        let at = place(mid, intro_of(last));
        assert forall|oid: Seq<u8>| among(oids, oid) implies #[trigger] has_intro(after, oid) by {
            let i = choose|i: int| 0 <= i < oids.len() && (#[trigger] oids[i])@ == oid;
            if i < d.len() {
                assert(d[i]@ == oid);
                assert(among(d, oid));
                assert(has_intro(mid, oid));
                let k = choose|k: int| 0 <= k < mid.len() && (#[trigger] mid[k]).oid == oid;
                assert(after[k].oid == oid);
            } else if at >= 0 {
                assert(after[at].oid == oid);
            } else {
                assert(after[mid.len() as int].oid == oid);
            }
        }
        assert forall|k: int| before.len() <= k < after.len() implies new_intro(
            #[trigger] after[k],
            oids,
            commit,
            agent_id,
            ts_ms,
        ) && !has_intro(after.take(k), after[k].oid) by {
            if k < mid.len() {
                assert(after[k] == mid[k]);
                assert(new_intro(mid[k], d, commit, agent_id, ts_ms));
                let i = choose|i: int| 0 <= i < d.len() && (#[trigger] d[i])@ == mid[k].oid;
                assert(oids[i]@ == after[k].oid);
                assert(after.take(k) =~= mid.take(k));
            } else {
                assert(oids[oids.len() - 1]@ == after[k].oid);
                assert(after.take(k) =~= mid);
                assert forall|j: int| 0 <= j < mid.len() implies (#[trigger] mid[j]).oid
                    != last@ by {
                    assert(!intro_of(last)(mid[j]));
                }
            }
        }
    }
}

/// The tables that have nothing to do with refs are as they were.
pub open spec fn apart_from_refs(before: Rows, after: Rows) -> bool {
    &&& after.namespaces == before.namespaces
    &&& after.observations == before.observations
    &&& after.mounts == before.mounts
    &&& after.overlay == before.overlay
    &&& after.seals == before.seals
    &&& after.landmarks == before.landmarks
}

proof fn lemma_pushed(refs: Seq<RefLine>, l: RefLine)
    ensures
        forall|n: Seq<char>| #[trigger]
            find_ref(refs.push(l), n) == (if l.name == n {
                Some(l)
            } else {
                find_ref(refs, n)
            }),
{
    assert forall|n: Seq<char>| #[trigger]
        find_ref(refs.push(l), n) == (if l.name == n {
            Some(l)
        } else {
            find_ref(refs, n)
        }) by {
        let all = refs.push(l);
        assert(all.drop_last() =~= refs);
        assert(all.last() == l);
        lemma_place(refs, ref_named(n));
    }
}

proof fn lemma_moved(refs: Seq<RefLine>, i: int, l: RefLine)
    requires
        0 <= i < refs.len(),
        l.name == refs[i].name,
        i == place(refs, ref_named(l.name)),
    ensures
        forall|n: Seq<char>| #[trigger]
            find_ref(refs.update(i, l), n) == (if l.name == n {
                Some(l)
            } else {
                find_ref(refs, n)
            }),
{
    let after = refs.update(i, l);
    assert forall|n: Seq<char>| #[trigger]
        find_ref(after, n) == (if l.name == n {
            Some(l)
        } else {
            find_ref(refs, n)
        }) by {
        lemma_place(refs, ref_named(n));
        lemma_place(after, ref_named(n));
        let p = place(refs, ref_named(n));
        let q = place(after, ref_named(n));
        if p > q {
            assert(!ref_named(n)(after[p]));
            assert(after[p].name == refs[p].name);
        }
        if q > p {
            assert(!ref_named(n)(refs[q]));
            assert(after[q].name == refs[q].name);
        }
    }
}

/// The refs and their log are swapped as the request came out.
proof fn lemma_swapped(
    before: Rows,
    after: Rows,
    name: Seq<char>,
    expected: ObjectId,
    new: ObjectId,
    kind: Seq<char>,
    agent_id: Seq<char>,
    fork: Seq<char>,
    allow_protected: bool,
    ts_ms: i64,
    x: CasResult,
)
    requires
        "forks/"@.is_prefix_of(fork),
        ({
            let out = cas_in(before, name, kind, expected, allow_protected);
            let made = cas_rows(before, out, name, expected, new, kind, agent_id, fork, ts_ms);
            &&& cas_refusal(before, out, name, kind, fork) is None
            &&& cas_answer(out, name, new, fork, x)
            &&& after.refs == made.refs
            &&& after.reflog == made.reflog
        }),
    ensures
        swaps(
            before,
            after,
            name,
            expected,
            new,
            kind,
            agent_id,
            allow_protected,
            ts_ms,
            Ok(x),
        ),
{
    lemma_gone(before.reflog, name);
    let i = place(before.refs, ref_named(name));
    lemma_place(before.refs, ref_named(name));
    match cas_in(before, name, kind, expected, allow_protected) {
        CasOutcome::Refused(_) => {},
        CasOutcome::Create => {
            lemma_pushed(before.refs, after.refs.last());
        },
        CasOutcome::Advance => {
            lemma_moved(before.refs, i, after.refs[i]);
        },
        CasOutcome::Fork(_) => {
            lemma_pushed(before.refs, after.refs.last());
            lemma_id_of(before.refs[i].oid);
        },
    }
}

/// A request to move a ref swaps where the ref is as expected, and loses no work where it is
/// not; it changes no table but the refs, their log and the introductions.
pub proof fn lemma_swaps(
    before: Meta,
    after: Meta,
    name: Seq<char>,
    expected: ObjectId,
    new: ObjectId,
    kind: Seq<char>,
    agent_id: Seq<char>,
    fork_agent: Seq<char>,
    allow_protected: bool,
    intros: Seq<ObjectId>,
    ts_ms: i64,
    ulid: Seq<char>,
    r: Result<CasResult, Error>,
)
    requires
        cas_done(
            before,
            after,
            name,
            expected,
            new,
            kind,
            agent_id,
            fork_agent,
            allow_protected,
            intros,
            ts_ms,
            ulid,
            r,
        ),
    ensures
        swaps(
            before.rows(),
            after.rows(),
            name,
            expected,
            new,
            kind,
            agent_id,
            allow_protected,
            ts_ms,
            r,
        ),
        swap_owed(
            before.rows(),
            name,
            expected,
            kind,
            allow_protected,
            fork_name(name, fork_agent, ulid),
            r,
        ),
        apart_from_refs(before.rows(), after.rows()),
        r is Ok ==> introduces(
            before.rows().object_intro,
            after.rows().object_intro,
            intros,
            new,
            agent_id,
            ts_ms,
        ),
{
    let rows = before.rows();
    let out = cas_in(rows, name, kind, expected, allow_protected);
    let fork = fork_name(name, fork_agent, ulid);
    lemma_introduces(rows.object_intro, intros, new, agent_id, ts_ms);
    lemma_gone(rows.reflog, name);
    assert("forks/"@.is_prefix_of(fork)) by {
        let n = "forks/"@.len() as int;
        assert(fork.subrange(0, n) =~= "forks/"@);
    }
    if let Ok(x) = r {
        lemma_swapped(
            rows,
            after.rows(),
            name,
            expected,
            new,
            kind,
            agent_id,
            fork,
            allow_protected,
            ts_ms,
            x,
        );
    }
    assert(swap_owed(rows, name, expected, kind, allow_protected, fork, r)) by {
        match out {
            CasOutcome::Fork(_) => {},
            _ => {},
        }
    }
}

} // verus!
