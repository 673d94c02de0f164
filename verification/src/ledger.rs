//! What every transaction of the catalog keeps: refs and their log agree, kinds fit
//! names, sealed refs stay, and staged paths describe one tree.
use crate::audit::{
    chain_finder, end_finder, flat, log_end, log_findings, log_oid_finder, log_oid_findings,
    log_oids_ok, log_row_ok, optional_oid, orphan_finder, ref_at, ref_oids_ok, Finding,
};
use crate::catalog::{
    cas_in, cas_refusal, cas_rows, create_session_refusal, find_ref, insert_refusal,
    insert_with_intros_refusal, lemma_place, log_named, log_tail, logged, not_staged_at, paths_of,
    place, ref_named, retired, staged_at, with_moved, with_new_ref, with_ref, with_session,
    with_staged,
};
use crate::history::{
    log_holds_oids, ref_not_named, refs_hold_oids, retire_refusal, seal_refusal, with_retired,
    with_seal,
};
use crate::names::ref_kind_ok;
use crate::refs::{overlap, session_outcome, CasOutcome};
use crate::tables::{bytes_in, lines, LogLine, LogRecord, OverlayLine, RefLine, RefRecord, Rows};
use crate::types::{lemma_id_len, lemma_id_of, object_id, ObjectId};
use vstd::prelude::*;

verus! {

/// The log of a name ends at an object.
pub open spec fn ends_at(log: Seq<LogLine>, name: Seq<char>, oid: Seq<u8>) -> bool {
    log_tail(log, name) matches Some(l) && l.new_oid == oid
}

/// An entry of the log starts where the one before it of its name ended; a first one
/// starts from nothing, unless it makes a fork.
pub open spec fn chained_at(log: Seq<LogLine>, j: int) -> bool {
    match log_tail(log.take(j), log[j].name) {
        Some(p) => log[j].old_oid == Some(p.new_oid),
        None => log[j].old_oid is None || log[j].reason == "fork"@,
    }
}

/// Refs and their log agree: every log is a chain, it ends where its ref is, and a log
/// without a ref ends with the retirement of a fork.
pub open spec fn sound(rows: Rows) -> bool {
    &&& refs_hold_oids(rows.refs)
    &&& forall|j: int| 0 <= j < rows.reflog.len() ==> log_holds_oids(#[trigger] rows.reflog[j])
    &&& forall|n: Seq<char>|
        (#[trigger] find_ref(rows.refs, n)) matches Some(r) ==> ends_at(rows.reflog, n, r.oid)
    &&& forall|n: Seq<char>|
        (#[trigger] log_tail(rows.reflog, n)) is Some && find_ref(rows.refs, n) is None ==> retired(
            rows.reflog,
            n,
        ) && "forks/"@.is_prefix_of(n)
    &&& forall|j: int| 0 <= j < rows.reflog.len() ==> #[trigger] chained_at(rows.reflog, j)
}

proof fn lemma_tail_push(log: Seq<LogLine>, e: LogLine, n: Seq<char>)
    ensures
        log_tail(log.push(e), n) == (if e.name == n {
            Some(e)
        } else {
            log_tail(log, n)
        }),
{
    let all = log.push(e);
    assert(all.drop_last() =~= log);
    assert(all.last() == e);
    lemma_place(log, log_named(n));
}

proof fn lemma_find_push(refs: Seq<RefLine>, l: RefLine, n: Seq<char>)
    ensures
        find_ref(refs.push(l), n) == (if l.name == n {
            Some(l)
        } else {
            find_ref(refs, n)
        }),
{
    let all = refs.push(l);
    assert(all.drop_last() =~= refs);
    assert(all.last() == l);
    lemma_place(refs, ref_named(n));
}

proof fn lemma_find_moved(refs: Seq<RefLine>, i: int, l: RefLine, n: Seq<char>)
    requires
        0 <= i < refs.len(),
        l.name == refs[i].name,
        i == place(refs, ref_named(l.name)),
    ensures
        find_ref(refs.update(i, l), n) == (if l.name == n {
            Some(l)
        } else {
            find_ref(refs, n)
        }),
{
    let after = refs.update(i, l);
    lemma_place(refs, ref_named(n));
    lemma_place(after, ref_named(n));
    let p = place(refs, ref_named(n));
    let q = place(after, ref_named(n));
    if p > q {
        assert(!ref_named(n)(after[p]));
        assert(after[p].name == refs[p].name);
    }
    if q > p {
        assert(!ref_named(n)(refs[q]));
        assert(after[q].name == refs[q].name);
    }
}

proof fn lemma_find_filtered(refs: Seq<RefLine>, name: Seq<char>, n: Seq<char>)
    ensures
        find_ref(refs.filter(ref_not_named(name)), n) == (if n == name {
            None
        } else {
            find_ref(refs, n)
        }),
    decreases refs.len(),
{
    reveal(Seq::filter);
    let keep = ref_not_named(name);
    if refs.len() > 0 {
        let d = refs.drop_last();
        lemma_find_filtered(d, name, n);
        lemma_place(d, ref_named(n));
        lemma_place(d.filter(keep), ref_named(n));
        if keep(refs.last()) {
            assert(refs.filter(keep) == d.filter(keep).push(refs.last()));
            lemma_find_push(d.filter(keep), refs.last(), n);
        } else {
            assert(refs.filter(keep) == d.filter(keep));
        }
        assert(refs =~= d.push(refs.last()));
        lemma_find_push(d, refs.last(), n);
    }
}

/// One more entry keeps the chains of the log, where it starts as it has to.
proof fn lemma_chain_push(log: Seq<LogLine>, e: LogLine)
    requires
        forall|j: int| 0 <= j < log.len() ==> #[trigger] chained_at(log, j),
        match log_tail(log, e.name) {
            Some(p) => e.old_oid == Some(p.new_oid),
            None => e.old_oid is None || e.reason == "fork"@,
        },
    ensures
        forall|j: int| 0 <= j < log.push(e).len() ==> #[trigger] chained_at(log.push(e), j),
{
    let all = log.push(e);
    assert forall|j: int| 0 <= j < all.len() implies #[trigger] chained_at(all, j) by {
        if j < log.len() {
            assert(chained_at(log, j));
            assert(all.take(j) =~= log.take(j));
            assert(all[j] == log[j]);
        } else {
            assert(all.take(j) =~= log);
        }
    }
}

/// An empty catalog is sound.
pub proof fn lemma_empty_sound(rows: Rows)
    requires
        rows.refs.len() == 0,
        rows.reflog.len() == 0,
    ensures
        sound(rows),
{
}

/// A new ref, or a fork, keeps the catalog sound, where its name was never used.
proof fn lemma_added_sound(
    rows: Rows,
    name: Seq<char>,
    oid: ObjectId,
    kind: Seq<char>,
    protected: bool,
    sealed: bool,
    old_oid: Option<ObjectId>,
    agent_id: Seq<char>,
    reason: Seq<char>,
    ts_ms: i64,
)
    requires
        sound(rows),
        find_ref(rows.refs, name) is None,
        log_tail(rows.reflog, name) is None,
        old_oid is None || reason == "fork"@,
    ensures
        sound(
            Rows {
                refs: with_ref(rows.refs, name, oid, kind, protected, sealed, ts_ms),
                reflog: logged(rows.reflog, name, old_oid, oid, agent_id, reason, ts_ms),
                ..rows
            },
        ),
{
    let refs = with_ref(rows.refs, name, oid, kind, protected, sealed, ts_ms);
    let log = logged(rows.reflog, name, old_oid, oid, agent_id, reason, ts_ms);
    let l = refs.last();
    let e = log.last();
    assert(refs == rows.refs.push(l));
    assert(log == rows.reflog.push(e));
    lemma_id_len(oid);
    if let Some(o) = old_oid {
        lemma_id_len(o);
    }
    assert forall|i: int| 0 <= i < refs.len() implies (#[trigger] refs[i]).oid.len() == 32 by {
        if i < rows.refs.len() {
            assert(refs[i] == rows.refs[i]);
        }
    }
    assert forall|j: int| 0 <= j < log.len() implies log_holds_oids(#[trigger] log[j]) by {
        if j < rows.reflog.len() {
            assert(log[j] == rows.reflog[j]);
        }
    }
    assert forall|n: Seq<char>| (#[trigger] find_ref(refs, n)) matches Some(r) ==> ends_at(
        log,
        n,
        r.oid,
    ) by {
        lemma_find_push(rows.refs, l, n);
        lemma_tail_push(rows.reflog, e, n);
    }
    assert forall|n: Seq<char>|
        (#[trigger] log_tail(log, n)) is Some && find_ref(refs, n) is None implies retired(log, n)
        && "forks/"@.is_prefix_of(n) by {
        lemma_find_push(rows.refs, l, n);
        lemma_tail_push(rows.reflog, e, n);
        assert(log_tail(rows.reflog, n) is Some);
    }
    lemma_chain_push(rows.reflog, e);
}

/// Where no ref has a name and the name was not retired, the log does not know it.
pub proof fn lemma_unused(rows: Rows, name: Seq<char>)
    requires
        sound(rows),
        find_ref(rows.refs, name) is None,
        !retired(rows.reflog, name),
    ensures
        log_tail(rows.reflog, name) is None,
{
    if log_tail(rows.reflog, name) is Some {
        assert(retired(rows.reflog, name));
    }
}

/// Making a ref keeps the catalog sound.
pub proof fn lemma_insert_sound(
    rows: Rows,
    name: Seq<char>,
    oid: ObjectId,
    kind: Seq<char>,
    protected: bool,
    sealed: bool,
    agent_id: Seq<char>,
    reason: Seq<char>,
    ts_ms: i64,
)
    requires
        sound(rows),
        insert_refusal(rows, name, kind) is None || insert_with_intros_refusal(rows, name, kind)
            is None,
    ensures
        sound(
            with_new_ref(
                rows,
                name,
                oid,
                kind,
                protected,
                sealed,
                agent_id,
                reason,
                ts_ms,
            ),
        ),
{
    lemma_unused(rows, name);
    lemma_added_sound(
        rows,
        name,
        oid,
        kind,
        protected,
        sealed,
        None,
        agent_id,
        reason,
        ts_ms,
    );
}

/// Moving a ref from where it is keeps the catalog sound.
proof fn lemma_moved_sound(
    rows: Rows,
    name: Seq<char>,
    expected: ObjectId,
    new: ObjectId,
    agent_id: Seq<char>,
    ts_ms: i64,
)
    requires
        sound(rows),
        find_ref(rows.refs, name) matches Some(l) && l.oid == expected@,
    ensures
        sound(
            Rows {
                refs: with_moved(rows.refs, name, new, ts_ms),
                reflog: logged(rows.reflog, name, Some(expected), new, agent_id, "cas"@, ts_ms),
                ..rows
            },
        ),
{
    let i = place(rows.refs, ref_named(name));
    lemma_place(rows.refs, ref_named(name));
    let l = RefLine { oid: new@, updated_ms: ts_ms, ..rows.refs[i] };
    let refs = with_moved(rows.refs, name, new, ts_ms);
    let log = logged(rows.reflog, name, Some(expected), new, agent_id, "cas"@, ts_ms);
    let e = log.last();
    assert(refs == rows.refs.update(i, l));
    assert(log == rows.reflog.push(e));
    lemma_id_len(new);
    lemma_id_len(expected);
    assert forall|k: int| 0 <= k < refs.len() implies (#[trigger] refs[k]).oid.len() == 32 by {
        if k != i {
            assert(refs[k] == rows.refs[k]);
        }
    }
    assert forall|j: int| 0 <= j < log.len() implies log_holds_oids(#[trigger] log[j]) by {
        if j < rows.reflog.len() {
            assert(log[j] == rows.reflog[j]);
        }
    }
    assert forall|n: Seq<char>| (#[trigger] find_ref(refs, n)) matches Some(r) ==> ends_at(
        log,
        n,
        r.oid,
    ) by {
        lemma_find_moved(rows.refs, i, l, n);
        lemma_tail_push(rows.reflog, e, n);
    }
    assert forall|n: Seq<char>|
        (#[trigger] log_tail(log, n)) is Some && find_ref(refs, n) is None implies retired(log, n)
        && "forks/"@.is_prefix_of(n) by {
        lemma_find_moved(rows.refs, i, l, n);
        lemma_tail_push(rows.reflog, e, n);
        assert(log_tail(rows.reflog, n) is Some);
    }
    assert(ends_at(rows.reflog, name, expected@));
    lemma_chain_push(rows.reflog, e);
}

/// A request to move a ref keeps the catalog sound, whatever it comes to, where the name
/// of a fork was never used.
pub proof fn lemma_cas_sound(
    rows: Rows,
    name: Seq<char>,
    expected: ObjectId,
    new: ObjectId,
    kind: Seq<char>,
    agent_id: Seq<char>,
    fork: Seq<char>,
    allow_protected: bool,
    ts_ms: i64,
)
    requires
        sound(rows),
        cas_refusal(
            rows,
            cas_in(rows, name, kind, expected, allow_protected),
            name,
            kind,
            fork,
        ) is None,
        cas_in(rows, name, kind, expected, allow_protected) is Fork ==> log_tail(rows.reflog, fork)
            is None,
    ensures
        sound(
            cas_rows(
                rows,
                cas_in(rows, name, kind, expected, allow_protected),
                name,
                expected,
                new,
                kind,
                agent_id,
                fork,
                ts_ms,
            ),
        ),
{
    match cas_in(rows, name, kind, expected, allow_protected) {
        CasOutcome::Refused(_) => {},
        CasOutcome::Create => {
            lemma_unused(rows, name);
            lemma_added_sound(
                rows,
                name,
                new,
                kind,
                false,
                false,
                None,
                agent_id,
                "cas"@,
                ts_ms,
            );
        },
        CasOutcome::Advance => {
            lemma_moved_sound(rows, name, expected, new, agent_id, ts_ms);
        },
        CasOutcome::Fork(theirs) => {
            lemma_added_sound(
                rows,
                fork,
                new,
                kind,
                false,
                false,
                Some(theirs),
                agent_id,
                "fork"@,
                ts_ms,
            );
        },
    }
}

/// A checkin of a session keeps the catalog sound, where the name of a fork was never
/// used.
pub proof fn lemma_session_sound(
    rows: Rows,
    name: Seq<char>,
    expected: ObjectId,
    new: ObjectId,
    agent_id: Seq<char>,
    fork: Seq<char>,
    ts_ms: i64,
)
    requires
        sound(rows),
        ({
            let out = session_outcome(find_ref(rows.refs, name), name, expected);
            cas_refusal(rows, out, name, "commit"@, fork) is None && (out is Fork ==> log_tail(
                rows.reflog,
                fork,
            ) is None)
        }),
    ensures
        sound(
            cas_rows(
                rows,
                session_outcome(find_ref(rows.refs, name), name, expected),
                name,
                expected,
                new,
                "commit"@,
                agent_id,
                fork,
                ts_ms,
            ),
        ),
{
    match session_outcome(find_ref(rows.refs, name), name, expected) {
        CasOutcome::Advance => {
            lemma_moved_sound(rows, name, expected, new, agent_id, ts_ms);
        },
        CasOutcome::Fork(theirs) => {
            lemma_added_sound(
                rows,
                fork,
                new,
                "commit"@,
                false,
                false,
                Some(theirs),
                agent_id,
                "fork"@,
                ts_ms,
            );
        },
        _ => {},
    }
}

/// Making a session keeps the catalog sound.
pub proof fn lemma_create_session_sound(
    rows: Rows,
    id: Seq<char>,
    agent_id: Seq<char>,
    pinned: ObjectId,
    live_ref: Seq<char>,
    mount_main: bool,
    ts_ms: i64,
)
    requires
        sound(rows),
        create_session_refusal(rows, id, live_ref, mount_main) is None,
    ensures
        sound(with_session(rows, id, agent_id, pinned, live_ref, mount_main, ts_ms)),
{
    lemma_unused(rows, live_ref);
    lemma_added_sound(
        rows,
        live_ref,
        pinned,
        "commit"@,
        false,
        false,
        None,
        agent_id,
        "session"@,
        ts_ms,
    );
}

/// A seal keeps the catalog sound.
pub proof fn lemma_seal_sound(
    rows: Rows,
    tag: Seq<char>,
    snap: ObjectId,
    commit: ObjectId,
    tree: ObjectId,
    agent_id: Seq<char>,
    ts_ms: i64,
)
    requires
        sound(rows),
        seal_refusal(rows, tag, snap) is None,
    ensures
        sound(with_seal(rows, tag, snap, commit, tree, agent_id, ts_ms)),
{
    let name = "tags/"@ + tag;
    if log_tail(rows.reflog, name) is Some {
        reveal_strlit("tags/");
        reveal_strlit("forks/");
        assert("forks/"@.is_prefix_of(name));
        assert(name[0] == 't');
        assert("forks/"@[0] == name[0]);
    }
    lemma_added_sound(
        rows,
        name,
        snap,
        "snapshot"@,
        true,
        true,
        None,
        agent_id,
        "seal"@,
        ts_ms,
    );
}

/// Retiring a ref keeps the catalog sound.
pub proof fn lemma_retire_sound(rows: Rows, name: Seq<char>, agent_id: Seq<char>, ts_ms: i64)
    requires
        sound(rows),
        retire_refusal(rows, name) is None,
    ensures
        sound(with_retired(rows, name, agent_id, ts_ms)),
        find_ref(with_retired(rows, name, agent_id, ts_ms).refs, name) is None,
        retired(with_retired(rows, name, agent_id, ts_ms).reflog, name),
{
    let line = find_ref(rows.refs, name)->0;
    let oid = object_id(line.oid);
    lemma_place(rows.refs, ref_named(name));
    assert(line.oid.len() == 32);
    let after = with_retired(rows, name, agent_id, ts_ms);
    let e = after.reflog.last();
    assert(after.reflog == rows.reflog.push(e));
    lemma_id_of(line.oid);
    assert(oid@ == line.oid);
    assert forall|k: int| 0 <= k < after.refs.len() implies (#[trigger] after.refs[k]).oid.len()
        == 32 by {
        lemma_filtered_from(rows.refs, name, k);
    }
    assert forall|j: int| 0 <= j < after.reflog.len() implies log_holds_oids(
        #[trigger] after.reflog[j],
    ) by {
        if j < rows.reflog.len() {
            assert(after.reflog[j] == rows.reflog[j]);
        }
    }
    assert forall|n: Seq<char>| (#[trigger] find_ref(after.refs, n)) matches Some(r) ==> ends_at(
        after.reflog,
        n,
        r.oid,
    ) by {
        lemma_find_filtered(rows.refs, name, n);
        lemma_tail_push(rows.reflog, e, n);
    }
    assert forall|n: Seq<char>|
        (#[trigger] log_tail(after.reflog, n)) is Some && find_ref(after.refs, n)
            is None implies retired(after.reflog, n) && "forks/"@.is_prefix_of(n) by {
        lemma_find_filtered(rows.refs, name, n);
        lemma_tail_push(rows.reflog, e, n);
        if n != name {
            assert(log_tail(rows.reflog, n) is Some);
        }
    }
    assert(ends_at(rows.reflog, name, line.oid));
    lemma_chain_push(rows.reflog, e);
    lemma_find_filtered(rows.refs, name, name);
    lemma_tail_push(rows.reflog, e, name);
}

proof fn lemma_filtered_from(refs: Seq<RefLine>, name: Seq<char>, k: int)
    requires
        0 <= k < refs.filter(ref_not_named(name)).len(),
    ensures
        exists|i: int|
            0 <= i < refs.len() && #[trigger] refs[i] == refs.filter(ref_not_named(name))[k],
    decreases refs.len(),
{
    reveal(Seq::filter);
    let keep = ref_not_named(name);
    if refs.len() > 0 {
        let d = refs.drop_last();
        if keep(refs.last()) && k == d.filter(keep).len() {
            assert(refs[refs.len() - 1] == refs.filter(keep)[k]);
        } else {
            lemma_filtered_from(d, name, k);
            let i = choose|i: int| 0 <= i < d.len() && #[trigger] d[i] == d.filter(keep)[k];
            assert(refs[i] == d[i]);
            assert(refs.filter(keep)[k] == d.filter(keep)[k]);
        }
    }
}

/// The refs of the audit are those of the catalog.
proof fn lemma_same_refs(refs: Seq<RefRecord>, name: Seq<char>)
    requires
        ref_oids_ok(refs),
    ensures
        match find_ref(lines(refs), name) {
            Some(l) => ref_at(refs, name) matches Some(f) && f.oid == object_id(l.oid),
            None => ref_at(refs, name) is None,
        },
    decreases refs.len(),
{
    if refs.len() > 0 {
        let d = refs.drop_last();
        assert forall|i: int| 0 <= i < d.len() implies (#[trigger] d[i]).oid@.len() == 32 by {
            assert(d[i] == refs[i]);
        }
        lemma_same_refs(d, name);
        assert(lines(refs).drop_last() =~= lines(d));
        assert(lines(refs) =~= lines(d).push(refs.last()@));
        lemma_find_push(lines(d), refs.last()@, name);
        assert(refs[refs.len() - 1].oid@.len() == 32);
    }
}

/// The ends of logs in the audit are those of the catalog.
proof fn lemma_same_ends(log: Seq<LogRecord>, name: Seq<char>)
    ensures
        match log_tail(lines(log), name) {
            Some(l) => log_end(log, name) == Some((object_id(l.new_oid), l.reason)),
            None => log_end(log, name) is None,
        },
    decreases log.len(),
{
    if log.len() > 0 {
        let d = log.drop_last();
        lemma_same_ends(d, name);
        assert(lines(log) =~= lines(d).push(log.last()@));
        lemma_tail_push(lines(d), log.last()@, name);
    }
}

proof fn lemma_flat_empty(n: nat, f: spec_fn(int) -> Seq<Finding>)
    requires
        forall|i: int| 0 <= i < n ==> (#[trigger] f(i)).len() == 0,
    ensures
        flat(n, f).len() == 0,
    decreases n,
{
    if n > 0 {
        lemma_flat_empty((n - 1) as nat, f);
        assert(f(n - 1).len() == 0);
    }
}

proof fn lemma_sound_log_rows(refs: Seq<RefRecord>, log: Seq<LogRecord>, rows: Rows)
    requires
        sound(rows),
        rows.refs == lines(refs),
        rows.reflog == lines(log),
    ensures
        ref_oids_ok(refs),
        log_oids_ok(log),
        forall|i: int| 0 <= i < log.len() ==> (#[trigger] log_oid_findings(log[i])).len() == 0,
{
    assert forall|i: int| 0 <= i < refs.len() implies (#[trigger] refs[i]).oid@.len() == 32 by {
        assert(rows.refs[i].oid.len() == 32);
    }
    assert forall|i: int| 0 <= i < log.len() implies log_row_ok(#[trigger] log[i]) by {
        assert(log_holds_oids(rows.reflog[i]));
        assert(rows.reflog[i].old_oid == bytes_in(log[i].old_oid));
    }
    assert forall|i: int| 0 <= i < log.len() implies (#[trigger] log_oid_findings(log[i])).len()
        == 0 by {
        assert(log_row_ok(log[i]));
    }
}

/// The audit finds nothing wrong with the log of a sound catalog.
pub proof fn lemma_sound_passes_audit(refs: Seq<RefRecord>, log: Seq<LogRecord>, rows: Rows)
    requires
        sound(rows),
        rows.refs == lines(refs),
        rows.reflog == lines(log),
    ensures
        log_findings(refs, log).len() == 0,
{
    lemma_sound_log_rows(refs, log, rows);
    assert forall|i: int| 0 <= i < log.len() implies (#[trigger] log_oid_finder(log)(i)).len()
        == 0 by {
        assert(log_oid_findings(log[i]).len() == 0);
    }
    lemma_flat_empty(log.len(), log_oid_finder(log));
    assert forall|i: int| 0 <= i < log.len() implies (#[trigger] chain_finder(log)(i)).len()
        == 0 by {
        let name = log[i].name@;
        assert(chained_at(rows.reflog, i));
        assert(rows.reflog.take(i) =~= lines(log.take(i)));
        lemma_same_ends(log.take(i), name);
        assert(log_row_ok(log[i]));
        if let Some(l) = log_tail(rows.reflog.take(i), name) {
            assert(optional_oid(log[i].old_oid) == Some(object_id(l.new_oid)));
        }
    }
    lemma_flat_empty(log.len(), chain_finder(log));
    assert forall|i: int| 0 <= i < refs.len() implies (#[trigger] end_finder(refs, log)(i)).len()
        == 0 by {
        let name = refs[i].name@;
        lemma_same_refs(refs, name);
        lemma_same_ends(log, name);
        if let Some(l) = find_ref(rows.refs, name) {
            assert(ends_at(rows.reflog, name, l.oid));
        }
    }
    lemma_flat_empty(refs.len(), end_finder(refs, log));
    assert forall|i: int| 0 <= i < log.len() implies (#[trigger] orphan_finder(refs, log)(
        i,
    )).len() == 0 by {
        let name = log[i].name@;
        lemma_same_refs(refs, name);
        lemma_same_ends(log, name);
        lemma_place(rows.reflog, log_named(name));
        assert(log_named(name)(rows.reflog[i]));
        assert(log_tail(rows.reflog, name) is Some);
    }
    lemma_flat_empty(log.len(), orphan_finder(refs, log));
}

/// No request moves a sealed ref, or a protected one without the right to; no request
/// changes the kind of a ref or takes one away.
pub proof fn lemma_cas_keeps(
    rows: Rows,
    name: Seq<char>,
    expected: ObjectId,
    new: ObjectId,
    kind: Seq<char>,
    agent_id: Seq<char>,
    fork: Seq<char>,
    allow_protected: bool,
    ts_ms: i64,
    n: Seq<char>,
)
    requires
        find_ref(rows.refs, n) is Some,
        cas_refusal(
            rows,
            cas_in(rows, name, kind, expected, allow_protected),
            name,
            kind,
            fork,
        ) is None,
    ensures
        ({
            let out = cas_in(rows, name, kind, expected, allow_protected);
            let after = cas_rows(rows, out, name, expected, new, kind, agent_id, fork, ts_ms);
            let l = find_ref(rows.refs, n)->0;
            &&& find_ref(after.refs, n) matches Some(m) && m.kind == l.kind && m.sealed == l.sealed
                && m.protected == l.protected
            &&& l.sealed != 0 || (l.protected != 0 && !allow_protected) || n != name || out
                is Fork ==> find_ref(after.refs, n) == Some(l)
        }),
{
    let out = cas_in(rows, name, kind, expected, allow_protected);
    let after = cas_rows(rows, out, name, expected, new, kind, agent_id, fork, ts_ms);
    match out {
        CasOutcome::Refused(_) => {},
        CasOutcome::Create => {
            lemma_find_push(rows.refs, after.refs.last(), n);
        },
        CasOutcome::Advance => {
            let i = place(rows.refs, ref_named(name));
            lemma_place(rows.refs, ref_named(name));
            lemma_find_moved(rows.refs, i, after.refs[i], n);
        },
        CasOutcome::Fork(_) => {
            lemma_find_push(rows.refs, after.refs.last(), n);
        },
    }
}

/// A request that lost loses no work: the ref stays where it was, and the fork holds
/// what was to be published, and says what it lost to.
pub proof fn lemma_fork_keeps_work(
    rows: Rows,
    name: Seq<char>,
    expected: ObjectId,
    new: ObjectId,
    kind: Seq<char>,
    agent_id: Seq<char>,
    fork: Seq<char>,
    allow_protected: bool,
    ts_ms: i64,
)
    requires
        cas_in(rows, name, kind, expected, allow_protected) is Fork,
        cas_refusal(
            rows,
            cas_in(rows, name, kind, expected, allow_protected),
            name,
            kind,
            fork,
        ) is None,
    ensures
        ({
            let out = cas_in(rows, name, kind, expected, allow_protected);
            let after = cas_rows(rows, out, name, expected, new, kind, agent_id, fork, ts_ms);
            &&& find_ref(after.refs, name) == find_ref(rows.refs, name)
            &&& find_ref(after.refs, fork) matches Some(l) && l.oid == new@ && l.kind == kind
            &&& log_tail(after.reflog, fork) matches Some(e) && e.new_oid == new@ && e.old_oid
                == Some(find_ref(rows.refs, name)->0.oid)
        }),
{
    let out = cas_in(rows, name, kind, expected, allow_protected);
    let after = cas_rows(rows, out, name, expected, new, kind, agent_id, fork, ts_ms);
    lemma_find_push(rows.refs, after.refs.last(), name);
    lemma_find_push(rows.refs, after.refs.last(), fork);
    lemma_tail_push(rows.reflog, after.reflog.last(), fork);
    lemma_id_of(find_ref(rows.refs, name)->0.oid);
}

/// The name of a retired ref never comes back: neither a new ref nor a request to move
/// one gets it, and no session has it as its head.
pub proof fn lemma_retired_stays(
    rows: Rows,
    name: Seq<char>,
    kind: Seq<char>,
    expected: ObjectId,
    allow_protected: bool,
    fork: Seq<char>,
    id: Seq<char>,
    mount_main: bool,
)
    requires
        find_ref(rows.refs, name) is None,
        retired(rows.reflog, name),
    ensures
        create_session_refusal(rows, id, name, mount_main) is Some,
        insert_refusal(rows, name, kind) is Some,
        insert_with_intros_refusal(rows, name, kind) is Some,
        cas_refusal(
            rows,
            cas_in(rows, name, kind, expected, allow_protected),
            name,
            kind,
            fork,
        ) is Some,
        session_outcome(find_ref(rows.refs, name), name, expected) is Refused,
        retire_refusal(rows, name) is Some,
{
}

/// Every ref is of a kind that its name admits.
pub open spec fn typed(refs: Seq<RefLine>) -> bool {
    forall|i: int| 0 <= i < refs.len() ==> ref_kind_ok((#[trigger] refs[i]).name, refs[i].kind)
}

/// Making a ref, a session or a seal, and moving a ref, keep every ref of a kind that
/// its name admits.
pub proof fn lemma_typed_kept(
    rows: Rows,
    name: Seq<char>,
    kind: Seq<char>,
    oid: ObjectId,
    protected: bool,
    sealed: bool,
    ts_ms: i64,
)
    requires
        typed(rows.refs),
    ensures
        ref_kind_ok(name, kind) ==> typed(
            with_ref(rows.refs, name, oid, kind, protected, sealed, ts_ms),
        ),
        find_ref(rows.refs, name) is Some ==> typed(with_moved(rows.refs, name, oid, ts_ms)),
        typed(rows.refs.filter(ref_not_named(name))),
{
    let grown = with_ref(rows.refs, name, oid, kind, protected, sealed, ts_ms);
    if ref_kind_ok(name, kind) {
        assert forall|i: int| 0 <= i < grown.len() implies ref_kind_ok(
            (#[trigger] grown[i]).name,
            grown[i].kind,
        ) by {
            if i < rows.refs.len() {
                assert(grown[i] == rows.refs[i]);
            }
        }
    }
    let i = place(rows.refs, ref_named(name));
    lemma_place(rows.refs, ref_named(name));
    if find_ref(rows.refs, name) is Some {
        let moved = with_moved(rows.refs, name, oid, ts_ms);
        assert forall|k: int| 0 <= k < moved.len() implies ref_kind_ok(
            (#[trigger] moved[k]).name,
            moved[k].kind,
        ) by {
            assert(ref_kind_ok(rows.refs[k].name, rows.refs[k].kind));
        }
    }
    let left = rows.refs.filter(ref_not_named(name));
    assert forall|k: int| 0 <= k < left.len() implies ref_kind_ok(
        (#[trigger] left[k]).name,
        left[k].kind,
    ) by {
        lemma_filtered_from(rows.refs, name, k);
    }
}

/// No two staged paths of a mount overlap: together they describe one tree.
pub open spec fn staged_apart(rows: Seq<OverlayLine>) -> bool {
    forall|i: int, j: int|
        0 <= i < rows.len() && 0 <= j < rows.len() && (#[trigger] rows[i]).ns_id == (
        #[trigger] rows[j]).ns_id && rows[i].mount == rows[j].mount ==> !overlap(
            rows[i].path,
            rows[j].path,
        )
}

proof fn lemma_kept_row(rows: Seq<OverlayLine>, p: spec_fn(OverlayLine) -> bool, k: int)
    requires
        0 <= k < rows.filter(p).len(),
    ensures
        p(rows.filter(p)[k]),
        exists|i: int| 0 <= i < rows.len() && #[trigger] rows[i] == rows.filter(p)[k],
    decreases rows.len(),
{
    reveal(Seq::filter);
    if rows.len() > 0 {
        let d = rows.drop_last();
        if p(rows.last()) && k == d.filter(p).len() {
            assert(rows[rows.len() - 1] == rows.filter(p)[k]);
        } else {
            lemma_kept_row(d, p, k);
            let i = choose|i: int| 0 <= i < d.len() && #[trigger] d[i] == d.filter(p)[k];
            assert(rows[i] == d[i]);
            assert(rows.filter(p)[k] == d.filter(p)[k]);
        }
    }
}

proof fn lemma_row_kept(rows: Seq<OverlayLine>, p: spec_fn(OverlayLine) -> bool, i: int)
    requires
        0 <= i < rows.len(),
        p(rows[i]),
    ensures
        rows.filter(p).contains(rows[i]),
    decreases rows.len(),
{
    reveal(Seq::filter);
    let d = rows.drop_last();
    if i < d.len() {
        lemma_row_kept(d, p, i);
        let k = choose|k: int| 0 <= k < d.filter(p).len() && d.filter(p)[k] == d[i];
        assert(rows.filter(p)[k] == rows[i]);
    } else {
        assert(rows.filter(p)[d.filter(p).len() as int] == rows[i]);
    }
}

/// Staging a path that overlaps none of those at its mount keeps all staged paths
/// apart.
pub proof fn lemma_staged_apart(
    rows: Seq<OverlayLine>,
    ns: Seq<char>,
    mount: Seq<char>,
    path: Seq<char>,
    blob_oid: Option<ObjectId>,
    executable: bool,
)
    requires
        staged_apart(rows),
        forall|p: Seq<char>| #[trigger]
            paths_of(rows.filter(staged_at(ns, mount))).contains(p) ==> !overlap(p, path),
    ensures
        staged_apart(with_staged(rows, ns, mount, path, blob_oid, executable)),
{
    let kept = rows.filter(not_staged_at(ns, mount, path));
    let after = with_staged(rows, ns, mount, path, blob_oid, executable);
    let here = rows.filter(staged_at(ns, mount));
    assert forall|i: int, j: int|
        0 <= i < after.len() && 0 <= j < after.len() && (#[trigger] after[i]).ns_id == (
        #[trigger] after[j]).ns_id && after[i].mount == after[j].mount implies !overlap(
        after[i].path,
        after[j].path,
    ) by {
        if i < kept.len() {
            lemma_kept_row(rows, not_staged_at(ns, mount, path), i);
        }
        if j < kept.len() {
            lemma_kept_row(rows, not_staged_at(ns, mount, path), j);
        }
        if i < kept.len() && j == kept.len() {
            let a = choose|a: int| 0 <= a < rows.len() && #[trigger] rows[a] == kept[i];
            lemma_row_kept(rows, staged_at(ns, mount), a);
            let k = choose|k: int| 0 <= k < here.len() && here[k] == rows[a];
            assert(paths_of(here)[k] == rows[a].path);
            assert(paths_of(here).contains(rows[a].path));
        }
        if j < kept.len() && i == kept.len() {
            let a = choose|a: int| 0 <= a < rows.len() && #[trigger] rows[a] == kept[j];
            lemma_row_kept(rows, staged_at(ns, mount), a);
            let k = choose|k: int| 0 <= k < here.len() && here[k] == rows[a];
            assert(paths_of(here)[k] == rows[a].path);
            assert(paths_of(here).contains(rows[a].path));
        }
    }
}

} // verus!
