//! The catalog as a value: its tables, and the transactions on them. A transaction
//! that fails leaves every table as it was.
use crate::bytes::bytes_eq;
use crate::names::{
    bad_ref, catalog_ref_type, fork_name, fork_ref, is_ulid, new_ulid, oid_from_blob, ref_kind,
    ref_kind_ok, validate_ref_kind,
};
use crate::paths::starts_with;
use crate::refs::{
    cas_outcome, check_new_ref, check_overlay, decide_cas, decide_session, decode_observation,
    deny_retired, least_overlap, new_ref_refusal, observation_is_current, observation_of, overlap,
    refuses, retired_text, session_outcome, stored_as, CasOutcome, CasStep, Refusal,
};
use crate::rows::{
    no_meta_work, MetaStats, MountRow, NsRow, ObservationRow, Observed, OverlayRow,
};
use crate::tables::{
    bytes_in, lines, text_in, IntroLine, IntroRecord, LogLine, LogRecord, MountLine, MountRecord,
    NsLine, NsRecord, ObservationLine, ObservationRecord, OverlayLine, OverlayRecord, RefLine,
    RefRecord, Rows, Tables,
};
use crate::text::{cat2, cat3, cat4, chars_of, text_eq, text_of, text_values};
use crate::types::{lemma_object_id, object_id, CasResult, Error, ObjectId, RefRow};
use vstd::prelude::*;
use vstd::slice::slice_subrange;

verus! {

/// The place of the last row that fits, or -1 where none does.
pub open spec fn place<L>(s: Seq<L>, p: spec_fn(L) -> bool) -> int
    decreases s.len(),
{
    if s.len() == 0 {
        -1
    } else if p(s.last()) {
        s.len() - 1
    } else {
        place(s.drop_last(), p)
    }
}

/// Some row fits.
pub open spec fn some_row<L>(s: Seq<L>, p: spec_fn(L) -> bool) -> bool {
    place(s, p) >= 0
}

pub proof fn lemma_place<L>(s: Seq<L>, p: spec_fn(L) -> bool)
    ensures
        -1 <= place(s, p) < s.len(),
        place(s, p) >= 0 ==> p(s[place(s, p)]),
        forall|i: int| place(s, p) < i < s.len() ==> !p(#[trigger] s[i]),
    decreases s.len(),
{
    if s.len() > 0 && !p(s.last()) {
        let d = s.drop_last();
        lemma_place(d, p);
        assert forall|i: int| place(s, p) < i < s.len() implies !p(#[trigger] s[i]) by {
            if i < d.len() {
                assert(d[i] == s[i]);
            }
        }
    }
}

/// Find the last row that fits.
pub(crate) fn find_row<R: View, F: Fn(&R) -> bool>(
    v: &Vec<R>,
    fits: F,
    Ghost(p): Ghost<spec_fn(R::V) -> bool>,
) -> (r: Option<usize>)
    requires
        forall|x: &R| #[trigger] fits.requires((x,)),
        forall|x: &R, b: bool| #[trigger] fits.ensures((x,), b) ==> b == p(x@),
    ensures
        match r {
            Some(i) => i == place(lines(v@), p) && i < v@.len() && p(v@[i as int]@),
            None => place(lines(v@), p) == -1,
        },
{
    let ghost all = lines(v@);
    let mut found: Option<usize> = None;
    let mut i: usize = 0;
    assert(all.take(0) =~= Seq::empty());
    while i < v.len()
        invariant
            i <= v@.len(),
            all == lines(v@),
            forall|x: &R| #[trigger] fits.requires((x,)),
            forall|x: &R, b: bool| #[trigger] fits.ensures((x,), b) ==> b == p(x@),
            match found {
                Some(k) => k == place(all.take(i as int), p) && k < i && p(v@[k as int]@),
                None => place(all.take(i as int), p) == -1,
            },
        decreases v@.len() - i,
    {
        proof {
            let next = all.take(i + 1);
            assert(next.drop_last() =~= all.take(i as int));
            assert(next.last() == v@[i as int]@);
        }
        let b = fits(&v[i]);
        if b {
            found = Some(i);
        }
        i += 1;
    }
    assert(all.take(i as int) =~= all);
    found
}

/// Take out the rows that do not stay; their number comes back.
pub(crate) fn drop_rows<R: View, F: Fn(&R) -> bool>(
    v: &mut Vec<R>,
    stays: F,
    Ghost(p): Ghost<spec_fn(R::V) -> bool>,
) -> (n: usize)
    requires
        forall|x: &R| #[trigger] stays.requires((x,)),
        forall|x: &R, b: bool| #[trigger] stays.ensures((x,), b) ==> b == p(x@),
    ensures
        lines(final(v)@) == lines(old(v)@).filter(p),
        n == old(v)@.len() - final(v)@.len(),
{
    let total = v.len();
    let ghost all = lines(v@);
    let ghost mut k: int = 0;
    let mut i: usize = 0;
    let mut n: usize = 0;
    proof {
        reveal(Seq::filter);
        assert(all.take(0) =~= Seq::empty());
        assert(all.take(0).filter(p) =~= Seq::empty());
        assert(lines(v@) =~= all.take(0).filter(p) + all.skip(0));
    }
    while i < v.len()
        invariant
            0 <= k <= all.len(),
            i == all.take(k).filter(p).len(),
            lines(v@) == all.take(k).filter(p) + all.skip(k),
            n == k - i,
            n + v@.len() == all.len(),
            all.len() == total,
            forall|x: &R| #[trigger] stays.requires((x,)),
            forall|x: &R, b: bool| #[trigger] stays.ensures((x,), b) ==> b == p(x@),
        decreases all.len() - k,
    {
        let ghost kept = all.take(k).filter(p);
        proof {
            reveal(Seq::filter);
            assert(lines(v@)[i as int] == all[k]) by {
                assert((kept + all.skip(k))[kept.len() as int] == all.skip(k)[0]);
            }
            assert(all.take(k + 1).drop_last() =~= all.take(k));
            assert(all.take(k + 1).last() == all[k]);
        }
        let b = stays(&v[i]);
        let ghost before = v@;
        if b {
            proof {
                assert(all.take(k + 1).filter(p) =~= kept.push(all[k]));
                assert(lines(v@) =~= all.take(k + 1).filter(p) + all.skip(k + 1));
            }
            i += 1;
        } else {
            v.remove(i);
            n += 1;
            proof {
                assert(all.take(k + 1).filter(p) =~= kept);
                assert(lines(v@) =~= lines(before).remove(i as int));
                assert(lines(v@) =~= kept + all.skip(k + 1));
            }
        }
        proof {
            k = k + 1;
        }
    }
    proof {
        assert(all.skip(k).len() == 0) by {
            assert(lines(v@).len() == i + all.skip(k).len());
        }
        assert(all.take(k) =~= all);
        assert(lines(v@) =~= all.filter(p));
    }
    n
}

/// The rows of refs of a name.
pub open spec fn ref_named(name: Seq<char>) -> spec_fn(RefLine) -> bool {
    |l: RefLine| l.name == name
}

/// The row of a ref.
pub open spec fn find_ref(refs: Seq<RefLine>, name: Seq<char>) -> Option<RefLine> {
    if some_row(refs, ref_named(name)) {
        Some(refs[place(refs, ref_named(name))])
    } else {
        None
    }
}

pub open spec fn log_named(name: Seq<char>) -> spec_fn(LogLine) -> bool {
    |l: LogLine| l.name == name
}

/// The last entry of a name in the log.
pub open spec fn log_tail(log: Seq<LogLine>, name: Seq<char>) -> Option<LogLine> {
    if some_row(log, log_named(name)) {
        Some(log[place(log, log_named(name))])
    } else {
        None
    }
}

/// The log of a name ends with its retirement. The log is the tombstone: only that
/// takes a ref away, and it always leaves such an entry behind.
pub open spec fn retired(log: Seq<LogLine>, name: Seq<char>) -> bool {
    log_tail(log, name) matches Some(l) && l.reason == "abandon"@
}

/// The number of the next entry of the log.
pub open spec fn next_log_id(log: Seq<LogLine>) -> int {
    if log.len() == 0 {
        1
    } else {
        log.last().id + 1
    }
}

/// There are numbers left for the log.
pub open spec fn log_has_room(log: Seq<LogLine>) -> bool {
    next_log_id(log) <= i64::MAX
}

/// How a full log is refused.
pub open spec fn full_text() -> Seq<char> {
    "database or disk is full"@
}

/// The log with one more entry.
pub open spec fn logged(
    log: Seq<LogLine>,
    name: Seq<char>,
    old_oid: Option<ObjectId>,
    new_oid: ObjectId,
    agent_id: Seq<char>,
    reason: Seq<char>,
    ts_ms: i64,
) -> Seq<LogLine> {
    log.push(
        LogLine {
            id: next_log_id(log) as i64,
            name,
            old_oid: match old_oid {
                Some(id) => Some(id@),
                None => None,
            },
            new_oid: new_oid@,
            agent_id,
            reason,
            ts_ms,
        },
    )
}

pub open spec fn intro_of(oid: ObjectId) -> spec_fn(IntroLine) -> bool {
    |l: IntroLine| l.oid == oid@
}

/// The introductions with those of some objects added, each unless the object has
/// one.
pub open spec fn introduced(
    rows: Seq<IntroLine>,
    oids: Seq<ObjectId>,
    commit: ObjectId,
    agent_id: Seq<char>,
    ts_ms: i64,
) -> Seq<IntroLine>
    decreases oids.len(),
{
    if oids.len() == 0 {
        rows
    } else {
        let before = introduced(rows, oids.drop_last(), commit, agent_id, ts_ms);
        if some_row(before, intro_of(oids.last())) {
            before
        } else {
            before.push(
                IntroLine { oid: oids.last()@, commit_oid: commit@, agent_id, ts_ms },
            )
        }
    }
}

/// The refs with one more.
pub open spec fn with_ref(
    refs: Seq<RefLine>,
    name: Seq<char>,
    oid: ObjectId,
    kind: Seq<char>,
    protected: bool,
    sealed: bool,
    ts_ms: i64,
) -> Seq<RefLine> {
    refs.push(
        RefLine {
            name,
            oid: oid@,
            kind,
            protected: if protected {
                1
            } else {
                0
            },
            sealed: if sealed {
                1
            } else {
                0
            },
            updated_ms: ts_ms,
        },
    )
}

/// The refs with one of them moved.
pub open spec fn with_moved(refs: Seq<RefLine>, name: Seq<char>, oid: ObjectId, ts_ms: i64) -> Seq<
    RefLine,
> {
    let i = place(refs, ref_named(name));
    refs.update(i, RefLine { oid: oid@, updated_ms: ts_ms, ..refs[i] })
}

/// How a second row of a key is refused.
pub open spec fn unique_text(key: Seq<char>) -> Seq<char> {
    "UNIQUE constraint failed: "@ + key
}

/// How a row with a value that its table does not admit is refused.
pub open spec fn check_text(rule: Seq<char>) -> Seq<char> {
    "CHECK constraint failed: "@ + rule
}

/// Why a row of a ref cannot be stored.
pub open spec fn ref_row_refusal(rows: Rows, name: Seq<char>, kind: Seq<char>) -> Option<Refusal> {
    if ref_kind(kind) is None {
        Some(
            Refusal::Invalid(
                check_text("kind IN ('commit','tree','conflict','snapshot')"@),
            ),
        )
    } else if find_ref(rows.refs, name) is Some {
        Some(Refusal::Invalid(unique_text("refs.name"@)))
    } else if !log_has_room(rows.reflog) {
        Some(Refusal::Sqlite(full_text()))
    } else {
        None
    }
}

/// Why a request to move a ref fails.
pub open spec fn cas_refusal(
    rows: Rows,
    out: CasOutcome,
    name: Seq<char>,
    kind: Seq<char>,
    fork: Seq<char>,
) -> Option<Refusal> {
    match out {
        CasOutcome::Refused(why) => Some(why),
        CasOutcome::Create => ref_row_refusal(rows, name, kind),
        CasOutcome::Advance => if log_has_room(rows.reflog) {
            None
        } else {
            Some(Refusal::Sqlite(full_text()))
        },
        CasOutcome::Fork(_) => if !ref_kind_ok(fork, kind) {
            Some(Refusal::Invalid(bad_ref(fork, kind)))
        } else {
            ref_row_refusal(rows, fork, kind)
        },
    }
}

/// The refs and the log after a request to move a ref.
pub open spec fn cas_rows(
    rows: Rows,
    out: CasOutcome,
    name: Seq<char>,
    expected: ObjectId,
    new: ObjectId,
    kind: Seq<char>,
    agent_id: Seq<char>,
    fork: Seq<char>,
    ts_ms: i64,
) -> Rows {
    match out {
        CasOutcome::Refused(_) => rows,
        CasOutcome::Create => Rows {
            refs: with_ref(rows.refs, name, new, kind, false, false, ts_ms),
            reflog: logged(rows.reflog, name, None, new, agent_id, "cas"@, ts_ms),
            ..rows
        },
        CasOutcome::Advance => Rows {
            refs: with_moved(rows.refs, name, new, ts_ms),
            reflog: logged(rows.reflog, name, Some(expected), new, agent_id, "cas"@, ts_ms),
            ..rows
        },
        CasOutcome::Fork(theirs) => Rows {
            refs: with_ref(rows.refs, fork, new, kind, false, false, ts_ms),
            reflog: logged(rows.reflog, fork, Some(theirs), new, agent_id, "fork"@, ts_ms),
            ..rows
        },
    }
}

/// What a request to move a ref answers.
pub open spec fn cas_answer(
    out: CasOutcome,
    name: Seq<char>,
    new: ObjectId,
    fork: Seq<char>,
    r: CasResult,
) -> bool {
    match out {
        CasOutcome::Refused(_) => false,
        CasOutcome::Create => r matches CasResult::Updated { name: n, oid } && n@ == name && oid
            == new,
        CasOutcome::Advance => r matches CasResult::Updated { name: n, oid } && n@ == name && oid
            == new,
        CasOutcome::Fork(id) => r matches CasResult::Forked { requested, fork: f, ours, theirs }
            && requested@ == name && f@ == fork && ours == new && theirs == id,
    }
}

/// One more, or again from zero after the greatest number.
pub open spec fn bumped(n: u64) -> u64 {
    if n == u64::MAX {
        0
    } else {
        (n + 1) as u64
    }
}

fn bump(n: u64) -> (r: u64)
    ensures
        r == bumped(n),
{
    if n == u64::MAX {
        0
    } else {
        n + 1
    }
}

/// The counters once the connection for writes was taken.
pub open spec fn write_locked(s: MetaStats) -> MetaStats {
    MetaStats {
        lock_acquires: bumped(s.lock_acquires),
        write_lock_acquires: bumped(s.write_lock_acquires),
        ..s
    }
}

/// The counters once a connection for reads was taken.
pub open spec fn read_locked(s: MetaStats) -> MetaStats {
    MetaStats {
        lock_acquires: bumped(s.lock_acquires),
        read_lock_acquires: bumped(s.read_lock_acquires),
        ..s
    }
}

/// The counters once a write was committed, or was not.
pub open spec fn commit_counted(s: MetaStats, committed: bool) -> MetaStats {
    if committed {
        MetaStats { txn_count: bumped(s.txn_count), ..s }
    } else {
        s
    }
}

/// The counters after a write: whether the connection was taken and an explicit
/// transaction begun for it, and whether it was committed.
pub open spec fn txn_after(s: MetaStats, begun: bool, committed: bool) -> MetaStats {
    let t = if begun {
        MetaStats { explicit_txn_count: bumped(s.explicit_txn_count), ..write_locked(s) }
    } else {
        s
    };
    commit_counted(t, committed)
}

/// The counters after a write that is a transaction by itself.
pub open spec fn autocommit_after(s: MetaStats, committed: bool) -> MetaStats {
    commit_counted(write_locked(s), committed)
}

/// A request to move a ref gets as far as a transaction: its name and kind are in order,
/// and it is not of a tag.
pub open spec fn cas_begun(name: Seq<char>, kind: Seq<char>) -> bool {
    ref_kind_ok(name, kind) && !"tags/"@.is_prefix_of(name)
}

/// The counters after a request to move a ref.
pub open spec fn cas_counted(s: MetaStats, out: CasOutcome, refused: bool) -> MetaStats {
    match out {
        CasOutcome::Refused(Refusal::Denied(_)) => MetaStats {
            cas_denied: bumped(s.cas_denied),
            ..s
        },
        CasOutcome::Refused(_) => s,
        CasOutcome::Fork(_) => if refused {
            s
        } else {
            MetaStats { cas_forked: bumped(s.cas_forked), ..s }
        },
        _ => if refused {
            s
        } else {
            MetaStats { cas_updated: bumped(s.cas_updated), ..s }
        },
    }
}

/// A catalog in memory.
#[derive(Debug)]
pub struct Meta {
    pub tables: Tables,
    pub counters: MetaStats,
}

pub(crate) fn text_bytes(id: &ObjectId) -> (r: Vec<u8>)
    ensures
        r@ == id@,
{
    let b = id.as_bytes().as_slice();
    let mut out: Vec<u8> = Vec::new();
    out.extend_from_slice(b);
    assert(out@ =~= id@);
    out
}

pub(crate) fn optional_bytes(id: &Option<ObjectId>) -> (r: Option<Vec<u8>>)
    ensures
        bytes_in(r) == (match *id {
            Some(x) => Some(x@),
            None => None,
        }),
{
    match id {
        Some(x) => Some(text_bytes(x)),
        None => None,
    }
}

impl Tables {
    /// The place of a ref in its table.
    pub(crate) fn ref_place(&self, name: &str) -> (r: Option<usize>)
        ensures
            match r {
                Some(i) => i == place(self@.refs, ref_named(name@)) && i < self.refs@.len()
                    && find_ref(self@.refs, name@) == Some(self.refs@[i as int]@),
                None => find_ref(self@.refs, name@) is None,
            },
    {
        let fits = |x: &RefRecord| -> (b: bool)
            ensures
                b == (x.name@ == name@),
            {
                text_eq(x.name.as_str(), name)
            };
        find_row(&self.refs, fits, Ghost(ref_named(name@)))
    }

    /// Whether the name of a ref was retired.
    pub(crate) fn ref_retired(&self, name: &str) -> (r: bool)
        ensures
            r == retired(self@.reflog, name@),
    {
        let fits = |x: &LogRecord| -> (b: bool)
            ensures
                b == (x.name@ == name@),
            {
                text_eq(x.name.as_str(), name)
            };
        let at = find_row(&self.reflog, fits, Ghost(log_named(name@)));
        match at {
            Some(i) => {
                assert(self@.reflog[i as int] == self.reflog@[i as int]@);
                text_eq(self.reflog[i].reason.as_str(), "abandon")
            },
            None => false,
        }
    }

    /// The number of the next entry of the log.
    fn next_log(&self) -> (r: Option<i64>)
        ensures
            match r {
                Some(id) => log_has_room(self@.reflog) && id == next_log_id(self@.reflog),
                None => !log_has_room(self@.reflog),
            },
    {
        let n = self.reflog.len();
        if n == 0 {
            return Some(1);
        }
        let last = self.reflog[n - 1].id;
        assert(self@.reflog.last().id == last);
        if last == i64::MAX {
            return None;
        }
        Some(last + 1)
    }

    pub(crate) fn log_room(&self) -> (r: Result<i64, Error>)
        ensures
            match r {
                Ok(id) => log_has_room(self@.reflog) && id == next_log_id(self@.reflog),
                Err(e) => !log_has_room(self@.reflog) && refuses(e, Refusal::Sqlite(full_text())),
            },
    {
        match self.next_log() {
            Some(id) => Ok(id),
            None => Err(Error::Sqlite("database or disk is full".to_string())),
        }
    }

    /// Check that a row of a ref can be stored.
    pub(crate) fn check_ref_row(&self, name: &str, kind: &str) -> (r: Result<i64, Error>)
        ensures
            match ref_row_refusal(self@, name@, kind@) {
                Some(why) => r matches Err(e) && refuses(e, why),
                None => r matches Ok(id) && log_has_room(self@.reflog) && id == next_log_id(
                    self@.reflog,
                ),
            },
    {
        if catalog_ref_type(kind).is_none() {
            return Err(
                Error::Invalid(
                    cat2(
                        "CHECK constraint failed: ",
                        "kind IN ('commit','tree','conflict','snapshot')",
                    ),
                ),
            );
        }
        if self.ref_place(name).is_some() {
            return Err(Error::Invalid(cat2("UNIQUE constraint failed: ", "refs.name")));
        }
        self.log_room()
    }

    pub(crate) fn push_ref(
        &mut self,
        name: &str,
        oid: &ObjectId,
        kind: &str,
        protected: bool,
        sealed: bool,
        ts_ms: i64,
    )
        ensures
            final(self)@ == (Rows {
                refs: with_ref(old(self)@.refs, name@, *oid, kind@, protected, sealed, ts_ms),
                ..old(self)@
            }),
    {
        self.refs.push(
            RefRecord {
                name: name.to_string(),
                oid: text_bytes(oid),
                kind: kind.to_string(),
                protected: if protected {
                    1
                } else {
                    0
                },
                sealed: if sealed {
                    1
                } else {
                    0
                },
                updated_ms: ts_ms,
            },
        );
        assert(self@.refs =~= with_ref(old(self)@.refs, name@, *oid, kind@, protected, sealed, ts_ms));
    }

    pub(crate) fn push_log(
        &mut self,
        id: i64,
        name: &str,
        old_oid: Option<ObjectId>,
        new_oid: &ObjectId,
        agent_id: &str,
        reason: &str,
        ts_ms: i64,
    )
        requires
            id == next_log_id(old(self)@.reflog),
        ensures
            final(self)@ == (Rows {
                reflog: logged(
                    old(self)@.reflog,
                    name@,
                    old_oid,
                    *new_oid,
                    agent_id@,
                    reason@,
                    ts_ms,
                ),
                ..old(self)@
            }),
    {
        self.reflog.push(
            LogRecord {
                id,
                name: name.to_string(),
                old_oid: optional_bytes(&old_oid),
                new_oid: text_bytes(new_oid),
                agent_id: agent_id.to_string(),
                reason: reason.to_string(),
                ts_ms,
            },
        );
        assert(self@.reflog =~= logged(
            old(self)@.reflog,
            name@,
            old_oid,
            *new_oid,
            agent_id@,
            reason@,
            ts_ms,
        ));
    }

    /// Add the introductions of some objects.
    fn push_intros(
        &mut self,
        oids: &[ObjectId],
        commit: &ObjectId,
        agent_id: &str,
        ts_ms: i64,
    )
        ensures
            final(self)@ == (Rows {
                object_intro: introduced(
                    old(self)@.object_intro,
                    oids@,
                    *commit,
                    agent_id@,
                    ts_ms,
                ),
                ..old(self)@
            }),
    {
        let ghost start = self@;
        let mut i: usize = 0;
        assert(oids@.take(0) =~= Seq::empty());
        while i < oids.len()
            invariant
                i <= oids@.len(),
                start == old(self)@,
                self@ == (Rows {
                    object_intro: introduced(
                        start.object_intro,
                        oids@.take(i as int),
                        *commit,
                        agent_id@,
                        ts_ms,
                    ),
                    ..start
                }),
            decreases oids@.len() - i,
        {
            let oid = oids[i];
            proof {
                let next = oids@.take(i + 1);
                assert(next.drop_last() =~= oids@.take(i as int));
                assert(next.last() == oid);
            }
            let fits = |x: &IntroRecord| -> (b: bool)
                ensures
                    b == (x.oid@ == oid@),
                {
                    bytes_eq(x.oid.as_slice(), oid.as_bytes().as_slice())
                };
            let found = find_row(&self.object_intro, fits, Ghost(intro_of(oid)));
            let ghost before = self@;
            if found.is_none() {
                self.object_intro.push(
                    IntroRecord {
                        oid: text_bytes(&oid),
                        commit_oid: text_bytes(commit),
                        agent_id: agent_id.to_string(),
                        ts_ms,
                    },
                );
                proof {
                    assert(self@.object_intro =~= before.object_intro.push(
                        IntroLine {
                            oid: oid@,
                            commit_oid: commit@,
                            agent_id: agent_id@,
                            ts_ms,
                        },
                    ));
                }
            }
            i += 1;
        }
        assert(oids@.take(i as int) =~= oids@);
    }
}

/// Why a ref cannot be made.
pub open spec fn insert_refusal(rows: Rows, name: Seq<char>, kind: Seq<char>) -> Option<Refusal> {
    match new_ref_refusal(name, kind) {
        Some(why) => Some(why),
        None => if find_ref(rows.refs, name) is Some {
            Some(Refusal::Invalid("ref "@ + name + " already exists"@))
        } else if retired(rows.reflog, name) {
            Some(Refusal::Invalid(retired_text(name)))
        } else {
            ref_row_refusal(rows, name, kind)
        },
    }
}

/// Why a ref cannot be made together with introductions.
pub open spec fn insert_with_intros_refusal(
    rows: Rows,
    name: Seq<char>,
    kind: Seq<char>,
) -> Option<Refusal> {
    match new_ref_refusal(name, kind) {
        Some(why) => Some(why),
        None => if retired(rows.reflog, name) {
            Some(Refusal::Invalid(retired_text(name)))
        } else {
            ref_row_refusal(rows, name, kind)
        },
    }
}

/// The rows with a new ref and the first entry of its log.
pub open spec fn with_new_ref(
    rows: Rows,
    name: Seq<char>,
    oid: ObjectId,
    kind: Seq<char>,
    protected: bool,
    sealed: bool,
    agent_id: Seq<char>,
    reason: Seq<char>,
    ts_ms: i64,
) -> Rows {
    Rows {
        refs: with_ref(rows.refs, name, oid, kind, protected, sealed, ts_ms),
        reflog: logged(rows.reflog, name, None, oid, agent_id, reason, ts_ms),
        ..rows
    }
}

impl Meta {
    pub open spec fn rows(self) -> Rows {
        self.tables@
    }

    /// An empty catalog.
    pub fn new() -> (r: Self)
        ensures
            r.rows() == (Rows {
                refs: Seq::empty(),
                reflog: Seq::empty(),
                namespaces: Seq::empty(),
                observations: Seq::empty(),
                mounts: Seq::empty(),
                overlay: Seq::empty(),
                seals: Seq::empty(),
                landmarks: Seq::empty(),
                object_intro: Seq::empty(),
            }),
            r.counters == no_meta_work(),
    {
        let r = Meta {
            tables: Tables {
                refs: Vec::new(),
                reflog: Vec::new(),
                namespaces: Vec::new(),
                observations: Vec::new(),
                mounts: Vec::new(),
                overlay: Vec::new(),
                seals: Vec::new(),
                landmarks: Vec::new(),
                object_intro: Vec::new(),
            },
            counters: MetaStats::default(),
        };
        proof {
            let x = r.rows();
            assert(x.refs =~= Seq::empty());
            assert(x.reflog =~= Seq::empty());
            assert(x.namespaces =~= Seq::empty());
            assert(x.observations =~= Seq::empty());
            assert(x.mounts =~= Seq::empty());
            assert(x.overlay =~= Seq::empty());
            assert(x.seals =~= Seq::empty());
            assert(x.landmarks =~= Seq::empty());
            assert(x.object_intro =~= Seq::empty());
        }
        r
    }

    /// The counters. What only reads takes no connection here, and nothing waits for one.
    pub fn stats(&self) -> (r: MetaStats)
        ensures
            r == self.counters,
    {
        self.counters
    }

    /// A ref by its name.
    pub fn get_ref(&self, name: &str) -> (r: Result<Option<RefRow>, Error>)
        ensures
            match find_ref(self.rows().refs, name@) {
                Some(l) => if l.oid.len() == 32 {
                    r matches Ok(Some(x)) && x.name@ == l.name && x.oid@ == l.oid && x.kind@
                        == l.kind && x.protected == (l.protected != 0) && x.sealed == (l.sealed
                        != 0)
                } else {
                    r matches Err(e) && refuses(e, Refusal::Corrupt("oid blob length"@))
                },
                None => r matches Ok(None),
            },
    {
        let i = match self.tables.ref_place(name) {
            Some(i) => i,
            None => return Ok(None),
        };
        let row = &self.tables.refs[i];
        let oid = oid_from_blob(row.oid.as_slice())?;
        Ok(
            Some(
                RefRow {
                    name: row.name.clone(),
                    oid,
                    kind: row.kind.clone(),
                    protected: row.protected != 0,
                    sealed: row.sealed != 0,
                },
            ),
        )
    }

    /// Make a ref. Its first log entry starts from nothing.
    pub fn insert_ref(
        &mut self,
        name: &str,
        oid: ObjectId,
        kind: &str,
        protected: bool,
        sealed: bool,
        agent_id: &str,
        reason: &str,
        ts_ms: i64,
    ) -> (r: Result<(), Error>)
        ensures
            final(self).counters == txn_after(
                old(self).counters,
                new_ref_refusal(name@, kind@) is None,
                r is Ok,
            ),
            match insert_refusal(old(self).rows(), name@, kind@) {
                Some(why) => final(self).rows() == old(self).rows() && (r matches Err(e)
                    && refuses(e, why)),
                None => r is Ok && final(self).rows() == with_new_ref(
                    old(self).rows(),
                    name@,
                    oid,
                    kind@,
                    protected,
                    sealed,
                    agent_id@,
                    reason@,
                    ts_ms,
                ),
            },
    {
        check_new_ref(name, kind)?;
        self.count_begun(true);
        if self.tables.ref_place(name).is_some() {
            return Err(Error::Invalid(cat3("ref ", name, " already exists")));
        }
        let gone = self.tables.ref_retired(name);
        deny_retired(name, gone)?;
        let id = self.tables.check_ref_row(name, kind)?;
        self.tables.push_ref(name, &oid, kind, protected, sealed, ts_ms);
        self.tables.push_log(id, name, None, &oid, agent_id, reason, ts_ms);
        self.count_committed();
        Ok(())
    }

    /// Make a ref, with the introductions of the objects that came with it.
    pub fn insert_ref_with_intros(
        &mut self,
        name: &str,
        oid: ObjectId,
        kind: &str,
        protected: bool,
        sealed: bool,
        agent_id: &str,
        reason: &str,
        intro_oids: &[ObjectId],
        ts_ms: i64,
    ) -> (r: Result<(), Error>)
        ensures
            final(self).counters == txn_after(
                old(self).counters,
                new_ref_refusal(name@, kind@) is None,
                r is Ok,
            ),
            match insert_with_intros_refusal(old(self).rows(), name@, kind@) {
                Some(why) => final(self).rows() == old(self).rows() && (r matches Err(e)
                    && refuses(e, why)),
                None => r is Ok && final(self).rows() == (Rows {
                    object_intro: introduced(
                        old(self).rows().object_intro,
                        intro_oids@,
                        oid,
                        agent_id@,
                        ts_ms,
                    ),
                    ..with_new_ref(
                        old(self).rows(),
                        name@,
                        oid,
                        kind@,
                        protected,
                        sealed,
                        agent_id@,
                        reason@,
                        ts_ms,
                    )
                }),
            },
    {
        check_new_ref(name, kind)?;
        self.count_begun(true);
        let gone = self.tables.ref_retired(name);
        deny_retired(name, gone)?;
        let id = self.tables.check_ref_row(name, kind)?;
        self.tables.push_ref(name, &oid, kind, protected, sealed, ts_ms);
        self.tables.push_log(id, name, None, &oid, agent_id, reason, ts_ms);
        self.tables.push_intros(intro_oids, &oid, agent_id, ts_ms);
        self.count_committed();
        Ok(())
    }
}

/// What a request to move a ref comes to in a catalog.
pub open spec fn cas_in(
    rows: Rows,
    name: Seq<char>,
    kind: Seq<char>,
    expected: ObjectId,
    allow_protected: bool,
) -> CasOutcome {
    cas_outcome(
        find_ref(rows.refs, name),
        retired(rows.reflog, name),
        name,
        kind,
        expected,
        allow_protected,
    )
}

/// A request to move a ref was carried out, with a given ULID for a fork.
pub open spec fn cas_done(
    before: Meta,
    after: Meta,
    name: Seq<char>,
    expected: ObjectId,
    new: ObjectId,
    kind: Seq<char>,
    agent_id: Seq<char>,
    fork_agent: Seq<char>,
    allow_protected: bool,
    intros: Seq<ObjectId>,
    ts_ms: i64,
    ulid: Seq<char>,
    r: Result<CasResult, Error>,
) -> bool {
    let rows = before.rows();
    let out = cas_in(rows, name, kind, expected, allow_protected);
    let fork = fork_name(name, fork_agent, ulid);
    match cas_refusal(rows, out, name, kind, fork) {
        Some(why) => {
            &&& after.rows() == rows
            &&& after.counters == txn_after(
                cas_counted(before.counters, out, true),
                cas_begun(name, kind),
                false,
            )
            &&& r matches Err(e) && refuses(e, why)
        },
        None => {
            &&& after.rows() == (Rows {
                object_intro: introduced(rows.object_intro, intros, new, agent_id, ts_ms),
                ..cas_rows(rows, out, name, expected, new, kind, agent_id, fork, ts_ms)
            })
            &&& after.counters == txn_after(cas_counted(before.counters, out, false), true, true)
            &&& r matches Ok(x) && cas_answer(out, name, new, fork, x)
        },
    }
}

impl Tables {
    /// Move a ref.
    fn move_ref(&mut self, name: &str, at: usize, oid: &ObjectId, ts_ms: i64)
        requires
            at == place(old(self)@.refs, ref_named(name@)),
            at < old(self).refs@.len(),
        ensures
            final(self)@ == (Rows {
                refs: with_moved(old(self)@.refs, name@, *oid, ts_ms),
                ..old(self)@
            }),
    {
        let mut bytes = text_bytes(oid);
        core::mem::swap(&mut self.refs[at].oid, &mut bytes);
        let mut ts = ts_ms;
        core::mem::swap(&mut self.refs[at].updated_ms, &mut ts);
        assert(self@.refs =~= with_moved(old(self)@.refs, name@, *oid, ts_ms));
    }

    /// Carry a request to move a ref out on the refs and their log.
    fn apply_cas(
        &mut self,
        step: CasStep,
        at: Option<usize>,
        name: &str,
        expected: &ObjectId,
        new: &ObjectId,
        kind: &str,
        agent_id: &str,
        fork: &str,
        ts_ms: i64,
        Ghost(out): Ghost<CasOutcome>,
    ) -> (r: Result<CasResult, Error>)
        requires
            match out {
                CasOutcome::Refused(_) => false,
                CasOutcome::Create => step == CasStep::Create,
                CasOutcome::Advance => step == CasStep::Advance,
                CasOutcome::Fork(id) => step == (CasStep::Fork { theirs: id }),
            },
            match at {
                Some(i) => i == place(old(self)@.refs, ref_named(name@)) && i < old(
                    self,
                ).refs@.len(),
                None => out != CasOutcome::Advance,
            },
        ensures
            match cas_refusal(old(self)@, out, name@, kind@, fork@) {
                Some(why) => final(self)@ == old(self)@ && (r matches Err(e) && refuses(e, why)),
                None => final(self)@ == cas_rows(
                    old(self)@,
                    out,
                    name@,
                    *expected,
                    *new,
                    kind@,
                    agent_id@,
                    fork@,
                    ts_ms,
                ) && (r matches Ok(x) && cas_answer(out, name@, *new, fork@, x)),
            },
    {
        match step {
            CasStep::Create => {
                let id = self.check_ref_row(name, kind)?;
                self.push_ref(name, new, kind, false, false, ts_ms);
                self.push_log(id, name, None, new, agent_id, "cas", ts_ms);
                Ok(CasResult::Updated { name: name.to_string(), oid: *new })
            },
            CasStep::Advance => {
                let id = self.log_room()?;
                if let Some(i) = at {
                    self.move_ref(name, i, new, ts_ms);
                }
                self.push_log(id, name, Some(*expected), new, agent_id, "cas", ts_ms);
                Ok(CasResult::Updated { name: name.to_string(), oid: *new })
            },
            CasStep::Fork { theirs } => {
                validate_ref_kind(fork, kind)?;
                let id = self.check_ref_row(fork, kind)?;
                self.push_ref(fork, new, kind, false, false, ts_ms);
                self.push_log(id, fork, Some(theirs), new, agent_id, "fork", ts_ms);
                Ok(
                    CasResult::Forked {
                        requested: name.to_string(),
                        fork: fork.to_string(),
                        ours: *new,
                        theirs,
                    },
                )
            },
        }
    }
}

impl Meta {
    /// Count an explicit transaction, where one is begun.
    pub(crate) fn count_begun(&mut self, begun: bool)
        ensures
            final(self).tables == old(self).tables,
            final(self).counters == txn_after(old(self).counters, begun, false),
    {
        if begun {
            self.count_locked();
            self.counters.explicit_txn_count = bump(self.counters.explicit_txn_count);
        }
    }

    /// Count that the connection for writes is taken.
    pub(crate) fn count_locked(&mut self)
        ensures
            final(self).tables == old(self).tables,
            final(self).counters == write_locked(old(self).counters),
    {
        self.counters.lock_acquires = bump(self.counters.lock_acquires);
        self.counters.write_lock_acquires = bump(self.counters.write_lock_acquires);
    }

    /// Count that a connection for reads is taken.
    fn count_read(&mut self)
        ensures
            final(self).tables == old(self).tables,
            final(self).counters == read_locked(old(self).counters),
    {
        self.counters.lock_acquires = bump(self.counters.lock_acquires);
        self.counters.read_lock_acquires = bump(self.counters.read_lock_acquires);
    }

    /// Count a write that is committed.
    pub(crate) fn count_committed(&mut self)
        ensures
            final(self).tables == old(self).tables,
            final(self).counters == commit_counted(old(self).counters, true),
    {
        self.counters.txn_count = bump(self.counters.txn_count);
    }

    /// Count how a request to move a ref ended.
    fn count_cas(&mut self, r: &Result<CasResult, Error>, decided: bool)
        ensures
            final(self).tables == old(self).tables,
            final(self).counters == (match *r {
                Ok(CasResult::Updated { .. }) => MetaStats {
                    cas_updated: bumped(old(self).counters.cas_updated),
                    ..old(self).counters
                },
                Ok(CasResult::Forked { .. }) => MetaStats {
                    cas_forked: bumped(old(self).counters.cas_forked),
                    ..old(self).counters
                },
                Ok(CasResult::Noop { .. }) => old(self).counters,
                Err(e) => if e is Denied && !decided {
                    MetaStats {
                        cas_denied: bumped(old(self).counters.cas_denied),
                        ..old(self).counters
                    }
                } else {
                    old(self).counters
                },
            }),
    {
        match r {
            Ok(CasResult::Updated { .. }) => {
                self.counters.cas_updated = bump(self.counters.cas_updated);
            },
            Ok(CasResult::Forked { .. }) => {
                self.counters.cas_forked = bump(self.counters.cas_forked);
            },
            Ok(CasResult::Noop { .. }) => {},
            Err(Error::Denied(_)) => {
                if !decided {
                    self.counters.cas_denied = bump(self.counters.cas_denied);
                }
            },
            Err(_) => {},
        }
    }

    /// Compare and swap, with the ULID that a fork gets.
    ///
    /// A protected ref moves only with `allow_protected`; without it the request is
    /// denied, and makes no fork.
    pub fn cas_ref_as(
        &mut self,
        name: &str,
        expected: ObjectId,
        new: ObjectId,
        kind: &str,
        agent_id: &str,
        fork_agent: &str,
        allow_protected: bool,
        intro_oids: &[ObjectId],
        ts_ms: i64,
        ulid: &str,
    ) -> (r: Result<CasResult, Error>)
        ensures
            cas_done(
                *old(self),
                *final(self),
                name@,
                expected,
                new,
                kind@,
                agent_id@,
                fork_agent@,
                allow_protected,
                intro_oids@,
                ts_ms,
                ulid@,
                r,
            ),
    {
        let ghost rows = self.rows();
        let ghost out = cas_in(rows, name@, kind@, expected, allow_protected);
        let begun = validate_ref_kind(name, kind).is_ok() && !starts_with(name, "tags/");
        self.count_begun(begun);
        let at = self.tables.ref_place(name);
        let gone = self.tables.ref_retired(name);
        let row = match at {
            Some(i) => Some(&self.tables.refs[i]),
            None => None,
        };
        let step = match decide_cas(row, gone, name, kind, expected, allow_protected) {
            Ok(step) => step,
            Err(e) => {
                let r = Err(e);
                self.count_cas(&r, false);
                return r;
            },
        };
        let fork = fork_ref(name, fork_agent, ulid);
        let r = self.tables.apply_cas(
            step,
            at,
            name,
            &expected,
            &new,
            kind,
            agent_id,
            fork.as_str(),
            ts_ms,
            Ghost(out),
        );
        if r.is_ok() {
            self.tables.push_intros(intro_oids, &new, agent_id, ts_ms);
            self.count_committed();
        }
        self.count_cas(&r, true);
        r
    }

    /// Compare and swap, with introductions. A fork gets a new ULID.
    pub fn cas_ref_with_intros(
        &mut self,
        name: &str,
        expected: ObjectId,
        new: ObjectId,
        kind: &str,
        agent_id: &str,
        fork_agent: &str,
        allow_protected: bool,
        intro_oids: &[ObjectId],
        ts_ms: i64,
    ) -> (r: Result<CasResult, Error>)
        ensures
            exists|ulid: Seq<char>|
                is_ulid(ulid) && #[trigger] cas_done(
                    *old(self),
                    *final(self),
                    name@,
                    expected,
                    new,
                    kind@,
                    agent_id@,
                    fork_agent@,
                    allow_protected,
                    intro_oids@,
                    ts_ms,
                    ulid,
                    r,
                ),
    {
        let ulid = new_ulid();
        self.cas_ref_as(
            name,
            expected,
            new,
            kind,
            agent_id,
            fork_agent,
            allow_protected,
            intro_oids,
            ts_ms,
            ulid.as_str(),
        )
    }

    /// Compare and swap. A fork gets a new ULID.
    pub fn cas_ref(
        &mut self,
        name: &str,
        expected: ObjectId,
        new: ObjectId,
        kind: &str,
        agent_id: &str,
        fork_agent: &str,
        allow_protected: bool,
        ts_ms: i64,
    ) -> (r: Result<CasResult, Error>)
        ensures
            exists|ulid: Seq<char>|
                is_ulid(ulid) && #[trigger] cas_done(
                    *old(self),
                    *final(self),
                    name@,
                    expected,
                    new,
                    kind@,
                    agent_id@,
                    fork_agent@,
                    allow_protected,
                    Seq::<ObjectId>::empty(),
                    ts_ms,
                    ulid,
                    r,
                ),
    {
        let ulid = new_ulid();
        let none: Vec<ObjectId> = Vec::new();
        assert(none@ =~= Seq::<ObjectId>::empty());
        self.cas_ref_as(
            name,
            expected,
            new,
            kind,
            agent_id,
            fork_agent,
            allow_protected,
            none.as_slice(),
            ts_ms,
            ulid.as_str(),
        )
    }
}

pub open spec fn ns_named(id: Seq<char>) -> spec_fn(NsLine) -> bool {
    |l: NsLine| l.id == id
}

/// The row of a session.
pub open spec fn find_ns(rows: Seq<NsLine>, id: Seq<char>) -> Option<NsLine> {
    if some_row(rows, ns_named(id)) {
        Some(rows[place(rows, ns_named(id))])
    } else {
        None
    }
}

pub open spec fn mount_at(ns: Seq<char>, path: Seq<char>) -> spec_fn(MountLine) -> bool {
    |l: MountLine| l.ns_id == ns && l.path == path
}

/// The sessions with another pin of one of them.
pub open spec fn with_pin(rows: Seq<NsLine>, id: Seq<char>, oid: ObjectId) -> Seq<NsLine> {
    let i = place(rows, ns_named(id));
    rows.update(i, NsLine { pinned_oid: Some(oid@), ..rows[i] })
}

/// The mounts with another target of one of them.
pub open spec fn with_spec(
    rows: Seq<MountLine>,
    ns: Seq<char>,
    path: Seq<char>,
    spec_: Seq<char>,
) -> Seq<MountLine> {
    let i = place(rows, mount_at(ns, path));
    rows.update(i, MountLine { spec: spec_, ..rows[i] })
}

/// A mount with another target is where it was.
proof fn lemma_respecified(
    rows: Seq<MountLine>,
    ns: Seq<char>,
    path: Seq<char>,
    spec_: Seq<char>,
)
    requires
        some_row(rows, mount_at(ns, path)),
    ensures
        place(with_spec(rows, ns, path, spec_), mount_at(ns, path)) == place(
            rows,
            mount_at(ns, path),
        ),
{
    let after = with_spec(rows, ns, path, spec_);
    lemma_place(rows, mount_at(ns, path));
    lemma_place(after, mount_at(ns, path));
    let p = place(rows, mount_at(ns, path));
    let q = place(after, mount_at(ns, path));
    if p > q {
        assert(!mount_at(ns, path)(after[p]));
    }
    if q > p {
        assert(!mount_at(ns, path)(rows[q]));
    }
}

/// The staged edits that are not at a mount of a session.
pub open spec fn staged_elsewhere(ns: Seq<char>, mount: Seq<char>) -> spec_fn(OverlayLine) -> bool {
    |l: OverlayLine| !(l.ns_id == ns && l.mount == mount)
}

/// The observations that are not of a session.
pub open spec fn observed_elsewhere(ns: Seq<char>) -> spec_fn(ObservationLine) -> bool {
    |l: ObservationLine| l.ns_id != ns
}

/// Why a checkin of a session fails.
pub open spec fn session_refusal(
    rows: Rows,
    out: CasOutcome,
    name: Seq<char>,
    fork: Seq<char>,
    ns: Seq<char>,
    mount: Seq<char>,
) -> Option<Refusal> {
    match cas_refusal(rows, out, name, "commit"@, fork) {
        Some(why) => Some(why),
        None => if out is Fork && !some_row(rows.mounts, mount_at(ns, mount)) {
            Some(Refusal::Corrupt("missing checkin mount "@ + ns + ":"@ + mount))
        } else if !some_row(rows.namespaces, ns_named(ns)) {
            Some(Refusal::Corrupt("missing namespace "@ + ns))
        } else {
            None
        },
    }
}

/// The sessions after a checkin of one of them: it is pinned to the new commit, and
/// follows the fork where it followed the ref that was lost.
pub open spec fn with_checkin(
    rows: Seq<NsLine>,
    id: Seq<char>,
    out: CasOutcome,
    name: Seq<char>,
    fork: Seq<char>,
    new: ObjectId,
) -> Seq<NsLine> {
    let i = place(rows, ns_named(id));
    let live = if out is Fork && rows[i].live_ref == Some(name) {
        Some(fork)
    } else {
        rows[i].live_ref
    };
    rows.update(i, NsLine { pinned_oid: Some(new@), live_ref: live, ..rows[i] })
}

/// The mounts with another base of one of them. Where there is no such mount, nothing
/// changes.
pub open spec fn with_base(
    rows: Seq<MountLine>,
    ns: Seq<char>,
    path: Seq<char>,
    oid: ObjectId,
) -> Seq<MountLine> {
    let i = place(rows, mount_at(ns, path));
    if i >= 0 {
        rows.update(i, MountLine { base_oid: Some(oid@), ..rows[i] })
    } else {
        rows
    }
}

/// The rows after a checkin of a session: its ref has moved, or its mount shows the
/// fork, which it follows now; its staged edits and its observations are gone, and it
/// and its mount are based on the new commit.
pub open spec fn session_rows(
    rows: Rows,
    out: CasOutcome,
    name: Seq<char>,
    expected: ObjectId,
    new: ObjectId,
    agent_id: Seq<char>,
    fork: Seq<char>,
    ns: Seq<char>,
    mount: Seq<char>,
    intros: Seq<ObjectId>,
    ts_ms: i64,
) -> Rows {
    Rows {
        mounts: with_base(
            if out is Fork {
                with_spec(rows.mounts, ns, mount, "ref:"@ + fork)
            } else {
                rows.mounts
            },
            ns,
            mount,
            new,
        ),
        overlay: rows.overlay.filter(staged_elsewhere(ns, mount)),
        namespaces: with_checkin(rows.namespaces, ns, out, name, fork, new),
        observations: rows.observations.filter(observed_elsewhere(ns)),
        object_intro: introduced(rows.object_intro, intros, new, agent_id, ts_ms),
        ..cas_rows(rows, out, name, expected, new, "commit"@, agent_id, fork, ts_ms)
    }
}

/// A checkin of a session was carried out, with a given ULID for a fork.
pub open spec fn session_done(
    before: Meta,
    after: Meta,
    name: Seq<char>,
    expected: ObjectId,
    new: ObjectId,
    agent_id: Seq<char>,
    fork_agent: Seq<char>,
    ns: Seq<char>,
    mount: Seq<char>,
    intros: Seq<ObjectId>,
    ts_ms: i64,
    ulid: Seq<char>,
    r: Result<CasResult, Error>,
) -> bool {
    let rows = before.rows();
    let out = session_outcome(find_ref(rows.refs, name), name, expected);
    let fork = fork_name(name, fork_agent, ulid);
    match session_refusal(rows, out, name, fork, ns, mount) {
        Some(why) => {
            &&& after.rows() == rows
            &&& after.counters == txn_after(
                cas_counted(before.counters, out, true),
                ref_kind_ok(name, "commit"@),
                false,
            )
            &&& r matches Err(e) && refuses(e, why)
        },
        None => {
            &&& after.rows() == session_rows(
                rows,
                out,
                name,
                expected,
                new,
                agent_id,
                fork,
                ns,
                mount,
                intros,
                ts_ms,
            )
            &&& after.counters == txn_after(cas_counted(before.counters, out, false), true, true)
            &&& r matches Ok(x) && cas_answer(out, name, new, fork, x)
        },
    }
}

impl Tables {
    /// The place of a session in its table.
    pub(crate) fn ns_place(&self, id: &str) -> (r: Option<usize>)
        ensures
            match r {
                Some(i) => i == place(self@.namespaces, ns_named(id@)) && i < self.namespaces@.len()
                    && find_ns(self@.namespaces, id@) == Some(self.namespaces@[i as int]@),
                None => !some_row(self@.namespaces, ns_named(id@)),
            },
    {
        let fits = |x: &NsRecord| -> (b: bool)
            ensures
                b == (x.id@ == id@),
            {
                text_eq(x.id.as_str(), id)
            };
        find_row(&self.namespaces, fits, Ghost(ns_named(id@)))
    }

    /// The place of a mount in its table.
    fn mount_place(&self, ns: &str, path: &str) -> (r: Option<usize>)
        ensures
            match r {
                Some(i) => i == place(self@.mounts, mount_at(ns@, path@)) && i < self.mounts@.len(),
                None => !some_row(self@.mounts, mount_at(ns@, path@)),
            },
    {
        let fits = |x: &MountRecord| -> (b: bool)
            ensures
                b == (x.ns_id@ == ns@ && x.path@ == path@),
            {
                text_eq(x.ns_id.as_str(), ns) && text_eq(x.path.as_str(), path)
            };
        find_row(&self.mounts, fits, Ghost(mount_at(ns@, path@)))
    }

    /// Check whether a request to move a ref can be stored.
    fn check_cas(
        &self,
        step: CasStep,
        name: &str,
        kind: &str,
        fork: &str,
        Ghost(out): Ghost<CasOutcome>,
    ) -> (r: Result<(), Error>)
        requires
            match out {
                CasOutcome::Refused(_) => false,
                CasOutcome::Create => step == CasStep::Create,
                CasOutcome::Advance => step == CasStep::Advance,
                CasOutcome::Fork(id) => step == (CasStep::Fork { theirs: id }),
            },
        ensures
            match cas_refusal(self@, out, name@, kind@, fork@) {
                Some(why) => r matches Err(e) && refuses(e, why),
                None => r is Ok,
            },
    {
        match step {
            CasStep::Create => {
                self.check_ref_row(name, kind)?;
            },
            CasStep::Advance => {
                self.log_room()?;
            },
            CasStep::Fork { .. } => {
                validate_ref_kind(fork, kind)?;
                self.check_ref_row(fork, kind)?;
            },
        }
        Ok(())
    }

    fn set_pin_at(&mut self, id: &str, at: usize, oid: &ObjectId)
        requires
            at == place(old(self)@.namespaces, ns_named(id@)),
            at < old(self).namespaces@.len(),
        ensures
            final(self)@ == (Rows {
                namespaces: with_pin(old(self)@.namespaces, id@, *oid),
                ..old(self)@
            }),
    {
        let mut bytes = Some(text_bytes(oid));
        core::mem::swap(&mut self.namespaces[at].pinned_oid, &mut bytes);
        assert(self@.namespaces =~= with_pin(old(self)@.namespaces, id@, *oid));
    }

    /// Pin a session, and let it follow a fork where it followed the ref that was lost.
    fn check_in_at(
        &mut self,
        id: &str,
        at: usize,
        forks: bool,
        name: &str,
        fork: &str,
        new: &ObjectId,
        Ghost(out): Ghost<CasOutcome>,
    )
        requires
            at == place(old(self)@.namespaces, ns_named(id@)),
            at < old(self).namespaces@.len(),
            forks == (out is Fork),
        ensures
            final(self)@ == (Rows {
                namespaces: with_checkin(old(self)@.namespaces, id@, out, name@, fork@, *new),
                ..old(self)@
            }),
    {
        let follows = match &self.namespaces[at].live_ref {
            Some(live) => text_eq(live.as_str(), name),
            None => false,
        };
        let mut bytes = Some(text_bytes(new));
        core::mem::swap(&mut self.namespaces[at].pinned_oid, &mut bytes);
        if forks && follows {
            let mut live = Some(fork.to_string());
            core::mem::swap(&mut self.namespaces[at].live_ref, &mut live);
        }
        assert(self@.namespaces =~= with_checkin(
            old(self)@.namespaces,
            id@,
            out,
            name@,
            fork@,
            *new,
        ));
    }

    fn set_base_at(&mut self, ns: &str, path: &str, at: usize, oid: &ObjectId)
        requires
            at == place(old(self)@.mounts, mount_at(ns@, path@)),
            at < old(self).mounts@.len(),
        ensures
            final(self)@ == (Rows {
                mounts: with_base(old(self)@.mounts, ns@, path@, *oid),
                ..old(self)@
            }),
    {
        let mut bytes = Some(text_bytes(oid));
        core::mem::swap(&mut self.mounts[at].base_oid, &mut bytes);
        assert(self@.mounts =~= with_base(old(self)@.mounts, ns@, path@, *oid));
    }

    fn set_spec_at(&mut self, ns: &str, path: &str, at: usize, spec_: &str)
        requires
            at == place(old(self)@.mounts, mount_at(ns@, path@)),
            at < old(self).mounts@.len(),
        ensures
            final(self)@ == (Rows {
                mounts: with_spec(old(self)@.mounts, ns@, path@, spec_@),
                ..old(self)@
            }),
    {
        let mut text = spec_.to_string();
        core::mem::swap(&mut self.mounts[at].spec, &mut text);
        assert(self@.mounts =~= with_spec(old(self)@.mounts, ns@, path@, spec_@));
    }

    pub(crate) fn clear_overlay(&mut self, ns: &str, mount: &str)
        ensures
            final(self)@ == (Rows {
                overlay: old(self)@.overlay.filter(staged_elsewhere(ns@, mount@)),
                ..old(self)@
            }),
    {
        let stays = |x: &OverlayRecord| -> (b: bool)
            ensures
                b == !(x.ns_id@ == ns@ && x.mount@ == mount@),
            {
                !(text_eq(x.ns_id.as_str(), ns) && text_eq(x.mount.as_str(), mount))
            };
        drop_rows(&mut self.overlay, stays, Ghost(staged_elsewhere(ns@, mount@)));
    }

    pub(crate) fn clear_observations(&mut self, ns: &str) -> (n: usize)
        ensures
            final(self)@ == (Rows {
                observations: old(self)@.observations.filter(observed_elsewhere(ns@)),
                ..old(self)@
            }),
            n == old(self)@.observations.len() - final(self)@.observations.len(),
    {
        let stays = |x: &ObservationRecord| -> (b: bool)
            ensures
                b == (x.ns_id@ != ns@),
            {
                !text_eq(x.ns_id.as_str(), ns)
            };
        drop_rows(&mut self.observations, stays, Ghost(observed_elsewhere(ns@)))
    }
}

impl Meta {
    /// Check a session in, with the ULID that a fork gets: move its ref, or make a
    /// fork and mount that, and clear what the session had staged and seen. All of
    /// it happens, or nothing.
    pub fn cas_ref_session_as(
        &mut self,
        name: &str,
        expected: ObjectId,
        new: ObjectId,
        agent_id: &str,
        fork_agent: &str,
        ns_id: &str,
        mount_path: &str,
        intro_oids: &[ObjectId],
        ts_ms: i64,
        ulid: &str,
    ) -> (r: Result<CasResult, Error>)
        ensures
            session_done(
                *old(self),
                *final(self),
                name@,
                expected,
                new,
                agent_id@,
                fork_agent@,
                ns_id@,
                mount_path@,
                intro_oids@,
                ts_ms,
                ulid@,
                r,
            ),
    {
        let ghost rows = self.rows();
        let ghost out = session_outcome(find_ref(rows.refs, name@), name@, expected);
        let begun = validate_ref_kind(name, "commit").is_ok();
        self.count_begun(begun);
        let at = self.tables.ref_place(name);
        let row = match at {
            Some(i) => Some(&self.tables.refs[i]),
            None => None,
        };
        let step = match decide_session(row, name, expected) {
            Ok(step) => step,
            Err(e) => {
                let r = Err(e);
                self.count_cas(&r, false);
                return r;
            },
        };
        let fork = fork_ref(name, fork_agent, ulid);
        self.tables.check_cas(step, name, "commit", fork.as_str(), Ghost(out))?;
        let mounted = self.tables.mount_place(ns_id, mount_path);
        let forks = match step {
            CasStep::Fork { .. } => true,
            _ => false,
        };
        if forks && mounted.is_none() {
            return Err(Error::Corrupt(cat4("missing checkin mount ", ns_id, ":", mount_path)));
        }
        let session = match self.tables.ns_place(ns_id) {
            Some(i) => i,
            None => return Err(Error::Corrupt(cat2("missing namespace ", ns_id))),
        };
        let r = self.tables.apply_cas(
            step,
            at,
            name,
            &expected,
            &new,
            "commit",
            agent_id,
            fork.as_str(),
            ts_ms,
            Ghost(out),
        );
        if let Some(i) = mounted {
            let ghost mounts = self.rows().mounts;
            if forks {
                let root_spec = cat2("ref:", fork.as_str());
                self.tables.set_spec_at(ns_id, mount_path, i, root_spec.as_str());
                proof {
                    lemma_respecified(mounts, ns_id@, mount_path@, root_spec@);
                }
            }
            self.tables.set_base_at(ns_id, mount_path, i, &new);
        }
        self.tables.clear_overlay(ns_id, mount_path);
        self.tables.check_in_at(
            ns_id,
            session,
            forks,
            name,
            fork.as_str(),
            &new,
            Ghost(out),
        );
        self.tables.clear_observations(ns_id);
        self.tables.push_intros(intro_oids, &new, agent_id, ts_ms);
        self.count_cas(&r, true);
        self.count_committed();
        r
    }

    /// Check a session in. A fork gets a new ULID.
    pub fn cas_ref_session(
        &mut self,
        name: &str,
        expected: ObjectId,
        new: ObjectId,
        agent_id: &str,
        fork_agent: &str,
        ns_id: &str,
        mount_path: &str,
        intro_oids: &[ObjectId],
        ts_ms: i64,
    ) -> (r: Result<CasResult, Error>)
        ensures
            exists|ulid: Seq<char>|
                is_ulid(ulid) && #[trigger] session_done(
                    *old(self),
                    *final(self),
                    name@,
                    expected,
                    new,
                    agent_id@,
                    fork_agent@,
                    ns_id@,
                    mount_path@,
                    intro_oids@,
                    ts_ms,
                    ulid,
                    r,
                ),
    {
        let ulid = new_ulid();
        self.cas_ref_session_as(
            name,
            expected,
            new,
            agent_id,
            fork_agent,
            ns_id,
            mount_path,
            intro_oids,
            ts_ms,
            ulid.as_str(),
        )
    }

    /// End a checkin that has nothing to publish: no ref moves.
    pub fn complete_noop_session(&mut self, ns_id: &str, mount_path: &str, pinned: ObjectId) -> (r:
        Result<(), Error>)
        ensures
            if some_row(old(self).rows().namespaces, ns_named(ns_id@)) {
                &&& r is Ok
                &&& final(self).rows() == (Rows {
                    overlay: old(self).rows().overlay.filter(staged_elsewhere(ns_id@, mount_path@)),
                    namespaces: with_pin(old(self).rows().namespaces, ns_id@, pinned),
                    observations: old(self).rows().observations.filter(observed_elsewhere(ns_id@)),
                    ..old(self).rows()
                })
                &&& final(self).counters == (MetaStats {
                    cas_noop: bumped(old(self).counters.cas_noop),
                    ..txn_after(old(self).counters, true, true)
                })
            } else {
                &&& final(self).rows() == old(self).rows()
                &&& final(self).counters == txn_after(old(self).counters, true, false)
                &&& r matches Err(e) && refuses(
                    e,
                    Refusal::Corrupt("missing namespace "@ + ns_id@),
                )
            },
    {
        self.count_begun(true);
        let session = match self.tables.ns_place(ns_id) {
            Some(i) => i,
            None => return Err(Error::Corrupt(cat2("missing namespace ", ns_id))),
        };
        self.tables.clear_overlay(ns_id, mount_path);
        self.tables.set_pin_at(ns_id, session, &pinned);
        self.tables.clear_observations(ns_id);
        self.count_committed();
        self.counters.cas_noop = bump(self.counters.cas_noop);
        Ok(())
    }
}

/// Why a session cannot be made.
pub open spec fn create_session_refusal(rows: Rows, id: Seq<char>, live_ref: Seq<char>, mount_main: bool) -> Option<
    Refusal,
> {
    if !ref_kind_ok(live_ref, "commit"@) {
        Some(Refusal::Invalid(bad_ref(live_ref, "commit"@)))
    } else if some_row(rows.namespaces, ns_named(id)) {
        Some(Refusal::Invalid(unique_text("namespaces.id"@)))
    } else if retired(rows.reflog, live_ref) {
        Some(Refusal::Invalid(retired_text(live_ref)))
    } else {
        match ref_row_refusal(rows, live_ref, "commit"@) {
            Some(why) => Some(why),
            None => if some_row(rows.mounts, mount_at(id, "/"@)) || (mount_main && some_row(
                rows.mounts,
                mount_at(id, "/main"@),
            )) {
                Some(Refusal::Invalid(unique_text("mounts.ns_id, mounts.path"@)))
            } else {
                None
            },
        }
    }
}

/// The rows with a new session: its row, its head, and its mounts.
pub open spec fn with_session(
    rows: Rows,
    id: Seq<char>,
    agent_id: Seq<char>,
    pinned: ObjectId,
    live_ref: Seq<char>,
    mount_main: bool,
    ts_ms: i64,
) -> Rows {
    let root = MountLine {
        ns_id: id,
        path: "/"@,
        spec: "ref:"@ + live_ref,
        mode: "rw"@,
        base_oid: Some(pinned@),
    };
    let main = MountLine {
        ns_id: id,
        path: "/main"@,
        spec: "ref:main"@,
        mode: "ro"@,
        base_oid: None,
    };
    Rows {
        namespaces: rows.namespaces.push(
            NsLine {
                id,
                agent_id,
                created_ms: ts_ms,
                pinned_oid: Some(pinned@),
                live_ref: Some(live_ref),
            },
        ),
        mounts: if mount_main {
            rows.mounts.push(root).push(main)
        } else {
            rows.mounts.push(root)
        },
        ..with_new_ref(
            rows,
            live_ref,
            pinned,
            "commit"@,
            false,
            false,
            agent_id,
            "session"@,
            ts_ms,
        )
    }
}

impl Tables {
    fn push_ns(&mut self, id: &str, agent_id: &str, pinned: &ObjectId, live_ref: &str, ts_ms: i64)
        ensures
            final(self)@ == (Rows {
                namespaces: old(self)@.namespaces.push(
                    NsLine {
                        id: id@,
                        agent_id: agent_id@,
                        created_ms: ts_ms,
                        pinned_oid: Some(pinned@),
                        live_ref: Some(live_ref@),
                    },
                ),
                ..old(self)@
            }),
    {
        self.namespaces.push(
            NsRecord {
                id: id.to_string(),
                agent_id: agent_id.to_string(),
                created_ms: ts_ms,
                pinned_oid: Some(text_bytes(pinned)),
                live_ref: Some(live_ref.to_string()),
            },
        );
        assert(self@.namespaces =~= old(self)@.namespaces.push(
            NsLine {
                id: id@,
                agent_id: agent_id@,
                created_ms: ts_ms,
                pinned_oid: Some(pinned@),
                live_ref: Some(live_ref@),
            },
        ));
    }

    fn push_mount(
        &mut self,
        ns: &str,
        path: &str,
        spec_: &str,
        mode: &str,
        base_oid: Option<Vec<u8>>,
    )
        ensures
            final(self)@ == (Rows {
                mounts: old(self)@.mounts.push(
                    MountLine {
                        ns_id: ns@,
                        path: path@,
                        spec: spec_@,
                        mode: mode@,
                        base_oid: bytes_in(base_oid),
                    },
                ),
                ..old(self)@
            }),
    {
        let ghost line = MountLine {
            ns_id: ns@,
            path: path@,
            spec: spec_@,
            mode: mode@,
            base_oid: bytes_in(base_oid),
        };
        self.mounts.push(
            MountRecord {
                ns_id: ns.to_string(),
                path: path.to_string(),
                spec: spec_.to_string(),
                mode: mode.to_string(),
                base_oid,
            },
        );
        assert(self@.mounts =~= old(self)@.mounts.push(line));
    }
}

impl Meta {
    /// Make a session: its row, its head, and its mounts, all or nothing. A retired name
    /// cannot be the head.
    pub fn create_session(
        &mut self,
        id: &str,
        agent_id: &str,
        pinned: ObjectId,
        live_ref: &str,
        mount_main: bool,
        ts_ms: i64,
    ) -> (r: Result<(), Error>)
        ensures
            final(self).counters == txn_after(
                old(self).counters,
                ref_kind_ok(live_ref@, "commit"@),
                r is Ok,
            ),
            match create_session_refusal(old(self).rows(), id@, live_ref@, mount_main) {
                Some(why) => final(self).rows() == old(self).rows() && (r matches Err(e)
                    && refuses(e, why)),
                None => r is Ok && final(self).rows() == with_session(
                    old(self).rows(),
                    id@,
                    agent_id@,
                    pinned,
                    live_ref@,
                    mount_main,
                    ts_ms,
                ),
            },
    {
        validate_ref_kind(live_ref, "commit")?;
        self.count_begun(true);
        if self.tables.ns_place(id).is_some() {
            return Err(Error::Invalid(cat2("UNIQUE constraint failed: ", "namespaces.id")));
        }
        let gone = self.tables.ref_retired(live_ref);
        deny_retired(live_ref, gone)?;
        let log_id = self.tables.check_ref_row(live_ref, "commit")?;
        if self.tables.mount_place(id, "/").is_some() || (mount_main && self.tables.mount_place(
            id,
            "/main",
        ).is_some()) {
            return Err(
                Error::Invalid(cat2("UNIQUE constraint failed: ", "mounts.ns_id, mounts.path")),
            );
        }
        self.tables.push_ns(id, agent_id, &pinned, live_ref, ts_ms);
        self.tables.push_ref(live_ref, &pinned, "commit", false, false, ts_ms);
        self.tables.push_log(log_id, live_ref, None, &pinned, agent_id, "session", ts_ms);
        let root_spec = cat2("ref:", live_ref);
        self.tables.push_mount(id, "/", root_spec.as_str(), "rw", Some(text_bytes(&pinned)));
        if mount_main {
            self.tables.push_mount(id, "/main", "ref:main", "ro", None);
        }
        self.count_committed();
        Ok(())
    }

    /// Make the row of a session alone.
    pub fn insert_namespace(
        &mut self,
        id: &str,
        agent_id: &str,
        pinned: ObjectId,
        live_ref: &str,
        ts_ms: i64,
    ) -> (r: Result<(), Error>)
        ensures
            final(self).counters == autocommit_after(old(self).counters, r is Ok),
            if some_row(old(self).rows().namespaces, ns_named(id@)) {
                final(self).rows() == old(self).rows() && (r matches Err(e) && refuses(
                    e,
                    Refusal::Invalid(unique_text("namespaces.id"@)),
                ))
            } else {
                r is Ok && final(self).rows() == (Rows {
                    namespaces: old(self).rows().namespaces.push(
                        NsLine {
                            id: id@,
                            agent_id: agent_id@,
                            created_ms: ts_ms,
                            pinned_oid: Some(pinned@),
                            live_ref: Some(live_ref@),
                        },
                    ),
                    ..old(self).rows()
                })
            },
    {
        self.count_locked();
        if self.tables.ns_place(id).is_some() {
            return Err(Error::Invalid(cat2("UNIQUE constraint failed: ", "namespaces.id")));
        }
        self.tables.push_ns(id, agent_id, &pinned, live_ref, ts_ms);
        self.count_committed();
        Ok(())
    }

    /// Pin a session to a commit. Of a session that is not there nothing is set.
    pub fn set_pin(&mut self, ns_id: &str, oid: ObjectId)
        ensures
            final(self).counters == autocommit_after(old(self).counters, true),
            final(self).rows() == if some_row(old(self).rows().namespaces, ns_named(ns_id@)) {
                Rows {
                    namespaces: with_pin(old(self).rows().namespaces, ns_id@, oid),
                    ..old(self).rows()
                }
            } else {
                old(self).rows()
            },
    {
        self.count_locked();
        if let Some(i) = self.tables.ns_place(ns_id) {
            self.tables.set_pin_at(ns_id, i, &oid);
        }
        self.count_committed();
    }

    /// Show something else at a mount. Where there is no such mount, nothing changes.
    pub fn update_mount_spec(&mut self, ns_id: &str, path: &str, spec_: &str)
        ensures
            final(self).counters == autocommit_after(old(self).counters, true),
            final(self).rows() == if some_row(old(self).rows().mounts, mount_at(ns_id@, path@)) {
                Rows {
                    mounts: with_spec(old(self).rows().mounts, ns_id@, path@, spec_@),
                    ..old(self).rows()
                }
            } else {
                old(self).rows()
            },
    {
        self.count_locked();
        if let Some(i) = self.tables.mount_place(ns_id, path) {
            self.tables.set_spec_at(ns_id, path, i, spec_);
        }
        self.count_committed();
    }

    /// A session by its name.
    pub fn get_namespace(&self, id: &str) -> (r: Result<NsRow, Error>)
        ensures
            match find_ns(self.rows().namespaces, id@) {
                Some(l) => match ns_row_of(l) {
                    Some(x) => r matches Ok(row) && ns_row_value(row) == x,
                    None => r matches Err(e) && refuses(e, Refusal::Corrupt("oid blob length"@)),
                },
                None => r matches Err(e) && refuses(e, Refusal::NotFound("namespace "@ + id@)),
            },
    {
        match self.tables.ns_place(id) {
            Some(i) => read_ns(&self.tables.namespaces[i]),
            None => Err(Error::NotFound(cat2("namespace ", id))),
        }
    }
}

/// A session as it is handed out: its name, agent, pin and ref.
pub ghost struct NsValue {
    pub id: Seq<char>,
    pub agent_id: Seq<char>,
    pub pinned_oid: Option<ObjectId>,
    pub live_ref: Option<Seq<char>>,
}

pub open spec fn ns_row_value(r: NsRow) -> NsValue {
    NsValue {
        id: r.id@,
        agent_id: r.agent_id@,
        pinned_oid: r.pinned_oid,
        live_ref: text_in(r.live_ref),
    }
}

/// What a row of a session says, where its pin is an object id.
pub open spec fn ns_row_of(l: NsLine) -> Option<NsValue> {
    match l.pinned_oid {
        Some(b) => if b.len() == 32 {
            Some(
                NsValue {
                    id: l.id,
                    agent_id: l.agent_id,
                    pinned_oid: Some(object_id(b)),
                    live_ref: l.live_ref,
                },
            )
        } else {
            None
        },
        None => Some(
            NsValue { id: l.id, agent_id: l.agent_id, pinned_oid: None, live_ref: l.live_ref },
        ),
    }
}

pub(crate) fn read_ns(x: &NsRecord) -> (r: Result<NsRow, Error>)
    ensures
        match ns_row_of(x@) {
            Some(v) => r matches Ok(row) && ns_row_value(row) == v,
            None => r matches Err(e) && refuses(e, Refusal::Corrupt("oid blob length"@)),
        },
{
    let pinned_oid = match &x.pinned_oid {
        Some(b) => {
            let id = oid_from_blob(b.as_slice())?;
            proof {
                lemma_object_id(id);
            }
            Some(id)
        },
        None => None,
    };
    let live_ref = match &x.live_ref {
        Some(s) => Some(s.clone()),
        None => None,
    };
    Ok(NsRow { id: x.id.clone(), agent_id: x.agent_id.clone(), pinned_oid, live_ref })
}

/// The rows at some places.
pub open spec fn picked<L>(s: Seq<L>, at: Seq<usize>) -> Seq<L> {
    Seq::new(at.len(), |k: int| s[at[k] as int])
}

/// The places of the rows that fit.
pub(crate) fn pick_rows<R: View, F: Fn(&R) -> bool>(
    v: &Vec<R>,
    fits: F,
    Ghost(p): Ghost<spec_fn(R::V) -> bool>,
) -> (at: Vec<usize>)
    requires
        forall|x: &R| #[trigger] fits.requires((x,)),
        forall|x: &R, b: bool| #[trigger] fits.ensures((x,), b) ==> b == p(x@),
    ensures
        forall|k: int| 0 <= k < at@.len() ==> (#[trigger] at@[k]) < v@.len(),
        picked(lines(v@), at@) == lines(v@).filter(p),
{
    let ghost all = lines(v@);
    let mut at: Vec<usize> = Vec::new();
    let mut i: usize = 0;
    proof {
        reveal(Seq::filter);
        assert(all.take(0).filter(p) =~= Seq::empty());
        assert(picked(all, at@) =~= Seq::empty());
    }
    while i < v.len()
        invariant
            i <= v@.len(),
            all == lines(v@),
            forall|x: &R| #[trigger] fits.requires((x,)),
            forall|x: &R, b: bool| #[trigger] fits.ensures((x,), b) ==> b == p(x@),
            forall|k: int| 0 <= k < at@.len() ==> (#[trigger] at@[k]) < i,
            picked(all, at@) == all.take(i as int).filter(p),
        decreases v@.len() - i,
    {
        proof {
            reveal(Seq::filter);
            assert(all.take(i + 1).drop_last() =~= all.take(i as int));
            assert(all.take(i + 1).last() == all[i as int]);
        }
        let ghost before = at@;
        let b = fits(&v[i]);
        if b {
            at.push(i);
            assert(picked(all, at@) =~= picked(all, before).push(all[i as int]));
        }
        i += 1;
    }
    assert(all.take(i as int) =~= all);
    at
}

/// The staged edits at a mount of a session.
pub open spec fn staged_at(ns: Seq<char>, mount: Seq<char>) -> spec_fn(OverlayLine) -> bool {
    |l: OverlayLine| l.ns_id == ns && l.mount == mount
}

/// The paths of some staged edits.
pub open spec fn paths_of(rows: Seq<OverlayLine>) -> Seq<Seq<char>> {
    Seq::new(rows.len(), |i: int| rows[i].path)
}

/// The staged edits other than that of a path.
pub open spec fn not_staged_at(ns: Seq<char>, mount: Seq<char>, path: Seq<char>) -> spec_fn(
    OverlayLine,
) -> bool {
    |l: OverlayLine| !(l.ns_id == ns && l.mount == mount && l.path == path)
}

/// The staged edits with one of a path, in place of the one that it had.
pub open spec fn with_staged(
    rows: Seq<OverlayLine>,
    ns: Seq<char>,
    mount: Seq<char>,
    path: Seq<char>,
    blob_oid: Option<ObjectId>,
    executable: bool,
) -> Seq<OverlayLine> {
    rows.filter(not_staged_at(ns, mount, path)).push(
        OverlayLine {
            ns_id: ns,
            mount,
            path,
            blob_oid: match blob_oid {
                Some(id) => Some(id@),
                None => None,
            },
            executable: if executable {
                1
            } else {
                0
            },
        },
    )
}

/// A staged edit as it is handed out.
pub ghost struct StagedValue {
    pub path: Seq<char>,
    pub blob_oid: Option<ObjectId>,
    pub executable: bool,
}

pub open spec fn staged_value(r: OverlayRow) -> StagedValue {
    StagedValue { path: r.path@, blob_oid: r.blob_oid, executable: r.executable }
}

pub open spec fn staged_row(l: OverlayLine) -> StagedValue {
    StagedValue {
        path: l.path,
        blob_oid: match l.blob_oid {
            Some(b) => Some(object_id(b)),
            None => None,
        },
        executable: l.executable != 0,
    }
}

/// A staged edit holds an object id, or none.
pub open spec fn staged_ok(l: OverlayLine) -> bool {
    l.blob_oid matches Some(b) ==> b.len() == 32
}

fn read_staged(x: &OverlayRecord) -> (r: Result<OverlayRow, Error>)
    ensures
        if staged_ok(x@) {
            r matches Ok(row) && staged_value(row) == staged_row(x@)
        } else {
            r matches Err(e) && refuses(e, Refusal::Corrupt("oid blob length"@))
        },
{
    let blob_oid = match &x.blob_oid {
        Some(b) => {
            let id = oid_from_blob(b.as_slice())?;
            proof {
                lemma_object_id(id);
            }
            Some(id)
        },
        None => None,
    };
    Ok(OverlayRow { path: x.path.clone(), blob_oid, executable: x.executable != 0 })
}

impl Meta {
    /// Stage an edit of a path. Together, the staged paths have to describe one tree:
    /// none may lie below another. The edit of the same path is replaced.
    pub fn overlay_upsert(
        &mut self,
        ns_id: &str,
        mount: &str,
        path: &str,
        blob_oid: Option<ObjectId>,
        executable: bool,
    ) -> (r: Result<(), Error>)
        ensures
            final(self).counters == txn_after(old(self).counters, true, r is Ok),
            ({
                let staged = paths_of(
                    old(self).rows().overlay.filter(staged_at(ns_id@, mount@)),
                );
                match r {
                    Ok(_) => (forall|p: Seq<char>| #[trigger]
                        staged.contains(p) ==> !overlap(p, path@)) && final(self).rows() == (Rows {
                        overlay: with_staged(
                            old(self).rows().overlay,
                            ns_id@,
                            mount@,
                            path@,
                            blob_oid,
                            executable,
                        ),
                        ..old(self).rows()
                    }),
                    Err(e) => final(self).rows() == old(self).rows() && exists|found: Seq<char>|
                        #[trigger]
                        least_overlap(staged, path@, found) && refuses(
                            e,
                            Refusal::Invalid(
                                "overlay path conflict: "@ + path@ + " and "@ + found
                                    + " cannot coexist"@,
                            ),
                        ),
                }
            }),
    {
        self.count_begun(true);
        let fits = |x: &OverlayRecord| -> (b: bool)
            ensures
                b == (x.ns_id@ == ns_id@ && x.mount@ == mount@),
            {
                text_eq(x.ns_id.as_str(), ns_id) && text_eq(x.mount.as_str(), mount)
            };
        let at = pick_rows(&self.tables.overlay, fits, Ghost(staged_at(ns_id@, mount@)));
        let ghost rows = self.rows().overlay;
        let mut staged: Vec<String> = Vec::new();
        let mut i: usize = 0;
        while i < at.len()
            invariant
                i <= at@.len(),
                self.tables == old(self).tables,
                self.counters == txn_after(old(self).counters, true, false),
                rows == self.rows().overlay,
                forall|k: int|
                    0 <= k < at@.len() ==> (#[trigger] at@[k]) < self.tables.overlay@.len(),
                staged@.len() == i,
                forall|k: int| 0 <= k < i ==> (#[trigger] staged@[k])@ == rows[at@[k] as int].path,
            decreases at@.len() - i,
        {
            assert(at@[i as int] < self.tables.overlay@.len());
            staged.push(self.tables.overlay[at[i]].path.clone());
            i += 1;
        }
        assert(text_values(staged@) =~= paths_of(rows.filter(staged_at(ns_id@, mount@)))) by {
            assert(paths_of(picked(rows, at@)) =~= text_values(staged@));
        }
        check_overlay(&staged, path)?;
        let stays = |x: &OverlayRecord| -> (b: bool)
            ensures
                b == !(x.ns_id@ == ns_id@ && x.mount@ == mount@ && x.path@ == path@),
            {
                !(text_eq(x.ns_id.as_str(), ns_id) && text_eq(x.mount.as_str(), mount) && text_eq(
                    x.path.as_str(),
                    path,
                ))
            };
        drop_rows(
            &mut self.tables.overlay,
            stays,
            Ghost(not_staged_at(ns_id@, mount@, path@)),
        );
        self.tables.overlay.push(
            OverlayRecord {
                ns_id: ns_id.to_string(),
                mount: mount.to_string(),
                path: path.to_string(),
                blob_oid: optional_bytes(&blob_oid),
                executable: if executable {
                    1
                } else {
                    0
                },
            },
        );
        assert(self.rows().overlay =~= with_staged(
            rows,
            ns_id@,
            mount@,
            path@,
            blob_oid,
            executable,
        ));
        self.count_committed();
        Ok(())
    }

    /// The staged edits at a mount of a session.
    pub fn overlay_list(&self, ns_id: &str, mount: &str) -> (r: Result<Vec<OverlayRow>, Error>)
        ensures
            ({
                let staged = self.rows().overlay.filter(staged_at(ns_id@, mount@));
                match r {
                    Ok(v) => v@.len() == staged.len() && (forall|i: int|
                        0 <= i < staged.len() ==> staged_ok(#[trigger] staged[i]) && staged_value(
                            v@[i],
                        ) == staged_row(staged[i])),
                    Err(e) => refuses(e, Refusal::Corrupt("oid blob length"@)) && exists|i: int|
                        0 <= i < staged.len() && !staged_ok(#[trigger] staged[i]),
                }
            }),
    {
        let fits = |x: &OverlayRecord| -> (b: bool)
            ensures
                b == (x.ns_id@ == ns_id@ && x.mount@ == mount@),
            {
                text_eq(x.ns_id.as_str(), ns_id) && text_eq(x.mount.as_str(), mount)
            };
        let at = pick_rows(&self.tables.overlay, fits, Ghost(staged_at(ns_id@, mount@)));
        let ghost rows = self.rows().overlay;
        let ghost staged = rows.filter(staged_at(ns_id@, mount@));
        let mut out: Vec<OverlayRow> = Vec::new();
        let mut i: usize = 0;
        while i < at.len()
            invariant
                i <= at@.len(),
                rows == self.rows().overlay,
                staged == rows.filter(staged_at(ns_id@, mount@)),
                staged == picked(rows, at@),
                forall|k: int|
                    0 <= k < at@.len() ==> (#[trigger] at@[k]) < self.tables.overlay@.len(),
                out@.len() == i,
                forall|k: int|
                    0 <= k < i ==> staged_ok(#[trigger] staged[k]) && staged_value(out@[k])
                        == staged_row(staged[k]),
            decreases at@.len() - i,
        {
            assert(at@[i as int] < self.tables.overlay@.len());
            assert(staged[i as int] == self.tables.overlay@[at@[i as int] as int]@);
            let row = read_staged(&self.tables.overlay[at[i]])?;
            out.push(row);
            i += 1;
        }
        Ok(out)
    }

    /// Drop the staged edits at a mount of a session.
    pub fn overlay_clear(&mut self, ns_id: &str, mount: &str)
        ensures
            final(self).counters == autocommit_after(old(self).counters, true),
            final(self).rows() == (Rows {
                overlay: old(self).rows().overlay.filter(staged_elsewhere(ns_id@, mount@)),
                ..old(self).rows()
            }),
    {
        self.count_locked();
        self.tables.clear_overlay(ns_id, mount);
        self.count_committed();
    }
}

pub open spec fn observed_at(ns: Seq<char>, mount: Seq<char>, path: Seq<char>) -> spec_fn(
    ObservationLine,
) -> bool {
    |l: ObservationLine| l.ns_id == ns && l.mount == mount && l.path == path
}

pub open spec fn not_observed_at(ns: Seq<char>, mount: Seq<char>, path: Seq<char>) -> spec_fn(
    ObservationLine,
) -> bool {
    |l: ObservationLine| !(l.ns_id == ns && l.mount == mount && l.path == path)
}

/// What is stored of an observation of a path.
pub open spec fn stored_at(
    rows: Seq<ObservationLine>,
    ns: Seq<char>,
    mount: Seq<char>,
    path: Seq<char>,
) -> Option<(Seq<char>, Option<Seq<u8>>)> {
    let i = place(rows, observed_at(ns, mount, path));
    if i >= 0 {
        Some((rows[i].kind, rows[i].oid))
    } else {
        None
    }
}

/// The observations with one of a path, in place of the one that it had. Where it had
/// the same, nothing changes.
pub open spec fn with_observed(
    rows: Seq<ObservationLine>,
    ns: Seq<char>,
    mount: Seq<char>,
    path: Seq<char>,
    seen: Observed,
) -> Seq<ObservationLine> {
    if stored_at(rows, ns, mount, path) == Some(stored_as(seen)) {
        rows
    } else {
        rows.filter(not_observed_at(ns, mount, path)).push(
            ObservationLine {
                ns_id: ns,
                mount,
                path,
                kind: stored_as(seen).0,
                oid: stored_as(seen).1,
            },
        )
    }
}

/// The observations of a session.
pub open spec fn observed_by(ns: Seq<char>) -> spec_fn(ObservationLine) -> bool {
    |l: ObservationLine| l.ns_id == ns
}

pub open spec fn observation_in(l: ObservationLine) -> Result<Observed, Refusal> {
    observation_of(l.mount, l.path, l.kind, l.oid)
}

/// The first row that cannot be read is the reason why none is.
pub open spec fn first_unread(rows: Seq<ObservationLine>, i: int) -> bool {
    &&& 0 <= i < rows.len()
    &&& observation_in(rows[i]) is Err
    &&& forall|j: int| 0 <= j < i ==> observation_in(#[trigger] rows[j]) is Ok
}

impl Meta {
    /// Record what a session saw at a path. Where the row says so already, it is not
    /// written again.
    pub fn observe(&mut self, ns_id: &str, mount: &str, path: &str, seen: Observed)
        ensures
            final(self).counters == if stored_at(
                old(self).rows().observations,
                ns_id@,
                mount@,
                path@,
            ) == Some(stored_as(seen)) {
                read_locked(old(self).counters)
            } else {
                autocommit_after(read_locked(old(self).counters), true)
            },
            final(self).rows() == (Rows {
                observations: with_observed(
                    old(self).rows().observations,
                    ns_id@,
                    mount@,
                    path@,
                    seen,
                ),
                ..old(self).rows()
            }),
    {
        self.count_read();
        let ghost rows = self.rows().observations;
        let fits = |x: &ObservationRecord| -> (b: bool)
            ensures
                b == (x.ns_id@ == ns_id@ && x.mount@ == mount@ && x.path@ == path@),
            {
                text_eq(x.ns_id.as_str(), ns_id) && text_eq(x.mount.as_str(), mount) && text_eq(
                    x.path.as_str(),
                    path,
                )
            };
        let at = find_row(
            &self.tables.observations,
            fits,
            Ghost(observed_at(ns_id@, mount@, path@)),
        );
        let stored = match at {
            Some(i) => {
                let x = &self.tables.observations[i];
                assert(rows[i as int] == x@);
                Some((x.kind.as_str(), &x.oid))
            },
            None => None,
        };
        if observation_is_current(stored, seen) {
            return;
        }
        self.count_locked();
        let stays = |x: &ObservationRecord| -> (b: bool)
            ensures
                b == !(x.ns_id@ == ns_id@ && x.mount@ == mount@ && x.path@ == path@),
            {
                !(text_eq(x.ns_id.as_str(), ns_id) && text_eq(x.mount.as_str(), mount) && text_eq(
                    x.path.as_str(),
                    path,
                ))
            };
        drop_rows(
            &mut self.tables.observations,
            stays,
            Ghost(not_observed_at(ns_id@, mount@, path@)),
        );
        let oid = seen.oid();
        self.tables.observations.push(
            ObservationRecord {
                ns_id: ns_id.to_string(),
                mount: mount.to_string(),
                path: path.to_string(),
                kind: seen.kind().to_string(),
                oid: optional_bytes(&oid),
            },
        );
        assert(self.rows().observations =~= with_observed(rows, ns_id@, mount@, path@, seen));
        self.count_committed();
    }

    /// What a session saw.
    pub fn observations(&self, ns_id: &str) -> (r: Result<Vec<ObservationRow>, Error>)
        ensures
            ({
                let rows = self.rows().observations.filter(observed_by(ns_id@));
                match r {
                    Ok(v) => v@.len() == rows.len() && forall|i: int|
                        0 <= i < rows.len() ==> observation_in(#[trigger] rows[i]) == Ok::<
                            Observed,
                            Refusal,
                        >(v@[i].seen) && v@[i].mount@ == rows[i].mount && v@[i].path@
                            == rows[i].path,
                    Err(e) => exists|i: int| #[trigger]
                        first_unread(rows, i) && refuses(e, observation_in(rows[i])->Err_0),
                }
            }),
    {
        let fits = |x: &ObservationRecord| -> (b: bool)
            ensures
                b == (x.ns_id@ == ns_id@),
            {
                text_eq(x.ns_id.as_str(), ns_id)
            };
        let at = pick_rows(&self.tables.observations, fits, Ghost(observed_by(ns_id@)));
        let ghost all = self.rows().observations;
        let ghost rows = all.filter(observed_by(ns_id@));
        let mut out: Vec<ObservationRow> = Vec::new();
        let mut i: usize = 0;
        while i < at.len()
            invariant
                i <= at@.len(),
                all == self.rows().observations,
                rows == all.filter(observed_by(ns_id@)),
                rows == picked(all, at@),
                forall|k: int|
                    0 <= k < at@.len() ==> (#[trigger] at@[k]) < self.tables.observations@.len(),
                out@.len() == i,
                forall|k: int|
                    0 <= k < i ==> observation_in(#[trigger] rows[k]) == Ok::<Observed, Refusal>(
                        out@[k].seen,
                    ) && out@[k].mount@ == rows[k].mount && out@[k].path@ == rows[k].path,
            decreases at@.len() - i,
        {
            assert(at@[i as int] < self.tables.observations@.len());
            let x = &self.tables.observations[at[i]];
            assert(rows[i as int] == x@);
            let seen = match decode_observation(
                x.mount.as_str(),
                x.path.as_str(),
                x.kind.as_str(),
                &x.oid,
            ) {
                Ok(seen) => seen,
                Err(e) => {
                    assert(first_unread(rows, i as int));
                    return Err(e);
                },
            };
            out.push(ObservationRow { mount: x.mount.clone(), path: x.path.clone(), seen });
            i += 1;
        }
        Ok(out)
    }

    /// Forget what a session saw.
    pub fn observations_clear(&mut self, ns_id: &str)
        ensures
            final(self).counters == autocommit_after(old(self).counters, true),
            final(self).rows() == (Rows {
                observations: old(self).rows().observations.filter(observed_elsewhere(ns_id@)),
                ..old(self).rows()
            }),
    {
        self.count_locked();
        self.tables.clear_observations(ns_id);
        self.count_committed();
    }
}

pub open spec fn not_mount_at(ns: Seq<char>, path: Seq<char>) -> spec_fn(MountLine) -> bool {
    |l: MountLine| !(l.ns_id == ns && l.path == path)
}

/// The mounts of a session.
pub open spec fn mounted_by(ns: Seq<char>) -> spec_fn(MountLine) -> bool {
    |l: MountLine| l.ns_id == ns
}

/// The ref that a mount shows.
pub open spec fn ref_shown(spec_: Seq<char>) -> Seq<char> {
    if "ref:"@.is_prefix_of(spec_) {
        spec_.skip(4)
    } else {
        spec_
    }
}

/// The commit that a mount is based on. A mount that is read only follows its ref, and
/// has no base; nor has one of an object, which nothing can move. A read-write mount of
/// the ref that its session follows is based on the pin of the session, and one of
/// another ref on that ref.
pub open spec fn mount_base(
    rows: Rows,
    ns: Seq<char>,
    spec_: Seq<char>,
    mode: Seq<char>,
) -> Option<Seq<u8>> {
    if mode != "rw"@ || "oid:"@.is_prefix_of(spec_) {
        None
    } else {
        match find_ns(rows.namespaces, ns) {
            Some(l) => if l.live_ref == Some(ref_shown(spec_)) {
                l.pinned_oid
            } else {
                ref_base(rows, spec_)
            },
            None => ref_base(rows, spec_),
        }
    }
}

/// Where the ref of a mount is.
pub open spec fn ref_base(rows: Rows, spec_: Seq<char>) -> Option<Seq<u8>> {
    match find_ref(rows.refs, ref_shown(spec_)) {
        Some(l) => Some(l.oid),
        None => None,
    }
}

/// A mount from before mounts had bases, with its base. A read-write mount of an object
/// becomes read only: it has no ref that could move.
pub open spec fn based_mount(rows: Rows, l: MountLine) -> MountLine {
    MountLine {
        mode: if l.mode == "rw"@ && "oid:"@.is_prefix_of(l.spec) {
            "ro"@
        } else {
            l.mode
        },
        base_oid: mount_base(rows, l.ns_id, l.spec, l.mode),
        ..l
    }
}

/// The mounts, each with its base.
pub open spec fn based_mounts(rows: Rows) -> Seq<MountLine> {
    Seq::new(rows.mounts.len(), |i: int| based_mount(rows, rows.mounts[i]))
}

fn copy_bytes(b: &Vec<u8>) -> (r: Vec<u8>)
    ensures
        r@ == b@,
{
    let mut out: Vec<u8> = Vec::new();
    out.extend_from_slice(b.as_slice());
    assert(out@ =~= b@);
    out
}

impl Tables {
    fn base_of(&self, ns: &str, spec_: &str, mode: &str) -> (r: Option<Vec<u8>>)
        ensures
            bytes_in(r) == mount_base(self@, ns@, spec_@, mode@),
    {
        proof {
            reveal_strlit("ref:");
        }
        if !text_eq(mode, "rw") || starts_with(spec_, "oid:") {
            return None;
        }
        let name = if starts_with(spec_, "ref:") {
            let cs = chars_of(spec_);
            text_of(slice_subrange(cs.as_slice(), 4, cs.len()))
        } else {
            spec_.to_string()
        };
        assert(name@ =~= ref_shown(spec_@));
        if let Some(i) = self.ns_place(ns) {
            let x = &self.namespaces[i];
            let own = match &x.live_ref {
                Some(live) => text_eq(live.as_str(), name.as_str()),
                None => false,
            };
            if own {
                return match &x.pinned_oid {
                    Some(b) => Some(copy_bytes(b)),
                    None => None,
                };
            }
        }
        match self.ref_place(name.as_str()) {
            Some(i) => Some(copy_bytes(&self.refs[i].oid)),
            None => None,
        }
    }

    /// Give every mount its base. Nothing but mounts changes.
    pub fn pin_mounts(&mut self)
        ensures
            final(self)@ == (Rows { mounts: based_mounts(old(self)@), ..old(self)@ }),
    {
        let ghost rows = self@;
        let mut bases: Vec<(bool, Option<Vec<u8>>)> = Vec::new();
        let mut i: usize = 0;
        while i < self.mounts.len()
            invariant
                i <= self.mounts@.len(),
                *self == *old(self),
                rows == self@,
                bases@.len() == i,
                forall|k: int|
                    0 <= k < i ==> bytes_in((#[trigger] bases@[k]).1) == mount_base(
                        rows,
                        rows.mounts[k].ns_id,
                        rows.mounts[k].spec,
                        rows.mounts[k].mode,
                    ) && bases@[k].0 == (rows.mounts[k].mode == "rw"@ && "oid:"@.is_prefix_of(
                        rows.mounts[k].spec,
                    )),
            decreases self.mounts@.len() - i,
        {
            let x = &self.mounts[i];
            assert(rows.mounts[i as int] == x@);
            let base = self.base_of(x.ns_id.as_str(), x.spec.as_str(), x.mode.as_str());
            let demoted = text_eq(x.mode.as_str(), "rw") && starts_with(x.spec.as_str(), "oid:");
            bases.push((demoted, base));
            i += 1;
        }
        let ghost given = bases@;
        let mut k: usize = self.mounts.len();
        while k > 0
            invariant
                k <= self.mounts@.len(),
                self.mounts@.len() == rows.mounts.len(),
                given.len() == rows.mounts.len(),
                bases@ == given.take(k as int),
                rows == old(self)@,
                self@ == (Rows { mounts: self@.mounts, ..rows }),
                forall|j: int| 0 <= j < k ==> self@.mounts[j] == #[trigger] rows.mounts[j],
                forall|j: int|
                    k <= j < rows.mounts.len() ==> self@.mounts[j] == based_mount(
                        rows,
                        #[trigger] rows.mounts[j],
                    ),
                forall|j: int|
                    0 <= j < given.len() ==> bytes_in((#[trigger] given[j]).1) == mount_base(
                        rows,
                        rows.mounts[j].ns_id,
                        rows.mounts[j].spec,
                        rows.mounts[j].mode,
                    ) && given[j].0 == (rows.mounts[j].mode == "rw"@ && "oid:"@.is_prefix_of(
                        rows.mounts[j].spec,
                    )),
            decreases k,
        {
            k -= 1;
            let ghost before = self@.mounts;
            assert(before[k as int] == rows.mounts[k as int]);
            if let Some(pair) = bases.pop() {
                proof {
                    assert(pair == given[k as int]);
                    assert(bases@ =~= given.take(k as int));
                }
                let mut base = pair.1;
                core::mem::swap(&mut self.mounts[k].base_oid, &mut base);
                if pair.0 {
                    let mut mode = "ro".to_string();
                    core::mem::swap(&mut self.mounts[k].mode, &mut mode);
                }
            }
            proof {
                assert(self@.mounts =~= before.update(
                    k as int,
                    based_mount(rows, rows.mounts[k as int]),
                ));
            }
        }
        assert(self@.mounts =~= based_mounts(rows));
    }
}

/// A mount as it is handed out.
pub ghost struct MountValue {
    pub path: Seq<char>,
    pub spec: Seq<char>,
    pub mode: Seq<char>,
    pub base_oid: Option<ObjectId>,
}

pub open spec fn mount_row_value(r: MountRow) -> MountValue {
    MountValue { path: r.path@, spec: r.spec@, mode: r.mode@, base_oid: r.base_oid }
}

pub open spec fn mount_value(l: MountLine) -> MountValue {
    MountValue {
        path: l.path,
        spec: l.spec,
        mode: l.mode,
        base_oid: match l.base_oid {
            Some(b) => Some(object_id(b)),
            None => None,
        },
    }
}

/// The base of a mount is an object id, or there is none.
pub open spec fn mount_ok(l: MountLine) -> bool {
    l.base_oid matches Some(b) ==> b.len() == 32
}

fn read_mount(x: &MountRecord) -> (r: Result<MountRow, Error>)
    ensures
        if mount_ok(x@) {
            r matches Ok(row) && mount_row_value(row) == mount_value(x@)
        } else {
            r matches Err(e) && refuses(e, Refusal::Corrupt("oid blob length"@))
        },
{
    let base_oid = match &x.base_oid {
        Some(b) => {
            let id = oid_from_blob(b.as_slice())?;
            proof {
                lemma_object_id(id);
            }
            Some(id)
        },
        None => None,
    };
    Ok(MountRow { path: x.path.clone(), spec: x.spec.clone(), mode: x.mode.clone(), base_oid })
}

impl Meta {
    /// Mount something, in place of what was mounted there.
    pub fn insert_mount(
        &mut self,
        ns_id: &str,
        path: &str,
        spec_: &str,
        mode: &str,
        base_oid: Option<ObjectId>,
    ) -> (r: Result<(), Error>)
        ensures
            final(self).counters == autocommit_after(old(self).counters, r is Ok),
            if mode@ == "ro"@ || mode@ == "rw"@ {
                r is Ok && final(self).rows() == (Rows {
                    mounts: old(self).rows().mounts.filter(not_mount_at(ns_id@, path@)).push(
                        MountLine {
                            ns_id: ns_id@,
                            path: path@,
                            spec: spec_@,
                            mode: mode@,
                            base_oid: match base_oid {
                                Some(id) => Some(id@),
                                None => None,
                            },
                        },
                    ),
                    ..old(self).rows()
                })
            } else {
                final(self).rows() == old(self).rows() && (r matches Err(e) && refuses(
                    e,
                    Refusal::Invalid(check_text("mode IN ('ro','rw')"@)),
                ))
            },
    {
        self.count_locked();
        if !text_eq(mode, "ro") && !text_eq(mode, "rw") {
            return Err(Error::Invalid(cat2("CHECK constraint failed: ", "mode IN ('ro','rw')")));
        }
        let stays = |x: &MountRecord| -> (b: bool)
            ensures
                b == !(x.ns_id@ == ns_id@ && x.path@ == path@),
            {
                !(text_eq(x.ns_id.as_str(), ns_id) && text_eq(x.path.as_str(), path))
            };
        drop_rows(&mut self.tables.mounts, stays, Ghost(not_mount_at(ns_id@, path@)));
        self.tables.push_mount(ns_id, path, spec_, mode, optional_bytes(&base_oid));
        self.count_committed();
        Ok(())
    }

    /// The mounts of a session.
    pub fn list_mounts(&self, ns_id: &str) -> (r: Result<Vec<MountRow>, Error>)
        ensures
            ({
                let rows = self.rows().mounts.filter(mounted_by(ns_id@));
                match r {
                    Ok(v) => v@.len() == rows.len() && forall|i: int|
                        0 <= i < rows.len() ==> mount_ok(#[trigger] rows[i]) && mount_row_value(
                            v@[i],
                        ) == mount_value(rows[i]),
                    Err(e) => refuses(e, Refusal::Corrupt("oid blob length"@)) && exists|i: int|
                        0 <= i < rows.len() && !mount_ok(#[trigger] rows[i]),
                }
            }),
    {
        let fits = |x: &MountRecord| -> (b: bool)
            ensures
                b == (x.ns_id@ == ns_id@),
            {
                text_eq(x.ns_id.as_str(), ns_id)
            };
        let at = pick_rows(&self.tables.mounts, fits, Ghost(mounted_by(ns_id@)));
        let ghost all = self.rows().mounts;
        let ghost rows = all.filter(mounted_by(ns_id@));
        let mut out: Vec<MountRow> = Vec::new();
        let mut i: usize = 0;
        while i < at.len()
            invariant
                i <= at@.len(),
                all == self.rows().mounts,
                rows == all.filter(mounted_by(ns_id@)),
                rows == picked(all, at@),
                forall|k: int|
                    0 <= k < at@.len() ==> (#[trigger] at@[k]) < self.tables.mounts@.len(),
                out@.len() == i,
                forall|k: int|
                    0 <= k < i ==> mount_ok(#[trigger] rows[k]) && mount_row_value(out@[k])
                        == mount_value(rows[k]),
            decreases at@.len() - i,
        {
            assert(at@[i as int] < self.tables.mounts@.len());
            let x = &self.tables.mounts[at[i]];
            assert(rows[i as int] == x@);
            let row = read_mount(x)?;
            out.push(row);
            i += 1;
        }
        Ok(out)
    }

    /// Record which commit introduced an object, unless that is recorded.
    pub fn intro_insert(&mut self, oid: ObjectId, commit: ObjectId, agent_id: &str, ts_ms: i64)
        ensures
            final(self).counters == autocommit_after(old(self).counters, true),
            final(self).rows() == (Rows {
                object_intro: introduced(
                    old(self).rows().object_intro,
                    seq![oid],
                    commit,
                    agent_id@,
                    ts_ms,
                ),
                ..old(self).rows()
            }),
    {
        self.count_locked();
        let one: Vec<ObjectId> = vec![oid];
        assert(one@ =~= seq![oid]);
        self.tables.push_intros(one.as_slice(), &commit, agent_id, ts_ms);
        self.count_committed();
    }

    /// Record which commit introduced some objects, each unless that is recorded.
    pub fn intro_insert_many(
        &mut self,
        oids: &[ObjectId],
        commit: ObjectId,
        agent_id: &str,
        ts_ms: i64,
    )
        ensures
            final(self).counters == txn_after(old(self).counters, true, true),
            final(self).rows() == (Rows {
                object_intro: introduced(
                    old(self).rows().object_intro,
                    oids@,
                    commit,
                    agent_id@,
                    ts_ms,
                ),
                ..old(self).rows()
            }),
    {
        self.count_begun(true);
        self.tables.push_intros(oids, &commit, agent_id, ts_ms);
        self.count_committed();
    }

    /// The agent that introduced an object.
    pub fn intro_get(&self, oid: ObjectId) -> (r: Option<String>)
        ensures
            ({
                let rows = self.rows().object_intro;
                let i = place(rows, intro_of(oid));
                match r {
                    Some(agent) => i >= 0 && agent@ == rows[i].agent_id,
                    None => i < 0,
                }
            }),
    {
        let fits = |x: &IntroRecord| -> (b: bool)
            ensures
                b == (x.oid@ == oid@),
            {
                bytes_eq(x.oid.as_slice(), oid.as_bytes().as_slice())
            };
        let at = find_row(&self.tables.object_intro, fits, Ghost(intro_of(oid)));
        match at {
            Some(i) => Some(self.tables.object_intro[i].agent_id.clone()),
            None => None,
        }
    }
}

} // verus!
