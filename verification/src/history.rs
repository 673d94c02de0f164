//! The rest of the catalog: retiring refs and sessions, seals and landmarks, and the
//! lists of what is there.
use crate::audit::{sort_rows, sorted_from, RefFact};
use crate::bytes::{bytes_eq, bytes_lt, lex_lt};
use crate::bytes::{lemma_lex_antisymmetric, lemma_lex_total, lemma_lex_transitive};
use crate::catalog::{
    autocommit_after, drop_rows, find_ref, find_row, full_text, log_has_room, log_named, logged,
    ns_named, ns_row_of, ns_row_value, observed_elsewhere, pick_rows, picked, place, read_ns,
    ref_named, ref_row_refusal, retired, some_row, text_bytes, txn_after, unique_text,
    with_new_ref, Meta, NsValue,
};
use crate::names::{
    bad_ref, oid_from_blob, ref_kind_ok, ref_name_ok, validate_ref_kind, validate_ref_name,
};
use crate::order::Sortable;
use crate::paths::starts_with;
use crate::refs::{
    abandon_refusal, abandon_session_refusal, decide_abandon, decide_abandon_session, refuses,
    Refusal,
};
use crate::rows::{AbandonedSession, NsRow, RetiredRef};
use crate::tables::{
    lines, LandmarkLine, LandmarkRecord, LogLine, LogRecord, MountLine, MountRecord, NsLine,
    NsRecord, OverlayLine, OverlayRecord, RefLine, RefRecord, Rows, SealLine, SealRecord, Tables,
};
use crate::text::{
    cat2, cat4, decimal, decimal_text, lemma_text_le, text_eq, text_le, text_lt,
};
use crate::types::{lemma_object_id, object_id, Error, ObjectId, RefRow};
use vstd::prelude::*;

verus! {

/// A session follows a ref.
pub open spec fn follows(name: Seq<char>) -> spec_fn(NsLine) -> bool {
    |l: NsLine| l.live_ref == Some(name)
}

/// A mount shows a ref.
pub open spec fn shows(name: Seq<char>) -> spec_fn(MountLine) -> bool {
    |l: MountLine| l.spec == name || l.spec == "ref:"@ + name
}

/// The refs of other names.
pub open spec fn ref_not_named(name: Seq<char>) -> spec_fn(RefLine) -> bool {
    |l: RefLine| l.name != name
}

/// Why a ref cannot be retired.
pub open spec fn retire_refusal(rows: Rows, name: Seq<char>) -> Option<Refusal> {
    match abandon_refusal(
        find_ref(rows.refs, name),
        retired(rows.reflog, name),
        some_row(rows.namespaces, follows(name)),
        some_row(rows.mounts, shows(name)),
        name,
    ) {
        Some(why) => Some(why),
        None => if !log_has_room(rows.reflog) {
            Some(Refusal::Sqlite(full_text()))
        } else if rows.refs.filter(ref_named(name)).len() != 1 {
            Some(
                Refusal::Internal(
                    "abandon removed "@ + decimal(rows.refs.filter(ref_named(name)).len())
                        + " rows for ref "@ + name,
                ),
            )
        } else {
            None
        },
    }
}

/// The rows without a ref, whose log says that it was retired. The entry goes from the
/// object to itself: the ref did not move, it stopped.
pub open spec fn with_retired(rows: Rows, name: Seq<char>, agent_id: Seq<char>, ts_ms: i64) -> Rows {
    let oid = object_id(find_ref(rows.refs, name)->0.oid);
    Rows {
        refs: rows.refs.filter(ref_not_named(name)),
        reflog: logged(rows.reflog, name, Some(oid), oid, agent_id, "abandon"@, ts_ms),
        ..rows
    }
}

/// The staged edits of a session.
pub open spec fn staged_by(ns: Seq<char>) -> spec_fn(OverlayLine) -> bool {
    |l: OverlayLine| l.ns_id == ns
}

pub open spec fn not_staged_by(ns: Seq<char>) -> spec_fn(OverlayLine) -> bool {
    |l: OverlayLine| l.ns_id != ns
}

pub open spec fn not_mounted_by(ns: Seq<char>) -> spec_fn(MountLine) -> bool {
    |l: MountLine| l.ns_id != ns
}

pub open spec fn ns_not_named(id: Seq<char>) -> spec_fn(NsLine) -> bool {
    |l: NsLine| l.id != id
}

/// The rows without a session, its mounts, its observations and its staged edits. The
/// ref that it followed stays.
pub open spec fn without_session(rows: Rows, ns: Seq<char>) -> Rows {
    Rows {
        namespaces: rows.namespaces.filter(ns_not_named(ns)),
        mounts: rows.mounts.filter(not_mounted_by(ns)),
        observations: rows.observations.filter(observed_elsewhere(ns)),
        overlay: rows.overlay.filter(not_staged_by(ns)),
        ..rows
    }
}

impl Meta {
    /// Retire a fork for good. Its row goes, and its log ends with an entry that keeps
    /// the object, the agent and the time.
    pub fn abandon_ref(&mut self, name: &str, agent_id: &str, ts_ms: i64) -> (r: Result<
        RetiredRef,
        Error,
    >)
        ensures
            final(self).counters == txn_after(
                old(self).counters,
                ref_name_ok(name@) && "forks/"@.is_prefix_of(name@),
                r is Ok,
            ),
            match retire_refusal(old(self).rows(), name@) {
                Some(why) => final(self).rows() == old(self).rows() && (r matches Err(e)
                    && refuses(e, why)),
                None => final(self).rows() == with_retired(old(self).rows(), name@, agent_id@, ts_ms)
                    && (r matches Ok(x) && find_ref(old(self).rows().refs, name@) matches Some(l)
                    && x.name@ == name@ && x.oid@ == l.oid && x.kind@ == l.kind && x.agent_id@
                    == agent_id@ && x.ts_ms == ts_ms),
            },
    {
        let ghost rows = self.rows();
        let begun = validate_ref_name(name).is_ok() && starts_with(name, "forks/");
        self.count_begun(begun);
        let at = self.tables.ref_place(name);
        let gone = self.tables.ref_retired(name);
        let follows_it = |x: &NsRecord| -> (b: bool)
            ensures
                b == (x@.live_ref == Some(name@)),
            {
                match &x.live_ref {
                    Some(s) => text_eq(s.as_str(), name),
                    None => false,
                }
            };
        let live = find_row(&self.tables.namespaces, follows_it, Ghost(follows(name@)));
        let ref_spec = cat2("ref:", name);
        let shows_it = |x: &MountRecord| -> (b: bool)
            ensures
                b == (x.spec@ == name@ || x.spec@ == ref_spec@),
            {
                text_eq(x.spec.as_str(), name) || text_eq(x.spec.as_str(), ref_spec.as_str())
            };
        let mounted = find_row(&self.tables.mounts, shows_it, Ghost(shows(name@)));
        let row = match at {
            Some(i) => Some(&self.tables.refs[i]),
            None => None,
        };
        let oid = decide_abandon(row, gone, live.is_some(), mounted.is_some(), name)?;
        let kind = match row {
            Some(x) => x.kind.clone(),
            None => String::new(),
        };
        let id = self.tables.log_room()?;
        let named = |x: &RefRecord| -> (b: bool)
            ensures
                b == (x.name@ == name@),
            {
                text_eq(x.name.as_str(), name)
            };
        let found = pick_rows(&self.tables.refs, named, Ghost(ref_named(name@)));
        assert(found@.len() == rows.refs.filter(ref_named(name@)).len()) by {
            assert(picked(rows.refs, found@).len() == found@.len());
        }
        if found.len() != 1 {
            return Err(
                Error::Internal(
                    cat4(
                        "abandon removed ",
                        decimal_text(found.len() as u64).as_str(),
                        " rows for ref ",
                        name,
                    ),
                ),
            );
        }
        proof {
            lemma_object_id(oid);
        }
        self.tables.push_log(id, name, Some(oid), &oid, agent_id, "abandon", ts_ms);
        let stays = |x: &RefRecord| -> (b: bool)
            ensures
                b == (x.name@ != name@),
            {
                !text_eq(x.name.as_str(), name)
            };
        drop_rows(&mut self.tables.refs, stays, Ghost(ref_not_named(name@)));
        self.count_committed();
        Ok(
            RetiredRef {
                name: name.to_string(),
                oid,
                kind,
                agent_id: agent_id.to_string(),
                ts_ms,
            },
        )
    }

    /// End a session. Staged edits are work, so they go only where the caller chose so.
    pub fn abandon_session(&mut self, ns_id: &str, discard_staged: bool) -> (r: Result<
        AbandonedSession,
        Error,
    >)
        ensures
            final(self).counters == txn_after(old(self).counters, true, r is Ok),
            ({
                let rows = old(self).rows();
                let staged = rows.overlay.filter(staged_by(ns_id@)).len();
                match abandon_session_refusal(
                    some_row(rows.namespaces, ns_named(ns_id@)),
                    staged,
                    discard_staged,
                    ns_id@,
                ) {
                    Some(why) => final(self).rows() == rows && (r matches Err(e) && refuses(e, why)),
                    None => final(self).rows() == without_session(rows, ns_id@) && (r matches Ok(x)
                        && x.ns_id@ == ns_id@ && x.discarded_overlay == staged && x.removed_mounts
                        == rows.mounts.len() - final(self).rows().mounts.len()
                        && x.removed_observations == rows.observations.len()
                        - final(self).rows().observations.len()),
                }
            }),
    {
        let ghost rows = self.rows();
        self.count_begun(true);
        let there = self.tables.ns_place(ns_id).is_some();
        let of_session = |x: &OverlayRecord| -> (b: bool)
            ensures
                b == (x.ns_id@ == ns_id@),
            {
                text_eq(x.ns_id.as_str(), ns_id)
            };
        let found = pick_rows(&self.tables.overlay, of_session, Ghost(staged_by(ns_id@)));
        let staged = found.len();
        assert(staged == rows.overlay.filter(staged_by(ns_id@)).len()) by {
            assert(picked(rows.overlay, found@).len() == found@.len());
        }
        decide_abandon_session(there, staged, discard_staged, ns_id)?;
        let mount_stays = |x: &MountRecord| -> (b: bool)
            ensures
                b == (x.ns_id@ != ns_id@),
            {
                !text_eq(x.ns_id.as_str(), ns_id)
            };
        let mounts = drop_rows(&mut self.tables.mounts, mount_stays, Ghost(not_mounted_by(ns_id@)));
        let observations = self.tables.clear_observations(ns_id);
        let staged_stays = |x: &OverlayRecord| -> (b: bool)
            ensures
                b == (x.ns_id@ != ns_id@),
            {
                !text_eq(x.ns_id.as_str(), ns_id)
            };
        drop_rows(&mut self.tables.overlay, staged_stays, Ghost(not_staged_by(ns_id@)));
        let ns_stays = |x: &NsRecord| -> (b: bool)
            ensures
                b == (x.id@ != ns_id@),
            {
                !text_eq(x.id.as_str(), ns_id)
            };
        drop_rows(&mut self.tables.namespaces, ns_stays, Ghost(ns_not_named(ns_id@)));
        self.count_committed();
        Ok(
            AbandonedSession {
                ns_id: ns_id.to_string(),
                discarded_overlay: staged,
                removed_mounts: mounts,
                removed_observations: observations,
            },
        )
    }
}

pub open spec fn landmark_of(oid: ObjectId) -> spec_fn(LandmarkLine) -> bool {
    |l: LandmarkLine| l.oid == oid@
}

/// The landmarks with one more, unless the object is one.
pub open spec fn with_landmark(
    rows: Seq<LandmarkLine>,
    oid: ObjectId,
    kind: Seq<char>,
    reason: Seq<char>,
    ts_ms: i64,
) -> Seq<LandmarkLine> {
    if some_row(rows, landmark_of(oid)) {
        rows
    } else {
        rows.push(LandmarkLine { oid: oid@, kind, reason, ts_ms })
    }
}

pub open spec fn seal_tagged(tag: Seq<char>) -> spec_fn(SealLine) -> bool {
    |l: SealLine| l.tag == tag
}

pub open spec fn seal_of(snap: ObjectId) -> spec_fn(SealLine) -> bool {
    |l: SealLine| l.snap_oid == snap@
}

/// Why a seal cannot be made. A tag that is there is sealed.
pub open spec fn seal_refusal(rows: Rows, tag: Seq<char>, snap: ObjectId) -> Option<Refusal> {
    let tag_ref = "tags/"@ + tag;
    if !ref_kind_ok(tag_ref, "snapshot"@) {
        Some(Refusal::Invalid(bad_ref(tag_ref, "snapshot"@)))
    } else if find_ref(rows.refs, tag_ref) is Some {
        Some(Refusal::Sealed(tag_ref))
    } else {
        match ref_row_refusal(rows, tag_ref, "snapshot"@) {
            Some(why) => Some(why),
            None => if some_row(rows.seals, seal_tagged(tag)) {
                Some(Refusal::Invalid(unique_text("seals.tag"@)))
            } else if some_row(rows.seals, seal_of(snap)) {
                Some(Refusal::Invalid(unique_text("seals.snap_oid"@)))
            } else {
                None
            },
        }
    }
}

/// The rows with a seal: its tag, its row, and its landmarks.
pub open spec fn with_seal(
    rows: Rows,
    tag: Seq<char>,
    snap: ObjectId,
    commit: ObjectId,
    tree: ObjectId,
    agent_id: Seq<char>,
    ts_ms: i64,
) -> Rows {
    Rows {
        seals: rows.seals.push(
            SealLine { tag, snap_oid: snap@, commit_oid: commit@, tree_oid: tree@, ts_ms },
        ),
        landmarks: with_landmark(
            with_landmark(rows.landmarks, snap, "snapshot"@, "seal"@, ts_ms),
            commit,
            "commit"@,
            "seal"@,
            ts_ms,
        ),
        ..with_new_ref(
            rows,
            "tags/"@ + tag,
            snap,
            "snapshot"@,
            true,
            true,
            agent_id,
            "seal"@,
            ts_ms,
        )
    }
}

impl Tables {
    fn push_landmark(&mut self, oid: &ObjectId, kind: &str, reason: &str, ts_ms: i64)
        ensures
            final(self)@ == (Rows {
                landmarks: with_landmark(old(self)@.landmarks, *oid, kind@, reason@, ts_ms),
                ..old(self)@
            }),
    {
        let fits = |x: &LandmarkRecord| -> (b: bool)
            ensures
                b == (x.oid@ == oid@),
            {
                bytes_eq(x.oid.as_slice(), oid.as_bytes().as_slice())
            };
        let found = find_row(&self.landmarks, fits, Ghost(landmark_of(*oid)));
        if found.is_none() {
            self.landmarks.push(
                LandmarkRecord {
                    oid: text_bytes(oid),
                    kind: kind.to_string(),
                    reason: reason.to_string(),
                    ts_ms,
                },
            );
        }
        assert(self@.landmarks =~= with_landmark(
            old(self)@.landmarks,
            *oid,
            kind@,
            reason@,
            ts_ms,
        ));
    }
}

impl Meta {
    /// Make an object a landmark, unless it is one.
    pub fn landmark(&mut self, oid: ObjectId, kind: &str, reason: &str, ts_ms: i64)
        ensures
            final(self).counters == autocommit_after(old(self).counters, true),
            final(self).rows() == (Rows {
                landmarks: with_landmark(
                    old(self).rows().landmarks,
                    oid,
                    kind@,
                    reason@,
                    ts_ms,
                ),
                ..old(self).rows()
            }),
    {
        self.count_locked();
        self.tables.push_landmark(&oid, kind, reason, ts_ms);
        self.count_committed();
    }

    /// Publish a sealed tag: its ref, its seal and its landmarks, all or nothing.
    pub fn commit_seal(
        &mut self,
        tag: &str,
        snap: ObjectId,
        commit: ObjectId,
        tree: ObjectId,
        agent_id: &str,
        ts_ms: i64,
    ) -> (r: Result<(), Error>)
        ensures
            final(self).counters == txn_after(old(self).counters, true, r is Ok),
            match seal_refusal(old(self).rows(), tag@, snap) {
                Some(why) => final(self).rows() == old(self).rows() && (r matches Err(e)
                    && refuses(e, why)),
                None => r is Ok && final(self).rows() == with_seal(
                    old(self).rows(),
                    tag@,
                    snap,
                    commit,
                    tree,
                    agent_id@,
                    ts_ms,
                ),
            },
    {
        let ghost rows = self.rows();
        self.count_begun(true);
        let tag_ref = cat2("tags/", tag);
        validate_ref_kind(tag_ref.as_str(), "snapshot")?;
        if self.tables.ref_place(tag_ref.as_str()).is_some() {
            return Err(Error::Sealed(tag_ref));
        }
        let id = self.tables.check_ref_row(tag_ref.as_str(), "snapshot")?;
        let tagged = |x: &SealRecord| -> (b: bool)
            ensures
                b == (x.tag@ == tag@),
            {
                text_eq(x.tag.as_str(), tag)
            };
        if find_row(&self.tables.seals, tagged, Ghost(seal_tagged(tag@))).is_some() {
            return Err(Error::Invalid(cat2("UNIQUE constraint failed: ", "seals.tag")));
        }
        let of_snap = |x: &SealRecord| -> (b: bool)
            ensures
                b == (x.snap_oid@ == snap@),
            {
                bytes_eq(x.snap_oid.as_slice(), snap.as_bytes().as_slice())
            };
        if find_row(&self.tables.seals, of_snap, Ghost(seal_of(snap))).is_some() {
            return Err(Error::Invalid(cat2("UNIQUE constraint failed: ", "seals.snap_oid")));
        }
        self.tables.push_ref(tag_ref.as_str(), &snap, "snapshot", true, true, ts_ms);
        self.tables.push_log(id, tag_ref.as_str(), None, &snap, agent_id, "seal", ts_ms);
        self.tables.seals.push(
            SealRecord {
                tag: tag.to_string(),
                snap_oid: text_bytes(&snap),
                commit_oid: text_bytes(&commit),
                tree_oid: text_bytes(&tree),
                ts_ms,
            },
        );
        assert(self.rows().seals =~= with_seal(
            rows,
            tag@,
            snap,
            commit,
            tree,
            agent_id@,
            ts_ms,
        ).seals);
        self.tables.push_landmark(&snap, "snapshot", "seal", ts_ms);
        self.tables.push_landmark(&commit, "commit", "seal", ts_ms);
        self.count_committed();
        Ok(())
    }

    /// Publish a sealed tag in the name of the seal itself.
    pub fn insert_seal(
        &mut self,
        tag: &str,
        snap: ObjectId,
        commit: ObjectId,
        tree: ObjectId,
        ts_ms: i64,
    ) -> (r: Result<(), Error>)
        ensures
            final(self).counters == txn_after(old(self).counters, true, r is Ok),
            match seal_refusal(old(self).rows(), tag@, snap) {
                Some(why) => final(self).rows() == old(self).rows() && (r matches Err(e)
                    && refuses(e, why)),
                None => r is Ok && final(self).rows() == with_seal(
                    old(self).rows(),
                    tag@,
                    snap,
                    commit,
                    tree,
                    "seal"@,
                    ts_ms,
                ),
            },
    {
        self.commit_seal(tag, snap, commit, tree, "seal", ts_ms)
    }

    /// The snapshot, the commit and the tree of a sealed tag.
    pub fn get_seal(&self, tag: &str) -> (r: Result<Option<(ObjectId, ObjectId, ObjectId)>, Error>)
        ensures
            ({
                let rows = self.rows().seals;
                let i = place(rows, seal_tagged(tag@));
                if i < 0 {
                    r matches Ok(None)
                } else if rows[i].snap_oid.len() == 32 && rows[i].commit_oid.len() == 32
                    && rows[i].tree_oid.len() == 32 {
                    r matches Ok(Some(x)) && x.0@ == rows[i].snap_oid && x.1@ == rows[i].commit_oid
                        && x.2@ == rows[i].tree_oid
                } else {
                    r matches Err(e) && refuses(e, Refusal::Corrupt("oid blob length"@))
                }
            }),
    {
        let tagged = |x: &SealRecord| -> (b: bool)
            ensures
                b == (x.tag@ == tag@),
            {
                text_eq(x.tag.as_str(), tag)
            };
        let i = match find_row(&self.tables.seals, tagged, Ghost(seal_tagged(tag@))) {
            Some(i) => i,
            None => return Ok(None),
        };
        let x = &self.tables.seals[i];
        assert(self.rows().seals[i as int] == x@);
        let snap = oid_from_blob(x.snap_oid.as_slice())?;
        let commit = oid_from_blob(x.commit_oid.as_slice())?;
        let tree = oid_from_blob(x.tree_oid.as_slice())?;
        Ok(Some((snap, commit, tree)))
    }
}

/// What a row of a ref says.
pub open spec fn ref_value(l: RefLine) -> RefFact {
    RefFact {
        name: l.name,
        oid: object_id(l.oid),
        kind: l.kind,
        protected: l.protected != 0,
        sealed: l.sealed != 0,
    }
}

pub open spec fn ref_values(rows: Seq<RefLine>) -> Seq<RefFact> {
    Seq::new(rows.len(), |i: int| ref_value(rows[i]))
}

/// The refs hold object ids.
pub open spec fn refs_hold_oids(rows: Seq<RefLine>) -> bool {
    forall|i: int| 0 <= i < rows.len() ==> (#[trigger] rows[i]).oid.len() == 32
}

impl View for NsRow {
    type V = NsValue;

    open spec fn view(&self) -> NsValue {
        ns_row_value(*self)
    }
}

impl Sortable for NsRow {
    open spec fn le(self, other: Self) -> bool {
        text_le(self.id@, other.id@)
    }

    proof fn le_total(a: Self, b: Self) {
        lemma_text_le(a.id@, b.id@, a.id@);
    }

    proof fn le_transitive(a: Self, b: Self, c: Self) {
        lemma_text_le(a.id@, b.id@, c.id@);
    }

    fn strictly_before(&self, other: &Self) -> bool {
        text_lt(self.id.as_str(), other.id.as_str())
    }
}

/// What the rows of sessions say.
pub open spec fn ns_values(rows: Seq<NsLine>) -> Seq<NsValue> {
    Seq::new(rows.len(), |i: int| ns_row_of(rows[i])->0)
}

pub open spec fn ns_readable(rows: Seq<NsLine>) -> bool {
    forall|i: int| 0 <= i < rows.len() ==> ns_row_of(#[trigger] rows[i]) is Some
}

impl Sortable for (ObjectId, String) {
    open spec fn le(self, other: Self) -> bool {
        !lex_lt(other.0@, self.0@)
    }

    proof fn le_total(a: Self, b: Self) {
        if lex_lt(b.0@, a.0@) {
            lemma_lex_antisymmetric(b.0@, a.0@);
        }
    }

    proof fn le_transitive(a: Self, b: Self, c: Self) {
        if lex_lt(c.0@, a.0@) {
            lemma_lex_total(a.0@, b.0@);
            lemma_lex_total(b.0@, c.0@);
            if lex_lt(a.0@, b.0@) {
                lemma_lex_transitive(c.0@, a.0@, b.0@);
            }
        }
    }

    fn strictly_before(&self, other: &Self) -> bool {
        bytes_lt(self.0.as_bytes().as_slice(), other.0.as_bytes().as_slice())
    }
}

/// The objects and kinds of landmarks.
pub open spec fn landmark_values(rows: Seq<LandmarkLine>) -> Seq<(Seq<u8>, Seq<char>)> {
    Seq::new(rows.len(), |i: int| (rows[i].oid, rows[i].kind))
}

pub open spec fn landmarks_hold_oids(rows: Seq<LandmarkLine>) -> bool {
    forall|i: int| 0 <= i < rows.len() ==> (#[trigger] rows[i]).oid.len() == 32
}

impl Sortable for (String, ObjectId, ObjectId, ObjectId) {
    open spec fn le(self, other: Self) -> bool {
        text_le(self.0@, other.0@)
    }

    proof fn le_total(a: Self, b: Self) {
        lemma_text_le(a.0@, b.0@, a.0@);
    }

    proof fn le_transitive(a: Self, b: Self, c: Self) {
        lemma_text_le(a.0@, b.0@, c.0@);
    }

    fn strictly_before(&self, other: &Self) -> bool {
        text_lt(self.0.as_str(), other.0.as_str())
    }
}

/// The tags and objects of seals.
pub open spec fn seal_values(rows: Seq<SealLine>) -> Seq<(Seq<char>, Seq<u8>, Seq<u8>, Seq<u8>)> {
    Seq::new(
        rows.len(),
        |i: int| (rows[i].tag, rows[i].snap_oid, rows[i].commit_oid, rows[i].tree_oid),
    )
}

pub open spec fn seal_holds_oids(l: SealLine) -> bool {
    l.snap_oid.len() == 32 && l.commit_oid.len() == 32 && l.tree_oid.len() == 32
}

pub open spec fn seals_hold_oids(rows: Seq<SealLine>) -> bool {
    forall|i: int| 0 <= i < rows.len() ==> seal_holds_oids(#[trigger] rows[i])
}

/// An entry of the log as it is handed out.
pub ghost struct LogValue {
    pub old_oid: Option<ObjectId>,
    pub new_oid: ObjectId,
    pub agent_id: Seq<char>,
    pub reason: Seq<char>,
}

pub open spec fn log_value(l: LogLine) -> LogValue {
    LogValue {
        old_oid: match l.old_oid {
            Some(b) => Some(object_id(b)),
            None => None,
        },
        new_oid: object_id(l.new_oid),
        agent_id: l.agent_id,
        reason: l.reason,
    }
}

pub open spec fn log_holds_oids(l: LogLine) -> bool {
    l.new_oid.len() == 32 && (l.old_oid matches Some(b) ==> b.len() == 32)
}

/// The last entries of a name in the log, the latest first.
pub open spec fn latest(log: Seq<LogLine>, name: Seq<char>, limit: nat) -> Seq<LogLine> {
    let of_name = log.filter(log_named(name));
    let n = if limit < of_name.len() {
        limit
    } else {
        of_name.len()
    };
    Seq::new(n, |i: int| of_name[of_name.len() - 1 - i])
}

impl Meta {
    /// All refs, by their names.
    pub fn list_refs(&self) -> (r: Result<Vec<RefRow>, Error>)
        ensures
            match r {
                Ok(v) => refs_hold_oids(self.rows().refs) && sorted_from(
                    ref_values(self.rows().refs),
                    v@,
                ),
                Err(e) => !refs_hold_oids(self.rows().refs) && refuses(
                    e,
                    Refusal::Corrupt("oid blob length"@),
                ),
            },
    {
        let ghost rows = self.rows().refs;
        let mut out: Vec<RefRow> = Vec::new();
        let mut i: usize = 0;
        while i < self.tables.refs.len()
            invariant
                i <= self.tables.refs@.len(),
                rows == self.rows().refs,
                out@.len() == i,
                forall|k: int|
                    0 <= k < i ==> (#[trigger] rows[k]).oid.len() == 32 && out@[k]@ == ref_value(
                        rows[k],
                    ),
            decreases self.tables.refs@.len() - i,
        {
            let x = &self.tables.refs[i];
            assert(rows[i as int] == x@);
            let oid = oid_from_blob(x.oid.as_slice())?;
            proof {
                lemma_object_id(oid);
            }
            out.push(
                RefRow {
                    name: x.name.clone(),
                    oid,
                    kind: x.kind.clone(),
                    protected: x.protected != 0,
                    sealed: x.sealed != 0,
                },
            );
            i += 1;
        }
        proof {
            assert forall|k: int| 0 <= k < rows.len() implies lines(out@)[k] == ref_values(
                rows,
            )[k] by {
                assert(rows[k].oid.len() == 32);
            }
            assert(lines(out@) =~= ref_values(rows));
        }
        Ok(sort_rows(out))
    }

    /// All sessions, by their names.
    pub fn list_namespaces(&self) -> (r: Result<Vec<NsRow>, Error>)
        ensures
            match r {
                Ok(v) => ns_readable(self.rows().namespaces) && sorted_from(
                    ns_values(self.rows().namespaces),
                    v@,
                ),
                Err(e) => !ns_readable(self.rows().namespaces) && refuses(
                    e,
                    Refusal::Corrupt("oid blob length"@),
                ),
            },
    {
        let ghost rows = self.rows().namespaces;
        let mut out: Vec<NsRow> = Vec::new();
        let mut i: usize = 0;
        while i < self.tables.namespaces.len()
            invariant
                i <= self.tables.namespaces@.len(),
                rows == self.rows().namespaces,
                out@.len() == i,
                forall|k: int|
                    0 <= k < i ==> ns_row_of(#[trigger] rows[k]) == Some(ns_row_value(out@[k])),
            decreases self.tables.namespaces@.len() - i,
        {
            let x = &self.tables.namespaces[i];
            assert(rows[i as int] == x@);
            let row = read_ns(x)?;
            out.push(row);
            i += 1;
        }
        proof {
            assert forall|k: int| 0 <= k < rows.len() implies lines(out@)[k] == ns_values(
                rows,
            )[k] by {
                assert(ns_row_of(rows[k]) == Some(ns_row_value(out@[k])));
            }
            assert(lines(out@) =~= ns_values(rows));
        }
        Ok(sort_rows(out))
    }

    /// All landmarks with their kinds, by their objects.
    pub fn list_landmarks(&self) -> (r: Result<Vec<(ObjectId, String)>, Error>)
        ensures
            match r {
                Ok(v) => landmarks_hold_oids(self.rows().landmarks) && sorted_from(
                    landmark_values(self.rows().landmarks),
                    v@,
                ),
                Err(e) => !landmarks_hold_oids(self.rows().landmarks) && refuses(
                    e,
                    Refusal::Corrupt("oid blob length"@),
                ),
            },
    {
        let ghost rows = self.rows().landmarks;
        let mut out: Vec<(ObjectId, String)> = Vec::new();
        let mut i: usize = 0;
        while i < self.tables.landmarks.len()
            invariant
                i <= self.tables.landmarks@.len(),
                rows == self.rows().landmarks,
                out@.len() == i,
                forall|k: int|
                    0 <= k < i ==> (#[trigger] rows[k]).oid.len() == 32 && out@[k].0@
                        == rows[k].oid && out@[k].1@ == rows[k].kind,
            decreases self.tables.landmarks@.len() - i,
        {
            let x = &self.tables.landmarks[i];
            assert(rows[i as int] == x@);
            let oid = oid_from_blob(x.oid.as_slice())?;
            out.push((oid, x.kind.clone()));
            i += 1;
        }
        proof {
            assert forall|k: int| 0 <= k < rows.len() implies lines(out@)[k] == landmark_values(
                rows,
            )[k] by {
                assert(rows[k].oid.len() == 32);
            }
            assert(lines(out@) =~= landmark_values(rows));
        }
        Ok(sort_rows(out))
    }

    /// All sealed tags with their three objects, by the tags.
    pub fn list_seals(&self) -> (r: Result<Vec<(String, ObjectId, ObjectId, ObjectId)>, Error>)
        ensures
            match r {
                Ok(v) => seals_hold_oids(self.rows().seals) && sorted_from(
                    seal_values(self.rows().seals),
                    v@,
                ),
                Err(e) => !seals_hold_oids(self.rows().seals) && refuses(
                    e,
                    Refusal::Corrupt("oid blob length"@),
                ),
            },
    {
        let ghost rows = self.rows().seals;
        let mut out: Vec<(String, ObjectId, ObjectId, ObjectId)> = Vec::new();
        let mut i: usize = 0;
        while i < self.tables.seals.len()
            invariant
                i <= self.tables.seals@.len(),
                rows == self.rows().seals,
                out@.len() == i,
                forall|k: int|
                    0 <= k < i ==> seal_holds_oids(#[trigger] rows[k]) && out@[k].0@ == rows[k].tag
                        && out@[k].1@ == rows[k].snap_oid && out@[k].2@ == rows[k].commit_oid
                        && out@[k].3@ == rows[k].tree_oid,
            decreases self.tables.seals@.len() - i,
        {
            let x = &self.tables.seals[i];
            assert(rows[i as int] == x@);
            let snap = oid_from_blob(x.snap_oid.as_slice())?;
            let commit = oid_from_blob(x.commit_oid.as_slice())?;
            let tree = oid_from_blob(x.tree_oid.as_slice())?;
            out.push((x.tag.clone(), snap, commit, tree));
            i += 1;
        }
        proof {
            assert forall|k: int| 0 <= k < rows.len() implies lines(out@)[k] == seal_values(
                rows,
            )[k] by {
                assert(seal_holds_oids(rows[k]));
            }
            assert(lines(out@) =~= seal_values(rows));
        }
        Ok(sort_rows(out))
    }

    /// The last entries of a ref in the log, the latest first.
    pub fn reflog(&self, name: &str, limit: usize) -> (r: Result<
        Vec<(Option<ObjectId>, ObjectId, String, String)>,
        Error,
    >)
        ensures
            ({
                let rows = latest(self.rows().reflog, name@, limit as nat);
                match r {
                    Ok(v) => v@.len() == rows.len() && forall|i: int|
                        0 <= i < rows.len() ==> log_holds_oids(#[trigger] rows[i]) && (LogValue {
                            old_oid: v@[i].0,
                            new_oid: v@[i].1,
                            agent_id: v@[i].2@,
                            reason: v@[i].3@,
                        }) == log_value(rows[i]),
                    Err(e) => refuses(e, Refusal::Corrupt("oid blob length"@)) && exists|i: int|
                        0 <= i < rows.len() && !log_holds_oids(#[trigger] rows[i]),
                }
            }),
    {
        let ghost all = self.rows().reflog;
        let ghost of_name = all.filter(log_named(name@));
        let ghost rows = latest(all, name@, limit as nat);
        let fits = |x: &LogRecord| -> (b: bool)
            ensures
                b == (x.name@ == name@),
            {
                text_eq(x.name.as_str(), name)
            };
        let at = pick_rows(&self.tables.reflog, fits, Ghost(log_named(name@)));
        let n = if limit < at.len() {
            limit
        } else {
            at.len()
        };
        let mut out: Vec<(Option<ObjectId>, ObjectId, String, String)> = Vec::new();
        let mut i: usize = 0;
        while i < n
            invariant
                i <= n <= at@.len(),
                n == rows.len(),
                all == self.rows().reflog,
                of_name == all.filter(log_named(name@)),
                of_name == picked(all, at@),
                rows == latest(all, name@, limit as nat),
                forall|k: int|
                    0 <= k < at@.len() ==> (#[trigger] at@[k]) < self.tables.reflog@.len(),
                out@.len() == i,
                forall|k: int|
                    0 <= k < i ==> log_holds_oids(#[trigger] rows[k]) && (LogValue {
                        old_oid: out@[k].0,
                        new_oid: out@[k].1,
                        agent_id: out@[k].2@,
                        reason: out@[k].3@,
                    }) == log_value(rows[k]),
            decreases n - i,
        {
            let j: usize = at.len() - 1 - i;
            assert(at@[j as int] < self.tables.reflog@.len());
            let x = &self.tables.reflog[at[j]];
            assert(rows[i as int] == x@) by {
                assert(of_name[j as int] == x@);
            }
            let old_oid = match &x.old_oid {
                Some(b) => {
                    let id = oid_from_blob(b.as_slice())?;
                    proof {
                        lemma_object_id(id);
                    }
                    Some(id)
                },
                None => None,
            };
            let new_oid = oid_from_blob(x.new_oid.as_slice())?;
            proof {
                lemma_object_id(new_oid);
            }
            out.push((old_oid, new_oid, x.agent_id.clone(), x.reason.clone()));
            i += 1;
        }
        Ok(out)
    }
}

} // verus!
