//! The rules of the catalog: when a ref may be made, moved or retired, when a
//! session may end, and what its rows mean.
use crate::bytes::bytes_eq;
use crate::names::{
    bad_name, bad_ref, oid_from_blob, ref_kind_ok, ref_name_ok, validate_ref_kind,
    validate_ref_name,
};
use crate::paths::starts_with;
use crate::rows::Observed;
use crate::tables::{bytes_in, RefLine, RefRecord};
use crate::text::{
    cat2, cat3, cat5, cat6, chars_of, decimal, decimal_text, lemma_text_le, text_before, text_eq,
    text_lt, text_values,
};
use crate::types::{lemma_object_id, object_id, Error, ObjectId};
use vstd::prelude::*;

verus! {

/// The reason in the log that retires the name of a ref for good.
pub const REFLOG_ABANDON: &'static str = "abandon";

/// The only refs that may be retired. The name of a fork holds a ULID, so it never
/// comes up again; every other ref is published history, the head of a session, or
/// sealed.
pub const ABANDONABLE_PREFIX: &'static str = "forks/";

/// Why something is refused.
pub ghost enum Refusal {
    Denied(Seq<char>),
    NotFound(Seq<char>),
    Sealed(Seq<char>),
    Invalid(Seq<char>),
    Corrupt(Seq<char>),
    Sqlite(Seq<char>),
    Internal(Seq<char>),
}

/// An error says why.
pub open spec fn refuses(e: Error, why: Refusal) -> bool {
    match why {
        Refusal::Denied(s) => e matches Error::Denied(m) && m@ == s,
        Refusal::NotFound(s) => e matches Error::NotFound(m) && m@ == s,
        Refusal::Sealed(s) => e matches Error::Sealed(m) && m@ == s,
        Refusal::Invalid(s) => e matches Error::Invalid(m) && m@ == s,
        Refusal::Corrupt(s) => e matches Error::Corrupt(m) && m@ == s,
        Refusal::Sqlite(s) => e matches Error::Sqlite(m) && m@ == s,
        Refusal::Internal(s) => e matches Error::Internal(m) && m@ == s,
    }
}

/// What a request to move a ref comes to.
pub ghost enum CasOutcome {
    Refused(Refusal),
    /// The ref is new.
    Create,
    /// The ref is where it was expected.
    Advance,
    /// The ref is elsewhere: the request makes a fork.
    Fork(ObjectId),
}

/// What a request to move a ref comes to, in the code.
#[derive(Clone, Copy, Debug, PartialEq, Eq)]
pub enum CasStep {
    Create,
    Advance,
    Fork { theirs: ObjectId },
}

/// The decision was made as it had to be.
pub open spec fn decided(out: CasOutcome, r: Result<CasStep, Error>) -> bool {
    match out {
        CasOutcome::Refused(why) => r matches Err(e) && refuses(e, why),
        CasOutcome::Create => r matches Ok(s) && s == CasStep::Create,
        CasOutcome::Advance => r matches Ok(s) && s == CasStep::Advance,
        CasOutcome::Fork(id) => r matches Ok(s) && s == (CasStep::Fork { theirs: id }),
    }
}

/// How the name of a retired ref is refused.
pub open spec fn retired_text(name: Seq<char>) -> Seq<char> {
    "ref "@ + name + " was abandoned; the name is retired and cannot be recreated"@
}

/// Refuse to make a ref of a name that was retired.
pub fn deny_retired(name: &str, retired: bool) -> (r: Result<(), Error>)
    ensures
        match r {
            Ok(_) => !retired,
            Err(e) => retired && refuses(e, Refusal::Invalid(retired_text(name@))),
        },
{
    if retired {
        return Err(
            Error::Invalid(
                cat3("ref ", name, " was abandoned; the name is retired and cannot be recreated"),
            ),
        );
    }
    Ok(())
}

/// What a request to move a ref comes to, given its row and whether its name was
/// retired.
///
/// A tag never moves. The kind of a ref never changes, a sealed ref never moves, and
/// a protected one moves only for those who may. A ref that is not where it was
/// expected stays there, and the request makes a fork.
pub open spec fn cas_outcome(
    row: Option<RefLine>,
    retired: bool,
    name: Seq<char>,
    kind: Seq<char>,
    expected: ObjectId,
    allow_protected: bool,
) -> CasOutcome {
    if !ref_kind_ok(name, kind) {
        CasOutcome::Refused(Refusal::Invalid(bad_ref(name, kind)))
    } else if "tags/"@.is_prefix_of(name) {
        CasOutcome::Refused(Refusal::Denied("sealed tags cannot be updated through CAS"@))
    } else {
        match row {
            None => if retired {
                CasOutcome::Refused(Refusal::Invalid(retired_text(name)))
            } else {
                CasOutcome::Create
            },
            Some(l) => if l.kind != kind {
                CasOutcome::Refused(
                    Refusal::Invalid(
                        "ref "@ + name + " kind is immutable: "@ + l.kind + " != "@ + kind,
                    ),
                )
            } else if l.oid.len() != 32 {
                CasOutcome::Refused(Refusal::Corrupt("oid blob length"@))
            } else if l.sealed != 0 {
                CasOutcome::Refused(Refusal::Sealed(name))
            } else if l.protected != 0 && !allow_protected {
                CasOutcome::Refused(
                    Refusal::Denied(
                        "ref "@ + name + " is protected; only merge/seal may advance it"@,
                    ),
                )
            } else if l.oid == expected@ {
                CasOutcome::Advance
            } else {
                CasOutcome::Fork(object_id(l.oid))
            },
        }
    }
}

/// Decide on a request to move a ref.
pub fn decide_cas(
    row: Option<&RefRecord>,
    retired: bool,
    name: &str,
    kind: &str,
    expected: ObjectId,
    allow_protected: bool,
) -> (r: Result<CasStep, Error>)
    ensures
        decided(
            cas_outcome(
                match row {
                    Some(x) => Some(x@),
                    None => None,
                },
                retired,
                name@,
                kind@,
                expected,
                allow_protected,
            ),
            r,
        ),
{
    validate_ref_kind(name, kind)?;
    if starts_with(name, "tags/") {
        return Err(Error::Denied("sealed tags cannot be updated through CAS".to_string()));
    }
    let row = match row {
        Some(row) => row,
        None => {
            deny_retired(name, retired)?;
            return Ok(CasStep::Create);
        },
    };
    if !text_eq(row.kind.as_str(), kind) {
        return Err(
            Error::Invalid(
                cat6("ref ", name, " kind is immutable: ", row.kind.as_str(), " != ", kind),
            ),
        );
    }
    let current = oid_from_blob(row.oid.as_slice())?;
    proof {
        lemma_object_id(current);
    }
    if row.sealed != 0 {
        return Err(Error::Sealed(name.to_string()));
    }
    if row.protected != 0 && !allow_protected {
        return Err(
            Error::Denied(
                cat3("ref ", name, " is protected; only merge/seal may advance it"),
            ),
        );
    }
    if bytes_eq(row.oid.as_slice(), expected.as_bytes().as_slice()) {
        Ok(CasStep::Advance)
    } else {
        Ok(CasStep::Fork { theirs: current })
    }
}

/// What a checkin of a session comes to, given the row of its ref. It never makes
/// the ref, and never moves a protected one.
pub open spec fn session_outcome(
    row: Option<RefLine>,
    name: Seq<char>,
    expected: ObjectId,
) -> CasOutcome {
    if !ref_kind_ok(name, "commit"@) {
        CasOutcome::Refused(Refusal::Invalid(bad_ref(name, "commit"@)))
    } else {
        match row {
            None => CasOutcome::Refused(Refusal::NotFound("ref "@ + name)),
            Some(l) => if l.kind != "commit"@ {
                CasOutcome::Refused(
                    Refusal::Invalid("ref "@ + name + " is "@ + l.kind + ", not commit"@),
                )
            } else if l.sealed != 0 {
                CasOutcome::Refused(Refusal::Sealed(name))
            } else if l.protected != 0 {
                CasOutcome::Refused(
                    Refusal::Denied(
                        "ref "@ + name + " is protected; session checkin cannot advance it"@,
                    ),
                )
            } else if l.oid.len() != 32 {
                CasOutcome::Refused(Refusal::Corrupt("oid blob length"@))
            } else if l.oid == expected@ {
                CasOutcome::Advance
            } else {
                CasOutcome::Fork(object_id(l.oid))
            },
        }
    }
}

/// Decide on a checkin of a session.
pub fn decide_session(row: Option<&RefRecord>, name: &str, expected: ObjectId) -> (r: Result<
    CasStep,
    Error,
>)
    ensures
        decided(
            session_outcome(
                match row {
                    Some(x) => Some(x@),
                    None => None,
                },
                name@,
                expected,
            ),
            r,
        ),
{
    validate_ref_kind(name, "commit")?;
    let row = match row {
        Some(row) => row,
        None => return Err(Error::NotFound(cat2("ref ", name))),
    };
    if !text_eq(row.kind.as_str(), "commit") {
        return Err(
            Error::Invalid(cat5("ref ", name, " is ", row.kind.as_str(), ", not commit")),
        );
    }
    if row.sealed != 0 {
        return Err(Error::Sealed(name.to_string()));
    }
    if row.protected != 0 {
        return Err(
            Error::Denied(
                cat3("ref ", name, " is protected; session checkin cannot advance it"),
            ),
        );
    }
    let current = oid_from_blob(row.oid.as_slice())?;
    proof {
        lemma_object_id(current);
    }
    if bytes_eq(row.oid.as_slice(), expected.as_bytes().as_slice()) {
        Ok(CasStep::Advance)
    } else {
        Ok(CasStep::Fork { theirs: current })
    }
}

/// Why a ref may not be made, before the catalog is looked at: only a seal makes
/// tags.
pub open spec fn new_ref_refusal(name: Seq<char>, kind: Seq<char>) -> Option<Refusal> {
    if !ref_kind_ok(name, kind) {
        Some(Refusal::Invalid(bad_ref(name, kind)))
    } else if "tags/"@.is_prefix_of(name) {
        Some(Refusal::Denied("tags may only be created by seal"@))
    } else {
        None
    }
}

pub fn check_new_ref(name: &str, kind: &str) -> (r: Result<(), Error>)
    ensures
        match r {
            Ok(_) => new_ref_refusal(name@, kind@) is None,
            Err(e) => new_ref_refusal(name@, kind@) matches Some(why) && refuses(e, why),
        },
{
    validate_ref_kind(name, kind)?;
    if starts_with(name, "tags/") {
        return Err(Error::Denied("tags may only be created by seal".to_string()));
    }
    Ok(())
}

/// Why a ref may not be retired: it is no fork, it is not there, it is sealed or
/// protected, or a session still follows it or has it mounted.
pub open spec fn abandon_refusal(
    row: Option<RefLine>,
    retired: bool,
    live: bool,
    mounted: bool,
    name: Seq<char>,
) -> Option<Refusal> {
    if !ref_name_ok(name) {
        Some(Refusal::Invalid(bad_name(name)))
    } else if !"forks/"@.is_prefix_of(name) {
        Some(Refusal::Invalid("only forks/* refs may be abandoned, not "@ + name))
    } else {
        match row {
            None => if retired {
                Some(Refusal::Invalid("ref "@ + name + " is already abandoned"@))
            } else {
                Some(Refusal::NotFound("ref "@ + name))
            },
            Some(l) => if l.sealed != 0 {
                Some(Refusal::Sealed(name))
            } else if l.protected != 0 {
                Some(Refusal::Denied("ref "@ + name + " is protected"@))
            } else if l.oid.len() != 32 {
                Some(Refusal::Corrupt("oid blob length"@))
            } else if live {
                Some(Refusal::Invalid("ref "@ + name + " is the live head of an open session"@))
            } else if mounted {
                Some(Refusal::Invalid("ref "@ + name + " is still mounted by an open session"@))
            } else {
                None
            },
        }
    }
}

/// Decide whether a ref may be retired, and from which object.
pub fn decide_abandon(
    row: Option<&RefRecord>,
    retired: bool,
    live: bool,
    mounted: bool,
    name: &str,
) -> (r: Result<ObjectId, Error>)
    ensures
        ({
            let line = match row {
                Some(x) => Some(x@),
                None => None,
            };
            match abandon_refusal(line, retired, live, mounted, name@) {
                Some(why) => r matches Err(e) && refuses(e, why),
                None => r matches Ok(id) && line matches Some(l) && id@ == l.oid,
            }
        }),
{
    validate_ref_name(name)?;
    if !starts_with(name, "forks/") {
        return Err(Error::Invalid(cat2("only forks/* refs may be abandoned, not ", name)));
    }
    let row = match row {
        Some(row) => row,
        None => {
            if retired {
                return Err(Error::Invalid(cat3("ref ", name, " is already abandoned")));
            }
            return Err(Error::NotFound(cat2("ref ", name)));
        },
    };
    if row.sealed != 0 {
        return Err(Error::Sealed(name.to_string()));
    }
    if row.protected != 0 {
        return Err(Error::Denied(cat3("ref ", name, " is protected")));
    }
    let oid = oid_from_blob(row.oid.as_slice())?;
    if live {
        return Err(Error::Invalid(cat3("ref ", name, " is the live head of an open session")));
    }
    if mounted {
        return Err(Error::Invalid(cat3("ref ", name, " is still mounted by an open session")));
    }
    Ok(oid)
}

/// Why a session may not end: it is not there, or it holds staged work that the
/// caller has not chosen to discard.
pub open spec fn abandon_session_refusal(
    exists_: bool,
    staged: nat,
    discard_staged: bool,
    ns_id: Seq<char>,
) -> Option<Refusal> {
    if !exists_ {
        Some(Refusal::NotFound("namespace "@ + ns_id))
    } else if staged != 0 && !discard_staged {
        Some(
            Refusal::Invalid(
                "session "@ + ns_id + " has "@ + decimal(staged)
                    + " staged overlay entries; check in first or abandon with the explicit discard flag"@,
            ),
        )
    } else {
        None
    }
}

pub fn decide_abandon_session(
    exists_: bool,
    staged: usize,
    discard_staged: bool,
    ns_id: &str,
) -> (r: Result<(), Error>)
    ensures
        match abandon_session_refusal(exists_, staged as nat, discard_staged, ns_id@) {
            Some(why) => r matches Err(e) && refuses(e, why),
            None => r is Ok,
        },
{
    if !exists_ {
        return Err(Error::NotFound(cat2("namespace ", ns_id)));
    }
    if staged != 0 && !discard_staged {
        return Err(
            Error::Invalid(
                cat5(
                    "session ",
                    ns_id,
                    " has ",
                    decimal_text(staged as u64).as_str(),
                    " staged overlay entries; check in first or abandon with the explicit discard flag",
                ),
            ),
        );
    }
    Ok(())
}

/// A path lies below another.
pub open spec fn lies_below(deep: Seq<char>, path: Seq<char>) -> bool {
    path.len() < deep.len() && path.is_prefix_of(deep) && deep[path.len() as int] == '/'
}

/// Two staged paths that no tree can have both: one lies below the other.
pub open spec fn overlap(a: Seq<char>, b: Seq<char>) -> bool {
    lies_below(a, b) || lies_below(b, a)
}

/// The least of the staged paths that a path cannot stand beside.
pub open spec fn least_overlap(staged: Seq<Seq<char>>, path: Seq<char>, found: Seq<char>) -> bool {
    &&& staged.contains(found)
    &&& overlap(found, path)
    &&& forall|p: Seq<char>| #[trigger]
        staged.contains(p) && overlap(p, path) ==> !text_before(p, found)
}

fn is_below(deep: &str, path: &str) -> (r: bool)
    ensures
        r == lies_below(deep@, path@),
{
    let d = chars_of(deep);
    let p = chars_of(path);
    if p.len() >= d.len() || d[p.len()] != '/' {
        return false;
    }
    starts_with(deep, path)
}

/// Check that a path can be staged beside those that are: together they have to
/// describe one tree. A path that is staged already may be staged again.
pub fn check_overlay(staged: &Vec<String>, path: &str) -> (r: Result<(), Error>)
    ensures
        match r {
            Ok(_) => forall|p: Seq<char>| #[trigger]
                text_values(staged@).contains(p) ==> !overlap(p, path@),
            Err(e) => exists|found: Seq<char>| #[trigger]
                least_overlap(text_values(staged@), path@, found) && refuses(
                    e,
                    Refusal::Invalid(
                        "overlay path conflict: "@ + path@ + " and "@ + found
                            + " cannot coexist"@,
                    ),
                ),
        },
{
    let ghost all = text_values(staged@);
    let mut least: Option<usize> = None;
    let mut i: usize = 0;
    while i < staged.len()
        invariant
            i <= staged@.len(),
            all == text_values(staged@),
            match least {
                Some(k) => {
                    &&& k < i
                    &&& overlap(all[k as int], path@)
                    &&& forall|j: int|
                        0 <= j < i && overlap(#[trigger] all[j], path@) ==> !text_before(
                            all[j],
                            all[k as int],
                        )
                },
                None => forall|j: int| 0 <= j < i ==> !overlap(#[trigger] all[j], path@),
            },
        decreases staged@.len() - i,
    {
        let p = staged[i].as_str();
        assert(all[i as int] == p@);
        if is_below(p, path) || is_below(path, p) {
            match least {
                None => {
                    proof {
                        lemma_text_le(p@, p@, p@);
                    }
                    least = Some(i);
                },
                Some(k) => {
                    if text_lt(p, staged[k].as_str()) {
                        proof {
                            lemma_text_le(p@, p@, p@);
                            assert forall|j: int|
                                0 <= j < i + 1 && overlap(
                                    #[trigger] all[j],
                                    path@,
                                ) implies !text_before(all[j], p@) by {
                                lemma_text_le(p@, all[k as int], all[j]);
                            }
                        }
                        least = Some(i);
                    }
                },
            }
        }
        i += 1;
    }
    match least {
        Some(k) => {
            let found = staged[k].as_str();
            proof {
                assert(all[k as int] == found@);
                assert forall|p: Seq<char>| #[trigger]
                    all.contains(p) && overlap(p, path@) implies !text_before(p, found@) by {
                    let j = choose|j: int| 0 <= j < all.len() && all[j] == p;
                    assert(overlap(all[j], path@));
                }
                assert(least_overlap(all, path@, found@));
            }
            Err(
                Error::Invalid(
                    cat5("overlay path conflict: ", path, " and ", found, " cannot coexist"),
                ),
            )
        },
        None => {
            proof {
                assert forall|p: Seq<char>| #[trigger] all.contains(p) implies !overlap(
                    p,
                    path@,
                ) by {
                    let j = choose|j: int| 0 <= j < all.len() && all[j] == p;
                    assert(!overlap(all[j], path@));
                }
            }
            Ok(())
        },
    }
}

/// What a stored observation says, or why it says nothing. An unknown kind is not
/// taken for nothing seen.
pub open spec fn observation_of(
    mount: Seq<char>,
    path: Seq<char>,
    kind: Seq<char>,
    oid: Option<Seq<u8>>,
) -> Result<Observed, Refusal> {
    if kind == "blob"@ && oid is Some {
        if oid->0.len() == 32 {
            Ok(Observed::Blob(object_id(oid->0)))
        } else {
            Err(Refusal::Corrupt("oid blob length"@))
        }
    } else if kind == "tree"@ && oid is Some {
        if oid->0.len() == 32 {
            Ok(Observed::Tree(object_id(oid->0)))
        } else {
            Err(Refusal::Corrupt("oid blob length"@))
        }
    } else if kind == "absent"@ && oid is None {
        Ok(Observed::Absent)
    } else {
        Err(
            Refusal::Invalid(
                "observation "@ + mount + ":"@ + path + " has unusable kind "@ + kind,
            ),
        )
    }
}

pub fn decode_observation(mount: &str, path: &str, kind: &str, oid: &Option<Vec<u8>>) -> (r: Result<
    Observed,
    Error,
>)
    ensures
        match observation_of(mount@, path@, kind@, bytes_in(*oid)) {
            Ok(seen) => r matches Ok(x) && x == seen,
            Err(why) => r matches Err(e) && refuses(e, why),
        },
{
    if let Some(b) = oid {
        if text_eq(kind, "blob") {
            let id = oid_from_blob(b.as_slice())?;
            proof {
                lemma_object_id(id);
            }
            return Ok(Observed::Blob(id));
        }
        if text_eq(kind, "tree") {
            let id = oid_from_blob(b.as_slice())?;
            proof {
                lemma_object_id(id);
            }
            return Ok(Observed::Tree(id));
        }
    } else if text_eq(kind, "absent") {
        return Ok(Observed::Absent);
    }
    Err(
        Error::Invalid(
            cat6("observation ", mount, ":", path, " has unusable kind ", kind),
        ),
    )
}

/// What an observation is stored as: its kind, and the object that it names.
pub open spec fn stored_as(seen: Observed) -> (Seq<char>, Option<Seq<u8>>) {
    (
        seen.kind_name(),
        match seen.object() {
            Some(id) => Some(id@),
            None => None,
        },
    )
}

/// Whether the stored observation is already what was seen, so that writing it again
/// would change nothing.
pub fn observation_is_current(stored: Option<(&str, &Option<Vec<u8>>)>, seen: Observed) -> (r: bool)
    ensures
        r == (match stored {
            Some((kind, oid)) => (kind@, bytes_in(*oid)) == stored_as(seen),
            None => false,
        }),
{
    let (kind, oid) = match stored {
        Some(x) => x,
        None => return false,
    };
    if !text_eq(kind, seen.kind()) {
        return false;
    }
    match (oid, seen.oid()) {
        (Some(b), Some(id)) => bytes_eq(b.as_slice(), id.as_bytes().as_slice()),
        (None, None) => true,
        _ => false,
    }
}

/// What is stored of an observation is read back as it was.
pub proof fn lemma_observation_roundtrip(mount: Seq<char>, path: Seq<char>, seen: Observed)
    ensures
        observation_of(mount, path, stored_as(seen).0, stored_as(seen).1) == Ok::<
            Observed,
            Refusal,
        >(seen),
{
    reveal_strlit("blob");
    reveal_strlit("tree");
    reveal_strlit("absent");
    assert("blob"@[0] != "tree"@[0]);
    assert("absent"@[0] != "blob"@[0]);
    assert("absent"@[0] != "tree"@[0]);
    match seen {
        Observed::Blob(id) => {
            lemma_object_id(id);
        },
        Observed::Tree(id) => {
            lemma_object_id(id);
        },
        Observed::Absent => {},
    }
}

} // verus!
