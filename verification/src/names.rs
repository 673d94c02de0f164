//! Names of refs and agents, and what each namespace of refs may hold.
use crate::paths::{split_parts, split_slashes, starts_with, texts};
use crate::text::{byte_len, chars_of, debug_text, quoted, text_eq, text_of};
use crate::types::{corrupt, Error, ObjectId, ObjectType};
use vstd::prelude::*;
use vstd::slice::slice_subrange;
use vstd::utf8::encode_utf8;

verus! {

/// A control character.
pub open spec fn is_control(c: char) -> bool {
    c <= '\u{1f}' || '\u{7f}' <= c <= '\u{9f}'
}

/// A character that no ref name holds.
pub open spec fn bad_ref_char(c: char) -> bool {
    is_control(c) || c == '\\' || c == ':'
}

/// A part of a path that no ref name holds.
pub open spec fn bad_ref_part(p: Seq<char>) -> bool {
    p.len() == 0 || p == "."@ || p == ".."@
}

/// The grammar of ref names: up to 512 bytes, no control character, no
/// backslash, no colon, and between its slashes neither nothing nor a dot or
/// two alone.
pub open spec fn ref_name_ok(name: Seq<char>) -> bool {
    &&& name.len() > 0
    &&& encode_utf8(name).len() <= 512
    &&& forall|i: int| 0 <= i < name.len() ==> !bad_ref_char(#[trigger] name[i])
    &&& forall|i: int|
        0 <= i < split_slashes(name).len() ==> !bad_ref_part(#[trigger] split_slashes(name)[i])
}

/// How a ref name is refused.
pub open spec fn bad_name(name: Seq<char>) -> Seq<char> {
    "invalid ref name "@ + quoted(name)
}

fn invalid_ref_name(name: &str) -> (e: Error)
    ensures
        e matches Error::Invalid(msg) && msg@ == bad_name(name@),
{
    let mut msg = "invalid ref name ".to_string();
    msg.append(debug_text(name).as_str());
    Error::Invalid(msg)
}

/// Check a ref name against the grammar.
pub fn validate_ref_name(name: &str) -> (r: Result<(), Error>)
    ensures
        match r {
            Ok(_) => ref_name_ok(name@),
            Err(e) => !ref_name_ok(name@) && (e matches Error::Invalid(msg) && msg@ == bad_name(
                name@,
            )),
        },
{
    if name.is_empty() || byte_len(name) > 512 {
        return Err(invalid_ref_name(name));
    }
    let cs = chars_of(name);
    let mut i: usize = 0;
    while i < cs.len()
        invariant
            i <= cs@.len(),
            cs@ == name@,
            forall|j: int| 0 <= j < i ==> !bad_ref_char(#[trigger] name@[j]),
        decreases cs@.len() - i,
    {
        let c: char = cs[i];
        if c <= '\u{1f}' || ('\u{7f}' <= c && c <= '\u{9f}') || c == '\\' || c == ':' {
            assert(bad_ref_char(name@[i as int]));
            return Err(invalid_ref_name(name));
        }
        i += 1;
    }
    let parts = split_parts(name);
    let mut k: usize = 0;
    while k < parts.len()
        invariant
            k <= parts@.len(),
            texts(parts@) == split_slashes(name@),
            forall|j: int| 0 <= j < k ==> !bad_ref_part(#[trigger] split_slashes(name@)[j]),
        decreases parts@.len() - k,
    {
        let part = parts[k].as_str();
        assert(texts(parts@)[k as int] == part@);
        if part.is_empty() || text_eq(part, ".") || text_eq(part, "..") {
            assert(bad_ref_part(split_slashes(name@)[k as int]));
            return Err(invalid_ref_name(name));
        }
        k += 1;
    }
    Ok(())
}

/// A character that the name of an agent keeps.
pub open spec fn agent_char(c: char) -> bool {
    ||| '0' <= c <= '9'
    ||| 'A' <= c <= 'Z'
    ||| 'a' <= c <= 'z'
    ||| c == '-'
    ||| c == '_'
    ||| c == '.'
}

/// The name of an agent as a part of a path: every other character becomes an
/// underscore, and an empty name becomes `anon`.
pub open spec fn sanitized(s: Seq<char>) -> Seq<char> {
    if s.len() == 0 {
        "anon"@
    } else {
        Seq::new(
            s.len(),
            |i: int|
                if agent_char(s[i]) {
                    s[i]
                } else {
                    '_'
                },
        )
    }
}

pub fn sanitize_agent(s: &str) -> (r: String)
    ensures
        r@ == sanitized(s@),
{
    let cs = chars_of(s);
    if cs.len() == 0 {
        return "anon".to_string();
    }
    let mut out: Vec<char> = Vec::new();
    let mut i: usize = 0;
    while i < cs.len()
        invariant
            i <= cs@.len(),
            cs@ == s@,
            s@.len() > 0,
            out@ == sanitized(s@).take(i as int),
        decreases cs@.len() - i,
    {
        let c: char = cs[i];
        let keep = ('0' <= c && c <= '9') || ('A' <= c && c <= 'Z') || ('a' <= c && c <= 'z') || c
            == '-' || c == '_' || c == '.';
        let d: char = if keep {
            c
        } else {
            '_'
        };
        out.push(d);
        assert(out@ =~= sanitized(s@).take(i + 1));
        i += 1;
    }
    assert(sanitized(s@).take(i as int) =~= sanitized(s@));
    text_of(out.as_slice())
}

/// Sanitizing twice is sanitizing once.
pub proof fn lemma_sanitized_again(s: Seq<char>)
    ensures
        sanitized(sanitized(s)) == sanitized(s),
        sanitized(s).len() > 0,
{
    reveal_strlit("anon");
    assert(sanitized(sanitized(s)) =~= sanitized(s));
}

/// A digit of the base 32 that ULIDs are written in: no I, L, O or U, in
/// either case.
pub open spec fn ulid_digit(c: char) -> bool {
    ||| '0' <= c <= '9'
    ||| 'A' <= c <= 'H'
    ||| c == 'J'
    ||| c == 'K'
    ||| c == 'M'
    ||| c == 'N'
    ||| 'P' <= c <= 'T'
    ||| 'V' <= c <= 'Z'
    ||| 'a' <= c <= 'h'
    ||| c == 'j'
    ||| c == 'k'
    ||| c == 'm'
    ||| c == 'n'
    ||| 'p' <= c <= 't'
    ||| 'v' <= c <= 'z'
}

/// A ULID as text: 26 such digits.
pub open spec fn is_ulid(s: Seq<char>) -> bool {
    s.len() == 26 && forall|i: int| 0 <= i < s.len() ==> ulid_digit(#[trigger] s[i])
}

/// The value of a digit of the base 32 of ULIDs.
pub open spec fn ulid_digit_value(c: char) -> nat {
    let n = c as nat;
    if '0' <= c <= '9' {
        (n - 48) as nat
    } else if 'A' <= c <= 'H' {
        (n - 55) as nat
    } else if 'J' <= c <= 'K' {
        (n - 56) as nat
    } else if 'M' <= c <= 'N' {
        (n - 57) as nat
    } else if 'P' <= c <= 'T' {
        (n - 58) as nat
    } else if 'V' <= c <= 'Z' {
        (n - 59) as nat
    } else if 'a' <= c <= 'h' {
        (n - 87) as nat
    } else if 'j' <= c <= 'k' {
        (n - 88) as nat
    } else if 'm' <= c <= 'n' {
        (n - 89) as nat
    } else if 'p' <= c <= 't' {
        (n - 90) as nat
    } else {
        (n - 91) as nat
    }
}

/// The number that digits of that base stand for.
pub open spec fn ulid_number(s: Seq<char>) -> nat
    decreases s.len(),
{
    if s.len() == 0 {
        0
    } else {
        ulid_number(s.drop_last()) * 32 + ulid_digit_value(s.last())
    }
}

/// The milliseconds in a ULID: the low 48 bits of what its first ten digits stand for.
pub open spec fn ulid_millis(s: Seq<char>) -> nat {
    ulid_number(s.take(10)) % 0x1_0000_0000_0000
}

/// Calls `ulid::Ulid::from_string` and `Ulid::timestamp_ms`: the upper 48 bits of the 128
/// that the digits stand for, which are those of the first ten digits. For a text that is
/// no ULID, nothing.
#[verifier::external_body]
pub(crate) fn ulid_timestamp(s: &str) -> (r: Option<u64>)
    ensures
        match r {
            Some(ms) => is_ulid(s@) && ms == ulid_millis(s@),
            None => !is_ulid(s@),
        },
{
    ulid::Ulid::from_string(s).ok().map(|id| id.timestamp_ms())
}

/// Calls `ulid::Ulid::new` and writes the ULID out. Which one it is depends on
/// the time and on chance; every one is a ULID as text.
#[verifier::external_body]
pub(crate) fn new_ulid() -> (r: String)
    ensures
        is_ulid(r@),
{
    ulid::Ulid::new().to_string()
}

/// The kind that the namespace of a ref prescribes.
pub open spec fn prescribed_kind(name: Seq<char>) -> Option<Seq<char>> {
    if name == "main"@ || "heads/"@.is_prefix_of(name) {
        Some("commit"@)
    } else if "forks/inbox/"@.is_prefix_of(name) {
        Some("snapshot"@)
    } else if "forks/"@.is_prefix_of(name) {
        Some("commit"@)
    } else if "conflicts/"@.is_prefix_of(name) {
        Some("conflict"@)
    } else if "tags/"@.is_prefix_of(name) || "inbox/"@.is_prefix_of(name) {
        Some("snapshot"@)
    } else {
        None
    }
}

/// The name of a ref in an inbox: below `inbox/` an agent and a ULID, nothing
/// else.
pub open spec fn inbox_ok(name: Seq<char>) -> bool {
    "inbox/"@.is_prefix_of(name) ==> {
        let parts = split_slashes(name.skip(6));
        &&& parts.len() == 2
        &&& parts[0].len() > 0
        &&& sanitized(parts[0]) == parts[0]
        &&& is_ulid(parts[1])
    }
}

/// A ref of this name may be of this kind.
pub open spec fn ref_kind_ok(name: Seq<char>, kind: Seq<char>) -> bool {
    &&& ref_name_ok(name)
    &&& inbox_ok(name)
    &&& prescribed_kind(name) matches Some(k) ==> kind == k
}

/// How a ref of the wrong name or kind is refused.
pub open spec fn bad_ref(name: Seq<char>, kind: Seq<char>) -> Seq<char> {
    if !ref_name_ok(name) {
        bad_name(name)
    } else if !inbox_ok(name) {
        "invalid inbox ref "@ + quoted(name)
    } else {
        "ref "@ + name + " requires kind "@ + prescribed_kind(name)->0 + ", got "@ + kind
    }
}

fn inbox_fits(name: &str) -> (r: bool)
    ensures
        r == inbox_ok(name@),
{
    proof {
        reveal_strlit("inbox/");
    }
    if !starts_with(name, "inbox/") {
        return true;
    }
    let cs = chars_of(name);
    let rest = text_of(slice_subrange(cs.as_slice(), 6, cs.len()));
    assert(rest@ =~= name@.skip(6));
    let parts = split_parts(rest.as_str());
    if parts.len() != 2 {
        return false;
    }
    assert(texts(parts@)[0] == parts@[0]@);
    assert(texts(parts@)[1] == parts@[1]@);
    if parts[0].as_str().is_empty() {
        return false;
    }
    let clean = sanitize_agent(parts[0].as_str());
    if !text_eq(clean.as_str(), parts[0].as_str()) {
        return false;
    }
    ulid_timestamp(parts[1].as_str()).is_some()
}

fn kind_for(name: &str) -> (r: Option<&'static str>)
    ensures
        match r {
            Some(k) => prescribed_kind(name@) == Some(k@),
            None => prescribed_kind(name@) is None,
        },
{
    if text_eq(name, "main") || starts_with(name, "heads/") {
        Some("commit")
    } else if starts_with(name, "forks/inbox/") {
        Some("snapshot")
    } else if starts_with(name, "forks/") {
        Some("commit")
    } else if starts_with(name, "conflicts/") {
        Some("conflict")
    } else if starts_with(name, "tags/") || starts_with(name, "inbox/") {
        Some("snapshot")
    } else {
        None
    }
}

/// Check the name of a ref, and that its namespace admits the kind.
pub fn validate_ref_kind(name: &str, kind: &str) -> (r: Result<(), Error>)
    ensures
        match r {
            Ok(_) => ref_kind_ok(name@, kind@),
            Err(e) => !ref_kind_ok(name@, kind@) && (e matches Error::Invalid(msg) && msg@
                == bad_ref(name@, kind@)),
        },
{
    validate_ref_name(name)?;
    if !inbox_fits(name) {
        let mut msg = "invalid inbox ref ".to_string();
        msg.append(debug_text(name).as_str());
        return Err(Error::Invalid(msg));
    }
    if let Some(expected) = kind_for(name) {
        if !text_eq(kind, expected) {
            let mut msg = "ref ".to_string();
            msg.append(name);
            msg.append(" requires kind ");
            msg.append(expected);
            msg.append(", got ");
            msg.append(kind);
            return Err(Error::Invalid(msg));
        }
    }
    Ok(())
}

/// The object type of a kind as the catalog writes it.
pub open spec fn object_kind(kind: Seq<char>) -> Option<ObjectType> {
    if kind == "blob"@ {
        Some(ObjectType::Blob)
    } else if kind == "tree"@ {
        Some(ObjectType::Tree)
    } else if kind == "commit"@ {
        Some(ObjectType::Commit)
    } else if kind == "conflict"@ {
        Some(ObjectType::Conflict)
    } else if kind == "snapshot"@ {
        Some(ObjectType::Snapshot)
    } else if kind == "contribution"@ {
        Some(ObjectType::Contribution)
    } else {
        None
    }
}

pub fn catalog_object_type(kind: &str) -> (r: Option<ObjectType>)
    ensures
        r == object_kind(kind@),
{
    if text_eq(kind, "blob") {
        Some(ObjectType::Blob)
    } else if text_eq(kind, "tree") {
        Some(ObjectType::Tree)
    } else if text_eq(kind, "commit") {
        Some(ObjectType::Commit)
    } else if text_eq(kind, "conflict") {
        Some(ObjectType::Conflict)
    } else if text_eq(kind, "snapshot") {
        Some(ObjectType::Snapshot)
    } else if text_eq(kind, "contribution") {
        Some(ObjectType::Contribution)
    } else {
        None
    }
}

/// The object type of a kind that a ref may have.
pub open spec fn ref_kind(kind: Seq<char>) -> Option<ObjectType> {
    if kind == "tree"@ {
        Some(ObjectType::Tree)
    } else if kind == "commit"@ {
        Some(ObjectType::Commit)
    } else if kind == "conflict"@ {
        Some(ObjectType::Conflict)
    } else if kind == "snapshot"@ {
        Some(ObjectType::Snapshot)
    } else {
        None
    }
}

pub fn catalog_ref_type(kind: &str) -> (r: Option<ObjectType>)
    ensures
        r == ref_kind(kind@),
{
    if text_eq(kind, "tree") {
        Some(ObjectType::Tree)
    } else if text_eq(kind, "commit") {
        Some(ObjectType::Commit)
    } else if text_eq(kind, "conflict") {
        Some(ObjectType::Conflict)
    } else if text_eq(kind, "snapshot") {
        Some(ObjectType::Snapshot)
    } else {
        None
    }
}

/// An object id out of a column of bytes.
pub fn oid_from_blob(v: &[u8]) -> (r: Result<ObjectId, Error>)
    ensures
        match r {
            Ok(id) => v@.len() == 32 && id@ == v@,
            Err(e) => v@.len() != 32 && (e matches Error::Corrupt(msg) && msg@
                == "oid blob length"@),
        },
{
    if v.len() != 32 {
        return Err(corrupt("oid blob length"));
    }
    Ok(ObjectId::from_slice(v))
}

/// The name of a fork: the ref that was asked for, the agent and a ULID.
pub open spec fn fork_name(name: Seq<char>, agent: Seq<char>, ulid: Seq<char>) -> Seq<char> {
    "forks/"@ + name + "/"@ + sanitized(agent) + "/"@ + ulid
}

pub fn fork_ref(name: &str, agent: &str, ulid: &str) -> (r: String)
    ensures
        r@ == fork_name(name@, agent@, ulid@),
{
    let mut s = "forks/".to_string();
    s.append(name);
    s.append("/");
    s.append(sanitize_agent(agent).as_str());
    s.append("/");
    s.append(ulid);
    s
}

/// The name of a fork that is made now.
pub fn new_fork_ref(name: &str, agent: &str) -> (r: String)
    ensures
        exists|ulid: Seq<char>| is_ulid(ulid) && r@ == #[trigger] fork_name(name@, agent@, ulid),
{
    let ulid = new_ulid();
    let r = fork_ref(name, agent, ulid.as_str());
    assert(r@ == fork_name(name@, agent@, ulid@));
    r
}

} // verus!
