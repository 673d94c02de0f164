//! Shared identifiers, errors and result types.
use crate::bytes::{bytes_eq, lex_lt, bytes_lt};
use crate::text::{byte_len, chars_of, decimal, decimal_text, lemma_ascii_bytes, text_of};
use vstd::array::{spec_array_fill_for_copy_type, spec_array_update};
use vstd::prelude::*;
use vstd::slice::slice_subrange;
use vstd::utf8::encode_utf8;

verus! {

/// BLAKE3-256 of a complete object file.
#[derive(Clone, Copy, Debug, PartialEq, Eq, PartialOrd, Ord, Hash)]
pub struct ObjectId(pub [u8; 32]);

impl View for ObjectId {
    type V = Seq<u8>;

    open spec fn view(&self) -> Seq<u8> {
        self.0@
    }
}

/// An object id is determined by its bytes.
pub proof fn lemma_id_ext(a: ObjectId, b: ObjectId)
    requires
        a@ == b@,
    ensures
        a == b,
{
    assert(a.0 =~= b.0);
}

/// Every object id has 32 bytes.
pub proof fn lemma_id_len(a: ObjectId)
    ensures
        a@.len() == 32,
{
}

/// The object id with the given bytes.
pub open spec fn object_id(b: Seq<u8>) -> ObjectId {
    choose|id: ObjectId| id@ == b
}

/// The object id with the bytes of an id is that id.
pub proof fn lemma_object_id(id: ObjectId)
    ensures
        object_id(id@) == id,
{
    let other = object_id(id@);
    assert(other@ == id@);
    lemma_id_ext(other, id);
}

/// The first bytes of a sequence in an array of zeros.
spec fn filled(b: Seq<u8>, k: nat) -> [u8; 32]
    decreases k,
{
    if k == 0 {
        spec_array_fill_for_copy_type::<u8, 32>(0)
    } else {
        spec_array_update(filled(b, (k - 1) as nat), k - 1, b[k - 1])
    }
}

proof fn lemma_filled(b: Seq<u8>, k: nat)
    requires
        k <= 32,
        b.len() == 32,
    ensures
        forall|i: int| 0 <= i < k ==> #[trigger] filled(b, k)@[i] == b[i],
    decreases k,
{
    broadcast use vstd::array::group_array_axioms;

    if k > 0 {
        lemma_filled(b, (k - 1) as nat);
        let before = filled(b, (k - 1) as nat);
        assert(filled(b, k)@ == before@.update(k - 1, b[k - 1]));
    }
}

/// Any 32 bytes are those of an object id.
pub proof fn lemma_id_of(b: Seq<u8>)
    requires
        b.len() == 32,
    ensures
        object_id(b)@ == b,
{
    broadcast use vstd::array::group_array_axioms;

    lemma_filled(b, 32);
    let id = ObjectId(filled(b, 32));
    assert(id@ =~= b);
}

impl ObjectId {
    /// The id of 32 zero bytes.
    pub fn zero() -> (r: ObjectId)
        ensures
            r@ == Seq::new(32, |i: int| 0u8),
    {
        let r = ObjectId([0u8; 32]);
        assert(r@ =~= Seq::new(32, |i: int| 0u8));
        r
    }

    pub fn from_bytes(bytes: [u8; 32]) -> (r: Self)
        ensures
            r == ObjectId(bytes),
    {
        ObjectId(bytes)
    }

    /// The id in a slice of exactly 32 bytes.
    pub fn from_slice(b: &[u8]) -> (r: ObjectId)
        requires
            b@.len() == 32,
        ensures
            r@ == b@,
    {
        let mut a = [0u8; 32];
        let mut i: usize = 0;
        while i < 32
            invariant
                i <= 32,
                b@.len() == 32,
                forall|j: int| 0 <= j < i ==> a@[j] == b@[j],
            decreases 32 - i,
        {
            a[i] = b[i];
            i += 1;
        }
        let r = ObjectId(a);
        assert(r@ =~= b@);
        r
    }

    pub fn as_bytes(&self) -> (r: &[u8; 32])
        ensures
            *r == self.0,
            r@ == self@,
    {
        &self.0
    }

    /// Whether two ids are the same.
    pub fn same(&self, other: &ObjectId) -> (r: bool)
        ensures
            r == (*self == *other),
    {
        let r = bytes_eq(self.0.as_slice(), other.0.as_slice());
        proof {
            if r {
                lemma_id_ext(*self, *other);
            }
        }
        r
    }

    /// Whether this id comes before `other` bytewise.
    pub fn precedes(&self, other: &ObjectId) -> (r: bool)
        ensures
            r == lex_lt(self@, other@),
    {
        bytes_lt(self.0.as_slice(), other.0.as_slice())
    }

    /// The id as 64 lowercase hexadecimal digits.
    pub fn hex(&self) -> (r: String)
        ensures
            r@ == hex_of(self@),
    {
        hex_encode(self.0.as_slice())
    }

    /// Read an id written as 64 hexadecimal digits, white space around them
    /// apart.
    pub fn from_hex(s: &str) -> (r: Result<Self, Error>)
        ensures
            match r {
                Ok(id) => hex_value(encode_utf8(trimmed(s@))) == Some(id@),
                Err(e) => (match hex_value(encode_utf8(trimmed(s@))) {
                    Some(raw) => raw.len() != 32,
                    None => true,
                }) && (e matches Error::Invalid(m) && m@ == id_fault(s@)),
            },
    {
        let t = trim(s);
        let raw = hex_decode(t.as_str())?;
        if raw.len() != 32 {
            let mut msg = "object id hex must be 64 chars, got ".to_string();
            msg.append(decimal_text(byte_len(s) as u64).as_str());
            return Err(Error::Invalid(msg));
        }
        Ok(ObjectId::from_slice(raw.as_slice()))
    }

    /// The names of the two directory levels that hold the object: the first
    /// two digits and the next two.
    pub fn shard_dirs(&self) -> (r: (String, String))
        ensures
            r.0@ == hex_of(self@).subrange(0, 2),
            r.1@ == hex_of(self@).subrange(2, 4),
    {
        let h = chars_of(self.hex().as_str());
        let a = text_of(slice_subrange(h.as_slice(), 0, 2));
        let b = text_of(slice_subrange(h.as_slice(), 2, 4));
        (a, b)
    }
}

/// The lowercase hexadecimal digit of a number below 16.
pub open spec fn hex_digit(d: int) -> char {
    if d < 10 {
        (('0' as int) + d) as char
    } else {
        (('a' as int) + d - 10) as char
    }
}

/// Two lowercase digits for every byte, high nibble first.
pub open spec fn hex_of(b: Seq<u8>) -> Seq<char> {
    Seq::new(
        2 * b.len(),
        |i: int|
            if i % 2 == 0 {
                hex_digit(b[i / 2] as int / 16)
            } else {
                hex_digit(b[i / 2] as int % 16)
            },
    )
}

/// The value of a hexadecimal digit of either case.
pub open spec fn hex_digit_value(c: u8) -> Option<int> {
    if 48 <= c <= 57 {
        Some(c - 48)
    } else if 97 <= c <= 102 {
        Some(c - 97 + 10)
    } else if 65 <= c <= 70 {
        Some(c - 65 + 10)
    } else {
        None
    }
}

/// The bytes that a string of hexadecimal digits stands for.
pub open spec fn hex_value(s: Seq<u8>) -> Option<Seq<u8>> {
    if s.len() % 2 == 0 && forall|i: int|
        0 <= i < s.len() ==> hex_digit_value(#[trigger] s[i]) is Some {
        Some(
            Seq::new(
                s.len() / 2,
                |k: int|
                    (hex_digit_value(s[2 * k])->0 * 16 + hex_digit_value(s[2 * k + 1])->0) as u8,
            ),
        )
    } else {
        None
    }
}

/// How bytes that are no pairs of hexadecimal digits are refused.
pub open spec fn hex_fault(s: Seq<u8>) -> Seq<char> {
    if s.len() % 2 != 0 {
        "odd hex length"@
    } else {
        "invalid hex digit"@
    }
}

/// How a text that is no object id is refused.
pub open spec fn id_fault(s: Seq<char>) -> Seq<char> {
    if hex_value(encode_utf8(trimmed(s))) is None {
        hex_fault(encode_utf8(trimmed(s)))
    } else {
        "object id hex must be 64 chars, got "@ + decimal(encode_utf8(s).len())
    }
}

fn hex_char(d: u8) -> (c: char)
    requires
        d < 16,
    ensures
        c == hex_digit(d as int),
{
    if d < 10 {
        (48u8 + d) as char
    } else {
        (87u8 + d) as char
    }
}

/// Lowercase hexadecimal digits of a byte string.
pub fn hex_encode(bytes: &[u8]) -> (r: String)
    ensures
        r@ == hex_of(bytes@),
{
    let mut out = String::new();
    let mut i: usize = 0;
    while i < bytes.len()
        invariant
            i <= bytes@.len(),
            out@ == hex_of(bytes@.take(i as int)),
        decreases bytes@.len() - i,
    {
        let b = bytes[i];
        out.push(hex_char(b / 16));
        out.push(hex_char(b % 16));
        proof {
            let before = bytes@.take(i as int);
            let after = bytes@.take(i + 1);
            assert(after.drop_last() =~= before);
            assert forall|k: int| 0 <= k < 2 * after.len() implies #[trigger] out@[k] == hex_of(
                after,
            )[k] by {
                if k < 2 * before.len() {
                    assert(hex_of(before)[k] == hex_of(after)[k]) by {
                        assert(before[k / 2] == after[k / 2]);
                    }
                }
            }
            assert(out@ =~= hex_of(after));
        }
        i += 1;
    }
    assert(bytes@.take(i as int) =~= bytes@);
    out
}

fn hex_val(c: u8) -> (r: Result<u8, Error>)
    ensures
        match r {
            Ok(v) => hex_digit_value(c) == Some(v as int) && v < 16,
            Err(e) => hex_digit_value(c) is None && (e matches Error::Invalid(m) && m@
                == "invalid hex digit"@),
        },
{
    if 48 <= c && c <= 57 {
        Ok(c - 48)
    } else if 97 <= c && c <= 102 {
        Ok(c - 97 + 10)
    } else if 65 <= c && c <= 70 {
        Ok(c - 65 + 10)
    } else {
        Err(Error::Invalid("invalid hex digit".to_string()))
    }
}

/// The bytes that hexadecimal digits of either case stand for.
pub fn hex_decode(s: &str) -> (r: Result<Vec<u8>, Error>)
    ensures
        match r {
            Ok(v) => hex_value(encode_utf8(s@)) == Some(v@),
            Err(e) => hex_value(encode_utf8(s@)) is None && (e matches Error::Invalid(m) && m@
                == hex_fault(encode_utf8(s@))),
        },
{
    let b = s.as_bytes();
    if b.len() % 2 != 0 {
        return Err(Error::Invalid("odd hex length".to_string()));
    }
    let mut out: Vec<u8> = Vec::new();
    let mut i: usize = 0;
    while i < b.len()
        invariant
            b@ == encode_utf8(s@),
            b@.len() % 2 == 0,
            i <= b@.len(),
            i % 2 == 0,
            out@.len() == i / 2,
            forall|j: int| 0 <= j < i ==> hex_digit_value(#[trigger] b@[j]) is Some,
            forall|k: int|
                0 <= k < out@.len() ==> #[trigger] out@[k] == (hex_digit_value(b@[2 * k])->0 * 16
                    + hex_digit_value(b@[2 * k + 1])->0) as u8,
        decreases b@.len() - i,
    {
        let hi = hex_val(b[i])?;
        let lo = hex_val(b[i + 1])?;
        out.push(hi * 16 + lo);
        i += 2;
    }
    proof {
        assert(out@ =~= hex_value(b@)->0);
    }
    Ok(out)
}

/// Reading back the hexadecimal digits of a byte string gives the bytes.
pub proof fn lemma_hex_roundtrip(b: Seq<u8>)
    ensures
        hex_value(encode_utf8(hex_of(b))) == Some(b),
{
    let h = hex_of(b);
    let raw = Seq::new(h.len(), |i: int| h[i] as u8);
    assert forall|i: int| 0 <= i < h.len() implies (#[trigger] h[i]) as int == raw[i] as int && raw[i]
        < 128 && hex_digit_value(raw[i]) == Some(
        if i % 2 == 0 {
            b[i / 2] as int / 16
        } else {
            b[i / 2] as int % 16
        },
    ) by {
        assert(0 <= b[i / 2] as int / 16 < 16);
    }
    assert forall|i: int| 0 <= i < raw.len() implies #[trigger] raw[i] < 128 by {
        assert((h[i]) as int == raw[i] as int);
    }
    lemma_ascii_bytes(h, raw);
    assert forall|i: int| 0 <= i < raw.len() implies hex_digit_value(#[trigger] raw[i]) is Some by {
        assert(h[i] as int == raw[i] as int);
    }
    let v = hex_value(raw)->0;
    assert forall|k: int| 0 <= k < b.len() implies v[k] == b[k] by {
        assert(h[2 * k] as int == raw[2 * k] as int);
        assert(h[2 * k + 1] as int == raw[2 * k + 1] as int);
    }
    assert(v =~= b);
}

/// The `White_Space` property of Unicode.
pub open spec fn is_white(c: char) -> bool {
    let u = c as u32;
    9 <= u <= 13 || u == 0x20 || u == 0x85 || u == 0xa0 || u == 0x1680 || 0x2000 <= u <= 0x200a || u
        == 0x2028 || u == 0x2029 || u == 0x202f || u == 0x205f || u == 0x3000
}

fn white(c: char) -> (r: bool)
    ensures
        r == is_white(c),
{
    let u: u32 = c as u32;
    (9 <= u && u <= 13) || u == 0x20 || u == 0x85 || u == 0xa0 || u == 0x1680 || (0x2000 <= u && u
        <= 0x200a) || u == 0x2028 || u == 0x2029 || u == 0x202f || u == 0x205f || u == 0x3000
}

/// A text without its leading white space.
pub open spec fn trimmed_start(s: Seq<char>) -> Seq<char>
    decreases s.len(),
{
    if s.len() > 0 && is_white(s[0]) {
        trimmed_start(s.drop_first())
    } else {
        s
    }
}

/// A text without its trailing white space.
pub open spec fn trimmed_end(s: Seq<char>) -> Seq<char>
    decreases s.len(),
{
    if s.len() > 0 && is_white(s.last()) {
        trimmed_end(s.drop_last())
    } else {
        s
    }
}

/// A text without the white space around it.
pub open spec fn trimmed(s: Seq<char>) -> Seq<char> {
    trimmed_end(trimmed_start(s))
}

/// A text without the white space around it.
pub fn trim(s: &str) -> (r: String)
    ensures
        r@ == trimmed(s@),
{
    let cs = chars_of(s);
    let mut lo: usize = 0;
    let mut hi: usize = cs.len();
    assert(s@.skip(0) =~= s@);
    while lo < hi && white(cs[lo])
        invariant
            lo <= hi == cs@.len(),
            cs@ == s@,
            trimmed_start(s@) == trimmed_start(s@.skip(lo as int)),
        decreases hi - lo,
    {
        assert(s@.skip(lo as int).drop_first() =~= s@.skip(lo + 1));
        lo += 1;
    }
    let ghost left = s@.skip(lo as int);
    assert(left.take(left.len() as int) =~= left);
    while hi > lo && white(cs[hi - 1])
        invariant
            lo <= hi <= cs@.len(),
            cs@ == s@,
            left == s@.skip(lo as int),
            trimmed_end(left) == trimmed_end(left.take(hi - lo)),
        decreases hi - lo,
    {
        assert(left.take(hi - lo).drop_last() =~= left.take(hi - lo - 1));
        hi -= 1;
    }
    let r = text_of(slice_subrange(cs.as_slice(), lo, hi));
    assert(r@ =~= left.take(hi - lo));
    r
}

#[derive(Clone, Copy, Debug, PartialEq, Eq, Structural)]
pub enum ObjectType {
    Blob,
    Tree,
    Commit,
    Conflict,
    Snapshot,
    Contribution,
}

/// The type of the object files that a byte opens.
pub open spec fn type_of(v: u8) -> Option<ObjectType> {
    match v {
        1 => Some(ObjectType::Blob),
        2 => Some(ObjectType::Tree),
        3 => Some(ObjectType::Commit),
        4 => Some(ObjectType::Conflict),
        5 => Some(ObjectType::Snapshot),
        6 => Some(ObjectType::Contribution),
        _ => None,
    }
}

/// How a byte that opens no object file is refused.
pub open spec fn unknown_type(v: u8) -> Seq<char> {
    "unknown object type 0x"@ + hex_of(seq![v])
}

/// How a number that stands for no kind of entry is refused.
pub open spec fn unknown_kind(v: u8) -> Seq<char> {
    "unknown tree entry kind "@ + decimal(v as nat)
}

impl ObjectType {
    /// The byte that opens an object file of this type.
    pub open spec fn tag(self) -> u8 {
        match self {
            ObjectType::Blob => 1,
            ObjectType::Tree => 2,
            ObjectType::Commit => 3,
            ObjectType::Conflict => 4,
            ObjectType::Snapshot => 5,
            ObjectType::Contribution => 6,
        }
    }

    /// The byte that opens an object file of this type.
    pub fn to_u8(self) -> (r: u8)
        ensures
            r == self.tag(),
    {
        match self {
            ObjectType::Blob => 0x01,
            ObjectType::Tree => 0x02,
            ObjectType::Commit => 0x03,
            ObjectType::Conflict => 0x04,
            ObjectType::Snapshot => 0x05,
            ObjectType::Contribution => 0x06,
        }
    }

    /// The type that a byte opens.
    pub fn from_u8(v: u8) -> (r: Result<Self, Error>)
        ensures
            match r {
                Ok(ty) => type_of(v) == Some(ty) && ty.tag() == v,
                Err(e) => type_of(v) is None && !(1 <= v <= 6) && (e matches Error::Corrupt(m)
                    && m@ == unknown_type(v)),
            },
    {
        match v {
            0x01 => Ok(ObjectType::Blob),
            0x02 => Ok(ObjectType::Tree),
            0x03 => Ok(ObjectType::Commit),
            0x04 => Ok(ObjectType::Conflict),
            0x05 => Ok(ObjectType::Snapshot),
            0x06 => Ok(ObjectType::Contribution),
            other => {
                let mut msg = "unknown object type 0x".to_string();
                let shown = [other];
                msg.append(hex_encode(shown.as_slice()).as_str());
                assert(shown@ =~= seq![v]);
                Err(Error::Corrupt(msg))
            },
        }
    }

    /// The name of the type.
    pub open spec fn name(self) -> Seq<char> {
        match self {
            ObjectType::Blob => "blob"@,
            ObjectType::Tree => "tree"@,
            ObjectType::Commit => "commit"@,
            ObjectType::Conflict => "conflict"@,
            ObjectType::Snapshot => "snapshot"@,
            ObjectType::Contribution => "contribution"@,
        }
    }

    pub fn as_str(self) -> (r: &'static str)
        ensures
            r@ == self.name(),
    {
        match self {
            ObjectType::Blob => "blob",
            ObjectType::Tree => "tree",
            ObjectType::Commit => "commit",
            ObjectType::Conflict => "conflict",
            ObjectType::Snapshot => "snapshot",
            ObjectType::Contribution => "contribution",
        }
    }
}

/// Object types are told apart by their bytes.
pub proof fn lemma_tag_injective(a: ObjectType, b: ObjectType)
    requires
        a.tag() == b.tag(),
    ensures
        a == b,
{
}

#[derive(Clone, Copy, Debug, PartialEq, Eq, Structural)]
pub enum EntryKind {
    Blob,
    Tree,
}

impl EntryKind {
    /// The number that stands for this kind in a tree entry.
    pub open spec fn tag(self) -> u8 {
        match self {
            EntryKind::Blob => 1,
            EntryKind::Tree => 2,
        }
    }

    /// The number that stands for this kind in a tree entry.
    pub fn to_u8(self) -> (r: u8)
        ensures
            r == self.tag(),
    {
        match self {
            EntryKind::Blob => 1,
            EntryKind::Tree => 2,
        }
    }

    pub fn from_u8(v: u8) -> (r: Result<Self, Error>)
        ensures
            match r {
                Ok(kind) => kind.tag() == v,
                Err(e) => v != 1 && v != 2 && (e matches Error::Invalid(m) && m@ == unknown_kind(
                    v,
                )),
            },
    {
        match v {
            1 => Ok(EntryKind::Blob),
            2 => Ok(EntryKind::Tree),
            other => {
                let mut msg = "unknown tree entry kind ".to_string();
                msg.append(decimal_text(other as u64).as_str());
                Err(Error::Invalid(msg))
            },
        }
    }
}

/// What became of a request to move a ref.
#[derive(Clone, Debug, PartialEq, Eq)]
pub enum CasResult {
    Updated { name: String, oid: ObjectId },
    Forked { requested: String, fork: String, ours: ObjectId, theirs: ObjectId },
    Noop { name: String, oid: ObjectId },
}

/// A ref as the catalog holds it.
#[derive(Clone, Debug, PartialEq, Eq)]
pub struct RefRow {
    pub name: String,
    pub oid: ObjectId,
    pub kind: String,
    pub protected: bool,
    pub sealed: bool,
}

#[derive(Clone, Debug, PartialEq, Eq)]
pub enum Error {
    Denied(String),
    NotFound(String),
    Sealed(String),
    Invalid(String),
    Corrupt(String),
    Busy(String),
    MergeConflict(ObjectId),
    Io(String),
    Sqlite(String),
    Cap(String),
    Internal(String),
}

impl Error {
    /// The stable name of the class of this error.
    pub open spec fn class(self) -> Seq<char> {
        match self {
            Error::Denied(_) => "denied"@,
            Error::NotFound(_) => "not_found"@,
            Error::Sealed(_) => "sealed"@,
            Error::Invalid(_) => "invalid"@,
            Error::Corrupt(_) => "corrupt"@,
            Error::Busy(_) => "busy"@,
            Error::MergeConflict(_) => "conflict"@,
            Error::Io(_) => "internal"@,
            Error::Sqlite(_) => "internal"@,
            Error::Cap(_) => "denied"@,
            Error::Internal(_) => "internal"@,
        }
    }

    pub fn code(&self) -> (r: &'static str)
        ensures
            r@ == self.class(),
    {
        match self {
            Error::Denied(_) => "denied",
            Error::NotFound(_) => "not_found",
            Error::Sealed(_) => "sealed",
            Error::Invalid(_) => "invalid",
            Error::Corrupt(_) => "corrupt",
            Error::Busy(_) => "busy",
            Error::MergeConflict(_) => "conflict",
            Error::Io(_) => "internal",
            Error::Sqlite(_) => "internal",
            Error::Cap(_) => "denied",
            Error::Internal(_) => "internal",
        }
    }

    /// How a command that fails with this error exits: 1 where the request is refused, 2
    /// where the repository is damaged or what was asked for is sealed, 3 where there is a
    /// conflict, 4 where the repository is busy, and 5 where something outside failed.
    pub fn exit_code(&self) -> (r: i32)
        ensures
            r == (match *self {
                Error::Denied(_) => 1i32,
                Error::NotFound(_) => 1,
                Error::Sealed(_) => 2,
                Error::Invalid(_) => 1,
                Error::Corrupt(_) => 2,
                Error::Busy(_) => 4,
                Error::MergeConflict(_) => 3,
                Error::Io(_) => 5,
                Error::Sqlite(_) => 5,
                Error::Cap(_) => 1,
                Error::Internal(_) => 5,
            }),
    {
        match self {
            Error::Denied(_) => 1,
            Error::NotFound(_) => 1,
            Error::Sealed(_) => 2,
            Error::Invalid(_) => 1,
            Error::Corrupt(_) => 2,
            Error::Busy(_) => 4,
            Error::MergeConflict(_) => 3,
            Error::Io(_) => 5,
            Error::Sqlite(_) => 5,
            Error::Cap(_) => 1,
            Error::Internal(_) => 5,
        }
    }

    /// The whole message: the class in words, then the detail.
    pub open spec fn text(self) -> Seq<char> {
        match self {
            Error::Denied(s) => "denied: "@ + s@,
            Error::NotFound(s) => "not found: "@ + s@,
            Error::Sealed(s) => "sealed: "@ + s@,
            Error::Invalid(s) => "invalid: "@ + s@,
            Error::Corrupt(s) => "corrupt: "@ + s@,
            Error::Busy(s) => "busy: "@ + s@,
            Error::MergeConflict(id) => "conflict object "@ + hex_of(id@),
            Error::Io(s) => "io: "@ + s@,
            Error::Sqlite(s) => "sqlite: "@ + s@,
            Error::Cap(s) => "cap: "@ + s@,
            Error::Internal(s) => "internal: "@ + s@,
        }
    }

    /// The whole message: the class in words, then the detail.
    pub fn message(&self) -> (r: String)
        ensures
            r@ == self.text(),
    {
        let (prefix, detail) = match self {
            Error::Denied(s) => ("denied: ", s.clone()),
            Error::NotFound(s) => ("not found: ", s.clone()),
            Error::Sealed(s) => ("sealed: ", s.clone()),
            Error::Invalid(s) => ("invalid: ", s.clone()),
            Error::Corrupt(s) => ("corrupt: ", s.clone()),
            Error::Busy(s) => ("busy: ", s.clone()),
            Error::MergeConflict(id) => ("conflict object ", id.hex()),
            Error::Io(s) => ("io: ", s.clone()),
            Error::Sqlite(s) => ("sqlite: ", s.clone()),
            Error::Cap(s) => ("cap: ", s.clone()),
            Error::Internal(s) => ("internal: ", s.clone()),
        };
        let mut out = prefix.to_string();
        out.append(detail.as_str());
        out
    }
}

/// A `Corrupt` error with a fixed message.
pub fn corrupt(msg: &str) -> (r: Error)
    ensures
        r matches Error::Corrupt(s) && s@ == msg@,
{
    Error::Corrupt(msg.to_string())
}

/// An `Invalid` error with a fixed message.
pub fn invalid(msg: &str) -> (r: Error)
    ensures
        r matches Error::Invalid(s) && s@ == msg@,
{
    Error::Invalid(msg.to_string())
}

} // verus!
