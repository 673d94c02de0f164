//! Conflicts: what a merge could not decide.
use crate::bytes::lex_lt;
use crate::cbor::{
    cbor_bytes, cbor_null, cbor_text, encode_bytes, encode_map_header, encode_null, encode_text,
    head, lemma_bytes_prefix, lemma_head_len, lemma_head_prefix, lemma_key_order, lemma_join,
    lemma_nest_11, lemma_nest_6, lemma_same_prefix, lemma_text_prefix, starts_with_null, Reader,
};
use crate::fields::{
    check_list, check_record, has_text, lemma_list_faults, lemma_record_faults, list_scan,
    record_scan, rest_of, Checked, Fields,
};
use crate::items::{
    all_proper, lemma_items_each, lemma_items_len, lemma_items_max, lemma_list_prefix, list_bytes,
    list_fits, read_list, vals, write_list, Item,
};
use crate::object::{
    encode_file, expect_key, file_bytes, lemma_file_unique, lemma_object_faults, object_error,
    object_fault, parse_file, unknown_key, MAX_CONFLICT_ITEMS,
};
use crate::scan::{
    id_scan, lemma_id_scan, lemma_text_faults, opt_id_scan, refused_as, text_scan, told, Fault,
};
use crate::text::{byte_len, text_eq};
use crate::types::{invalid, lemma_id_ext, Error, ObjectId, ObjectType};
use vstd::prelude::*;
use vstd::utf8::encode_utf8;

verus! {

/// One path that the two sides changed in different ways.
#[derive(Clone, Debug, PartialEq, Eq)]
pub struct ConflictPath {
    pub path: String,
    pub a: Option<ObjectId>,
    pub b: Option<ObjectId>,
    pub base: Option<ObjectId>,
}

/// A conflicting path as a value.
pub struct PathValue {
    pub path: Seq<char>,
    pub a: Option<ObjectId>,
    pub b: Option<ObjectId>,
    pub base: Option<ObjectId>,
}

impl View for ConflictPath {
    type V = PathValue;

    open spec fn view(&self) -> PathValue {
        PathValue { path: self.path@, a: self.a, b: self.b, base: self.base }
    }
}

/// Conflicting paths as values.
pub open spec fn path_values(s: Seq<ConflictPath>) -> Seq<PathValue> {
    s.map_values(|p: ConflictPath| p@)
}

/// A merge that needs a decision.
#[derive(Clone, Debug, PartialEq, Eq)]
pub struct Conflict {
    pub bases: Vec<ObjectId>,
    pub ours: ObjectId,
    pub theirs: ObjectId,
    pub paths: Vec<ConflictPath>,
    pub causal: Vec<ObjectId>,
}

/// A conflict as a value.
pub struct ConflictValue {
    pub bases: Seq<ObjectId>,
    pub ours: ObjectId,
    pub theirs: ObjectId,
    pub paths: Seq<PathValue>,
    pub causal: Seq<ObjectId>,
}

impl View for Conflict {
    type V = ConflictValue;

    open spec fn view(&self) -> ConflictValue {
        ConflictValue {
            bases: self.bases@,
            ours: self.ours,
            theirs: self.theirs,
            paths: path_values(self.paths@),
            causal: self.causal@,
        }
    }
}

/// An id, or null.
pub open spec fn opt_bytes(id: Option<ObjectId>) -> Seq<u8> {
    match id {
        Some(id) => cbor_bytes(id@),
        None => cbor_null(),
    }
}

/// An id or null determines itself and where it ends.
proof fn lemma_opt_prefix(a: Option<ObjectId>, t: Seq<u8>, b: Option<ObjectId>, u: Seq<u8>)
    requires
        opt_bytes(a) + t == opt_bytes(b) + u,
    ensures
        a == b,
        t == u,
{
    let s = opt_bytes(a) + t;
    lemma_head_len(2, 32);
    assert(s[0] == opt_bytes(a)[0]);
    assert(s[0] == opt_bytes(b)[0]);
    match (a, b) {
        (Some(x), Some(y)) => {
            lemma_bytes_prefix(x@, t, y@, u);
            lemma_id_ext(x, y);
        },
        (None, None) => {
            lemma_same_prefix(cbor_null(), t, u);
        },
        _ => {},
    }
}

fn opt_id(out: &mut Vec<u8>, id: Option<ObjectId>)
    ensures
        final(out)@ == old(out)@ + opt_bytes(id),
{
    match id {
        Some(id) => encode_bytes(out, id.0.as_slice()),
        None => encode_null(out),
    }
}

fn read_opt_id(r: &mut Reader<'_>) -> (res: Result<Option<ObjectId>, Error>)
    ensures
        match res {
            Ok(id) => old(r).rest() == opt_bytes(id) + final(r).rest() && opt_id_scan(old(r).rest())
                == Ok::<Seq<u8>, Fault>(final(r).rest()),
            Err(e) => e is Corrupt,
        },
        refused_as(opt_id_scan(old(r).rest()), res),
        forall|id: Option<ObjectId>, t: Seq<u8>|
            old(r).rest() == #[trigger] (opt_bytes(id) + t) ==> res == Ok::<
                Option<ObjectId>,
                Error,
            >(id) && final(r).rest() == t,
{
    let ghost before = r.rest();
    proof {
        lemma_head_len(2, 32);
        assert forall|id: Option<ObjectId>, t: Seq<u8>| before == #[trigger] (opt_bytes(id)
            + t) implies starts_with_null(before) == (id is None) && (id matches Some(x) ==> before
            == cbor_bytes(x@) + t) by {
            assert(before[0] == opt_bytes(id)[0]);
        }
    }
    if r.take_null() {
        assert(before.skip(1) =~= r.rest());
        proof {
            assert forall|id: Option<ObjectId>, t: Seq<u8>| before == #[trigger] (opt_bytes(id)
                + t) implies id is None && r.rest() == t by {
                lemma_same_prefix(cbor_null(), t, r.rest());
            }
        }
        return Ok(None);
    }
    let id = ObjectId(r.bstr32()?);
    proof {
        assert forall|o: Option<ObjectId>, t: Seq<u8>| before == #[trigger] (opt_bytes(o)
            + t) implies o == Some(id) && r.rest() == t by {
            assert(before == cbor_bytes(o->0@) + t);
            lemma_id_ext(id, o->0);
        }
    }
    Ok(Some(id))
}

/// The form in which a conflicting path was written: a field that holds no id
/// may be null or left out.
pub struct PathForm {
    pub value: PathValue,
    pub has_a: bool,
    pub has_b: bool,
    pub has_base: bool,
}

/// An optional field, followed by `t`.
pub open spec fn opt_field_then(
    key: Seq<char>,
    present: bool,
    id: Option<ObjectId>,
    t: Seq<u8>,
) -> Seq<u8> {
    if present {
        cbor_text(key) + (opt_bytes(id) + t)
    } else {
        t
    }
}

/// How many fields a path is written with.
pub open spec fn path_fields(f: PathForm) -> u64 {
    (1 + (if f.has_a {
        1int
    } else {
        0
    }) + (if f.has_b {
        1int
    } else {
        0
    }) + (if f.has_base {
        1int
    } else {
        0
    })) as u64
}

/// The encoding of a path, followed by `t`.
pub open spec fn path_then(f: PathForm, t: Seq<u8>) -> Seq<u8> {
    head(5, path_fields(f)) + opt_field_then(
        "a"@,
        f.has_a,
        f.value.a,
        opt_field_then(
            "b"@,
            f.has_b,
            f.value.b,
            cbor_text("p"@) + (cbor_text(f.value.path) + opt_field_then(
                "base"@,
                f.has_base,
                f.value.base,
                t,
            )),
        ),
    )
}

/// The form in which paths are written: every field is there.
pub open spec fn full_path(v: PathValue) -> PathForm {
    PathForm { value: v, has_a: true, has_b: true, has_base: true }
}

/// A path as it was read.
pub struct RawPath {
    path: ConflictPath,
    has_a: bool,
    has_b: bool,
    has_base: bool,
}

proof fn lemma_path_keys()
    ensures
        lex_lt(cbor_text("a"@), cbor_text("b"@)),
        lex_lt(cbor_text("b"@), cbor_text("p"@)),
        lex_lt(cbor_text("a"@), cbor_text("p"@)),
        lex_lt(cbor_text("p"@), cbor_text("base"@)),
        "a"@ != "b"@,
        "a"@ != "p"@,
        "b"@ != "p"@,
        encode_utf8("a"@).len() == 1,
        encode_utf8("b"@).len() == 1,
        encode_utf8("p"@).len() == 1,
        encode_utf8("base"@).len() == 4,
{
    reveal_strlit("a");
    reveal_strlit("b");
    reveal_strlit("p");
    reveal_strlit("base");
    lemma_key_order("a"@, "b"@);
    lemma_key_order("b"@, "p"@);
    lemma_key_order("a"@, "p"@);
    lemma_key_order("p"@, "base"@);
    assert("a"@[0] != "b"@[0]);
    assert("a"@[0] != "p"@[0]);
    assert("b"@[0] != "p"@[0]);
    vstd::utf8::is_ascii_chars_encode_utf8("a"@);
    vstd::utf8::is_ascii_chars_encode_utf8("b"@);
    vstd::utf8::is_ascii_chars_encode_utf8("p"@);
    vstd::utf8::is_ascii_chars_encode_utf8("base"@);
}

proof fn lemma_opt_len(id: Option<ObjectId>)
    ensures
        opt_bytes(id).len() >= 1,
{
    lemma_head_len(2, 32);
}

proof fn lemma_path_then(f: PathForm, t: Seq<u8>)
    ensures
        RawPath::wire(f) + t == path_then(f, t),
        path_then(f, t).len() >= head(5, path_fields(f)).len() + 2 * path_fields(f) + t.len(),
        path_then(f, t).len() >= encode_utf8(f.value.path).len(),
{
    lemma_path_keys();
    lemma_opt_len(f.value.a);
    lemma_opt_len(f.value.b);
    lemma_opt_len(f.value.base);
    lemma_head_len(3, 1);
    lemma_head_len(3, 4);
    lemma_head_len(3, encode_utf8(f.value.path).len() as u64);
    let e = Seq::<u8>::empty();
    let d0 = opt_field_then("base"@, f.has_base, f.value.base, e);
    let d1 = opt_field_then("base"@, f.has_base, f.value.base, t);
    let p0 = cbor_text(f.value.path) + d0;
    let p1 = cbor_text(f.value.path) + d1;
    let c0 = cbor_text("p"@) + p0;
    let c1 = cbor_text("p"@) + p1;
    let b0 = opt_field_then("b"@, f.has_b, f.value.b, c0);
    let b1 = opt_field_then("b"@, f.has_b, f.value.b, c1);
    let a0 = opt_field_then("a"@, f.has_a, f.value.a, b0);
    assert(e + t =~= t);
    lemma_opt_join("base"@, f.has_base, f.value.base, e, t);
    lemma_join(cbor_text(f.value.path), d0, t);
    lemma_join(cbor_text("p"@), p0, t);
    lemma_opt_join("b"@, f.has_b, f.value.b, c0, t);
    lemma_opt_join("a"@, f.has_a, f.value.a, b0, t);
    lemma_join(head(5, path_fields(f)), a0, t);
    assert(b1.len() >= c1.len());
}

/// What follows an optional field may be joined to it first or last.
proof fn lemma_opt_join(
    key: Seq<char>,
    present: bool,
    id: Option<ObjectId>,
    x: Seq<u8>,
    t: Seq<u8>,
)
    ensures
        opt_field_then(key, present, id, x) + t == opt_field_then(key, present, id, x + t),
        opt_field_then(key, present, id, x) == opt_field_then(key, present, id, Seq::<u8>::empty())
            + x,
{
    let e = Seq::<u8>::empty();
    assert(e + x =~= x);
    if present {
        lemma_join(opt_bytes(id), x, t);
        lemma_join(cbor_text(key), opt_bytes(id) + x, t);
        lemma_join(opt_bytes(id), e, x);
        lemma_join(cbor_text(key), opt_bytes(id) + e, x);
    }
}

fn write_opt_field(out: &mut Vec<u8>, key: &str, present: bool, id: Option<ObjectId>)
    ensures
        final(out)@ == old(out)@ + opt_field_then(key@, present, id, Seq::<u8>::empty()),
{
    let ghost e = Seq::<u8>::empty();
    if present {
        encode_text(out, key);
        opt_id(out, id);
        proof {
            assert(opt_bytes(id) + e =~= opt_bytes(id));
            lemma_join(old(out)@, cbor_text(key@), opt_bytes(id));
        }
    } else {
        assert(out@ + e =~= out@);
    }
}

impl Item for RawPath {
    type Val = PathForm;

    closed spec fn val(&self) -> PathForm {
        PathForm {
            value: self.path@,
            has_a: self.has_a,
            has_b: self.has_b,
            has_base: self.has_base,
        }
    }

    open spec fn wire(v: PathForm) -> Seq<u8> {
        path_then(v, Seq::<u8>::empty())
    }

    open spec fn fits(v: PathForm) -> bool {
        encode_utf8(v.value.path).len() <= u64::MAX
    }

    open spec fn proper(v: PathForm) -> bool {
        &&& !v.has_a ==> v.value.a is None
        &&& !v.has_b ==> v.value.b is None
        &&& !v.has_base ==> v.value.base is None
    }

    proof fn wire_nonempty(v: PathForm) {
        lemma_path_then(v, Seq::<u8>::empty());
        lemma_head_len(5, path_fields(v));
    }

    proof fn wire_prefix(a: PathForm, t: Seq<u8>, b: PathForm, u: Seq<u8>) {
        lemma_path_then(a, t);
        lemma_path_then(b, u);
        lemma_path_keys();
        let a4 = opt_field_then("base"@, a.has_base, a.value.base, t);
        let b4 = opt_field_then("base"@, b.has_base, b.value.base, u);
        let a3 = cbor_text("p"@) + (cbor_text(a.value.path) + a4);
        let b3 = cbor_text("p"@) + (cbor_text(b.value.path) + b4);
        let a2 = opt_field_then("b"@, a.has_b, a.value.b, a3);
        let b2 = opt_field_then("b"@, b.has_b, b.value.b, b3);
        let a1 = opt_field_then("a"@, a.has_a, a.value.a, a2);
        let b1 = opt_field_then("a"@, b.has_a, b.value.a, b2);
        lemma_head_prefix(5, path_fields(a), a1, path_fields(b), b1);
        assert(starts_with_other_key(a3, "b"@));
        assert(starts_with_other_key(b3, "b"@));
        assert(starts_with_other_key(a2, "a"@));
        assert(starts_with_other_key(b2, "a"@));
        lemma_opt_field("a"@, a.has_a, a.value.a, a2, b.has_a, b.value.a, b2);
        lemma_opt_field("b"@, a.has_b, a.value.b, a3, b.has_b, b.value.b, b3);
        lemma_same_prefix(
            cbor_text("p"@),
            cbor_text(a.value.path) + a4,
            cbor_text(b.value.path) + b4,
        );
        lemma_text_prefix(a.value.path, a4, b.value.path, b4);
        assert(a.has_base == b.has_base);
        if a.has_base {
            lemma_same_prefix(
                cbor_text("base"@),
                opt_bytes(a.value.base) + t,
                opt_bytes(b.value.base) + u,
            );
            lemma_opt_prefix(a.value.base, t, b.value.base, u);
        }
    }

    fn write(&self, out: &mut Vec<u8>) {
        let fields: u64 = 1 + (if self.has_a {
            1u64
        } else {
            0
        }) + (if self.has_b {
            1u64
        } else {
            0
        }) + (if self.has_base {
            1u64
        } else {
            0
        });
        encode_map_header(out, fields);
        write_opt_field(out, "a", self.has_a, self.path.a);
        write_opt_field(out, "b", self.has_b, self.path.b);
        encode_text(out, "p");
        encode_text(out, self.path.path.as_str());
        write_opt_field(out, "base", self.has_base, self.path.base);
        proof {
            let e = Seq::<u8>::empty();
            let f = self.val();
            let d = opt_field_then("base"@, f.has_base, f.value.base, e);
            let p = cbor_text(f.value.path) + d;
            let c = cbor_text("p"@) + p;
            let b = opt_field_then("b"@, f.has_b, f.value.b, c);
            lemma_opt_join("b"@, f.has_b, f.value.b, c, e);
            lemma_opt_join("a"@, f.has_a, f.value.a, b, e);
            let h = head(5, fields);
            let oa = opt_field_then("a"@, f.has_a, f.value.a, e);
            let ob = opt_field_then("b"@, f.has_b, f.value.b, e);
            assert(d + e =~= d);
            lemma_nest_6(h, oa, ob, cbor_text("p"@), cbor_text(f.value.path), d);
            let start = old(out)@;
            lemma_join(start, h, oa);
            lemma_join(start, h + oa, ob);
            lemma_join(start, h + oa + ob, cbor_text("p"@));
            lemma_join(start, h + oa + ob + cbor_text("p"@), cbor_text(f.value.path));
            lemma_join(start, h + oa + ob + cbor_text("p"@) + cbor_text(f.value.path), d);
        }
    }

    #[verifier::rlimit(60)]
    fn read(r: &mut Reader<'_>) -> (res: Option<Self>) {
        let ghost before = r.rest();
        let ghost known = exists|v: PathForm, t: Seq<u8>|
            Self::proper(v) && before == #[trigger] (Self::wire(v) + t);
        let ghost (w, wt) = choose|v: PathForm, t: Seq<u8>|
            Self::proper(v) && before == #[trigger] (Self::wire(v) + t);
        proof {
            lemma_path_keys();
            lemma_path_then(w, wt);
            assert(known ==> before == path_then(w, wt));
        }
        let n = r.map().ok()?;
        let mut last: Option<Vec<u8>> = None;
        let mut key = r.text_map_key(&mut last).ok()?;
        let has_a = text_eq(key.as_str(), "a");
        assert(known ==> has_a == w.has_a);
        let mut a: Option<ObjectId> = None;
        if has_a {
            a = read_opt_id(r).ok()?;
            key = r.text_map_key(&mut last).ok()?;
        }
        let has_b = text_eq(key.as_str(), "b");
        assert(known ==> has_b == w.has_b);
        let mut b: Option<ObjectId> = None;
        if has_b {
            b = read_opt_id(r).ok()?;
            key = r.text_map_key(&mut last).ok()?;
        }
        if !text_eq(key.as_str(), "p") {
            return None;
        }
        let path = r.text().ok()?;
        let size = byte_len(path.as_str());
        let used: u64 = 1 + (if has_a {
            1u64
        } else {
            0
        }) + (if has_b {
            1u64
        } else {
            0
        });
        let has_base: bool = n > used;
        let mut base: Option<ObjectId> = None;
        if has_base {
            expect_key(r, &mut last, "base")?;
            base = read_opt_id(r).ok()?;
        }
        if n != used + (if has_base {
            1u64
        } else {
            0
        }) {
            return None;
        }
        let x = RawPath { path: ConflictPath { path, a, b, base }, has_a, has_b, has_base };
        proof {
            lemma_path_then(x.val(), r.rest());
            assert(before == path_then(x.val(), r.rest()));
            assert forall|v: PathForm, t: Seq<u8>|
                Self::proper(v) && before == #[trigger] (Self::wire(v) + t) implies x.val() == v
                && r.rest() == t by {
                lemma_path_then(v, t);
                Self::wire_prefix(x.val(), r.rest(), v, t);
            }
        }
        Some(x)
    }
}

impl Fields for ConflictPath {
    open spec fn field(k: Seq<char>, s: Seq<u8>) -> Result<Seq<u8>, Fault> {
        if k == "p"@ {
            rest_of(text_scan(s, None))
        } else if k == "a"@ {
            opt_id_scan(s)
        } else if k == "b"@ {
            opt_id_scan(s)
        } else if k == "base"@ {
            opt_id_scan(s)
        } else {
            Err(Fault::Corrupt("path key "@ + k))
        }
    }

    open spec fn missing(seen: Seq<Seq<char>>) -> Option<Seq<char>> {
        if !seen.contains("p"@) {
            Some("conflict path"@)
        } else {
            None
        }
    }

    open spec fn picky() -> bool {
        false
    }

    proof fn field_faults(k: Seq<char>, s: Seq<u8>) {
        lemma_id_scan(s);
        lemma_text_faults(s, None);
    }

    fn check_field(k: &str, r: &mut Reader<'_>) -> (res: Result<(), Error>) {
        if text_eq(k, "p") {
            r.text()?;
        } else if text_eq(k, "a") {
            read_opt_id(r)?;
        } else if text_eq(k, "b") {
            read_opt_id(r)?;
        } else if text_eq(k, "base") {
            read_opt_id(r)?;
        } else {
            return Err(unknown_key("path key ", k));
        }
        Ok(())
    }

    fn find_missing(seen: &Vec<String>) -> (res: Option<&'static str>) {
        if !has_text(seen, "p") {
            Some("conflict path")
        } else {
            None
        }
    }
}

impl Checked for ConflictPath {
    open spec fn scan(s: Seq<u8>) -> Result<Seq<u8>, Fault> {
        record_scan::<ConflictPath>(s)
    }

    open spec fn fussy() -> bool {
        false
    }

    proof fn scan_faults(s: Seq<u8>) {
        lemma_record_faults::<ConflictPath>(s);
    }

    fn check(r: &mut Reader<'_>) -> (res: Result<(), Error>) {
        check_record::<ConflictPath>(r)
    }
}

/// A key other than `key` comes next.
spec fn starts_with_other_key(s: Seq<u8>, key: Seq<char>) -> bool {
    exists|k: Seq<char>, t: Seq<u8>|
        s == #[trigger] (cbor_text(k) + t) && k != key && encode_utf8(k).len() < 24
}

/// A key is told apart from any other.
proof fn lemma_other_key(key: Seq<char>, rest: Seq<u8>, s: Seq<u8>)
    requires
        starts_with_other_key(s, key),
        encode_utf8(key).len() < 24,
    ensures
        cbor_text(key) + rest != s,
{
    let (k, t) = choose|k: Seq<char>, t: Seq<u8>|
        s == #[trigger] (cbor_text(k) + t) && k != key && encode_utf8(k).len() < 24;
    if cbor_text(key) + rest == s {
        lemma_text_prefix(key, rest, k, t);
    }
}

/// An optional field is told apart from the keys that may come in its place.
proof fn lemma_opt_field(
    key: Seq<char>,
    pa: bool,
    ia: Option<ObjectId>,
    ta: Seq<u8>,
    pb: bool,
    ib: Option<ObjectId>,
    tb: Seq<u8>,
)
    requires
        opt_field_then(key, pa, ia, ta) == opt_field_then(key, pb, ib, tb),
        !pa ==> ia is None && starts_with_other_key(ta, key),
        !pb ==> ib is None && starts_with_other_key(tb, key),
        encode_utf8(key).len() < 24,
    ensures
        pa == pb,
        ia == ib,
        ta == tb,
{
    if pa && pb {
        lemma_same_prefix(cbor_text(key), opt_bytes(ia) + ta, opt_bytes(ib) + tb);
        lemma_opt_prefix(ia, ta, ib, tb);
    } else if pa {
        lemma_other_key(key, opt_bytes(ia) + ta, tb);
    } else if pb {
        lemma_other_key(key, opt_bytes(ib) + tb, ta);
    }
}

/// The form in which a conflict was written: an empty list may be left out.
pub struct ConflictForm {
    pub bases: Seq<ObjectId>,
    pub ours: ObjectId,
    pub theirs: ObjectId,
    pub paths: Seq<PathForm>,
    pub causal: Seq<ObjectId>,
    pub has_bases: bool,
    pub has_paths: bool,
    pub has_causal: bool,
}

/// The array of conflicting paths in their written forms.
pub open spec fn paths_bytes(paths: Seq<PathForm>) -> Seq<u8> {
    list_bytes::<RawPath>(paths)
}

/// An optional list of ids, followed by `t`.
pub open spec fn opt_value_then(key: Seq<char>, present: bool, v: Seq<u8>, t: Seq<u8>) -> Seq<u8> {
    if present {
        cbor_text(key) + (v + t)
    } else {
        t
    }
}

/// How many fields a conflict is written with.
pub open spec fn conflict_fields(f: ConflictForm) -> u64 {
    (2 + (if f.has_bases {
        1int
    } else {
        0
    }) + (if f.has_paths {
        1int
    } else {
        0
    }) + (if f.has_causal {
        1int
    } else {
        0
    })) as u64
}

/// The header of a conflict in the given form.
pub open spec fn conflict_header(f: ConflictForm) -> Seq<u8> {
    head(5, conflict_fields(f)) + (cbor_text("ours"@) + (cbor_bytes(f.ours@) + opt_value_then(
        "bases"@,
        f.has_bases,
        list_bytes::<ObjectId>(f.bases),
        opt_value_then(
            "paths"@,
            f.has_paths,
            paths_bytes(f.paths),
            opt_value_then(
                "causal"@,
                f.has_causal,
                list_bytes::<ObjectId>(f.causal),
                cbor_text("theirs"@) + (cbor_bytes(f.theirs@) + Seq::<u8>::empty()),
            ),
        ),
    )))
}

/// The object file of a conflict in the given form.
pub open spec fn conflict_form_bytes(f: ConflictForm) -> Seq<u8> {
    file_bytes(ObjectType::Conflict, conflict_header(f), Seq::<u8>::empty())
}

/// What a form stands for.
pub open spec fn form_value(f: ConflictForm) -> ConflictValue {
    ConflictValue {
        bases: f.bases,
        ours: f.ours,
        theirs: f.theirs,
        paths: f.paths.map_values(|p: PathForm| p.value),
        causal: f.causal,
    }
}

/// The form in which conflicts are written: every field is there.
pub open spec fn full_form(c: ConflictValue) -> ConflictForm {
    ConflictForm {
        bases: c.bases,
        ours: c.ours,
        theirs: c.theirs,
        paths: c.paths.map_values(|p: PathValue| full_path(p)),
        causal: c.causal,
        has_bases: true,
        has_paths: true,
        has_causal: true,
    }
}

/// The object file of a conflict.
pub open spec fn conflict_bytes(c: ConflictValue) -> Seq<u8> {
    conflict_form_bytes(full_form(c))
}

/// The lists of a conflict are within the limits.
pub open spec fn conflict_bounded(c: ConflictValue) -> bool {
    &&& c.bases.len() <= MAX_CONFLICT_ITEMS
    &&& c.paths.len() <= MAX_CONFLICT_ITEMS
    &&& c.causal.len() <= MAX_CONFLICT_ITEMS
}

/// A form leaves out only what is empty.
pub open spec fn path_form_proper(p: PathForm) -> bool {
    &&& !p.has_a ==> p.value.a is None
    &&& !p.has_b ==> p.value.b is None
    &&& !p.has_base ==> p.value.base is None
}

/// A form that can be read back: what it leaves out is empty, its lists are
/// within the limits and its header fits in an object file.
pub open spec fn form_valid(f: ConflictForm) -> bool {
    conflict_bounded(form_value(f)) && form_writable(f)
}

/// A form that can be written: what it leaves out is empty, and its header fits in an
/// object file.
pub open spec fn form_writable(f: ConflictForm) -> bool {
    &&& conflict_header(f).len() <= u32::MAX
    &&& !f.has_bases ==> f.bases.len() == 0
    &&& !f.has_paths ==> f.paths.len() == 0
    &&& !f.has_causal ==> f.causal.len() == 0
    &&& forall|i: int| 0 <= i < f.paths.len() ==> path_form_proper(#[trigger] f.paths[i])
}

proof fn lemma_conflict_keys()
    ensures
        lex_lt(cbor_text("ours"@), cbor_text("bases"@)),
        lex_lt(cbor_text("ours"@), cbor_text("paths"@)),
        lex_lt(cbor_text("ours"@), cbor_text("causal"@)),
        lex_lt(cbor_text("ours"@), cbor_text("theirs"@)),
        lex_lt(cbor_text("bases"@), cbor_text("paths"@)),
        lex_lt(cbor_text("bases"@), cbor_text("causal"@)),
        lex_lt(cbor_text("bases"@), cbor_text("theirs"@)),
        lex_lt(cbor_text("paths"@), cbor_text("causal"@)),
        lex_lt(cbor_text("paths"@), cbor_text("theirs"@)),
        lex_lt(cbor_text("causal"@), cbor_text("theirs"@)),
        "bases"@ != "paths"@,
        "bases"@ != "causal"@,
        "bases"@ != "theirs"@,
        "paths"@ != "causal"@,
        "paths"@ != "theirs"@,
        "causal"@ != "theirs"@,
        encode_utf8("ours"@).len() == 4,
        encode_utf8("bases"@).len() == 5,
        encode_utf8("paths"@).len() == 5,
        encode_utf8("causal"@).len() == 6,
        encode_utf8("theirs"@).len() == 6,
{
    reveal_strlit("ours");
    reveal_strlit("bases");
    reveal_strlit("paths");
    reveal_strlit("causal");
    reveal_strlit("theirs");
    lemma_key_order("ours"@, "bases"@);
    lemma_key_order("ours"@, "paths"@);
    lemma_key_order("ours"@, "causal"@);
    lemma_key_order("ours"@, "theirs"@);
    lemma_key_order("bases"@, "paths"@);
    lemma_key_order("bases"@, "causal"@);
    lemma_key_order("bases"@, "theirs"@);
    lemma_key_order("paths"@, "causal"@);
    lemma_key_order("paths"@, "theirs"@);
    lemma_key_order("causal"@, "theirs"@);
    assert("bases"@[0] != "paths"@[0]);
    assert("causal"@[0] != "theirs"@[0]);
    vstd::utf8::is_ascii_chars_encode_utf8("ours"@);
    vstd::utf8::is_ascii_chars_encode_utf8("bases"@);
    vstd::utf8::is_ascii_chars_encode_utf8("paths"@);
    vstd::utf8::is_ascii_chars_encode_utf8("causal"@);
    vstd::utf8::is_ascii_chars_encode_utf8("theirs"@);
}

proof fn lemma_conflict_header_len(f: ConflictForm)
    ensures
        conflict_header(f).len() >= head(5, conflict_fields(f)).len() + 2 * conflict_fields(f),
{
    lemma_conflict_keys();
    lemma_head_len(5, conflict_fields(f));
    lemma_head_len(3, 4);
    lemma_head_len(3, 5);
    lemma_head_len(3, 6);
    lemma_head_len(2, 32);
    lemma_head_len(4, f.bases.len() as u64);
    lemma_head_len(4, f.paths.len() as u64);
    lemma_head_len(4, f.causal.len() as u64);
}

proof fn lemma_paths_fit(f: ConflictForm)
    requires
        form_writable(f),
    ensures
        list_fits::<RawPath>(f.paths),
        all_proper::<RawPath>(f.paths),
        list_fits::<ObjectId>(f.bases),
        list_fits::<ObjectId>(f.causal),
{
    let h = conflict_header(f);
    assert(f.has_paths ==> paths_bytes(f.paths).len() <= h.len());
    assert(f.has_bases ==> list_bytes::<ObjectId>(f.bases).len() <= h.len());
    assert(f.has_causal ==> list_bytes::<ObjectId>(f.causal).len() <= h.len());
    lemma_items_len::<RawPath>(f.paths);
    lemma_items_len::<ObjectId>(f.bases);
    lemma_items_len::<ObjectId>(f.causal);
    assert forall|i: int| 0 <= i < f.paths.len() implies RawPath::fits(#[trigger] f.paths[i]) by {
        lemma_items_each::<RawPath>(f.paths, i);
        lemma_path_then(f.paths[i], Seq::<u8>::empty());
    }
    assert forall|i: int| 0 <= i < f.paths.len() implies RawPath::proper(#[trigger] f.paths[i]) by {
        assert(path_form_proper(f.paths[i]));
    }
}

/// The forms in which conflicts are written are told apart by their object
/// files.
pub proof fn lemma_conflict_unique(a: ConflictForm, b: ConflictForm)
    requires
        form_writable(a),
        form_writable(b),
        conflict_form_bytes(a) == conflict_form_bytes(b),
    ensures
        a == b,
{
    let e = Seq::<u8>::empty();
    lemma_file_unique(
        ObjectType::Conflict,
        conflict_header(a),
        e,
        ObjectType::Conflict,
        conflict_header(b),
        e,
    );
    lemma_conflict_keys();
    lemma_paths_fit(a);
    lemma_paths_fit(b);
    let a4 = cbor_text("theirs"@) + (cbor_bytes(a.theirs@) + e);
    let b4 = cbor_text("theirs"@) + (cbor_bytes(b.theirs@) + e);
    let a3 = opt_value_then("causal"@, a.has_causal, list_bytes::<ObjectId>(a.causal), a4);
    let b3 = opt_value_then("causal"@, b.has_causal, list_bytes::<ObjectId>(b.causal), b4);
    let a2 = opt_value_then("paths"@, a.has_paths, paths_bytes(a.paths), a3);
    let b2 = opt_value_then("paths"@, b.has_paths, paths_bytes(b.paths), b3);
    let a1 = opt_value_then("bases"@, a.has_bases, list_bytes::<ObjectId>(a.bases), a2);
    let b1 = opt_value_then("bases"@, b.has_bases, list_bytes::<ObjectId>(b.bases), b2);
    let a0 = cbor_text("ours"@) + (cbor_bytes(a.ours@) + a1);
    let b0 = cbor_text("ours"@) + (cbor_bytes(b.ours@) + b1);
    lemma_head_prefix(5, conflict_fields(a), a0, conflict_fields(b), b0);
    lemma_same_prefix(cbor_text("ours"@), cbor_bytes(a.ours@) + a1, cbor_bytes(b.ours@) + b1);
    lemma_bytes_prefix(a.ours@, a1, b.ours@, b1);
    lemma_id_ext(a.ours, b.ours);
    assert(starts_with_other_key(a4, "causal"@) && starts_with_other_key(b4, "causal"@));
    assert(starts_with_other_key(a3, "paths"@) && starts_with_other_key(b3, "paths"@));
    assert(starts_with_other_key(a2, "bases"@) && starts_with_other_key(b2, "bases"@));
    lemma_opt_value(
        "bases"@,
        a.has_bases,
        list_bytes::<ObjectId>(a.bases),
        a2,
        b.has_bases,
        list_bytes::<ObjectId>(b.bases),
        b2,
    );
    if a.has_bases {
        lemma_list_prefix::<ObjectId>(a.bases, a2, b.bases, b2);
    }
    lemma_opt_value(
        "paths"@,
        a.has_paths,
        paths_bytes(a.paths),
        a3,
        b.has_paths,
        paths_bytes(b.paths),
        b3,
    );
    if a.has_paths {
        lemma_list_prefix::<RawPath>(a.paths, a3, b.paths, b3);
    }
    lemma_opt_value(
        "causal"@,
        a.has_causal,
        list_bytes::<ObjectId>(a.causal),
        a4,
        b.has_causal,
        list_bytes::<ObjectId>(b.causal),
        b4,
    );
    if a.has_causal {
        lemma_list_prefix::<ObjectId>(a.causal, a4, b.causal, b4);
    }
    lemma_same_prefix(cbor_text("theirs"@), cbor_bytes(a.theirs@) + e, cbor_bytes(b.theirs@) + e);
    lemma_bytes_prefix(a.theirs@, e, b.theirs@, e);
    lemma_id_ext(a.theirs, b.theirs);
    assert(a.bases =~= b.bases);
    assert(a.paths =~= b.paths);
    assert(a.causal =~= b.causal);
}

/// An optional value is told apart from the keys that may come in its place.
proof fn lemma_opt_value(
    key: Seq<char>,
    pa: bool,
    va: Seq<u8>,
    ta: Seq<u8>,
    pb: bool,
    vb: Seq<u8>,
    tb: Seq<u8>,
)
    requires
        opt_value_then(key, pa, va, ta) == opt_value_then(key, pb, vb, tb),
        starts_with_other_key(ta, key),
        starts_with_other_key(tb, key),
        encode_utf8(key).len() < 24,
    ensures
        pa == pb,
        pa ==> va + ta == vb + tb,
        !pa ==> ta == tb,
{
    if pa && pb {
        lemma_same_prefix(cbor_text(key), va + ta, vb + tb);
    } else if pa {
        lemma_other_key(key, va + ta, tb);
    } else if pb {
        lemma_other_key(key, vb + tb, ta);
    }
}

/// Conflicts are told apart by their object files, however long their lists are.
pub proof fn lemma_conflict_values_unique(a: ConflictValue, b: ConflictValue)
    requires
        conflict_header(full_form(a)).len() <= u32::MAX,
        conflict_header(full_form(b)).len() <= u32::MAX,
        conflict_bytes(a) == conflict_bytes(b),
    ensures
        a == b,
{
    lemma_conflict_unique(full_form(a), full_form(b));
    assert(form_value(full_form(a)).paths =~= a.paths);
    assert(form_value(full_form(b)).paths =~= b.paths);
    assert(form_value(full_form(a)) == form_value(full_form(b)));
}

/// What a conflict beyond the limits is written as is the object file of no form that
/// can be read back.
pub proof fn lemma_conflict_over_limit(c: ConflictValue, f: ConflictForm)
    requires
        !conflict_bounded(c),
        conflict_header(full_form(c)).len() <= u32::MAX,
        form_valid(f),
    ensures
        conflict_form_bytes(f) != conflict_bytes(c),
{
    if conflict_form_bytes(f) == conflict_bytes(c) {
        let g = full_form(c);
        lemma_conflict_unique(f, g);
        assert(form_value(g).paths =~= c.paths);
    }
}

/// What a conflict is written as, with anything behind it, is the object file of no form
/// that can be read back.
pub proof fn lemma_conflict_trailing(c: ConflictValue, tail: Seq<u8>, f: ConflictForm)
    requires
        tail.len() > 0,
        conflict_header(full_form(c)).len() <= u32::MAX,
        form_valid(f),
    ensures
        conflict_form_bytes(f) != conflict_bytes(c) + tail,
{
    let h = conflict_header(full_form(c));
    assert(conflict_bytes(c) + tail =~= file_bytes(ObjectType::Conflict, h, tail));
    if conflict_form_bytes(f) == conflict_bytes(c) + tail {
        lemma_file_unique(
            ObjectType::Conflict,
            h,
            tail,
            ObjectType::Conflict,
            conflict_header(f),
            Seq::<u8>::empty(),
        );
    }
}

/// Most bytes of text that the path of a conflict may have for `lemma_conflict_fits`.
pub const MAX_PLAIN_PATH: u64 = 40_000;

/// A conflict within the limits whose paths are not too long can be written.
pub proof fn lemma_conflict_fits(c: ConflictValue)
    requires
        conflict_bounded(c),
        forall|i: int|
            0 <= i < c.paths.len() ==> encode_utf8((#[trigger] c.paths[i]).path).len()
                <= MAX_PLAIN_PATH,
    ensures
        conflict_header(full_form(c)).len() <= u32::MAX,
{
    let f = full_form(c);
    lemma_conflict_keys();
    lemma_path_keys();
    lemma_head_len(2, 32);
    lemma_head_len(3, 1);
    lemma_head_len(3, 4);
    lemma_head_len(3, 5);
    lemma_head_len(3, 6);
    lemma_head_len(5, 4);
    lemma_head_len(5, 5);
    lemma_head_len(4, f.bases.len() as u64);
    lemma_head_len(4, f.paths.len() as u64);
    lemma_head_len(4, f.causal.len() as u64);
    assert forall|i: int| 0 <= i < f.paths.len() implies (#[trigger] RawPath::wire(
        f.paths[i],
    )).len() <= 40_300 by {
        let v = f.paths[i].value;
        assert(v == c.paths[i]);
        lemma_head_len(3, encode_utf8(v.path).len() as u64);
    }
    lemma_items_max::<RawPath>(f.paths, 40_300);
    lemma_items_max::<ObjectId>(f.bases, 50);
    lemma_items_max::<ObjectId>(f.causal, 50);
    assert(40_300 * f.paths.len() <= 4_030_000_000);
    assert(50 * f.bases.len() <= 5_000_000);
    assert(50 * f.causal.len() <= 5_000_000);
}

/// What a conflict within the limits is written as can be read back, and only
/// as that conflict.
pub proof fn lemma_conflict_roundtrip(c: ConflictValue, f: ConflictForm)
    requires
        conflict_bounded(c),
        conflict_header(full_form(c)).len() <= u32::MAX,
        form_valid(f),
        conflict_form_bytes(f) == conflict_bytes(c),
    ensures
        form_valid(full_form(c)),
        form_value(f) == c,
{
    let g = full_form(c);
    assert(form_value(g).paths =~= c.paths);
    assert(form_valid(g));
    lemma_conflict_unique(f, g);
}

impl Fields for Conflict {
    open spec fn field(k: Seq<char>, s: Seq<u8>) -> Result<Seq<u8>, Fault> {
        if k == "bases"@ {
            list_scan::<ObjectId>(s, MAX_CONFLICT_ITEMS, "object id array exceeds limit"@)
        } else if k == "ours"@ {
            id_scan(s)
        } else if k == "theirs"@ {
            id_scan(s)
        } else if k == "causal"@ {
            list_scan::<ObjectId>(s, MAX_CONFLICT_ITEMS, "object id array exceeds limit"@)
        } else if k == "paths"@ {
            list_scan::<ConflictPath>(s, MAX_CONFLICT_ITEMS, "conflict path count exceeds limit"@)
        } else {
            Err(Fault::Corrupt("unknown conflict key "@ + k))
        }
    }

    open spec fn missing(seen: Seq<Seq<char>>) -> Option<Seq<char>> {
        if !seen.contains("ours"@) {
            Some("conflict ours"@)
        } else if !seen.contains("theirs"@) {
            Some("conflict theirs"@)
        } else {
            None
        }
    }

    open spec fn picky() -> bool {
        false
    }

    proof fn field_faults(k: Seq<char>, s: Seq<u8>) {
        lemma_id_scan(s);
        lemma_list_faults::<ConflictPath>(s, MAX_CONFLICT_ITEMS, "conflict path count exceeds limit"@);
        lemma_list_faults::<ObjectId>(s, MAX_CONFLICT_ITEMS, "object id array exceeds limit"@);
    }

    fn check_field(k: &str, r: &mut Reader<'_>) -> (res: Result<(), Error>) {
        if text_eq(k, "bases") {
            check_list::<ObjectId>(r, MAX_CONFLICT_ITEMS, "object id array exceeds limit")?;
        } else if text_eq(k, "ours") {
            r.bstr32()?;
        } else if text_eq(k, "theirs") {
            r.bstr32()?;
        } else if text_eq(k, "causal") {
            check_list::<ObjectId>(r, MAX_CONFLICT_ITEMS, "object id array exceeds limit")?;
        } else if text_eq(k, "paths") {
            check_list::<ConflictPath>(r, MAX_CONFLICT_ITEMS, "conflict path count exceeds limit")?;
        } else {
            return Err(unknown_key("unknown conflict key ", k));
        }
        Ok(())
    }

    fn find_missing(seen: &Vec<String>) -> (res: Option<&'static str>) {
        if !has_text(seen, "ours") {
            Some("conflict ours")
        } else if !has_text(seen, "theirs") {
            Some("conflict theirs")
        } else {
            None
        }
    }
}

/// What is wrong with bytes that are no conflict.
#[verifier::opaque]
pub open spec fn conflict_fault(b: Seq<u8>) -> Fault {
    object_fault::<Conflict>(
        b,
        ObjectType::Conflict,
        "not a conflict"@,
        "conflict has payload"@,
        "conflict header trailing bytes"@,
    )
}

impl Conflict {
    /// Check that the lists are within the limits. A conflict that is stored
    /// beyond them could not be read back.
    pub fn validate(&self) -> (r: Result<(), Error>)
        ensures
            match r {
                Ok(_) => conflict_bounded(self@),
                Err(e) => !conflict_bounded(self@) && told(
                    e,
                    Fault::Invalid("conflict fanout exceeds limit"@),
                ),
            },
    {
        if self.bases.len() as u64 > MAX_CONFLICT_ITEMS || self.paths.len() as u64
            > MAX_CONFLICT_ITEMS || self.causal.len() as u64 > MAX_CONFLICT_ITEMS {
            return Err(invalid("conflict fanout exceeds limit"));
        }
        Ok(())
    }

    /// The object file of the conflict. The header has to fit in 32 bits of
    /// length.
    pub fn encode(&self) -> (r: Vec<u8>)
        requires
            conflict_header(full_form(self@)).len() <= u32::MAX,
        ensures
            r@ == conflict_bytes(self@),
    {
        let mut raw: Vec<RawPath> = Vec::new();
        let mut i: usize = 0;
        while i < self.paths.len()
            invariant
                i <= self.paths@.len(),
                raw@.len() == i,
                forall|k: int|
                    0 <= k < i ==> (#[trigger] raw@[k]).val() == full_path(self.paths@[k]@),
            decreases self.paths@.len() - i,
        {
            let p = &self.paths[i];
            raw.push(
                RawPath {
                    path: ConflictPath {
                        path: p.path.clone(),
                        a: p.a,
                        b: p.b,
                        base: p.base,
                    },
                    has_a: true,
                    has_b: true,
                    has_base: true,
                },
            );
            i += 1;
        }
        let mut header: Vec<u8> = Vec::new();
        encode_map_header(&mut header, 5);
        encode_text(&mut header, "ours");
        encode_bytes(&mut header, self.ours.0.as_slice());
        encode_text(&mut header, "bases");
        write_list(&self.bases, &mut header);
        encode_text(&mut header, "paths");
        write_list(&raw, &mut header);
        encode_text(&mut header, "causal");
        write_list(&self.causal, &mut header);
        encode_text(&mut header, "theirs");
        encode_bytes(&mut header, self.theirs.0.as_slice());
        proof {
            let f = full_form(self@);
            assert(vals(self.bases@) =~= f.bases);
            assert(vals(self.causal@) =~= f.causal);
            assert(vals(raw@) =~= f.paths);
            assert(Seq::<u8>::empty() + head(5, 5) =~= head(5, 5));
            lemma_nest_11(
                head(5, 5),
                cbor_text("ours"@),
                cbor_bytes(f.ours@),
                cbor_text("bases"@),
                list_bytes::<ObjectId>(f.bases),
                cbor_text("paths"@),
                paths_bytes(f.paths),
                cbor_text("causal"@),
                list_bytes::<ObjectId>(f.causal),
                cbor_text("theirs"@),
                cbor_bytes(f.theirs@),
            );
        }
        let empty: Vec<u8> = Vec::new();
        encode_file(ObjectType::Conflict, header.as_slice(), empty.as_slice())
    }

    /// Accepts exactly the object files of conflicts within the limits. An
    /// empty list, or an id that is not there, may be left out.
    pub fn decode(bytes: &[u8]) -> (r: Result<Self, Error>)
        ensures
            match r {
                Ok(c) => exists|f: ConflictForm| #[trigger]
                    form_valid(f) && form_value(f) == c@ && conflict_form_bytes(f) == bytes@,
                Err(e) => told(e, conflict_fault(bytes@)) && e is Corrupt && forall|f: ConflictForm|
                    form_valid(f) ==> #[trigger] conflict_form_bytes(f) != bytes@,
            },
            forall|c: ConflictValue|
                conflict_header(full_form(c)).len() <= u32::MAX && #[trigger] conflict_bytes(c)
                    == bytes@ ==> if conflict_bounded(c) {
                    r matches Ok(d) && d@ == c
                } else {
                    r matches Err(Error::Corrupt(_))
                },
            forall|c: ConflictValue, tail: Seq<u8>|
                tail.len() > 0 && conflict_header(full_form(c)).len() <= u32::MAX && bytes@
                    == #[trigger] (conflict_bytes(c) + tail) ==> (r matches Err(
                    Error::Corrupt(_),
                )),
    {
        let r = match Self::read_form(bytes) {
            Some(c) => Ok(c),
            None => Err(
                object_error::<Conflict>(
                    bytes,
                    ObjectType::Conflict,
                    "not a conflict",
                    "conflict has payload",
                    "conflict header trailing bytes",
                ),
            ),
        };
        proof {
            reveal(conflict_fault);
            lemma_object_faults::<Conflict>(
                bytes@,
                ObjectType::Conflict,
                "not a conflict"@,
                "conflict has payload"@,
                "conflict header trailing bytes"@,
            );
            assert forall|c: ConflictValue|
                conflict_header(full_form(c)).len() <= u32::MAX && #[trigger] conflict_bytes(c)
                    == bytes@ implies if conflict_bounded(c) {
                r matches Ok(d) && d@ == c
            } else {
                r matches Err(Error::Corrupt(_))
            } by {
                let g = full_form(c);
                assert(form_value(g).paths =~= c.paths);
                if conflict_bounded(c) {
                    assert(form_valid(g));
                    assert(conflict_form_bytes(g) == bytes@);
                }
                if r is Ok {
                    let f = choose|f: ConflictForm| #[trigger]
                        form_valid(f) && form_value(f) == r->Ok_0@ && conflict_form_bytes(f)
                            == bytes@;
                    if conflict_bounded(c) {
                        lemma_conflict_roundtrip(c, f);
                    } else {
                        lemma_conflict_over_limit(c, f);
                    }
                }
            }
            assert forall|c: ConflictValue, tail: Seq<u8>|
                tail.len() > 0 && conflict_header(full_form(c)).len() <= u32::MAX && bytes@
                    == #[trigger] (conflict_bytes(c) + tail) implies (r matches Err(
                Error::Corrupt(_),
            )) by {
                if r is Ok {
                    let f = choose|f: ConflictForm| #[trigger]
                        form_valid(f) && form_value(f) == r->Ok_0@ && conflict_form_bytes(f)
                            == bytes@;
                    lemma_conflict_trailing(c, tail, f);
                }
            }
        }
        r
    }

    #[verifier::rlimit(80)]
    fn read_form(bytes: &[u8]) -> (r: Option<Self>)
        ensures
            match r {
                Some(c) => exists|f: ConflictForm| #[trigger]
                    form_valid(f) && form_value(f) == c@ && conflict_form_bytes(f) == bytes@,
                None => forall|f: ConflictForm|
                    form_valid(f) ==> #[trigger] conflict_form_bytes(f) != bytes@,
            },
    {
        let ghost known = exists|f: ConflictForm|
            form_valid(f) && #[trigger] conflict_form_bytes(f) == bytes@;
        let ghost w = choose|f: ConflictForm|
            form_valid(f) && #[trigger] conflict_form_bytes(f) == bytes@;
        proof {
            lemma_conflict_keys();
            lemma_conflict_header_len(w);
            assert(known ==> file_bytes(
                ObjectType::Conflict,
                conflict_header(w),
                Seq::<u8>::empty(),
            ) == bytes@);
            assert(known ==> all_proper::<RawPath>(w.paths));
        }
        let (ty, header, payload) = parse_file(bytes).ok()?;
        if ty != ObjectType::Conflict || payload.len() != 0 {
            return None;
        }
        assert(payload@ =~= Seq::<u8>::empty());
        let mut r = Reader::new(header);
        let n = r.map().ok()?;
        let mut last: Option<Vec<u8>> = None;
        expect_key(&mut r, &mut last, "ours")?;
        let ours = ObjectId(r.bstr32().ok()?);
        let mut key = r.text_map_key(&mut last).ok()?;
        let has_bases = text_eq(key.as_str(), "bases");
        assert(known ==> has_bases == w.has_bases);
        let mut bases: Vec<ObjectId> = Vec::new();
        if has_bases {
            bases = read_list::<ObjectId>(&mut r, MAX_CONFLICT_ITEMS)?;
            key = r.text_map_key(&mut last).ok()?;
        }
        let has_paths = text_eq(key.as_str(), "paths");
        assert(known ==> has_paths == w.has_paths);
        let mut raw: Vec<RawPath> = Vec::new();
        if has_paths {
            raw = read_list::<RawPath>(&mut r, MAX_CONFLICT_ITEMS)?;
            key = r.text_map_key(&mut last).ok()?;
        }
        let has_causal = text_eq(key.as_str(), "causal");
        assert(known ==> has_causal == w.has_causal);
        let mut causal: Vec<ObjectId> = Vec::new();
        if has_causal {
            causal = read_list::<ObjectId>(&mut r, MAX_CONFLICT_ITEMS)?;
            key = r.text_map_key(&mut last).ok()?;
        }
        if !text_eq(key.as_str(), "theirs") {
            return None;
        }
        let theirs = ObjectId(r.bstr32().ok()?);
        let used: u64 = 2 + (if has_bases {
            1u64
        } else {
            0
        }) + (if has_paths {
            1u64
        } else {
            0
        }) + (if has_causal {
            1u64
        } else {
            0
        });
        if n != used || !r.at_end() {
            return None;
        }
        let ghost f = ConflictForm {
            bases: bases@,
            ours,
            theirs,
            paths: vals(raw@),
            causal: causal@,
            has_bases,
            has_paths,
            has_causal,
        };
        proof {
            assert(r.rest() =~= Seq::<u8>::empty());
            assert(vals(bases@) =~= bases@);
            assert(vals(causal@) =~= causal@);
            assert(header@ == conflict_header(f));
            assert forall|i: int| 0 <= i < f.paths.len() implies path_form_proper(
                #[trigger] f.paths[i],
            ) by {
                assert(RawPath::proper(vals(raw@)[i]));
            }
        }
        let paths = strip_forms(raw);
        let c = Conflict { bases, ours, theirs, paths, causal };
        proof {
            assert(form_value(f).paths =~= c@.paths);
            assert(form_valid(f));
        }
        Some(c)
    }
}

/// The paths without the forms that they were written in.
fn strip_forms(raw: Vec<RawPath>) -> (r: Vec<ConflictPath>)
    ensures
        path_values(r@) == vals(raw@).map_values(|p: PathForm| p.value),
{
    let mut out: Vec<ConflictPath> = Vec::new();
    let mut i: usize = 0;
    while i < raw.len()
        invariant
            i <= raw@.len(),
            out@.len() == i,
            forall|k: int| 0 <= k < i ==> (#[trigger] out@[k])@ == raw@[k].path@,
        decreases raw@.len() - i,
    {
        let p = &raw[i].path;
        out.push(ConflictPath { path: p.path.clone(), a: p.a, b: p.b, base: p.base });
        i += 1;
    }
    assert(path_values(out@) =~= vals(raw@).map_values(|p: PathForm| p.value));
    out
}

} // verus!
