//! Contributions: what a commit was made from, as a checkable receipt.
use crate::bytes::{lemma_lex_transitive, lex_lt};
use crate::cbor::{
    cbor_bytes, cbor_text, cbor_u64, encode_bytes, encode_map_header, encode_text, encode_u64,
    head, lemma_bytes_prefix, lemma_head_len, lemma_head_prefix, lemma_key_order, lemma_nest_15,
    lemma_same_prefix, lemma_text_prefix, Reader,
};
use crate::items::{
    lemma_items_max, lemma_list_prefix, list_bytes, list_fits, read_list, vals, write_list, Item,
};
use crate::fields::{
    check_list, check_record, has_text, lemma_list_faults, lemma_record_faults, list_scan,
    record_scan, rest_of, Checked, Fields,
};
use crate::object::{
    encode_file, expect_key, file_bytes, lemma_file_unique, lemma_object_faults, lemma_value_lens,
    object_error, object_fault, parse_file, unknown_key,
};
use crate::scan::{
    id_scan, lemma_head_scan, lemma_id_scan, lemma_text_faults, text_scan, told, u64_scan, Fault,
};
use crate::text::{byte_len, chars_of, text_before, text_eq, text_lt};
use crate::types::{invalid, lemma_id_ext, Error, ObjectId, ObjectType};
use vstd::prelude::*;
use vstd::utf8::encode_utf8;

verus! {

/// The most reads, and the most writes, that a contribution may record.
pub const MAX_ITEMS: u64 = 100_000;

/// The most parents that a contribution may have.
pub const MAX_PARENTS: u64 = 1_024;

/// The longest path that a contribution may record.
pub const MAX_PATH_BYTES: usize = 4_096;

/// The longest name of an agent.
pub const MAX_AGENT_BYTES: usize = 1_024;

/// A path that was read, and what was seen there.
#[derive(Clone, Debug, PartialEq, Eq)]
pub struct ContributionRead {
    pub path: String,
    pub id: ObjectId,
}

/// A recorded read as a value.
pub struct ReadValue {
    pub path: Seq<char>,
    pub id: ObjectId,
}

impl View for ContributionRead {
    type V = ReadValue;

    open spec fn view(&self) -> ReadValue {
        ReadValue { path: self.path@, id: self.id }
    }
}

/// A receipt of machine-verifiable boundaries only: orchestration, prompts and
/// wall-clock ordering stay out of the object model.
#[derive(Clone, Debug, PartialEq, Eq)]
pub struct Contribution {
    pub base: ObjectId,
    pub tree: ObjectId,
    pub parents: Vec<ObjectId>,
    pub reads: Vec<ContributionRead>,
    pub writes: Vec<String>,
    pub agent: String,
    pub ts: u64,
}

/// A contribution as a value.
pub struct ContributionValue {
    pub base: ObjectId,
    pub tree: ObjectId,
    pub parents: Seq<ObjectId>,
    pub reads: Seq<ReadValue>,
    pub writes: Seq<Seq<char>>,
    pub agent: Seq<char>,
    pub ts: u64,
}

impl View for Contribution {
    type V = ContributionValue;

    open spec fn view(&self) -> ContributionValue {
        ContributionValue {
            base: self.base,
            tree: self.tree,
            parents: self.parents@,
            reads: vals(self.reads@),
            writes: vals(self.writes@),
            agent: self.agent@,
            ts: self.ts,
        }
    }
}

/// The encoding of a recorded read, followed by `t`.
pub open spec fn read_then(v: ReadValue, t: Seq<u8>) -> Seq<u8> {
    head(5, 2) + (cbor_text("p"@) + (cbor_text(v.path) + (cbor_text("id"@) + (cbor_bytes(v.id@)
        + t))))
}

proof fn lemma_read_keys()
    ensures
        lex_lt(cbor_text("p"@), cbor_text("id"@)),
        encode_utf8("p"@).len() == 1,
        encode_utf8("id"@).len() == 2,
{
    reveal_strlit("p");
    reveal_strlit("id");
    lemma_key_order("p"@, "id"@);
    vstd::utf8::is_ascii_chars_encode_utf8("p"@);
    vstd::utf8::is_ascii_chars_encode_utf8("id"@);
}

proof fn lemma_read_then(v: ReadValue, t: Seq<u8>)
    ensures
        ContributionRead::wire(v) + t == read_then(v, t),
        read_then(v, t).len() >= head(5, 2).len() + 4,
        read_then(v, t).len() >= encode_utf8(v.path).len(),
        ContributionRead::wire(v).len() <= encode_utf8(v.path).len() + 80,
{
    lemma_read_keys();
    lemma_head_len(5, 2);
    lemma_value_lens("p"@, v.id@, 0);
    lemma_value_lens("id"@, v.id@, 0);
    lemma_value_lens(v.path, v.id@, 0);
    assert(ContributionRead::wire(v) + t =~= read_then(v, t));
}

impl Item for ContributionRead {
    type Val = ReadValue;

    open spec fn val(&self) -> ReadValue {
        self@
    }

    open spec fn wire(v: ReadValue) -> Seq<u8> {
        read_then(v, Seq::<u8>::empty())
    }

    open spec fn fits(v: ReadValue) -> bool {
        encode_utf8(v.path).len() <= u64::MAX
    }

    open spec fn proper(v: ReadValue) -> bool {
        true
    }

    proof fn wire_nonempty(v: ReadValue) {
        lemma_read_then(v, Seq::<u8>::empty());
    }

    proof fn wire_prefix(a: ReadValue, t: Seq<u8>, b: ReadValue, u: Seq<u8>) {
        lemma_read_then(a, t);
        lemma_read_then(b, u);
        let a2 = cbor_text("id"@) + (cbor_bytes(a.id@) + t);
        let b2 = cbor_text("id"@) + (cbor_bytes(b.id@) + u);
        let a1 = cbor_text("p"@) + (cbor_text(a.path) + a2);
        let b1 = cbor_text("p"@) + (cbor_text(b.path) + b2);
        lemma_same_prefix(head(5, 2), a1, b1);
        lemma_same_prefix(cbor_text("p"@), cbor_text(a.path) + a2, cbor_text(b.path) + b2);
        lemma_text_prefix(a.path, a2, b.path, b2);
        lemma_same_prefix(cbor_text("id"@), cbor_bytes(a.id@) + t, cbor_bytes(b.id@) + u);
        lemma_bytes_prefix(a.id@, t, b.id@, u);
        lemma_id_ext(a.id, b.id);
    }

    fn write(&self, out: &mut Vec<u8>) {
        encode_map_header(out, 2);
        encode_text(out, "p");
        encode_text(out, self.path.as_str());
        encode_text(out, "id");
        encode_bytes(out, self.id.0.as_slice());
        assert(out@ =~= old(out)@ + Self::wire(self.val()));
    }

    fn read(r: &mut Reader<'_>) -> (res: Option<Self>) {
        let ghost before = r.rest();
        proof {
            lemma_read_keys();
            assert forall|v: ReadValue, t: Seq<u8>| before == #[trigger] (Self::wire(v)
                + t) implies before == read_then(v, t) && before.len() >= head(5, 2).len() + 4 by {
                lemma_read_then(v, t);
            }
        }
        let n = r.map().ok()?;
        if n != 2 {
            return None;
        }
        let mut last: Option<Vec<u8>> = None;
        expect_key(r, &mut last, "p")?;
        let path = r.text().ok()?;
        let size = byte_len(path.as_str());
        expect_key(r, &mut last, "id")?;
        let id = ObjectId(r.bstr32().ok()?);
        let x = ContributionRead { path, id };
        proof {
            lemma_read_then(x@, r.rest());
            assert forall|v: ReadValue, t: Seq<u8>| before == #[trigger] (Self::wire(v)
                + t) implies x@ == v && r.rest() == t by {
                lemma_read_then(v, t);
                Self::wire_prefix(x@, r.rest(), v, t);
            }
        }
        Some(x)
    }
}

impl Fields for ContributionRead {
    open spec fn field(k: Seq<char>, s: Seq<u8>) -> Result<Seq<u8>, Fault> {
        if k == "p"@ {
            rest_of(text_scan(s, None))
        } else if k == "id"@ {
            id_scan(s)
        } else {
            Err(Fault::Corrupt("unknown contribution read key "@ + k))
        }
    }

    open spec fn missing(seen: Seq<Seq<char>>) -> Option<Seq<char>> {
        if !seen.contains("p"@) {
            Some("contribution read path"@)
        } else if !seen.contains("id"@) {
            Some("contribution read id"@)
        } else {
            None
        }
    }

    open spec fn picky() -> bool {
        false
    }

    proof fn field_faults(k: Seq<char>, s: Seq<u8>) {
        lemma_id_scan(s);
        lemma_text_faults(s, None);
    }

    fn check_field(k: &str, r: &mut Reader<'_>) -> (res: Result<(), Error>) {
        if text_eq(k, "p") {
            r.text()?;
        } else if text_eq(k, "id") {
            r.bstr32()?;
        } else {
            return Err(unknown_key("unknown contribution read key ", k));
        }
        Ok(())
    }

    fn find_missing(seen: &Vec<String>) -> (res: Option<&'static str>) {
        if !has_text(seen, "p") {
            Some("contribution read path")
        } else if !has_text(seen, "id") {
            Some("contribution read id")
        } else {
            None
        }
    }
}

impl Checked for ContributionRead {
    open spec fn scan(s: Seq<u8>) -> Result<Seq<u8>, Fault> {
        record_scan::<ContributionRead>(s)
    }

    open spec fn fussy() -> bool {
        false
    }

    proof fn scan_faults(s: Seq<u8>) {
        lemma_record_faults::<ContributionRead>(s);
    }

    fn check(r: &mut Reader<'_>) -> (res: Result<(), Error>) {
        check_record::<ContributionRead>(r)
    }
}

/// A path that a contribution may record.
pub open spec fn path_ok(p: Seq<char>) -> bool {
    1 <= encode_utf8(p).len() <= MAX_PATH_BYTES && !p.contains('\0')
}

/// Paths that a contribution may record: each within the bounds, and strictly
/// increasing by their bytes.
pub open spec fn paths_ok(ps: Seq<Seq<char>>) -> bool {
    &&& forall|i: int| 0 <= i < ps.len() ==> path_ok(#[trigger] ps[i])
    &&& forall|i: int, j: int|
        0 <= i < j < ps.len() ==> text_before(#[trigger] ps[i], #[trigger] ps[j])
}

/// The paths of recorded reads.
pub open spec fn read_paths(reads: Seq<ReadValue>) -> Seq<Seq<char>> {
    reads.map_values(|r: ReadValue| r.path)
}

/// A contribution within its bounds.
pub open spec fn contribution_valid(c: ContributionValue) -> bool {
    &&& c.parents.len() <= MAX_PARENTS
    &&& c.reads.len() <= MAX_ITEMS
    &&& c.writes.len() <= MAX_ITEMS
    &&& 1 <= encode_utf8(c.agent).len() <= MAX_AGENT_BYTES
    &&& paths_ok(read_paths(c.reads))
    &&& paths_ok(c.writes)
}

/// The header of a contribution.
pub open spec fn contribution_header(c: ContributionValue) -> Seq<u8> {
    head(5, 7) + (cbor_text("ts"@) + (cbor_u64(c.ts) + (cbor_text("base"@) + (cbor_bytes(c.base@)
        + (cbor_text("tree"@) + (cbor_bytes(c.tree@) + (cbor_text("agent"@) + (cbor_text(c.agent)
        + (cbor_text("reads"@) + (list_bytes::<ContributionRead>(c.reads) + (cbor_text("writes"@)
        + (list_bytes::<String>(c.writes) + (cbor_text("parents"@) + (list_bytes::<ObjectId>(
        c.parents,
    ) + Seq::<u8>::empty()))))))))))))))
}

/// A contribution that can be written down, whether or not its agent and its paths are
/// within their bounds.
pub open spec fn contribution_listed(c: ContributionValue) -> bool {
    &&& c.parents.len() <= MAX_PARENTS
    &&& c.reads.len() <= MAX_ITEMS
    &&& c.writes.len() <= MAX_ITEMS
    &&& list_fits::<ContributionRead>(c.reads)
    &&& list_fits::<String>(c.writes)
    &&& encode_utf8(c.agent).len() <= u64::MAX
    &&& contribution_header(c).len() <= u32::MAX
}

/// The first place at which paths are not as a contribution may record them.
pub open spec fn stops_at(ps: Seq<Seq<char>>, i: int) -> bool {
    &&& 0 <= i < ps.len()
    &&& paths_ok(ps.take(i))
    &&& !paths_ok(ps.take(i + 1))
}

/// How paths that a contribution may not record are refused.
pub open spec fn paths_fault(ps: Seq<Seq<char>>) -> Seq<char> {
    let i = choose|i: int| #[trigger] stops_at(ps, i);
    if path_ok(ps[i]) {
        "contribution paths must be bytewise sorted unique"@
    } else {
        "contribution path bounds"@
    }
}

/// How a contribution beyond its bounds is refused.
pub open spec fn bounds_fault(c: ContributionValue) -> Seq<char> {
    if c.parents.len() > MAX_PARENTS || c.reads.len() > MAX_ITEMS || c.writes.len() > MAX_ITEMS {
        "contribution fanout exceeds limit"@
    } else if !(1 <= encode_utf8(c.agent).len() <= MAX_AGENT_BYTES) {
        "contribution agent bounds"@
    } else if !paths_ok(read_paths(c.reads)) {
        paths_fault(read_paths(c.reads))
    } else {
        paths_fault(c.writes)
    }
}

proof fn lemma_stops(ps: Seq<Seq<char>>, i: int)
    requires
        0 <= i < ps.len(),
        paths_ok(ps.take(i)),
        !(path_ok(ps[i]) && (i > 0 ==> text_before(ps[i - 1], ps[i]))),
    ensures
        !paths_ok(ps),
        paths_fault(ps) == if path_ok(ps[i]) {
            "contribution paths must be bytewise sorted unique"@
        } else {
            "contribution path bounds"@
        },
{
    assert(ps.take(i + 1)[i] == ps[i]);
    if i > 0 {
        assert(ps.take(i + 1)[i - 1] == ps[i - 1]);
    }
    assert(stops_at(ps, i));
    let k = choose|k: int| #[trigger] stops_at(ps, k);
    if k < i {
        assert forall|x: int| 0 <= x < k + 1 implies path_ok(#[trigger] ps.take(k + 1)[x]) by {
            assert(ps.take(i)[x] == ps.take(k + 1)[x]);
        }
        assert forall|x: int, y: int| 0 <= x < y < k + 1 implies text_before(
            #[trigger] ps.take(k + 1)[x],
            #[trigger] ps.take(k + 1)[y],
        ) by {
            assert(ps.take(i)[x] == ps.take(k + 1)[x]);
            assert(ps.take(i)[y] == ps.take(k + 1)[y]);
        }
    } else if i < k {
        assert(ps.take(k)[i] == ps[i]);
        if i > 0 {
            assert(ps.take(k)[i - 1] == ps[i - 1]);
        }
    }
}

/// The object file of a contribution.
pub open spec fn contribution_bytes(c: ContributionValue) -> Seq<u8> {
    file_bytes(ObjectType::Contribution, contribution_header(c), Seq::<u8>::empty())
}

proof fn lemma_contribution_keys()
    ensures
        lex_lt(cbor_text("ts"@), cbor_text("base"@)),
        lex_lt(cbor_text("base"@), cbor_text("tree"@)),
        lex_lt(cbor_text("tree"@), cbor_text("agent"@)),
        lex_lt(cbor_text("agent"@), cbor_text("reads"@)),
        lex_lt(cbor_text("reads"@), cbor_text("writes"@)),
        lex_lt(cbor_text("writes"@), cbor_text("parents"@)),
        encode_utf8("ts"@).len() == 2,
        encode_utf8("base"@).len() == 4,
        encode_utf8("tree"@).len() == 4,
        encode_utf8("agent"@).len() == 5,
        encode_utf8("reads"@).len() == 5,
        encode_utf8("writes"@).len() == 6,
        encode_utf8("parents"@).len() == 7,
{
    reveal_strlit("ts");
    reveal_strlit("base");
    reveal_strlit("tree");
    reveal_strlit("agent");
    reveal_strlit("reads");
    reveal_strlit("writes");
    reveal_strlit("parents");
    lemma_key_order("ts"@, "base"@);
    lemma_key_order("base"@, "tree"@);
    lemma_key_order("tree"@, "agent"@);
    lemma_key_order("agent"@, "reads"@);
    lemma_key_order("reads"@, "writes"@);
    lemma_key_order("writes"@, "parents"@);
    vstd::utf8::is_ascii_chars_encode_utf8("ts"@);
    vstd::utf8::is_ascii_chars_encode_utf8("base"@);
    vstd::utf8::is_ascii_chars_encode_utf8("tree"@);
    vstd::utf8::is_ascii_chars_encode_utf8("agent"@);
    vstd::utf8::is_ascii_chars_encode_utf8("reads"@);
    vstd::utf8::is_ascii_chars_encode_utf8("writes"@);
    vstd::utf8::is_ascii_chars_encode_utf8("parents"@);
}

/// The header of a contribution within its bounds fits in an object file, and
/// every length in it fits in its head.
/// Every header of a contribution has room for its fields.
proof fn lemma_contribution_least(c: ContributionValue)
    ensures
        head(5, 7).len() + 14 <= contribution_header(c).len(),
{
    lemma_contribution_keys();
    lemma_head_len(5, 7);
    lemma_value_lens("ts"@, c.base@, c.ts);
    lemma_value_lens("base"@, c.tree@, c.ts);
    lemma_value_lens("tree"@, c.tree@, c.ts);
    lemma_value_lens("agent"@, c.tree@, c.ts);
    lemma_value_lens(c.agent, c.tree@, c.ts);
    lemma_value_lens("reads"@, c.tree@, c.ts);
    lemma_value_lens("writes"@, c.tree@, c.ts);
    lemma_value_lens("parents"@, c.tree@, c.ts);
    lemma_head_len(4, c.reads.len() as u64);
    lemma_head_len(4, c.writes.len() as u64);
    lemma_head_len(4, c.parents.len() as u64);
}

pub proof fn lemma_contribution_len(c: ContributionValue)
    requires
        contribution_valid(c),
    ensures
        head(5, 7).len() + 14 <= contribution_header(c).len() <= u32::MAX,
        contribution_listed(c),
{
    lemma_contribution_keys();
    lemma_head_len(5, 7);
    lemma_value_lens("ts"@, c.base@, c.ts);
    lemma_value_lens("base"@, c.tree@, c.ts);
    lemma_value_lens("tree"@, c.tree@, c.ts);
    lemma_value_lens("agent"@, c.tree@, c.ts);
    lemma_value_lens(c.agent, c.tree@, c.ts);
    lemma_value_lens("reads"@, c.tree@, c.ts);
    lemma_value_lens("writes"@, c.tree@, c.ts);
    lemma_value_lens("parents"@, c.tree@, c.ts);
    lemma_head_len(4, c.reads.len() as u64);
    lemma_head_len(4, c.writes.len() as u64);
    lemma_head_len(4, c.parents.len() as u64);
    assert forall|i: int| 0 <= i < c.reads.len() implies (#[trigger] ContributionRead::wire(
        c.reads[i],
    )).len() <= 4200 by {
        assert(path_ok(read_paths(c.reads)[i]));
        lemma_read_then(c.reads[i], Seq::<u8>::empty());
    }
    lemma_items_max::<ContributionRead>(c.reads, 4200);
    assert forall|i: int| 0 <= i < c.writes.len() implies (#[trigger] String::wire(
        c.writes[i],
    )).len() <= 4200 by {
        assert(path_ok(c.writes[i]));
        lemma_value_lens(c.writes[i], c.tree@, 0);
    }
    lemma_items_max::<String>(c.writes, 4200);
    assert forall|i: int| 0 <= i < c.parents.len() implies (#[trigger] ObjectId::wire(
        c.parents[i],
    )).len() <= 41 by {
        lemma_value_lens("ts"@, c.parents[i]@, 0);
    }
    lemma_items_max::<ObjectId>(c.parents, 41);
    assert(4200 * c.reads.len() <= 420_000_000);
    assert(4200 * c.writes.len() <= 420_000_000);
    assert(41 * c.parents.len() <= 50_000);
    assert forall|i: int| 0 <= i < c.reads.len() implies ContributionRead::fits(
        #[trigger] c.reads[i],
    ) by {
        assert(path_ok(read_paths(c.reads)[i]));
    }
    assert forall|i: int| 0 <= i < c.writes.len() implies String::fits(#[trigger] c.writes[i]) by {
        assert(path_ok(c.writes[i]));
    }
}

/// Contributions are told apart by their object files.
pub proof fn lemma_contribution_unique(a: ContributionValue, b: ContributionValue)
    requires
        contribution_listed(a),
        contribution_listed(b),
        contribution_bytes(a) == contribution_bytes(b),
    ensures
        a == b,
{
    let e = Seq::<u8>::empty();
    lemma_file_unique(
        ObjectType::Contribution,
        contribution_header(a),
        e,
        ObjectType::Contribution,
        contribution_header(b),
        e,
    );
    let a6 = cbor_text("parents"@) + (list_bytes::<ObjectId>(a.parents) + e);
    let b6 = cbor_text("parents"@) + (list_bytes::<ObjectId>(b.parents) + e);
    let a5 = cbor_text("writes"@) + (list_bytes::<String>(a.writes) + a6);
    let b5 = cbor_text("writes"@) + (list_bytes::<String>(b.writes) + b6);
    let a4 = cbor_text("reads"@) + (list_bytes::<ContributionRead>(a.reads) + a5);
    let b4 = cbor_text("reads"@) + (list_bytes::<ContributionRead>(b.reads) + b5);
    let a3 = cbor_text("agent"@) + (cbor_text(a.agent) + a4);
    let b3 = cbor_text("agent"@) + (cbor_text(b.agent) + b4);
    let a2 = cbor_text("tree"@) + (cbor_bytes(a.tree@) + a3);
    let b2 = cbor_text("tree"@) + (cbor_bytes(b.tree@) + b3);
    let a1 = cbor_text("base"@) + (cbor_bytes(a.base@) + a2);
    let b1 = cbor_text("base"@) + (cbor_bytes(b.base@) + b2);
    let a0 = cbor_text("ts"@) + (cbor_u64(a.ts) + a1);
    let b0 = cbor_text("ts"@) + (cbor_u64(b.ts) + b1);
    lemma_same_prefix(head(5, 7), a0, b0);
    lemma_same_prefix(cbor_text("ts"@), cbor_u64(a.ts) + a1, cbor_u64(b.ts) + b1);
    lemma_head_prefix(0, a.ts, a1, b.ts, b1);
    lemma_same_prefix(cbor_text("base"@), cbor_bytes(a.base@) + a2, cbor_bytes(b.base@) + b2);
    lemma_bytes_prefix(a.base@, a2, b.base@, b2);
    lemma_same_prefix(cbor_text("tree"@), cbor_bytes(a.tree@) + a3, cbor_bytes(b.tree@) + b3);
    lemma_bytes_prefix(a.tree@, a3, b.tree@, b3);
    lemma_same_prefix(cbor_text("agent"@), cbor_text(a.agent) + a4, cbor_text(b.agent) + b4);
    lemma_text_prefix(a.agent, a4, b.agent, b4);
    lemma_same_prefix(
        cbor_text("reads"@),
        list_bytes::<ContributionRead>(a.reads) + a5,
        list_bytes::<ContributionRead>(b.reads) + b5,
    );
    lemma_list_prefix::<ContributionRead>(a.reads, a5, b.reads, b5);
    lemma_same_prefix(
        cbor_text("writes"@),
        list_bytes::<String>(a.writes) + a6,
        list_bytes::<String>(b.writes) + b6,
    );
    lemma_list_prefix::<String>(a.writes, a6, b.writes, b6);
    lemma_same_prefix(
        cbor_text("parents"@),
        list_bytes::<ObjectId>(a.parents) + e,
        list_bytes::<ObjectId>(b.parents) + e,
    );
    lemma_list_prefix::<ObjectId>(a.parents, e, b.parents, e);
    lemma_id_ext(a.base, b.base);
    lemma_id_ext(a.tree, b.tree);
}

fn validate_path(path: &str) -> (r: Result<(), Error>)
    ensures
        match r {
            Ok(_) => path_ok(path@),
            Err(e) => !path_ok(path@) && told(e, Fault::Invalid("contribution path bounds"@)),
        },
{
    let n = byte_len(path);
    let cs = chars_of(path);
    let mut nul = false;
    let mut i: usize = 0;
    while i < cs.len()
        invariant
            i <= cs@.len(),
            cs@ == path@,
            nul ==> path@.contains('\0'),
            !nul ==> forall|j: int| 0 <= j < i ==> path@[j] != '\0',
        decreases cs@.len() - i,
    {
        if cs[i] == '\0' {
            assert(path@.contains(path@[i as int]));
            nul = true;
        }
        i += 1;
    }
    if n == 0 || n > MAX_PATH_BYTES || nul {
        return Err(invalid("contribution path bounds"));
    }
    Ok(())
}

/// The last path of an increasing sequence, or the place where it stops
/// increasing, decides for the whole.
proof fn lemma_paths_push(ps: Seq<Seq<char>>, p: Seq<char>)
    requires
        paths_ok(ps),
        path_ok(p),
        ps.len() > 0 ==> text_before(ps.last(), p),
    ensures
        paths_ok(ps.push(p)),
{
    let all = ps.push(p);
    assert forall|i: int, j: int| 0 <= i < j < all.len() implies text_before(
        #[trigger] all[i],
        #[trigger] all[j],
    ) by {
        if j == ps.len() && i < ps.len() - 1 {
            assert(text_before(ps[i], ps[ps.len() - 1]));
            lemma_lex_transitive(
                encode_utf8(ps[i]),
                encode_utf8(ps[ps.len() - 1]),
                encode_utf8(p),
            );
        }
    }
}

/// Check one path against those before it.
fn validate_next(path: &str, prev: Option<&str>) -> (r: Result<(), Error>)
    ensures
        match r {
            Ok(_) => path_ok(path@) && (prev matches Some(q) ==> text_before(q@, path@)),
            Err(e) => !(path_ok(path@) && (prev matches Some(q) ==> text_before(q@, path@)))
                && told(
                e,
                Fault::Invalid(
                    if path_ok(path@) {
                        "contribution paths must be bytewise sorted unique"@
                    } else {
                        "contribution path bounds"@
                    },
                ),
            ),
        },
{
    validate_path(path)?;
    if let Some(prev) = prev {
        if !text_lt(prev, path) {
            return Err(invalid("contribution paths must be bytewise sorted unique"));
        }
    }
    Ok(())
}

fn validate_reads(reads: &Vec<ContributionRead>) -> (r: Result<(), Error>)
    ensures
        match r {
            Ok(_) => paths_ok(read_paths(vals(reads@))),
            Err(e) => !paths_ok(read_paths(vals(reads@))) && told(
                e,
                Fault::Invalid(paths_fault(read_paths(vals(reads@)))),
            ),
        },
{
    let ghost all = read_paths(vals(reads@));
    let mut i: usize = 0;
    while i < reads.len()
        invariant
            i <= reads@.len(),
            all == read_paths(vals(reads@)),
            paths_ok(all.take(i as int)),
        decreases reads@.len() - i,
    {
        let prev: Option<&str> = if i == 0 {
            None
        } else {
            Some(reads[i - 1].path.as_str())
        };
        let r = validate_next(reads[i].path.as_str(), prev);
        assert(all[i as int] == reads@[i as int].path@);
        assert(i > 0 ==> all[i - 1] == reads@[i - 1].path@);
        if let Err(e) = r {
            proof {
                lemma_stops(all, i as int);
            }
            return Err(e);
        }
        proof {
            lemma_paths_push(all.take(i as int), all[i as int]);
            assert(all.take(i + 1) =~= all.take(i as int).push(all[i as int]));
        }
        i += 1;
    }
    assert(all.take(i as int) =~= all);
    Ok(())
}

fn validate_writes(writes: &Vec<String>) -> (r: Result<(), Error>)
    ensures
        match r {
            Ok(_) => paths_ok(vals(writes@)),
            Err(e) => !paths_ok(vals(writes@)) && told(
                e,
                Fault::Invalid(paths_fault(vals(writes@))),
            ),
        },
{
    let ghost all = vals(writes@);
    let mut i: usize = 0;
    while i < writes.len()
        invariant
            i <= writes@.len(),
            all == vals(writes@),
            paths_ok(all.take(i as int)),
        decreases writes@.len() - i,
    {
        let prev: Option<&str> = if i == 0 {
            None
        } else {
            Some(writes[i - 1].as_str())
        };
        let r = validate_next(writes[i].as_str(), prev);
        assert(all[i as int] == writes@[i as int]@);
        assert(i > 0 ==> all[i - 1] == writes@[i - 1]@);
        if let Err(e) = r {
            proof {
                lemma_stops(all, i as int);
            }
            return Err(e);
        }
        proof {
            lemma_paths_push(all.take(i as int), all[i as int]);
            assert(all.take(i + 1) =~= all.take(i as int).push(all[i as int]));
        }
        i += 1;
    }
    assert(all.take(i as int) =~= all);
    Ok(())
}

impl Fields for Contribution {
    open spec fn field(k: Seq<char>, s: Seq<u8>) -> Result<Seq<u8>, Fault> {
        if k == "base"@ {
            id_scan(s)
        } else if k == "tree"@ {
            id_scan(s)
        } else if k == "parents"@ {
            list_scan::<ObjectId>(s, MAX_PARENTS, "contribution parent count exceeds limit"@)
        } else if k == "reads"@ {
            list_scan::<ContributionRead>(s, MAX_ITEMS, "contribution read count exceeds limit"@)
        } else if k == "writes"@ {
            list_scan::<String>(s, MAX_ITEMS, "contribution write count exceeds limit"@)
        } else if k == "agent"@ {
            rest_of(text_scan(s, None))
        } else if k == "ts"@ {
            rest_of(u64_scan(s))
        } else {
            Err(Fault::Corrupt("unknown contribution key "@ + k))
        }
    }

    open spec fn missing(seen: Seq<Seq<char>>) -> Option<Seq<char>> {
        if !seen.contains("base"@) {
            Some("contribution base"@)
        } else if !seen.contains("tree"@) {
            Some("contribution tree"@)
        } else if !seen.contains("parents"@) {
            Some("contribution parents"@)
        } else if !seen.contains("reads"@) {
            Some("contribution reads"@)
        } else if !seen.contains("writes"@) {
            Some("contribution writes"@)
        } else if !seen.contains("agent"@) {
            Some("contribution agent"@)
        } else if !seen.contains("ts"@) {
            Some("contribution ts"@)
        } else {
            None
        }
    }

    open spec fn picky() -> bool {
        false
    }

    proof fn field_faults(k: Seq<char>, s: Seq<u8>) {
        lemma_head_scan(s, 0, "expected uint"@);
        lemma_id_scan(s);
        lemma_list_faults::<ContributionRead>(s, MAX_ITEMS, "contribution read count exceeds limit"@);
        lemma_list_faults::<ObjectId>(s, MAX_PARENTS, "contribution parent count exceeds limit"@);
        lemma_list_faults::<String>(s, MAX_ITEMS, "contribution write count exceeds limit"@);
        lemma_text_faults(s, None);
    }

    fn check_field(k: &str, r: &mut Reader<'_>) -> (res: Result<(), Error>) {
        if text_eq(k, "base") {
            r.bstr32()?;
        } else if text_eq(k, "tree") {
            r.bstr32()?;
        } else if text_eq(k, "parents") {
            check_list::<ObjectId>(r, MAX_PARENTS, "contribution parent count exceeds limit")?;
        } else if text_eq(k, "reads") {
            check_list::<ContributionRead>(r, MAX_ITEMS, "contribution read count exceeds limit")?;
        } else if text_eq(k, "writes") {
            check_list::<String>(r, MAX_ITEMS, "contribution write count exceeds limit")?;
        } else if text_eq(k, "agent") {
            r.text()?;
        } else if text_eq(k, "ts") {
            r.u64()?;
        } else {
            return Err(unknown_key("unknown contribution key ", k));
        }
        Ok(())
    }

    fn find_missing(seen: &Vec<String>) -> (res: Option<&'static str>) {
        if !has_text(seen, "base") {
            Some("contribution base")
        } else if !has_text(seen, "tree") {
            Some("contribution tree")
        } else if !has_text(seen, "parents") {
            Some("contribution parents")
        } else if !has_text(seen, "reads") {
            Some("contribution reads")
        } else if !has_text(seen, "writes") {
            Some("contribution writes")
        } else if !has_text(seen, "agent") {
            Some("contribution agent")
        } else if !has_text(seen, "ts") {
            Some("contribution ts")
        } else {
            None
        }
    }
}

impl Contribution {
    fn validate(&self) -> (r: Result<(), Error>)
        ensures
            match r {
                Ok(_) => contribution_valid(self@),
                Err(e) => !contribution_valid(self@) && told(
                    e,
                    Fault::Invalid(bounds_fault(self@)),
                ),
            },
    {
        if self.parents.len() as u64 > MAX_PARENTS || self.reads.len() as u64 > MAX_ITEMS
            || self.writes.len() as u64 > MAX_ITEMS {
            return Err(invalid("contribution fanout exceeds limit"));
        }
        let n = byte_len(self.agent.as_str());
        if n == 0 || n > MAX_AGENT_BYTES {
            return Err(invalid("contribution agent bounds"));
        }
        validate_reads(&self.reads)?;
        validate_writes(&self.writes)?;
        Ok(())
    }

    /// The object file of the contribution, where it is within its bounds.
    pub fn encode(&self) -> (r: Result<Vec<u8>, Error>)
        ensures
            match r {
                Ok(b) => contribution_valid(self@) && b@ == contribution_bytes(self@),
                Err(e) => !contribution_valid(self@) && told(
                    e,
                    Fault::Invalid(bounds_fault(self@)),
                ),
            },
    {
        self.validate()?;
        let mut header: Vec<u8> = Vec::new();
        encode_map_header(&mut header, 7);
        encode_text(&mut header, "ts");
        encode_u64(&mut header, self.ts);
        encode_text(&mut header, "base");
        encode_bytes(&mut header, self.base.0.as_slice());
        encode_text(&mut header, "tree");
        encode_bytes(&mut header, self.tree.0.as_slice());
        encode_text(&mut header, "agent");
        encode_text(&mut header, self.agent.as_str());
        encode_text(&mut header, "reads");
        write_list(&self.reads, &mut header);
        encode_text(&mut header, "writes");
        write_list(&self.writes, &mut header);
        encode_text(&mut header, "parents");
        write_list(&self.parents, &mut header);
        proof {
            let c = self@;
            lemma_contribution_len(c);
            assert(vals(self.parents@) =~= c.parents);
            assert(Seq::<u8>::empty() + head(5, 7) =~= head(5, 7));
            lemma_nest_15(
                head(5, 7),
                cbor_text("ts"@),
                cbor_u64(c.ts),
                cbor_text("base"@),
                cbor_bytes(c.base@),
                cbor_text("tree"@),
                cbor_bytes(c.tree@),
                cbor_text("agent"@),
                cbor_text(c.agent),
                cbor_text("reads"@),
                list_bytes::<ContributionRead>(c.reads),
                cbor_text("writes"@),
                list_bytes::<String>(c.writes),
                cbor_text("parents"@),
                list_bytes::<ObjectId>(c.parents),
            );
        }
        let empty: Vec<u8> = Vec::new();
        Ok(encode_file(ObjectType::Contribution, header.as_slice(), empty.as_slice()))
    }

    /// Accepts exactly the object files of contributions within their bounds.
    pub fn decode(bytes: &[u8]) -> (r: Result<Self, Error>)
        ensures
            match r {
                Ok(c) => contribution_valid(c@) && contribution_bytes(c@) == bytes@,
                Err(e) => told(e, contribution_fault(bytes@)) && e is Corrupt && forall|
                    c: ContributionValue,
                | contribution_valid(c) ==> #[trigger] contribution_bytes(c) != bytes@,
            },
            forall|c: ContributionValue|
                contribution_valid(c) && #[trigger] contribution_bytes(c) == bytes@ ==> (
                r matches Ok(d) && d@ == c),
    {
        proof {
            reveal(contribution_fault);
            assert forall|c: ContributionValue|
                contribution_valid(c) && #[trigger] contribution_bytes(c)
                    == bytes@ implies contribution_listed(c) by {
                lemma_contribution_len(c);
            }
        }
        match Self::read_listed(bytes) {
            Some(c) => match c.validate() {
                Ok(_) => Ok(c),
                Err(e) => Err(Error::Corrupt(e.message())),
            },
            None => {
                proof {
                    lemma_object_faults::<Contribution>(
                        bytes@,
                        ObjectType::Contribution,
                        "not a contribution"@,
                        "contribution has payload"@,
                        "contribution header trailing bytes"@,
                    );
                }
                Err(
                    object_error::<Contribution>(
                        bytes,
                        ObjectType::Contribution,
                        "not a contribution",
                        "contribution has payload",
                        "contribution header trailing bytes",
                    ),
                )
            },
        }
    }

    /// Read a contribution, whether or not its agent and its paths are within their bounds.
    #[verifier::rlimit(60)]
    fn read_listed(bytes: &[u8]) -> (r: Option<Self>)
        ensures
            r matches Some(c) ==> contribution_listed(c@) && contribution_bytes(c@) == bytes@,
            forall|c: ContributionValue|
                contribution_listed(c) && #[trigger] contribution_bytes(c) == bytes@ ==> (
                r matches Some(d) && d@ == c),
    {
        let ghost known = exists|c: ContributionValue|
            contribution_listed(c) && #[trigger] contribution_bytes(c) == bytes@;
        let ghost w = choose|c: ContributionValue|
            contribution_listed(c) && #[trigger] contribution_bytes(c) == bytes@;
        proof {
            lemma_contribution_keys();
            if known {
                lemma_contribution_least(w);
                assert(file_bytes(
                    ObjectType::Contribution,
                    contribution_header(w),
                    Seq::<u8>::empty(),
                ) == bytes@);
            }
        }
        let (ty, header, payload) = parse_file(bytes).ok()?;
        if ty != ObjectType::Contribution || payload.len() != 0 {
            return None;
        }
        assert(payload@ =~= Seq::<u8>::empty());
        let mut r = Reader::new(header);
        let n = r.map().ok()?;
        if n != 7 {
            return None;
        }
        let mut last: Option<Vec<u8>> = None;
        expect_key(&mut r, &mut last, "ts")?;
        let ts = r.u64().ok()?;
        expect_key(&mut r, &mut last, "base")?;
        let base = ObjectId(r.bstr32().ok()?);
        expect_key(&mut r, &mut last, "tree")?;
        let tree = ObjectId(r.bstr32().ok()?);
        expect_key(&mut r, &mut last, "agent")?;
        let agent = r.text().ok()?;
        let size = byte_len(agent.as_str());
        expect_key(&mut r, &mut last, "reads")?;
        let reads = read_list::<ContributionRead>(&mut r, MAX_ITEMS)?;
        expect_key(&mut r, &mut last, "writes")?;
        let writes = read_list::<String>(&mut r, MAX_ITEMS)?;
        expect_key(&mut r, &mut last, "parents")?;
        let parents = read_list::<ObjectId>(&mut r, MAX_PARENTS)?;
        if !r.at_end() {
            return None;
        }
        let c = Contribution { base, tree, parents, reads, writes, agent, ts };
        proof {
            assert(r.rest() =~= Seq::<u8>::empty());
            assert(vals(c.parents@) =~= c.parents@);
            assert(header@ == contribution_header(c@));
            assert(contribution_bytes(c@) == bytes@);
            assert forall|v: ContributionValue|
                contribution_listed(v) && #[trigger] contribution_bytes(v) == bytes@ implies c@
                == v by {
                lemma_contribution_unique(c@, v);
            }
        }
        Some(c)
    }
}

/// What is wrong with bytes that are no contribution.
#[verifier::opaque]
pub open spec fn contribution_fault(b: Seq<u8>) -> Fault {
    if exists|c: ContributionValue|
        contribution_listed(c) && #[trigger] contribution_bytes(c) == b {
        let c = choose|c: ContributionValue|
            contribution_listed(c) && #[trigger] contribution_bytes(c) == b;
        Fault::Corrupt("invalid: "@ + bounds_fault(c))
    } else {
        object_fault::<Contribution>(
            b,
            ObjectType::Contribution,
            "not a contribution"@,
            "contribution has payload"@,
            "contribution header trailing bytes"@,
        )
    }
}

} // verus!
