//! Commits: a tree, its history and who made it.
use crate::bytes::lex_lt;
use crate::cbor::{
    cbor_bool, cbor_bytes, cbor_text, cbor_u64, encode_bool, encode_bytes, encode_map_header,
    encode_text, encode_u64, head, lemma_bool_prefix, lemma_bytes_prefix, lemma_head_len,
    lemma_head_prefix, lemma_key_order, lemma_nest_13, lemma_nest_15,
    lemma_same_prefix, lemma_text_prefix, Reader,
};
use crate::fields::{check_list, has_text, lemma_list_faults, list_scan, rest_of, Fields};
use crate::items::{lemma_list_prefix, list_bytes, read_list, vals, write_list};
use crate::object::{
    encode_file, expect_key, file_bytes, lemma_file_unique, lemma_object_faults, lemma_value_lens,
    object_error, object_fault, parse_file, unknown_key, MAX_COMMIT_PARENTS,
};
use crate::scan::{
    bool_scan, id_scan, lemma_bool_scan, lemma_head_scan, lemma_id_scan, lemma_text_faults,
    text_scan, told, u64_scan, Fault,
};
use crate::text::text_eq;
use crate::types::{lemma_id_ext, Error, ObjectId, ObjectType};
use vstd::prelude::*;
use vstd::utf8::encode_utf8;

verus! {

/// A published state of the tree.
#[derive(Clone, Debug, PartialEq, Eq)]
pub struct Commit {
    pub tree: ObjectId,
    pub parents: Vec<ObjectId>,
    pub agent: String,
    pub msg: String,
    pub ts: u64,
    pub landmark: bool,
    pub contribution: Option<ObjectId>,
}

/// A commit as a value.
pub struct CommitValue {
    pub tree: ObjectId,
    pub parents: Seq<ObjectId>,
    pub agent: Seq<char>,
    pub msg: Seq<char>,
    pub ts: u64,
    pub landmark: bool,
    pub contribution: Option<ObjectId>,
}

impl View for Commit {
    type V = CommitValue;

    open spec fn view(&self) -> CommitValue {
        CommitValue {
            tree: self.tree,
            parents: self.parents@,
            agent: self.agent@,
            msg: self.msg@,
            ts: self.ts,
            landmark: self.landmark,
            contribution: self.contribution,
        }
    }
}

/// The link to a contribution, where there is one, followed by `t`.
pub open spec fn contrib_then(contribution: Option<ObjectId>, t: Seq<u8>) -> Seq<u8> {
    match contribution {
        Some(id) => cbor_text("contrib"@) + (cbor_bytes(id@) + t),
        None => t,
    }
}

/// The header of a commit.
pub open spec fn commit_header(c: CommitValue) -> Seq<u8> {
    let fields: u64 = if c.contribution is Some {
        7
    } else {
        6
    };
    head(5, fields) + (cbor_text("lm"@) + (cbor_bool(c.landmark) + (cbor_text("ts"@) + (cbor_u64(
        c.ts,
    ) + (cbor_text("msg"@) + (cbor_text(c.msg) + (cbor_text("tree"@) + (cbor_bytes(c.tree@) + (
    cbor_text("agent"@) + (cbor_text(c.agent) + contrib_then(
        c.contribution,
        cbor_text("parents"@) + (list_bytes::<ObjectId>(c.parents) + Seq::<u8>::empty()),
    )))))))))))
}

/// The object file of a commit.
pub open spec fn commit_bytes(c: CommitValue) -> Seq<u8> {
    file_bytes(ObjectType::Commit, commit_header(c), Seq::<u8>::empty())
}

/// A commit that its object file can hold and that can be read back.
pub open spec fn commit_valid(c: CommitValue) -> bool {
    c.parents.len() <= MAX_COMMIT_PARENTS && commit_header(c).len() <= u32::MAX
}

proof fn lemma_commit_keys()
    ensures
        lex_lt(cbor_text("lm"@), cbor_text("ts"@)),
        lex_lt(cbor_text("ts"@), cbor_text("msg"@)),
        lex_lt(cbor_text("msg"@), cbor_text("tree"@)),
        lex_lt(cbor_text("tree"@), cbor_text("agent"@)),
        lex_lt(cbor_text("agent"@), cbor_text("contrib"@)),
        lex_lt(cbor_text("agent"@), cbor_text("parents"@)),
        lex_lt(cbor_text("contrib"@), cbor_text("parents"@)),
        "contrib"@ != "parents"@,
{
    reveal_strlit("lm");
    reveal_strlit("ts");
    reveal_strlit("msg");
    reveal_strlit("tree");
    reveal_strlit("agent");
    reveal_strlit("contrib");
    reveal_strlit("parents");
    lemma_key_order("lm"@, "ts"@);
    lemma_key_order("ts"@, "msg"@);
    lemma_key_order("msg"@, "tree"@);
    lemma_key_order("tree"@, "agent"@);
    lemma_key_order("agent"@, "contrib"@);
    lemma_key_order("agent"@, "parents"@);
    lemma_key_order("contrib"@, "parents"@);
    assert("contrib"@[0] != "parents"@[0]);
}

proof fn lemma_commit_header_len(c: CommitValue)
    ensures
        commit_header(c).len() >= 9 + 14,
        commit_header(c).len() >= encode_utf8(c.msg).len() + encode_utf8(c.agent).len(),
{
    lemma_head_len(5, 6);
    lemma_head_len(5, 7);
    lemma_head_len(4, c.parents.len() as u64);
    lemma_value_lens("lm"@, c.tree@, c.ts);
    lemma_value_lens("ts"@, c.tree@, c.ts);
    lemma_value_lens("msg"@, c.tree@, c.ts);
    lemma_value_lens(c.msg, c.tree@, c.ts);
    lemma_value_lens("tree"@, c.tree@, c.ts);
    lemma_value_lens("agent"@, c.tree@, c.ts);
    lemma_value_lens(c.agent, c.tree@, c.ts);
    lemma_value_lens("contrib"@, c.tree@, c.ts);
    lemma_value_lens("parents"@, c.tree@, c.ts);
}

/// Commits are told apart by their object files.
pub proof fn lemma_commit_unique(a: CommitValue, b: CommitValue)
    requires
        commit_valid(a),
        commit_valid(b),
        commit_bytes(a) == commit_bytes(b),
    ensures
        a == b,
{
    let e = Seq::<u8>::empty();
    lemma_file_unique(
        ObjectType::Commit,
        commit_header(a),
        e,
        ObjectType::Commit,
        commit_header(b),
        e,
    );
    lemma_commit_header_len(a);
    lemma_commit_header_len(b);
    let na: u64 = if a.contribution is Some {
        7
    } else {
        6
    };
    let nb: u64 = if b.contribution is Some {
        7
    } else {
        6
    };
    let a6 = list_bytes::<ObjectId>(a.parents) + e;
    let b6 = list_bytes::<ObjectId>(b.parents) + e;
    let a5 = contrib_then(a.contribution, cbor_text("parents"@) + a6);
    let b5 = contrib_then(b.contribution, cbor_text("parents"@) + b6);
    let a4 = cbor_text("agent"@) + (cbor_text(a.agent) + a5);
    let b4 = cbor_text("agent"@) + (cbor_text(b.agent) + b5);
    let a3 = cbor_text("tree"@) + (cbor_bytes(a.tree@) + a4);
    let b3 = cbor_text("tree"@) + (cbor_bytes(b.tree@) + b4);
    let a2 = cbor_text("msg"@) + (cbor_text(a.msg) + a3);
    let b2 = cbor_text("msg"@) + (cbor_text(b.msg) + b3);
    let a1 = cbor_text("ts"@) + (cbor_u64(a.ts) + a2);
    let b1 = cbor_text("ts"@) + (cbor_u64(b.ts) + b2);
    let a0 = cbor_text("lm"@) + (cbor_bool(a.landmark) + a1);
    let b0 = cbor_text("lm"@) + (cbor_bool(b.landmark) + b1);
    lemma_head_prefix(5, na, a0, nb, b0);
    lemma_same_prefix(cbor_text("lm"@), cbor_bool(a.landmark) + a1, cbor_bool(b.landmark) + b1);
    lemma_bool_prefix(a.landmark, a1, b.landmark, b1);
    lemma_same_prefix(cbor_text("ts"@), cbor_u64(a.ts) + a2, cbor_u64(b.ts) + b2);
    lemma_head_prefix(0, a.ts, a2, b.ts, b2);
    lemma_same_prefix(cbor_text("msg"@), cbor_text(a.msg) + a3, cbor_text(b.msg) + b3);
    lemma_text_prefix(a.msg, a3, b.msg, b3);
    lemma_same_prefix(cbor_text("tree"@), cbor_bytes(a.tree@) + a4, cbor_bytes(b.tree@) + b4);
    lemma_bytes_prefix(a.tree@, a4, b.tree@, b4);
    lemma_id_ext(a.tree, b.tree);
    lemma_same_prefix(cbor_text("agent"@), cbor_text(a.agent) + a5, cbor_text(b.agent) + b5);
    lemma_text_prefix(a.agent, a5, b.agent, b5);
    if let (Some(p), Some(q)) = (a.contribution, b.contribution) {
        let a7 = cbor_text("parents"@) + a6;
        let b7 = cbor_text("parents"@) + b6;
        lemma_same_prefix(cbor_text("contrib"@), cbor_bytes(p@) + a7, cbor_bytes(q@) + b7);
        lemma_bytes_prefix(p@, a7, q@, b7);
        lemma_id_ext(p, q);
    }
    lemma_same_prefix(cbor_text("parents"@), a6, b6);
    lemma_list_prefix::<ObjectId>(a.parents, e, b.parents, e);
}

/// The header of a commit, joined from the left.
proof fn lemma_commit_pieces(c: CommitValue)
    ensures
        c.contribution is None ==> commit_header(c) == head(5, 6) + cbor_text("lm"@) + cbor_bool(
            c.landmark,
        ) + cbor_text("ts"@) + cbor_u64(c.ts) + cbor_text("msg"@) + cbor_text(c.msg) + cbor_text(
            "tree"@,
        ) + cbor_bytes(c.tree@) + cbor_text("agent"@) + cbor_text(c.agent) + cbor_text("parents"@)
            + list_bytes::<ObjectId>(c.parents),
        c.contribution matches Some(id) ==> commit_header(c) == head(5, 7) + cbor_text("lm"@)
            + cbor_bool(c.landmark) + cbor_text("ts"@) + cbor_u64(c.ts) + cbor_text("msg"@)
            + cbor_text(c.msg) + cbor_text("tree"@) + cbor_bytes(c.tree@) + cbor_text("agent"@)
            + cbor_text(c.agent) + cbor_text("contrib"@) + cbor_bytes(id@) + cbor_text("parents"@)
            + list_bytes::<ObjectId>(c.parents),
{
    match c.contribution {
        None => {
            lemma_nest_13(
                head(5, 6),
                cbor_text("lm"@),
                cbor_bool(c.landmark),
                cbor_text("ts"@),
                cbor_u64(c.ts),
                cbor_text("msg"@),
                cbor_text(c.msg),
                cbor_text("tree"@),
                cbor_bytes(c.tree@),
                cbor_text("agent"@),
                cbor_text(c.agent),
                cbor_text("parents"@),
                list_bytes::<ObjectId>(c.parents),
            );
        },
        Some(id) => {
            lemma_nest_15(
                head(5, 7),
                cbor_text("lm"@),
                cbor_bool(c.landmark),
                cbor_text("ts"@),
                cbor_u64(c.ts),
                cbor_text("msg"@),
                cbor_text(c.msg),
                cbor_text("tree"@),
                cbor_bytes(c.tree@),
                cbor_text("agent"@),
                cbor_text(c.agent),
                cbor_text("contrib"@),
                cbor_bytes(id@),
                cbor_text("parents"@),
                list_bytes::<ObjectId>(c.parents),
            );
        },
    }
}

impl Fields for Commit {
    open spec fn field(k: Seq<char>, s: Seq<u8>) -> Result<Seq<u8>, Fault> {
        if k == "tree"@ {
            id_scan(s)
        } else if k == "parents"@ {
            list_scan::<ObjectId>(s, MAX_COMMIT_PARENTS, "commit parent count exceeds limit"@)
        } else if k == "agent"@ {
            rest_of(text_scan(s, None))
        } else if k == "msg"@ {
            rest_of(text_scan(s, None))
        } else if k == "ts"@ {
            rest_of(u64_scan(s))
        } else if k == "lm"@ {
            bool_scan(s)
        } else if k == "contrib"@ {
            id_scan(s)
        } else {
            Err(Fault::Corrupt("unknown commit key "@ + k))
        }
    }

    open spec fn missing(seen: Seq<Seq<char>>) -> Option<Seq<char>> {
        if !seen.contains("tree"@) {
            Some("commit tree"@)
        } else if !seen.contains("parents"@) {
            Some("commit parents"@)
        } else if !seen.contains("agent"@) {
            Some("commit agent"@)
        } else if !seen.contains("msg"@) {
            Some("commit msg"@)
        } else if !seen.contains("ts"@) {
            Some("commit ts"@)
        } else if !seen.contains("lm"@) {
            Some("commit lm"@)
        } else {
            None
        }
    }

    open spec fn picky() -> bool {
        false
    }

    proof fn field_faults(k: Seq<char>, s: Seq<u8>) {
        lemma_bool_scan(s);
        lemma_head_scan(s, 0, "expected uint"@);
        lemma_id_scan(s);
        lemma_list_faults::<ObjectId>(s, MAX_COMMIT_PARENTS, "commit parent count exceeds limit"@);
        lemma_text_faults(s, None);
    }

    fn check_field(k: &str, r: &mut Reader<'_>) -> (res: Result<(), Error>) {
        if text_eq(k, "tree") {
            r.bstr32()?;
        } else if text_eq(k, "parents") {
            check_list::<ObjectId>(r, MAX_COMMIT_PARENTS, "commit parent count exceeds limit")?;
        } else if text_eq(k, "agent") {
            r.text()?;
        } else if text_eq(k, "msg") {
            r.text()?;
        } else if text_eq(k, "ts") {
            r.u64()?;
        } else if text_eq(k, "lm") {
            r.bool()?;
        } else if text_eq(k, "contrib") {
            r.bstr32()?;
        } else {
            return Err(unknown_key("unknown commit key ", k));
        }
        Ok(())
    }

    fn find_missing(seen: &Vec<String>) -> (res: Option<&'static str>) {
        if !has_text(seen, "tree") {
            Some("commit tree")
        } else if !has_text(seen, "parents") {
            Some("commit parents")
        } else if !has_text(seen, "agent") {
            Some("commit agent")
        } else if !has_text(seen, "msg") {
            Some("commit msg")
        } else if !has_text(seen, "ts") {
            Some("commit ts")
        } else if !has_text(seen, "lm") {
            Some("commit lm")
        } else {
            None
        }
    }
}

/// What is wrong with bytes that are no commit.
#[verifier::opaque]
pub open spec fn commit_fault(b: Seq<u8>) -> Fault {
    object_fault::<Commit>(
        b,
        ObjectType::Commit,
        "not a commit"@,
        "commit has payload"@,
        "commit header trailing bytes"@,
    )
}

impl Commit {
    /// The object file of the commit. The header has to fit in 32 bits of
    /// length.
    pub fn encode(&self) -> (r: Vec<u8>)
        requires
            commit_header(self@).len() <= u32::MAX,
        ensures
            r@ == commit_bytes(self@),
    {
        let mut header: Vec<u8> = Vec::new();
        let fields: u64 = if self.contribution.is_some() {
            7
        } else {
            6
        };
        encode_map_header(&mut header, fields);
        encode_text(&mut header, "lm");
        encode_bool(&mut header, self.landmark);
        encode_text(&mut header, "ts");
        encode_u64(&mut header, self.ts);
        encode_text(&mut header, "msg");
        encode_text(&mut header, self.msg.as_str());
        encode_text(&mut header, "tree");
        encode_bytes(&mut header, self.tree.0.as_slice());
        encode_text(&mut header, "agent");
        encode_text(&mut header, self.agent.as_str());
        if let Some(contribution) = self.contribution {
            encode_text(&mut header, "contrib");
            encode_bytes(&mut header, contribution.0.as_slice());
        }
        encode_text(&mut header, "parents");
        write_list(&self.parents, &mut header);
        proof {
            assert(vals(self.parents@) =~= self.parents@);
            assert(Seq::<u8>::empty() + head(5, fields) =~= head(5, fields));
            lemma_commit_pieces(self@);
        }
        let empty: Vec<u8> = Vec::new();
        encode_file(ObjectType::Commit, header.as_slice(), empty.as_slice())
    }

    /// Accepts exactly the object files of commits within the limits.
    pub fn decode(bytes: &[u8]) -> (r: Result<Self, Error>)
        ensures
            match r {
                Ok(c) => commit_valid(c@) && commit_bytes(c@) == bytes@,
                Err(e) => told(e, commit_fault(bytes@)) && e is Corrupt && forall|c: CommitValue|
                    commit_valid(c) ==> #[trigger] commit_bytes(c) != bytes@,
            },
            forall|c: CommitValue|
                commit_valid(c) && #[trigger] commit_bytes(c) == bytes@ ==> (r matches Ok(d) && d@
                    == c),
    {
        match Self::read(bytes) {
            Some(c) => Ok(c),
            None => {
                proof {
                    reveal(commit_fault);
                    lemma_object_faults::<Commit>(
                        bytes@,
                        ObjectType::Commit,
                        "not a commit"@,
                        "commit has payload"@,
                        "commit header trailing bytes"@,
                    );
                }
                Err(
                    object_error::<Commit>(
                        bytes,
                        ObjectType::Commit,
                        "not a commit",
                        "commit has payload",
                        "commit header trailing bytes",
                    ),
                )
            },
        }
    }

    #[verifier::rlimit(80)]
    fn read(bytes: &[u8]) -> (r: Option<Self>)
        ensures
            r matches Some(c) ==> commit_valid(c@) && commit_bytes(c@) == bytes@,
            forall|c: CommitValue|
                commit_valid(c) && #[trigger] commit_bytes(c) == bytes@ ==> (r matches Some(d)
                    && d@ == c),
    {
        let ghost known = exists|c: CommitValue|
            commit_valid(c) && #[trigger] commit_bytes(c) == bytes@;
        let ghost w = choose|c: CommitValue|
            commit_valid(c) && #[trigger] commit_bytes(c) == bytes@;
        proof {
            lemma_commit_keys();
            lemma_commit_header_len(w);
            lemma_head_len(5, 6);
            lemma_head_len(5, 7);
            assert(known ==> file_bytes(
                ObjectType::Commit,
                commit_header(w),
                Seq::<u8>::empty(),
            ) == bytes@);
        }
        let (ty, header, payload) = parse_file(bytes).ok()?;
        if ty != ObjectType::Commit || payload.len() != 0 {
            return None;
        }
        assert(payload@ =~= Seq::<u8>::empty());
        let mut r = Reader::new(header);
        let n = r.map().ok()?;
        if n != 6 && n != 7 {
            return None;
        }
        let mut last: Option<Vec<u8>> = None;
        expect_key(&mut r, &mut last, "lm")?;
        let landmark = r.bool().ok()?;
        expect_key(&mut r, &mut last, "ts")?;
        let ts = r.u64().ok()?;
        expect_key(&mut r, &mut last, "msg")?;
        let msg = r.text().ok()?;
        expect_key(&mut r, &mut last, "tree")?;
        let tree = ObjectId(r.bstr32().ok()?);
        expect_key(&mut r, &mut last, "agent")?;
        let agent = r.text().ok()?;
        let contribution = if n == 7 {
            expect_key(&mut r, &mut last, "contrib")?;
            Some(ObjectId(r.bstr32().ok()?))
        } else {
            None
        };
        expect_key(&mut r, &mut last, "parents")?;
        let parents = read_list::<ObjectId>(&mut r, MAX_COMMIT_PARENTS)?;
        if !r.at_end() {
            return None;
        }
        let c = Commit { tree, parents, agent, msg, ts, landmark, contribution };
        proof {
            assert(r.rest() =~= Seq::<u8>::empty());
            assert(vals(c.parents@) =~= c.parents@);
            assert(header@ =~= commit_header(c@));
            assert forall|v: CommitValue|
                commit_valid(v) && #[trigger] commit_bytes(v) == bytes@ implies c@ == v by {
                lemma_commit_unique(c@, v);
            }
        }
        Some(c)
    }
}

} // verus!
