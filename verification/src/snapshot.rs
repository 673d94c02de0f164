//! Snapshots: signed seals over a tree, a commit and its provenance.
use crate::bytes::lex_lt;
use crate::cbor::{
    cbor_bytes, cbor_text, cbor_u64, encode_bytes, encode_map_header, encode_text, encode_u64,
    head, lemma_bytes_prefix, lemma_head_len, lemma_head_prefix, lemma_key_order, lemma_nest_15,
    lemma_same_prefix, lemma_text_prefix, Reader,
};
use crate::fields::{has_text, rest_of, Fields};
use crate::object::{
    encode_file, expect_key, file_bytes, lemma_file_unique, lemma_object_faults, lemma_value_lens,
    object_error, object_fault, parse_file, unknown_key,
};
use crate::scan::{
    bytes_scan, id_scan, lemma_bytes_scan, lemma_head_scan, lemma_id_scan, lemma_text_faults,
    text_scan, told, u64_scan, Fault,
};
use crate::text::text_eq;
use crate::types::{corrupt, lemma_id_ext, Error, ObjectId, ObjectType};
use vstd::prelude::*;
use vstd::utf8::encode_utf8;

verus! {

/// A sealed state under a tag.
#[derive(Clone, Debug, PartialEq, Eq)]
pub struct Snapshot {
    pub tree: ObjectId,
    pub commit: ObjectId,
    pub tag: String,
    pub ts: u64,
    pub prov: ObjectId,
    pub pk: [u8; 32],
    pub sig: [u8; 64],
}

/// A snapshot as a value.
pub struct SnapshotValue {
    pub tree: ObjectId,
    pub commit: ObjectId,
    pub tag: Seq<char>,
    pub ts: u64,
    pub prov: ObjectId,
    pub pk: Seq<u8>,
    pub sig: Seq<u8>,
}

impl View for Snapshot {
    type V = SnapshotValue;

    open spec fn view(&self) -> SnapshotValue {
        SnapshotValue {
            tree: self.tree,
            commit: self.commit,
            tag: self.tag@,
            ts: self.ts,
            prov: self.prov,
            pk: self.pk@,
            sig: self.sig@,
        }
    }
}

/// The header of a snapshot.
pub open spec fn snapshot_header(s: SnapshotValue) -> Seq<u8> {
    head(5, 7) + (cbor_text("pk"@) + (cbor_bytes(s.pk) + (cbor_text("ts"@) + (cbor_u64(s.ts) + (
    cbor_text("sig"@) + (cbor_bytes(s.sig) + (cbor_text("tag"@) + (cbor_text(s.tag) + (cbor_text(
        "prov"@,
    ) + (cbor_bytes(s.prov@) + (cbor_text("tree"@) + (cbor_bytes(s.tree@) + (cbor_text("commit"@)
        + (cbor_bytes(s.commit@) + Seq::<u8>::empty()))))))))))))))
}

/// The object file of a snapshot.
pub open spec fn snapshot_bytes(s: SnapshotValue) -> Seq<u8> {
    file_bytes(ObjectType::Snapshot, snapshot_header(s), Seq::<u8>::empty())
}

/// A snapshot that its object file can hold.
pub open spec fn snapshot_valid(s: SnapshotValue) -> bool {
    s.pk.len() == 32 && s.sig.len() == 64 && snapshot_header(s).len() <= u32::MAX
}

/// The snapshot with its signature blanked: what is signed.
pub open spec fn unsigned(s: SnapshotValue) -> SnapshotValue {
    SnapshotValue { sig: Seq::new(64, |i: int| 0u8), ..s }
}

proof fn lemma_snapshot_keys()
    ensures
        lex_lt(cbor_text("pk"@), cbor_text("ts"@)),
        lex_lt(cbor_text("ts"@), cbor_text("sig"@)),
        lex_lt(cbor_text("sig"@), cbor_text("tag"@)),
        lex_lt(cbor_text("tag"@), cbor_text("prov"@)),
        lex_lt(cbor_text("prov"@), cbor_text("tree"@)),
        lex_lt(cbor_text("tree"@), cbor_text("commit"@)),
{
    reveal_strlit("pk");
    reveal_strlit("ts");
    reveal_strlit("sig");
    reveal_strlit("tag");
    reveal_strlit("prov");
    reveal_strlit("tree");
    reveal_strlit("commit");
    lemma_key_order("pk"@, "ts"@);
    lemma_key_order("ts"@, "sig"@);
    lemma_key_order("sig"@, "tag"@);
    lemma_key_order("tag"@, "prov"@);
    lemma_key_order("prov"@, "tree"@);
    lemma_key_order("tree"@, "commit"@);
}

proof fn lemma_snapshot_header_len(s: SnapshotValue)
    ensures
        snapshot_header(s).len() >= head(5, 7).len() + 14,
        snapshot_header(s).len() >= encode_utf8(s.tag).len(),
{
    lemma_head_len(5, 7);
    lemma_value_lens("pk"@, s.pk, s.ts);
    lemma_value_lens("ts"@, s.sig, s.ts);
    lemma_value_lens("sig"@, s.prov@, s.ts);
    lemma_value_lens("tag"@, s.tree@, s.ts);
    lemma_value_lens(s.tag, s.commit@, s.ts);
    lemma_value_lens("prov"@, s.pk, s.ts);
    lemma_value_lens("tree"@, s.pk, s.ts);
    lemma_value_lens("commit"@, s.pk, s.ts);
}

/// Blanking the signature does not change the length of the header.
proof fn lemma_unsigned_len(s: SnapshotValue)
    requires
        s.sig.len() == 64,
    ensures
        snapshot_header(unsigned(s)).len() == snapshot_header(s).len(),
{
    assert(cbor_bytes(unsigned(s).sig).len() == cbor_bytes(s.sig).len());
}

/// Snapshots are told apart by their object files.
pub proof fn lemma_snapshot_unique(a: SnapshotValue, b: SnapshotValue)
    requires
        snapshot_valid(a),
        snapshot_valid(b),
        snapshot_bytes(a) == snapshot_bytes(b),
    ensures
        a == b,
{
    let e = Seq::<u8>::empty();
    lemma_file_unique(
        ObjectType::Snapshot,
        snapshot_header(a),
        e,
        ObjectType::Snapshot,
        snapshot_header(b),
        e,
    );
    lemma_snapshot_header_len(a);
    lemma_snapshot_header_len(b);
    let a6 = cbor_text("commit"@) + (cbor_bytes(a.commit@) + e);
    let b6 = cbor_text("commit"@) + (cbor_bytes(b.commit@) + e);
    let a5 = cbor_text("tree"@) + (cbor_bytes(a.tree@) + a6);
    let b5 = cbor_text("tree"@) + (cbor_bytes(b.tree@) + b6);
    let a4 = cbor_text("prov"@) + (cbor_bytes(a.prov@) + a5);
    let b4 = cbor_text("prov"@) + (cbor_bytes(b.prov@) + b5);
    let a3 = cbor_text("tag"@) + (cbor_text(a.tag) + a4);
    let b3 = cbor_text("tag"@) + (cbor_text(b.tag) + b4);
    let a2 = cbor_text("sig"@) + (cbor_bytes(a.sig) + a3);
    let b2 = cbor_text("sig"@) + (cbor_bytes(b.sig) + b3);
    let a1 = cbor_text("ts"@) + (cbor_u64(a.ts) + a2);
    let b1 = cbor_text("ts"@) + (cbor_u64(b.ts) + b2);
    let a0 = cbor_text("pk"@) + (cbor_bytes(a.pk) + a1);
    let b0 = cbor_text("pk"@) + (cbor_bytes(b.pk) + b1);
    lemma_same_prefix(head(5, 7), a0, b0);
    lemma_same_prefix(cbor_text("pk"@), cbor_bytes(a.pk) + a1, cbor_bytes(b.pk) + b1);
    lemma_bytes_prefix(a.pk, a1, b.pk, b1);
    lemma_same_prefix(cbor_text("ts"@), cbor_u64(a.ts) + a2, cbor_u64(b.ts) + b2);
    lemma_head_prefix(0, a.ts, a2, b.ts, b2);
    lemma_same_prefix(cbor_text("sig"@), cbor_bytes(a.sig) + a3, cbor_bytes(b.sig) + b3);
    lemma_bytes_prefix(a.sig, a3, b.sig, b3);
    lemma_same_prefix(cbor_text("tag"@), cbor_text(a.tag) + a4, cbor_text(b.tag) + b4);
    lemma_text_prefix(a.tag, a4, b.tag, b4);
    lemma_same_prefix(cbor_text("prov"@), cbor_bytes(a.prov@) + a5, cbor_bytes(b.prov@) + b5);
    lemma_bytes_prefix(a.prov@, a5, b.prov@, b5);
    lemma_same_prefix(cbor_text("tree"@), cbor_bytes(a.tree@) + a6, cbor_bytes(b.tree@) + b6);
    lemma_bytes_prefix(a.tree@, a6, b.tree@, b6);
    lemma_same_prefix(cbor_text("commit"@), cbor_bytes(a.commit@) + e, cbor_bytes(b.commit@) + e);
    lemma_bytes_prefix(a.commit@, e, b.commit@, e);
    lemma_id_ext(a.prov, b.prov);
    lemma_id_ext(a.tree, b.tree);
    lemma_id_ext(a.commit, b.commit);
}

/// The array of 64 bytes in a slice.
fn array64(b: &[u8]) -> (a: [u8; 64])
    requires
        b@.len() == 64,
    ensures
        a@ == b@,
{
    let mut a = [0u8; 64];
    let mut i: usize = 0;
    while i < 64
        invariant
            i <= 64,
            b@.len() == 64,
            forall|j: int| 0 <= j < i ==> a@[j] == b@[j],
        decreases 64 - i,
    {
        a[i] = b[i];
        i += 1;
    }
    assert(a@ =~= b@);
    a
}

/// What follows a byte string of `n` bytes. Another length is refused with the text `what`.
pub open spec fn sized_scan(s: Seq<u8>, n: nat, what: Seq<char>) -> Result<Seq<u8>, Fault> {
    match bytes_scan(s) {
        Ok((b, t)) => if b.len() != n {
            Err(Fault::Corrupt(what))
        } else {
            Ok(t)
        },
        Err(f) => Err(f),
    }
}

impl Fields for Snapshot {
    open spec fn field(k: Seq<char>, s: Seq<u8>) -> Result<Seq<u8>, Fault> {
        if k == "tree"@ {
            id_scan(s)
        } else if k == "commit"@ {
            id_scan(s)
        } else if k == "tag"@ {
            rest_of(text_scan(s, None))
        } else if k == "ts"@ {
            rest_of(u64_scan(s))
        } else if k == "prov"@ {
            id_scan(s)
        } else if k == "pk"@ {
            sized_scan(s, 32, "pk len"@)
        } else if k == "sig"@ {
            sized_scan(s, 64, "sig len"@)
        } else {
            Err(Fault::Corrupt("unknown snapshot key "@ + k))
        }
    }

    open spec fn missing(seen: Seq<Seq<char>>) -> Option<Seq<char>> {
        if !seen.contains("tree"@) {
            Some("snap tree"@)
        } else if !seen.contains("commit"@) {
            Some("snap commit"@)
        } else if !seen.contains("tag"@) {
            Some("snap tag"@)
        } else if !seen.contains("ts"@) {
            Some("snap ts"@)
        } else if !seen.contains("prov"@) {
            Some("snap prov"@)
        } else if !seen.contains("pk"@) {
            Some("snap pk"@)
        } else if !seen.contains("sig"@) {
            Some("snap sig"@)
        } else {
            None
        }
    }

    open spec fn picky() -> bool {
        false
    }

    proof fn field_faults(k: Seq<char>, s: Seq<u8>) {
        lemma_bytes_scan(s);
        lemma_head_scan(s, 0, "expected uint"@);
        lemma_id_scan(s);
        lemma_text_faults(s, None);
    }

    fn check_field(k: &str, r: &mut Reader<'_>) -> (res: Result<(), Error>) {
        if text_eq(k, "tree") {
            r.bstr32()?;
        } else if text_eq(k, "commit") {
            r.bstr32()?;
        } else if text_eq(k, "tag") {
            r.text()?;
        } else if text_eq(k, "ts") {
            r.u64()?;
        } else if text_eq(k, "prov") {
            r.bstr32()?;
        } else if text_eq(k, "pk") {
            let b = r.bytes()?;
            if b.len() != 32 {
                return Err(corrupt("pk len"));
            }
        } else if text_eq(k, "sig") {
            let b = r.bytes()?;
            if b.len() != 64 {
                return Err(corrupt("sig len"));
            }
        } else {
            return Err(unknown_key("unknown snapshot key ", k));
        }
        Ok(())
    }

    fn find_missing(seen: &Vec<String>) -> (res: Option<&'static str>) {
        if !has_text(seen, "tree") {
            Some("snap tree")
        } else if !has_text(seen, "commit") {
            Some("snap commit")
        } else if !has_text(seen, "tag") {
            Some("snap tag")
        } else if !has_text(seen, "ts") {
            Some("snap ts")
        } else if !has_text(seen, "prov") {
            Some("snap prov")
        } else if !has_text(seen, "pk") {
            Some("snap pk")
        } else if !has_text(seen, "sig") {
            Some("snap sig")
        } else {
            None
        }
    }
}

/// What is wrong with bytes that are no snapshot.
#[verifier::opaque]
pub open spec fn snapshot_fault(b: Seq<u8>) -> Fault {
    object_fault::<Snapshot>(
        b,
        ObjectType::Snapshot,
        "not a snapshot"@,
        "snapshot has payload"@,
        "snapshot header trailing bytes"@,
    )
}

impl Snapshot {
    /// The object file with the signature blanked: the bytes that are signed.
    pub fn encode_unsigned(&self) -> (r: Vec<u8>)
        requires
            snapshot_header(self@).len() <= u32::MAX,
        ensures
            r@ == snapshot_bytes(unsigned(self@)),
    {
        let s = Snapshot {
            tree: self.tree,
            commit: self.commit,
            tag: self.tag.clone(),
            ts: self.ts,
            prov: self.prov,
            pk: self.pk,
            sig: [0u8; 64],
        };
        proof {
            assert(s.sig@ =~= Seq::new(64, |i: int| 0u8));
            assert(s@ == unsigned(self@));
            lemma_unsigned_len(self@);
        }
        s.encode()
    }

    /// The object file of the snapshot. The header has to fit in 32 bits of
    /// length.
    pub fn encode(&self) -> (r: Vec<u8>)
        requires
            snapshot_header(self@).len() <= u32::MAX,
        ensures
            r@ == snapshot_bytes(self@),
    {
        let mut header: Vec<u8> = Vec::new();
        encode_map_header(&mut header, 7);
        encode_text(&mut header, "pk");
        encode_bytes(&mut header, self.pk.as_slice());
        encode_text(&mut header, "ts");
        encode_u64(&mut header, self.ts);
        encode_text(&mut header, "sig");
        encode_bytes(&mut header, self.sig.as_slice());
        encode_text(&mut header, "tag");
        encode_text(&mut header, self.tag.as_str());
        encode_text(&mut header, "prov");
        encode_bytes(&mut header, self.prov.0.as_slice());
        encode_text(&mut header, "tree");
        encode_bytes(&mut header, self.tree.0.as_slice());
        encode_text(&mut header, "commit");
        encode_bytes(&mut header, self.commit.0.as_slice());
        proof {
            let s = self@;
            assert(Seq::<u8>::empty() + head(5, 7) =~= head(5, 7));
            lemma_nest_15(
                head(5, 7),
                cbor_text("pk"@),
                cbor_bytes(s.pk),
                cbor_text("ts"@),
                cbor_u64(s.ts),
                cbor_text("sig"@),
                cbor_bytes(s.sig),
                cbor_text("tag"@),
                cbor_text(s.tag),
                cbor_text("prov"@),
                cbor_bytes(s.prov@),
                cbor_text("tree"@),
                cbor_bytes(s.tree@),
                cbor_text("commit"@),
                cbor_bytes(s.commit@),
            );
        }
        let empty: Vec<u8> = Vec::new();
        encode_file(ObjectType::Snapshot, header.as_slice(), empty.as_slice())
    }

    /// Accepts exactly the object files of snapshots.
    pub fn decode(bytes: &[u8]) -> (r: Result<Self, Error>)
        ensures
            match r {
                Ok(s) => snapshot_valid(s@) && snapshot_bytes(s@) == bytes@,
                Err(e) => told(e, snapshot_fault(bytes@)) && e is Corrupt && forall|
                    s: SnapshotValue,
                | snapshot_valid(s) ==> #[trigger] snapshot_bytes(s) != bytes@,
            },
            forall|s: SnapshotValue|
                snapshot_valid(s) && #[trigger] snapshot_bytes(s) == bytes@ ==> (r matches Ok(d)
                    && d@ == s),
    {
        match Self::read(bytes) {
            Some(s) => Ok(s),
            None => {
                proof {
                    reveal(snapshot_fault);
                    lemma_object_faults::<Snapshot>(
                        bytes@,
                        ObjectType::Snapshot,
                        "not a snapshot"@,
                        "snapshot has payload"@,
                        "snapshot header trailing bytes"@,
                    );
                }
                Err(
                    object_error::<Snapshot>(
                        bytes,
                        ObjectType::Snapshot,
                        "not a snapshot",
                        "snapshot has payload",
                        "snapshot header trailing bytes",
                    ),
                )
            },
        }
    }

    #[verifier::rlimit(40)]
    fn read(bytes: &[u8]) -> (r: Option<Self>)
        ensures
            r matches Some(s) ==> snapshot_valid(s@) && snapshot_bytes(s@) == bytes@,
            forall|s: SnapshotValue|
                snapshot_valid(s) && #[trigger] snapshot_bytes(s) == bytes@ ==> (r matches Some(d)
                    && d@ == s),
    {
        let ghost known = exists|s: SnapshotValue|
            snapshot_valid(s) && #[trigger] snapshot_bytes(s) == bytes@;
        let ghost w = choose|s: SnapshotValue|
            snapshot_valid(s) && #[trigger] snapshot_bytes(s) == bytes@;
        proof {
            lemma_snapshot_keys();
            lemma_snapshot_header_len(w);
            assert(known ==> file_bytes(
                ObjectType::Snapshot,
                snapshot_header(w),
                Seq::<u8>::empty(),
            ) == bytes@);
        }
        let (ty, header, payload) = parse_file(bytes).ok()?;
        if ty != ObjectType::Snapshot || payload.len() != 0 {
            return None;
        }
        assert(payload@ =~= Seq::<u8>::empty());
        let mut r = Reader::new(header);
        let n = r.map().ok()?;
        if n != 7 {
            return None;
        }
        let mut last: Option<Vec<u8>> = None;
        expect_key(&mut r, &mut last, "pk")?;
        let raw_pk = r.bytes().ok()?;
        if raw_pk.len() != 32 {
            return None;
        }
        let pk = ObjectId::from_slice(raw_pk).0;
        expect_key(&mut r, &mut last, "ts")?;
        let ts = r.u64().ok()?;
        expect_key(&mut r, &mut last, "sig")?;
        let raw_sig = r.bytes().ok()?;
        if raw_sig.len() != 64 {
            return None;
        }
        let sig = array64(raw_sig);
        expect_key(&mut r, &mut last, "tag")?;
        let tag = r.text().ok()?;
        expect_key(&mut r, &mut last, "prov")?;
        let prov = ObjectId(r.bstr32().ok()?);
        expect_key(&mut r, &mut last, "tree")?;
        let tree = ObjectId(r.bstr32().ok()?);
        expect_key(&mut r, &mut last, "commit")?;
        let commit = ObjectId(r.bstr32().ok()?);
        if !r.at_end() {
            return None;
        }
        let s = Snapshot { tree, commit, tag, ts, prov, pk, sig };
        proof {
            assert(r.rest() =~= Seq::<u8>::empty());
            assert(header@ == snapshot_header(s@));
            assert(snapshot_bytes(s@) == bytes@);
            assert forall|v: SnapshotValue|
                snapshot_valid(v) && #[trigger] snapshot_bytes(v) == bytes@ implies s@ == v by {
                lemma_snapshot_unique(s@, v);
            }
        }
        Some(s)
    }
}

} // verus!
