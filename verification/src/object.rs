//! Typed objects and the layout of object files.
use crate::bytes::{
    big_endian, big_endian_value, extend_bytes, lemma_big_endian_len, lemma_big_endian_roundtrip,
    lemma_big_endian_value_roundtrip, lemma_pow256_values, lex_lt, push_be32, read_be, tail_bytes,
};
use crate::cbor::{
    cbor_bool, cbor_bytes, cbor_text, cbor_u64, encode_bool, encode_bytes, encode_map_header,
    encode_text, encode_u64, head, key_follows, lemma_bytes_prefix, lemma_head_len,
    lemma_head_prefix, lemma_key_order, lemma_same_prefix, lemma_text_prefix, Reader,
};
use crate::fields::{
    check_list, check_record, has_text, header_error, header_fault, lemma_header_faults, list_scan,
    record_scan, rest_of, walk, Checked, Fields,
};
use crate::hash::{blake3_digest, hash_bytes};
use crate::items::{
    items_bytes, lemma_items_len, lemma_items_max, lemma_list_prefix, list_bytes, read_list, vals,
    write_list, Item,
};
use crate::scan::{
    array_scan, bool_scan, id_scan, key_scan, lemma_head_read, lemma_text_read, map_scan,
    refused_as, text_scan, told, u64_scan, Fault,
};
use crate::text::{byte_len, decimal, decimal_text, text_eq};
use crate::tree::{
    canonical, entry_values, lemma_first_bad, listing_fault, names_fault, names_valid, valid_name,
    validate_name, Entry, Tree, TreeEntry,
};
use crate::types::{
    corrupt, lemma_id_ext, type_of, unknown_kind, unknown_type, EntryKind, Error, ObjectId,
    ObjectType,
};
use vstd::prelude::*;
use vstd::slice::{slice_subrange, slice_to_vec};
use vstd::utf8::encode_utf8;

verus! {

/// The most entries that a tree may hold.
pub const MAX_TREE_ENTRIES: u64 = 100_000;

/// The most parents that a commit may have.
pub const MAX_COMMIT_PARENTS: u64 = 1_024;

/// The most items that each list of a conflict may hold.
pub const MAX_CONFLICT_ITEMS: u64 = 100_000;

/// An object file: the type, the length of the header, the header and the
/// payload.
pub open spec fn file_bytes(ty: ObjectType, header: Seq<u8>, payload: Seq<u8>) -> Seq<u8> {
    seq![ty.tag()] + (big_endian(header.len(), 4) + (header + payload))
}

/// An object file determines its type, header and payload.
pub proof fn lemma_file_unique(
    t1: ObjectType,
    h1: Seq<u8>,
    p1: Seq<u8>,
    t2: ObjectType,
    h2: Seq<u8>,
    p2: Seq<u8>,
)
    requires
        h1.len() <= u32::MAX,
        h2.len() <= u32::MAX,
        file_bytes(t1, h1, p1) == file_bytes(t2, h2, p2),
    ensures
        t1 == t2,
        h1 == h2,
        p1 == p2,
{
    let s = file_bytes(t1, h1, p1);
    lemma_big_endian_len(h1.len(), 4);
    lemma_big_endian_len(h2.len(), 4);
    lemma_pow256_values();
    lemma_big_endian_roundtrip(h1.len(), 4);
    lemma_big_endian_roundtrip(h2.len(), 4);
    assert(s[0] == t1.tag());
    assert(s[0] == t2.tag());
    assert(s.subrange(1, 5) =~= big_endian(h1.len(), 4));
    assert(s.subrange(1, 5) =~= big_endian(h2.len(), 4));
    assert(s.subrange(5, 5 + h1.len() as int) =~= h1);
    assert(s.subrange(5, 5 + h1.len() as int) =~= h2);
    assert(s.skip(5 + h1.len() as int) =~= p1);
    assert(s.skip(5 + h1.len() as int) =~= p2);
}

/// The object file of the given parts.
pub fn encode_file(ty: ObjectType, header: &[u8], payload: &[u8]) -> (r: Vec<u8>)
    requires
        header@.len() <= u32::MAX,
    ensures
        r@ == file_bytes(ty, header@, payload@),
{
    let mut v: Vec<u8> = Vec::new();
    v.push(ty.to_u8());
    push_be32(&mut v, header.len() as u64);
    extend_bytes(&mut v, header);
    extend_bytes(&mut v, payload);
    assert(v@ =~= file_bytes(ty, header@, payload@));
    v
}

/// The parts of an object file, or what is wrong with it.
pub open spec fn file_scan(b: Seq<u8>) -> Result<(ObjectType, Seq<u8>, Seq<u8>), Fault> {
    let end = 5 + big_endian_value(b.subrange(1, 5));
    if b.len() < 5 {
        Err(Fault::Corrupt("object file too short"@))
    } else {
        match type_of(b[0]) {
            Some(ty) => if end > b.len() {
                Err(Fault::Corrupt("object header truncated"@))
            } else {
                Ok((ty, b.subrange(5, end as int), b.skip(end as int)))
            },
            None => Err(Fault::Corrupt(unknown_type(b[0]))),
        }
    }
}

/// What is wrong with an object file that holds its object in the fields of its header.
pub open spec fn object_fault<F: Fields>(
    b: Seq<u8>,
    wanted: ObjectType,
    other_type: Seq<char>,
    has_payload: Seq<char>,
    trailing: Seq<char>,
) -> Fault {
    match file_scan(b) {
        Ok((ty, header, payload)) => if ty != wanted {
            Fault::Corrupt(other_type)
        } else if payload.len() > 0 {
            Fault::Corrupt(has_payload)
        } else {
            header_fault::<F>(header, None, trailing)
        },
        Err(f) => f,
    }
}

/// An object whose fields are never `Invalid` is refused as `Corrupt`.
pub proof fn lemma_object_faults<F: Fields>(
    b: Seq<u8>,
    wanted: ObjectType,
    other_type: Seq<char>,
    has_payload: Seq<char>,
    trailing: Seq<char>,
)
    requires
        !F::picky(),
    ensures
        object_fault::<F>(b, wanted, other_type, has_payload, trailing) is Corrupt,
{
    if let Ok((ty, header, payload)) = file_scan(b) {
        lemma_header_faults::<F>(header, None, trailing);
    }
}

/// What is wrong with an object file that holds its object in the fields of its header.
pub(crate) fn object_error<F: Fields>(
    bytes: &[u8],
    wanted: ObjectType,
    other_type: &str,
    has_payload: &str,
    trailing: &str,
) -> (e: Error)
    ensures
        told(e, object_fault::<F>(bytes@, wanted, other_type@, has_payload@, trailing@)),
{
    match parse_file(bytes) {
        Ok((ty, header, payload)) => {
            if ty != wanted {
                return corrupt(other_type);
            }
            if payload.len() != 0 {
                return corrupt(has_payload);
            }
            header_error::<F>(header, None, trailing)
        },
        Err(e) => e,
    }
}

/// Take an object file apart.
pub fn parse_file(bytes: &[u8]) -> (r: Result<(ObjectType, &[u8], &[u8]), Error>)
    ensures
        match r {
            Ok((ty, header, payload)) => header@.len() <= u32::MAX && bytes@ == file_bytes(
                ty,
                header@,
                payload@,
            ),
            Err(e) => e is Corrupt,
        },
        refused_as(file_scan(bytes@), r),
        r matches Ok((ty, header, payload)) ==> file_scan(bytes@) == Ok::<
            (ObjectType, Seq<u8>, Seq<u8>),
            Fault,
        >((ty, header@, payload@)),
        forall|ty: ObjectType, header: Seq<u8>, payload: Seq<u8>|
            header.len() <= u32::MAX && bytes@ == #[trigger] file_bytes(ty, header, payload)
                ==> (r matches Ok((t, h, p)) && t == ty && h@ == header && p@ == payload),
{
    proof {
        assert forall|ty: ObjectType, header: Seq<u8>, payload: Seq<u8>|
            header.len() <= u32::MAX && bytes@ == #[trigger] file_bytes(
                ty,
                header,
                payload,
            ) implies {
            &&& bytes@.len() >= 5
            &&& bytes@[0] == ty.tag()
            &&& big_endian_value(bytes@.subrange(1, 5)) == header.len()
            &&& 5 + header.len() <= bytes@.len()
        } by {
            lemma_big_endian_len(header.len(), 4);
            lemma_pow256_values();
            lemma_big_endian_roundtrip(header.len(), 4);
            assert(bytes@.subrange(1, 5) =~= big_endian(header.len(), 4));
        }
    }
    if bytes.len() < 5 {
        return Err(corrupt("object file too short"));
    }
    let ty = ObjectType::from_u8(bytes[0])?;
    let len_bytes = slice_subrange(bytes, 1, 5);
    let n = read_be(len_bytes);
    proof {
        lemma_pow256_values();
        lemma_big_endian_value_roundtrip(len_bytes@);
    }
    if n > (bytes.len() - 5) as u64 {
        return Err(corrupt("object header truncated"));
    }
    let header_end: usize = 5 + n as usize;
    let header = slice_subrange(bytes, 5, header_end);
    let payload = tail_bytes(bytes, header_end);
    proof {
        assert(bytes@ =~= file_bytes(ty, header@, payload@));
        assert forall|t2: ObjectType, h2: Seq<u8>, p2: Seq<u8>|
            h2.len() <= u32::MAX && bytes@ == #[trigger] file_bytes(t2, h2, p2) implies t2 == ty
            && h2 == header@ && p2 == payload@ by {
            lemma_file_unique(t2, h2, p2, ty, header@, payload@);
        }
    }
    Ok((ty, header, payload))
}

/// What is wrong with bytes that open no object.
pub open spec fn type_fault(b: Seq<u8>) -> Fault {
    if b.len() == 0 {
        Fault::Corrupt("empty object"@)
    } else {
        Fault::Corrupt(unknown_type(b[0]))
    }
}

/// The type of the object that some bytes open.
pub fn decode_object_type(bytes: &[u8]) -> (r: Result<ObjectType, Error>)
    ensures
        match r {
            Ok(ty) => bytes@.len() > 0 && bytes@[0] == ty.tag(),
            Err(e) => (bytes@.len() == 0 || !(1 <= bytes@[0] <= 6)) && told(e, type_fault(bytes@)),
        },
{
    if bytes.len() == 0 {
        return Err(corrupt("empty object"));
    }
    ObjectType::from_u8(bytes[0])
}

/// Read the map key `name`, where it comes next.
pub(crate) fn expect_key(r: &mut Reader<'_>, last: &mut Option<Vec<u8>>, name: &str) -> (res: Option<
    (),
>)
    ensures
        res is Some ==> {
            &&& old(r).rest() == cbor_text(name@) + final(r).rest()
            &&& *final(last) matches Some(v) && v@ == cbor_text(name@)
        },
        forall|t: Seq<u8>|
            old(r).rest() == #[trigger] (cbor_text(name@) + t) && key_follows(
                *old(last),
                cbor_text(name@),
            ) ==> res is Some && final(r).rest() == t,
{
    let k = r.text_map_key(last).ok()?;
    if text_eq(k.as_str(), name) {
        Some(())
    } else {
        None
    }
}

/// An uninterpreted run of bytes, stored as such.
#[derive(Clone, Debug, PartialEq, Eq)]
pub struct Blob {
    pub data: Vec<u8>,
}

/// The header of a blob of `n` bytes.
pub open spec fn blob_header(n: u64) -> Seq<u8> {
    head(5, 1) + (cbor_text("size"@) + (cbor_u64(n) + Seq::<u8>::empty()))
}

/// The object file of a blob.
pub open spec fn blob_bytes(data: Seq<u8>) -> Seq<u8> {
    file_bytes(ObjectType::Blob, blob_header(data.len() as u64), data)
}

pub proof fn lemma_blob_header_len(n: u64)
    ensures
        blob_header(n).len() <= 30,
{
    lemma_head_len(5, 1);
    lemma_head_len(0, n);
    reveal_strlit("size");
    vstd::utf8::is_ascii_chars_encode_utf8("size"@);
    lemma_head_len(3, 4);
}

/// What comes before the payload of a blob of `size` bytes. A publisher can
/// hash and write a payload that it does not own a second copy of.
pub fn blob_frame_prefix(size: u64) -> (r: Vec<u8>)
    ensures
        r@ == file_bytes(ObjectType::Blob, blob_header(size), Seq::<u8>::empty()),
{
    let mut header: Vec<u8> = Vec::new();
    encode_map_header(&mut header, 1);
    encode_text(&mut header, "size");
    encode_u64(&mut header, size);
    proof {
        assert(header@ =~= blob_header(size));
        lemma_blob_header_len(size);
    }
    let empty: Vec<u8> = Vec::new();
    encode_file(ObjectType::Blob, header.as_slice(), empty.as_slice())
}

/// The framed prefix of a blob followed by its payload is the object file.
pub proof fn lemma_blob_frame(data: Seq<u8>)
    ensures
        blob_bytes(data) == file_bytes(
            ObjectType::Blob,
            blob_header(data.len() as u64),
            Seq::<u8>::empty(),
        ) + data,
{
    assert(blob_bytes(data) =~= file_bytes(
        ObjectType::Blob,
        blob_header(data.len() as u64),
        Seq::<u8>::empty(),
    ) + data);
}

/// The object file of some data as a blob, with its id.
pub fn put_blob_bytes(data: &[u8]) -> (r: (ObjectId, Vec<u8>))
    ensures
        r.0@ == blake3_digest(blob_bytes(data@)),
        r.1@ == blob_bytes(data@),
{
    let mut file = blob_frame_prefix(data.len() as u64);
    extend_bytes(&mut file, data);
    proof {
        lemma_blob_frame(data@);
    }
    (hash_bytes(file.as_slice()), file)
}

/// Blobs are told apart by their object files.
pub proof fn lemma_blob_unique(a: Seq<u8>, b: Seq<u8>)
    requires
        blob_bytes(a) == blob_bytes(b),
    ensures
        a == b,
{
    lemma_blob_header_len(a.len() as u64);
    lemma_blob_header_len(b.len() as u64);
    lemma_file_unique(
        ObjectType::Blob,
        blob_header(a.len() as u64),
        a,
        ObjectType::Blob,
        blob_header(b.len() as u64),
        b,
    );
}

/// What is wrong with the header of a blob with a payload of `len` bytes.
pub open spec fn blob_header_fault(header: Seq<u8>, len: nat) -> Fault {
    match map_scan(header) {
        Ok((n, s)) => if n == 0 {
            Fault::Corrupt("blob missing size"@)
        } else {
            match key_scan(s, None, None) {
                Ok((k, t)) => if k != "size"@ {
                    Fault::Corrupt("unknown blob key "@ + k)
                } else {
                    match u64_scan(t) {
                        Ok((size, u)) => if n > 1 {
                            match key_scan(u, Some(cbor_text(k)), None) {
                                Ok((other, _)) => Fault::Corrupt("unknown blob key "@ + other),
                                Err(f) => f,
                            }
                        } else if size != len {
                            Fault::Corrupt(
                                "blob size "@ + decimal(size as nat) + " != payload "@ + decimal(len),
                            )
                        } else {
                            Fault::Corrupt("blob header trailing bytes"@)
                        },
                        Err(f) => f,
                    }
                },
                Err(f) => f,
            }
        },
        Err(f) => f,
    }
}

/// What is wrong with bytes that are no blob.
#[verifier::opaque]
pub open spec fn blob_fault(b: Seq<u8>) -> Fault {
    match file_scan(b) {
        Ok((ty, header, payload)) => if ty != ObjectType::Blob {
            Fault::Corrupt("not a blob"@)
        } else {
            blob_header_fault(header, payload.len())
        },
        Err(f) => f,
    }
}

/// The refusal of a key.
pub(crate) fn unknown_key(what: &str, k: &str) -> (e: Error)
    ensures
        told(e, Fault::Corrupt(what@ + k@)),
{
    let mut msg = what.to_string();
    msg.append(k);
    Error::Corrupt(msg)
}

impl Blob {
    pub fn encode(&self) -> (r: Vec<u8>)
        ensures
            r@ == blob_bytes(self.data@),
    {
        let mut v = blob_frame_prefix(self.data.len() as u64);
        extend_bytes(&mut v, self.data.as_slice());
        proof {
            lemma_blob_frame(self.data@);
        }
        v
    }

    /// Accepts exactly the object files of blobs.
    pub fn decode(bytes: &[u8]) -> (r: Result<Self, Error>)
        ensures
            match r {
                Ok(b) => blob_bytes(b.data@) == bytes@,
                Err(e) => told(e, blob_fault(bytes@)) && e is Corrupt && forall|d: Seq<u8>| #[trigger]
                    blob_bytes(d) != bytes@,
            },
            forall|d: Seq<u8>| #[trigger]
                blob_bytes(d) == bytes@ ==> (r matches Ok(b) && b.data@ == d),
    {
        let ghost known = exists|d: Seq<u8>| #[trigger] blob_bytes(d) == bytes@;
        let ghost d = choose|d: Seq<u8>| #[trigger] blob_bytes(d) == bytes@;
        let ghost size_of = d.len() as u64;
        proof {
            reveal(blob_fault);
            lemma_blob_header_len(size_of);
            assert(known ==> file_bytes(ObjectType::Blob, blob_header(size_of), d) == bytes@);
            assert(known ==> d.len() <= bytes@.len());
        }
        let (ty, header, payload) = parse_file(bytes)?;
        if ty != ObjectType::Blob {
            return Err(corrupt("not a blob"));
        }
        let mut r = Reader::new(header);
        proof {
            reveal_strlit("size");
            vstd::utf8::is_ascii_chars_encode_utf8("size"@);
        }
        let n = r.map()?;
        if n == 0 {
            return Err(corrupt("blob missing size"));
        }
        let mut last: Option<Vec<u8>> = None;
        let k = r.text_map_key(&mut last)?;
        if !text_eq(k.as_str(), "size") {
            return Err(unknown_key("unknown blob key ", k.as_str()));
        }
        let size = r.u64()?;
        if n > 1 {
            let k = r.text_map_key(&mut last)?;
            return Err(unknown_key("unknown blob key ", k.as_str()));
        }
        if size != payload.len() as u64 {
            let mut msg = "blob size ".to_string();
            msg.append(decimal_text(size).as_str());
            msg.append(" != payload ");
            msg.append(decimal_text(payload.len() as u64).as_str());
            return Err(Error::Corrupt(msg));
        }
        if !r.at_end() {
            return Err(corrupt("blob header trailing bytes"));
        }
        assert(r.rest() =~= Seq::<u8>::empty());
        assert(header@ =~= blob_header(size));
        let data = slice_to_vec(payload);
        proof {
            assert(blob_bytes(data@) == bytes@);
            assert forall|v: Seq<u8>| #[trigger] blob_bytes(v) == bytes@ implies data@ == v by {
                lemma_blob_unique(data@, v);
            }
        }
        Ok(Blob { data })
    }
}

/// The encodings of texts, byte strings and heads are not empty.
pub proof fn lemma_value_lens(s: Seq<char>, b: Seq<u8>, n: u64)
    ensures
        cbor_text(s).len() == head(3, encode_utf8(s).len() as u64).len() + encode_utf8(s).len(),
        1 <= head(3, encode_utf8(s).len() as u64).len() <= 9,
        cbor_bytes(b).len() == head(2, b.len() as u64).len() + b.len(),
        1 <= head(2, b.len() as u64).len() <= 9,
        1 <= cbor_u64(n).len() <= 9,
{
    lemma_head_len(3, encode_utf8(s).len() as u64);
    lemma_head_len(2, b.len() as u64);
    lemma_head_len(0, n);
}

/// The encoding of a tree entry, followed by `t`.
pub open spec fn entry_then(e: Entry, t: Seq<u8>) -> Seq<u8> {
    head(5, 4) + (cbor_text("k"@) + (cbor_u64(e.kind.tag() as u64) + (cbor_text("n"@) + (cbor_text(
        e.name,
    ) + (cbor_text("x"@) + (cbor_bool(e.executable) + (cbor_text("id"@) + (cbor_bytes(e.id@)
        + t))))))))
}

proof fn lemma_entry_keys()
    ensures
        lex_lt(cbor_text("k"@), cbor_text("n"@)),
        lex_lt(cbor_text("n"@), cbor_text("x"@)),
        lex_lt(cbor_text("x"@), cbor_text("id"@)),
        encode_utf8("k"@).len() == 1,
        encode_utf8("n"@).len() == 1,
        encode_utf8("x"@).len() == 1,
        encode_utf8("id"@).len() == 2,
{
    reveal_strlit("k");
    reveal_strlit("n");
    reveal_strlit("x");
    reveal_strlit("id");
    lemma_key_order("k"@, "n"@);
    lemma_key_order("n"@, "x"@);
    lemma_key_order("x"@, "id"@);
    vstd::utf8::is_ascii_chars_encode_utf8("k"@);
    vstd::utf8::is_ascii_chars_encode_utf8("n"@);
    vstd::utf8::is_ascii_chars_encode_utf8("x"@);
    vstd::utf8::is_ascii_chars_encode_utf8("id"@);
}

proof fn lemma_entry_then(e: Entry, t: Seq<u8>)
    ensures
        TreeEntry::wire(e) + t == entry_then(e, t),
        TreeEntry::wire(e).len() >= 9,
        encode_utf8(e.name).len() <= 255 ==> TreeEntry::wire(e).len() <= 400,
        entry_then(e, t).len() >= head(5, 4).len() + 8,
{
    lemma_entry_keys();
    lemma_head_len(5, 4);
    lemma_value_lens("k"@, e.id@, e.kind.tag() as u64);
    lemma_value_lens("n"@, e.id@, 0);
    lemma_value_lens("x"@, e.id@, 0);
    lemma_value_lens("id"@, e.id@, 0);
    lemma_value_lens(e.name, e.id@, 0);
    assert(TreeEntry::wire(e) + t =~= entry_then(e, t));
}

impl Item for TreeEntry {
    type Val = Entry;

    open spec fn val(&self) -> Entry {
        self@
    }

    open spec fn wire(v: Entry) -> Seq<u8> {
        entry_then(v, Seq::<u8>::empty())
    }

    open spec fn fits(v: Entry) -> bool {
        encode_utf8(v.name).len() <= u64::MAX
    }

    open spec fn proper(v: Entry) -> bool {
        true
    }

    proof fn wire_nonempty(v: Entry) {
        lemma_entry_then(v, Seq::<u8>::empty());
    }

    proof fn wire_prefix(a: Entry, t: Seq<u8>, b: Entry, u: Seq<u8>) {
        lemma_entry_then(a, t);
        lemma_entry_then(b, u);
        let (x, y) = (entry_then(a, t), entry_then(b, u));
        let h = (head(5, 4) + cbor_text("k"@)).len() as int;
        let ka = cbor_text("n"@) + (cbor_text(a.name) + (cbor_text("x"@) + (cbor_bool(a.executable)
            + (cbor_text("id"@) + (cbor_bytes(a.id@) + t)))));
        let kb = cbor_text("n"@) + (cbor_text(b.name) + (cbor_text("x"@) + (cbor_bool(b.executable)
            + (cbor_text("id"@) + (cbor_bytes(b.id@) + u)))));
        assert(x.skip(h) =~= head(0, a.kind.tag() as u64) + ka);
        assert(y.skip(h) =~= head(0, b.kind.tag() as u64) + kb);
        lemma_head_prefix(0, a.kind.tag() as u64, ka, b.kind.tag() as u64, kb);
        let n = cbor_text("n"@).len() as int;
        let na = cbor_text("x"@) + (cbor_bool(a.executable) + (cbor_text("id"@) + (cbor_bytes(
            a.id@,
        ) + t)));
        let nb = cbor_text("x"@) + (cbor_bool(b.executable) + (cbor_text("id"@) + (cbor_bytes(
            b.id@,
        ) + u)));
        assert(ka.skip(n) =~= cbor_text(a.name) + na);
        assert(kb.skip(n) =~= cbor_text(b.name) + nb);
        lemma_text_prefix(a.name, na, b.name, nb);
        let m = cbor_text("x"@).len() as int;
        assert(na[m] == cbor_bool(a.executable)[0]);
        assert(nb[m] == cbor_bool(b.executable)[0]);
        let k = (cbor_text("x"@) + cbor_bool(a.executable) + cbor_text("id"@)).len() as int;
        assert(na.skip(k) =~= cbor_bytes(a.id@) + t);
        assert(nb.skip(k) =~= cbor_bytes(b.id@) + u);
        lemma_bytes_prefix(a.id@, t, b.id@, u);
        lemma_id_ext(a.id, b.id);
    }

    fn write(&self, out: &mut Vec<u8>) {
        encode_map_header(out, 4);
        encode_text(out, "k");
        encode_u64(out, self.kind.to_u8() as u64);
        encode_text(out, "n");
        encode_text(out, self.name.as_str());
        encode_text(out, "x");
        encode_bool(out, self.executable);
        encode_text(out, "id");
        encode_bytes(out, self.id.0.as_slice());
        assert(out@ =~= old(out)@ + Self::wire(self.val()));
    }

    #[verifier::rlimit(40)]
    fn read(r: &mut Reader<'_>) -> (res: Option<Self>) {
        let ghost before = r.rest();
        proof {
            lemma_entry_keys();
            assert forall|v: Entry, t: Seq<u8>| before == #[trigger] (Self::wire(v)
                + t) implies before == entry_then(v, t) && before.len() >= head(5, 4).len() + 8 by {
                lemma_entry_then(v, t);
            }
        }
        let n = r.map().ok()?;
        if n != 4 {
            return None;
        }
        let mut last: Option<Vec<u8>> = None;
        expect_key(r, &mut last, "k")?;
        let raw = r.u64().ok()?;
        if raw > 255 {
            return None;
        }
        let kind = EntryKind::from_u8(raw as u8).ok()?;
        expect_key(r, &mut last, "n")?;
        let name = r.text().ok()?;
        let size = byte_len(name.as_str());
        expect_key(r, &mut last, "x")?;
        let executable = r.bool().ok()?;
        expect_key(r, &mut last, "id")?;
        let id = ObjectId(r.bstr32().ok()?);
        let e = TreeEntry { name, kind, id, executable };
        proof {
            lemma_entry_then(e@, r.rest());
            assert forall|v: Entry, t: Seq<u8>| before == #[trigger] (Self::wire(v) + t) implies e@
                == v && r.rest() == t by {
                lemma_entry_then(v, t);
                assert(encode_utf8(v.name).len() <= before.len());
                Self::wire_prefix(e@, r.rest(), v, t);
            }
        }
        Some(e)
    }
}

/// What follows the number of a kind of entry.
pub open spec fn kind_scan(s: Seq<u8>) -> Result<Seq<u8>, Fault> {
    match u64_scan(s) {
        Ok((v, t)) => if v > 255 {
            Err(Fault::Corrupt("entry kind overflow"@))
        } else if v != 1 && v != 2 {
            Err(Fault::Invalid(unknown_kind(v as u8)))
        } else {
            Ok(t)
        },
        Err(f) => Err(f),
    }
}

impl Fields for TreeEntry {
    open spec fn field(k: Seq<char>, s: Seq<u8>) -> Result<Seq<u8>, Fault> {
        if k == "n"@ {
            rest_of(text_scan(s, None))
        } else if k == "k"@ {
            kind_scan(s)
        } else if k == "id"@ {
            id_scan(s)
        } else if k == "x"@ {
            bool_scan(s)
        } else {
            Err(Fault::Corrupt("unknown entry key "@ + k))
        }
    }

    open spec fn missing(seen: Seq<Seq<char>>) -> Option<Seq<char>> {
        if !seen.contains("n"@) {
            Some("entry n"@)
        } else if !seen.contains("k"@) {
            Some("entry k"@)
        } else if !seen.contains("id"@) {
            Some("entry id"@)
        } else if !seen.contains("x"@) {
            Some("entry x"@)
        } else {
            None
        }
    }

    open spec fn picky() -> bool {
        true
    }

    proof fn field_faults(k: Seq<char>, s: Seq<u8>) {
    }

    fn check_field(k: &str, r: &mut Reader<'_>) -> (res: Result<(), Error>) {
        if text_eq(k, "n") {
            r.text()?;
        } else if text_eq(k, "k") {
            let raw = r.u64()?;
            if raw > 255 {
                return Err(corrupt("entry kind overflow"));
            }
            EntryKind::from_u8(raw as u8)?;
        } else if text_eq(k, "id") {
            r.bstr32()?;
        } else if text_eq(k, "x") {
            r.bool()?;
        } else {
            return Err(unknown_key("unknown entry key ", k));
        }
        Ok(())
    }

    fn find_missing(seen: &Vec<String>) -> (res: Option<&'static str>) {
        if !has_text(seen, "n") {
            Some("entry n")
        } else if !has_text(seen, "k") {
            Some("entry k")
        } else if !has_text(seen, "id") {
            Some("entry id")
        } else if !has_text(seen, "x") {
            Some("entry x")
        } else {
            None
        }
    }
}

impl Checked for TreeEntry {
    open spec fn scan(s: Seq<u8>) -> Result<Seq<u8>, Fault> {
        record_scan::<TreeEntry>(s)
    }

    open spec fn fussy() -> bool {
        true
    }

    proof fn scan_faults(s: Seq<u8>) {
    }

    fn check(r: &mut Reader<'_>) -> (res: Result<(), Error>) {
        check_record::<TreeEntry>(r)
    }
}

impl Fields for Tree {
    open spec fn field(k: Seq<char>, s: Seq<u8>) -> Result<Seq<u8>, Fault> {
        if k == "e"@ {
            list_scan::<TreeEntry>(s, MAX_TREE_ENTRIES, "tree fanout exceeds limit"@)
        } else {
            Err(Fault::Corrupt("unknown tree key "@ + k))
        }
    }

    open spec fn missing(seen: Seq<Seq<char>>) -> Option<Seq<char>> {
        if !seen.contains("e"@) {
            Some("tree missing e"@)
        } else {
            None
        }
    }

    open spec fn picky() -> bool {
        true
    }

    proof fn field_faults(k: Seq<char>, s: Seq<u8>) {
    }

    fn check_field(k: &str, r: &mut Reader<'_>) -> (res: Result<(), Error>) {
        if text_eq(k, "e") {
            check_list::<TreeEntry>(r, MAX_TREE_ENTRIES, "tree fanout exceeds limit")
        } else {
            Err(unknown_key("unknown tree key ", k))
        }
    }

    fn find_missing(seen: &Vec<String>) -> (res: Option<&'static str>) {
        if !has_text(seen, "e") {
            Some("tree missing e")
        } else {
            None
        }
    }
}

/// The bytes list entries, whatever their names and their order.
pub open spec fn lists(b: Seq<u8>, es: Seq<Entry>) -> bool {
    es.len() <= MAX_TREE_ENTRIES && tree_header(es).len() <= u32::MAX && tree_bytes(es) == b
}

/// What is wrong with bytes that list no entries.
#[verifier::opaque]
pub open spec fn unlisted_fault(b: Seq<u8>) -> Fault {
    object_fault::<Tree>(
        b,
        ObjectType::Tree,
        "not a tree"@,
        "tree has payload"@,
        "tree header trailing bytes"@,
    )
}

/// What is wrong with bytes that are no canonical tree.
#[verifier::opaque]
pub open spec fn tree_fault(b: Seq<u8>) -> Fault {
    if exists|es: Seq<Entry>| #[trigger] lists(b, es) {
        listing_fault(choose|es: Seq<Entry>| #[trigger] lists(b, es))
    } else {
        unlisted_fault(b)
    }
}

/// The header of a tree.
pub open spec fn tree_header(es: Seq<Entry>) -> Seq<u8> {
    head(5, 1) + (cbor_text("e"@) + (list_bytes::<TreeEntry>(es) + Seq::<u8>::empty()))
}

/// The object file of a tree.
pub open spec fn tree_bytes(es: Seq<Entry>) -> Seq<u8> {
    file_bytes(ObjectType::Tree, tree_header(es), Seq::<u8>::empty())
}

/// Entries that the object file of a tree may hold.
pub open spec fn tree_encodable(es: Seq<Entry>) -> bool {
    es.len() <= MAX_TREE_ENTRIES && names_valid(es)
}

proof fn lemma_tree_key()
    ensures
        encode_utf8("e"@).len() == 1,
{
    reveal_strlit("e");
    vstd::utf8::is_ascii_chars_encode_utf8("e"@);
}

/// The header of a tree within the limits fits in an object file.
pub proof fn lemma_tree_header_len(es: Seq<Entry>)
    requires
        tree_encodable(es),
    ensures
        tree_header(es).len() <= u32::MAX,
{
    assert forall|i: int| 0 <= i < es.len() implies (#[trigger] TreeEntry::wire(es[i])).len()
        <= 400 by {
        assert(valid_name(es[i].name));
        lemma_entry_then(es[i], Seq::<u8>::empty());
    }
    lemma_items_max::<TreeEntry>(es, 400);
    lemma_tree_key();
    lemma_head_len(5, 1);
    lemma_head_len(3, 1);
    lemma_head_len(4, es.len() as u64);
    assert(400 * es.len() <= 40_000_000);
}

/// Trees are told apart by their object files.
pub proof fn lemma_tree_unique(a: Seq<Entry>, b: Seq<Entry>)
    requires
        tree_encodable(a),
        tree_encodable(b),
        tree_bytes(a) == tree_bytes(b),
    ensures
        a == b,
{
    lemma_tree_header_len(a);
    lemma_tree_header_len(b);
    lemma_file_unique(
        ObjectType::Tree,
        tree_header(a),
        Seq::<u8>::empty(),
        ObjectType::Tree,
        tree_header(b),
        Seq::<u8>::empty(),
    );
    let h = (head(5, 1) + cbor_text("e"@)).len() as int;
    let e = Seq::<u8>::empty();
    assert(tree_header(a).skip(h) =~= list_bytes::<TreeEntry>(a) + e);
    assert(tree_header(b).skip(h) =~= list_bytes::<TreeEntry>(b) + e);
    assert forall|i: int| 0 <= i < a.len() implies TreeEntry::fits(#[trigger] a[i]) by {
        assert(valid_name(a[i].name));
    }
    assert forall|i: int| 0 <= i < b.len() implies TreeEntry::fits(#[trigger] b[i]) by {
        assert(valid_name(b[i].name));
    }
    lemma_list_prefix::<TreeEntry>(a, e, b, e);
}

impl Tree {
    /// The object file of the tree. More entries than a tree may hold, or a
    /// name that no entry can have, is refused: what is written can be read
    /// back.
    pub fn encode(&self) -> (r: Result<Vec<u8>, Error>)
        ensures
            match r {
                Ok(b) => tree_encodable(self@) && b@ == tree_bytes(self@),
                Err(e) => !tree_encodable(self@) && told(e, unencodable(self@)),
            },
    {
        if self.entries.len() as u64 > MAX_TREE_ENTRIES {
            let mut msg = "tree has ".to_string();
            msg.append(decimal_text(self.entries.len() as u64).as_str());
            msg.append(" entries, more than the ");
            msg.append(decimal_text(MAX_TREE_ENTRIES).as_str());
            msg.append(" a tree may hold");
            return Err(Error::Invalid(msg));
        }
        let mut i: usize = 0;
        while i < self.entries.len()
            invariant
                i <= self.entries@.len() <= MAX_TREE_ENTRIES,
                forall|j: int| 0 <= j < i ==> valid_name((#[trigger] self@[j]).name),
            decreases self.entries@.len() - i,
        {
            let r = validate_name(self.entries[i].name.as_str());
            if let Err(e) = r {
                assert(!valid_name(self@[i as int].name));
                proof {
                    lemma_first_bad(self@, i as int);
                }
                return Err(e);
            }
            assert(self@[i as int].name == self.entries@[i as int].name@);
            i += 1;
        }
        let mut header: Vec<u8> = Vec::new();
        encode_map_header(&mut header, 1);
        encode_text(&mut header, "e");
        write_list(&self.entries, &mut header);
        proof {
            assert(vals(self.entries@) =~= self@);
            assert(header@ =~= tree_header(self@));
            lemma_tree_header_len(self@);
        }
        let empty: Vec<u8> = Vec::new();
        Ok(encode_file(ObjectType::Tree, header.as_slice(), empty.as_slice()))
    }

    /// Accepts exactly the object files of canonical trees. A name that no
    /// entry can have, or an unknown kind of entry, is `Invalid`; all other
    /// damage is `Corrupt`.
    pub fn decode(bytes: &[u8]) -> (r: Result<Self, Error>)
        ensures
            match r {
                Ok(t) => canonical(t@) && t@.len() <= MAX_TREE_ENTRIES && tree_bytes(t@) == bytes@,
                Err(e) => told(e, tree_fault(bytes@)) && forall|es: Seq<Entry>|
                    canonical(es) && es.len() <= MAX_TREE_ENTRIES ==> #[trigger] tree_bytes(es)
                        != bytes@,
            },
            forall|es: Seq<Entry>| #[trigger]
                lists(bytes@, es) ==> match r {
                    Ok(t) => t@ == es,
                    Err(e) => !canonical(es) && told(e, listing_fault(es)),
                },
    {
        proof {
            reveal(tree_fault);
            assert forall|es: Seq<Entry>|
                canonical(es) && es.len() <= MAX_TREE_ENTRIES && #[trigger] tree_bytes(es)
                    == bytes@ implies lists(bytes@, es) by {
                lemma_tree_header_len(es);
            }
        }
        let entries = Self::decode_listed(bytes)?;
        proof {
            let es = entry_values(entries@);
            assert(lists(bytes@, es));
        }
        Tree::from_canonical(entries)
    }

    /// Read the object file of a tree, whatever the names of its entries and their order.
    pub(crate) fn decode_listed(bytes: &[u8]) -> (r: Result<Vec<TreeEntry>, Error>)
        ensures
            match r {
                Ok(v) => lists(bytes@, entry_values(v@)),
                Err(e) => told(e, unlisted_fault(bytes@)),
            },
            forall|es: Seq<Entry>| #[trigger]
                lists(bytes@, es) ==> (r matches Ok(v) && entry_values(v@) == es),
    {
        proof {
            reveal(unlisted_fault);
        }
        match Self::read_listed(bytes) {
            Some(v) => Ok(v),
            None => Err(
                object_error::<Tree>(
                    bytes,
                    ObjectType::Tree,
                    "not a tree",
                    "tree has payload",
                    "tree header trailing bytes",
                ),
            ),
        }
    }

    fn read_listed(bytes: &[u8]) -> (r: Option<Vec<TreeEntry>>)
        ensures
            r matches Some(v) ==> lists(bytes@, entry_values(v@)),
            forall|es: Seq<Entry>| #[trigger]
                lists(bytes@, es) ==> (r matches Some(v) && entry_values(v@) == es),
    {
        proof {
            lemma_tree_key();
        }
        let (ty, header, payload) = parse_file(bytes).ok()?;
        if ty != ObjectType::Tree || payload.len() != 0 {
            return None;
        }
        let ghost whole = header@;
        proof {
            assert(payload@ =~= Seq::<u8>::empty());
            assert forall|es: Seq<Entry>| #[trigger] lists(bytes@, es) implies whole
                == tree_header(es) by {}
        }
        let mut r = Reader::new(header);
        let ghost open = head(5, 1) + cbor_text("e"@);
        proof {
            lemma_head_len(3, 1);
            assert forall|es: Seq<Entry>| whole == #[trigger] tree_header(es) implies 2
                <= (cbor_text("e"@) + (list_bytes::<TreeEntry>(es) + Seq::<u8>::empty())).len() by {
                lemma_head_len(3, 1);
            }
        }
        let n = r.map().ok()?;
        if n != 1 {
            return None;
        }
        let mut last: Option<Vec<u8>> = None;
        expect_key(&mut r, &mut last, "e")?;
        let ghost rest = r.rest();
        proof {
            assert(whole =~= head(5, 1) + (cbor_text("e"@) + rest));
            assert forall|es: Seq<Entry>| whole == #[trigger] tree_header(es) implies rest
                == list_bytes::<TreeEntry>(es) + Seq::<u8>::empty() by {
                let l = list_bytes::<TreeEntry>(es) + Seq::<u8>::empty();
                assert(whole.skip(open.len() as int) =~= l);
                assert(whole.skip(open.len() as int) =~= rest);
            }
        }
        let entries = read_list::<TreeEntry>(&mut r, MAX_TREE_ENTRIES)?;
        if !r.at_end() {
            return None;
        }
        proof {
            assert(r.rest() =~= Seq::<u8>::empty());
            assert(vals(entries@) =~= entry_values(entries@));
            assert(whole =~= tree_header(entry_values(entries@)));
            assert(tree_bytes(entry_values(entries@)) == bytes@);
        }
        Some(entries)
    }
}

/// The object file of a tree with more entries than a tree may hold is refused, as damage
/// and by its fanout.
pub proof fn lemma_fanout_refused(es: Seq<Entry>)
    requires
        es.len() > MAX_TREE_ENTRIES,
        tree_header(es).len() <= u32::MAX,
    ensures
        tree_fault(tree_bytes(es)) == Fault::Corrupt("tree fanout exceeds limit"@),
        forall|fs: Seq<Entry>| !#[trigger] lists(tree_bytes(es), fs),
{
    let b = tree_bytes(es);
    let none = Seq::<u8>::empty();
    let items = items_bytes::<TreeEntry>(es);
    let list = list_bytes::<TreeEntry>(es) + none;
    lemma_items_len::<TreeEntry>(es);
    lemma_tree_key();
    lemma_head_len(3, 1);
    lemma_head_len(4, es.len() as u64);
    assert(es.len() <= u32::MAX);
    assert(list =~= head(4, es.len() as u64) + items);
    assert forall|fs: Seq<Entry>| !#[trigger] lists(b, fs) by {
        if lists(b, fs) {
            lemma_file_unique(
                ObjectType::Tree,
                tree_header(es),
                none,
                ObjectType::Tree,
                tree_header(fs),
                none,
            );
            let other = list_bytes::<TreeEntry>(fs) + none;
            lemma_same_prefix(head(5, 1), cbor_text("e"@) + list, cbor_text("e"@) + other);
            lemma_same_prefix(cbor_text("e"@), list, other);
            assert(other =~= head(4, fs.len() as u64) + items_bytes::<TreeEntry>(fs));
            lemma_head_prefix(
                4,
                es.len() as u64,
                items,
                fs.len() as u64,
                items_bytes::<TreeEntry>(fs),
            );
        }
    }
    reveal(tree_fault);
    reveal(unlisted_fault);
    reveal(map_scan);
    reveal(key_scan);
    reveal(array_scan);
    lemma_file_read(ObjectType::Tree, tree_header(es), none);
    lemma_head_read(5, 1, cbor_text("e"@) + list, "expected map"@);
    lemma_text_read("e"@, list);
    lemma_head_read(4, es.len() as u64, items, "expected array"@);
    reveal_with_fuel(walk, 2);
}

/// An object file that was written is taken apart again.
pub proof fn lemma_file_read(ty: ObjectType, header: Seq<u8>, payload: Seq<u8>)
    requires
        header.len() <= u32::MAX,
    ensures
        file_scan(file_bytes(ty, header, payload)) == Ok::<(ObjectType, Seq<u8>, Seq<u8>), Fault>(
            (ty, header, payload),
        ),
{
    let b = file_bytes(ty, header, payload);
    lemma_big_endian_len(header.len(), 4);
    lemma_pow256_values();
    lemma_big_endian_roundtrip(header.len(), 4);
    assert(b.subrange(1, 5) =~= big_endian(header.len(), 4));
    assert(b.subrange(5, 5 + header.len() as int) =~= header);
    assert(b.skip(5 + header.len() as int) =~= payload);
}

/// How entries that the object file of a tree may not hold are refused.
pub open spec fn unencodable(es: Seq<Entry>) -> Fault {
    if es.len() > MAX_TREE_ENTRIES {
        Fault::Invalid(too_many_entries(es.len()))
    } else {
        names_fault(es)
    }
}

/// How a tree of `n` entries is refused.
pub open spec fn too_many_entries(n: nat) -> Seq<char> {
    "tree has "@ + decimal(n) + " entries, more than the "@ + decimal(MAX_TREE_ENTRIES as nat)
        + " a tree may hold"@
}

} // verus!
