//! Provenance: which agent introduced each object of a sealed snapshot.
use crate::bytes::{
    lemma_lex_antisymmetric, lemma_lex_irreflexive, lemma_lex_total, lemma_lex_transitive, lex_lt,
};
use crate::cbor::{
    cbor_text, cbor_u64, code_width, encode_map_header, encode_text, encode_u64, head,
    lemma_head_len, lemma_head_prefix, lemma_key_order, lemma_same_prefix, lemma_text_prefix,
    len_code, Reader,
};
use crate::items::{all_proper, items_bytes, lemma_items_prefix, lemma_items_push, vals, Item};
use crate::object::{lemma_value_lens, unknown_key};
use crate::scan::{
    fault_text, key_bytes, key_scan, map_scan, refused_as, text_scan, told, u64_scan, Fault,
};
use crate::text::{byte_len, decimal, decimal_text, lemma_ascii_bytes, text_eq};
use crate::types::{
    corrupt, hex_of, hex_value, id_fault, invalid, is_white, lemma_hex_roundtrip, lemma_id_ext, trimmed,
    Error, ObjectId,
};
use vstd::prelude::*;
use vstd::utf8::encode_utf8;

verus! {

/// The version of the envelope that is written.
pub const CURRENT_VERSION: u64 = 1;

/// The most entries of a manifest.
pub const MAX_ENTRIES: u64 = 1_000_000;

/// The longest label.
pub const MAX_LABEL_BYTES: usize = 1_024;

/// The largest manifest, in bytes.
pub const MAX_SERIALIZED_BYTES: usize = 67_108_864;

/// An object and the label of the agent that introduced it.
#[derive(Debug, PartialEq, Eq)]
pub struct Attribution {
    pub id: ObjectId,
    pub label: String,
}

/// An attribution as a value.
pub struct AttributionValue {
    pub id: ObjectId,
    pub label: Seq<char>,
}

impl View for Attribution {
    type V = AttributionValue;

    open spec fn view(&self) -> AttributionValue {
        AttributionValue { id: self.id, label: self.label@ }
    }
}

/// The ids come strictly increasing by their bytes.
pub open spec fn ids_increasing(vs: Seq<AttributionValue>) -> bool {
    forall|i: int, j: int|
        0 <= i < j < vs.len() ==> lex_lt((#[trigger] vs[i]).id@, (#[trigger] vs[j]).id@)
}

/// The attributions as a map from objects to labels.
pub open spec fn label_map(vs: Seq<AttributionValue>) -> Map<ObjectId, Seq<char>>
    decreases vs.len(),
{
    if vs.len() == 0 {
        Map::empty()
    } else {
        label_map(vs.drop_last()).insert(vs.last().id, vs.last().label)
    }
}

proof fn lemma_hex_text(b: Seq<u8>)
    ensures
        encode_utf8(hex_of(b)).len() == 2 * b.len(),
        trimmed(hex_of(b)) == hex_of(b),
        hex_value(encode_utf8(hex_of(b))) == Some(b),
{
    let h = hex_of(b);
    let raw = Seq::new(h.len(), |i: int| h[i] as u8);
    assert forall|i: int| 0 <= i < h.len() implies !is_white(#[trigger] h[i]) && (h[i]) as int
        == raw[i] as int && raw[i] < 128 by {
        assert(0 <= b[i / 2] as int / 16 < 16);
        assert(0 <= b[i / 2] as int % 16 < 16);
    }
    assert forall|i: int| 0 <= i < raw.len() implies #[trigger] raw[i] < 128 by {
        assert(!is_white(h[i]));
    }
    lemma_ascii_bytes(h, raw);
    lemma_hex_roundtrip(b);
    if h.len() > 0 {
        assert(!is_white(h[0]));
        assert(!is_white(h[h.len() - 1]));
    }
}

/// The hexadecimal digits of an id tell which id it is.
proof fn lemma_hex_injective(a: ObjectId, b: ObjectId)
    requires
        hex_of(a@) == hex_of(b@),
    ensures
        a == b,
{
    lemma_hex_text(a@);
    lemma_hex_text(b@);
    lemma_id_ext(a, b);
}

impl Item for Attribution {
    type Val = AttributionValue;

    open spec fn val(&self) -> AttributionValue {
        self@
    }

    open spec fn wire(v: AttributionValue) -> Seq<u8> {
        cbor_text(hex_of(v.id@)) + cbor_text(v.label)
    }

    open spec fn fits(v: AttributionValue) -> bool {
        encode_utf8(v.label).len() <= MAX_LABEL_BYTES
    }

    open spec fn proper(v: AttributionValue) -> bool {
        encode_utf8(v.label).len() <= MAX_LABEL_BYTES
    }

    proof fn wire_nonempty(v: AttributionValue) {
        lemma_head_len(3, encode_utf8(hex_of(v.id@)).len() as u64);
    }

    proof fn wire_prefix(a: AttributionValue, t: Seq<u8>, b: AttributionValue, u: Seq<u8>) {
        lemma_hex_text(a.id@);
        lemma_hex_text(b.id@);
        let (x, y) = (cbor_text(hex_of(a.id@)), cbor_text(hex_of(b.id@)));
        assert(Self::wire(a) + t =~= x + (cbor_text(a.label) + t));
        assert(Self::wire(b) + u =~= y + (cbor_text(b.label) + u));
        lemma_text_prefix(
            hex_of(a.id@),
            cbor_text(a.label) + t,
            hex_of(b.id@),
            cbor_text(b.label) + u,
        );
        lemma_text_prefix(a.label, t, b.label, u);
        lemma_hex_injective(a.id, b.id);
    }

    fn write(&self, out: &mut Vec<u8>) {
        encode_text(out, self.id.hex().as_str());
        encode_text(out, self.label.as_str());
        assert(out@ =~= old(out)@ + Self::wire(self.val()));
    }

    fn read(r: &mut Reader<'_>) -> (res: Option<Self>) {
        let ghost before = r.rest();
        proof {
            assert forall|v: AttributionValue, t: Seq<u8>| before == #[trigger] (Self::wire(v)
                + t) implies before == cbor_text(hex_of(v.id@)) + (cbor_text(v.label) + t)
                && encode_utf8(hex_of(v.id@)).len() == 64 && trimmed(hex_of(v.id@)) == hex_of(v.id@)
                && hex_value(encode_utf8(hex_of(v.id@))) == Some(v.id@) by {
                assert(before =~= cbor_text(hex_of(v.id@)) + (cbor_text(v.label) + t));
                lemma_hex_text(v.id@);
            }
        }
        let encoded = r.text_bounded(64, "provenance object id").ok()?;
        if byte_len(encoded.as_str()) != 64 {
            return None;
        }
        let id = ObjectId::from_hex(encoded.as_str()).ok()?;
        proof {
            assert forall|v: AttributionValue, t: Seq<u8>|
                Self::proper(v) && before == #[trigger] (Self::wire(v) + t) implies id == v.id by {
                lemma_id_ext(id, v.id);
            }
        }
        if !text_eq(id.hex().as_str(), encoded.as_str()) {
            return None;
        }
        let label = r.text_bounded(MAX_LABEL_BYTES, "provenance attribution label").ok()?;
        let x = Attribution { id, label };
        assert(before =~= Self::wire(x@) + r.rest());
        Some(x)
    }
}

/// Labels by object, in the order of the object ids.
#[derive(Debug, PartialEq, Eq)]
pub struct AttributionMap {
    items: Vec<Attribution>,
}

impl AttributionMap {
    #[verifier::type_invariant]
    spec fn inv(self) -> bool {
        ids_increasing(vals(self.items@))
    }

    /// The attributions in the order of their ids.
    pub closed spec fn listing(self) -> Seq<AttributionValue> {
        vals(self.items@)
    }

    pub fn new() -> (r: Self)
        ensures
            r.listing() == Seq::<AttributionValue>::empty(),
    {
        let r = AttributionMap { items: Vec::new() };
        assert(r.listing() =~= Seq::<AttributionValue>::empty());
        r
    }

    pub fn len(&self) -> (n: usize)
        ensures
            n == self.listing().len(),
            ids_increasing(self.listing()),
    {
        proof {
            use_type_invariant(self);
        }
        self.items.len()
    }

    /// The attributions in the order of their ids.
    pub fn items(&self) -> (r: &Vec<Attribution>)
        ensures
            vals(r@) == self.listing(),
            ids_increasing(self.listing()),
    {
        proof {
            use_type_invariant(self);
        }
        &self.items
    }

    /// The label of an object.
    pub fn get(&self, id: &ObjectId) -> (r: Option<&str>)
        ensures
            match r {
                Some(l) => label_map(self.listing()).dom().contains(*id) && label_map(
                    self.listing(),
                )[*id] == l@,
                None => !label_map(self.listing()).dom().contains(*id),
            },
    {
        let ghost all = self.listing();
        let mut i: usize = 0;
        assert(all.take(0) =~= Seq::<AttributionValue>::empty());
        while i < self.items.len()
            invariant
                i <= self.items@.len(),
                all == vals(self.items@),
                all == self.listing(),
                forall|k: int| 0 <= k < i ==> (#[trigger] all[k]).id != *id,
            decreases self.items@.len() - i,
        {
            if self.items[i].id.same(id) {
                proof {
                    use_type_invariant(self);
                    lemma_map_at(all, i as int);
                }
                return Some(self.items[i].label.as_str());
            }
            i += 1;
        }
        proof {
            lemma_map_without(all, *id);
        }
        None
    }

    /// Set the label of an object; the label that it had before comes back.
    pub fn insert(&mut self, id: ObjectId, label: String) -> (r: Option<String>)
        ensures
            label_map(final(self).listing()) == label_map(old(self).listing()).insert(id, label@),
            match r {
                Some(l) => label_map(old(self).listing()).dom().contains(id) && label_map(
                    old(self).listing(),
                )[id] == l@,
                None => !label_map(old(self).listing()).dom().contains(id),
            },
            (forall|i: int|
                0 <= i < old(self).listing().len() ==> lex_lt(
                    (#[trigger] old(self).listing()[i]).id@,
                    id@,
                )) ==> final(self).listing() == old(self).listing().push(
                AttributionValue { id, label: label@ },
            ),
    {
        proof {
            use_type_invariant(&*self);
        }
        let ghost all = self.listing();
        let mut i: usize = self.items.len();
        while i > 0 && id.precedes(&self.items[i - 1].id)
            invariant
                i <= self.items@.len(),
                all == vals(self.items@),
                forall|k: int| i <= k < all.len() ==> lex_lt(id@, (#[trigger] all[k]).id@),
            decreases i,
        {
            i -= 1;
        }
        let ghost entry = AttributionValue { id, label: label@ };
        let mut items: Vec<Attribution> = Vec::new();
        core::mem::swap(&mut self.items, &mut items);
        if i > 0 && items[i - 1].id.same(&id) {
            let mut label = label;
            let at: usize = i - 1;
            core::mem::swap(&mut items[at].label, &mut label);
            proof {
                assert(vals(items@) =~= all.update(i - 1, entry));
                let now = vals(items@);
                assert forall|a: int, b: int| 0 <= a < b < now.len() implies lex_lt(
                    (#[trigger] now[a]).id@,
                    (#[trigger] now[b]).id@,
                ) by {
                    assert(now[a].id == all[a].id);
                    assert(now[b].id == all[b].id);
                }
            }
            self.items = items;
            proof {
                lemma_map_at(all, i - 1);
                lemma_map_update(all, i - 1, entry);
                assert(all[i - 1].id == id);
                lemma_lex_irreflexive(id@);
            }
            return Some(label);
        }
        proof {
            if i > 0 {
                lemma_lex_total(all[i - 1].id@, id@);
                if all[i - 1].id@ == id@ {
                    lemma_id_ext(all[i - 1].id, id);
                }
            }
            assert forall|k: int| 0 <= k < i implies lex_lt((#[trigger] all[k]).id@, id@) by {
                if k < i - 1 {
                    lemma_lex_transitive(all[k].id@, all[i - 1].id@, id@);
                }
            }
        }
        items.insert(i, Attribution { id, label });
        proof {
            assert(vals(items@) =~= all.insert(i as int, entry));
            let now = vals(items@);
            assert forall|a: int, b: int| 0 <= a < b < now.len() implies lex_lt(
                (#[trigger] now[a]).id@,
                (#[trigger] now[b]).id@,
            ) by {
                if b < i {
                    assert(lex_lt(all[a].id@, all[b].id@));
                } else if b == i {
                    assert(lex_lt(all[a].id@, id@));
                } else if a < i {
                    assert(lex_lt(all[a].id@, all[b - 1].id@));
                } else if a == i {
                    assert(lex_lt(id@, all[b - 1].id@));
                } else {
                    assert(lex_lt(all[a - 1].id@, all[b - 1].id@));
                }
            }
        }
        self.items = items;
        proof {
            assert forall|k: int| 0 <= k < all.len() implies (#[trigger] all[k]).id != id by {
                lemma_lex_irreflexive(id@);
            }
            lemma_map_insert(all, i as int, entry);
            lemma_map_without(all, id);
            if forall|k: int| 0 <= k < all.len() ==> lex_lt((#[trigger] all[k]).id@, id@) {
                if i < all.len() {
                    lemma_lex_antisymmetric(id@, all[i as int].id@);
                }
                assert(all.insert(i as int, entry) =~= all.push(entry));
            }
        }
        None
    }
}

/// The label at a place of an increasing listing is the label in the map.
proof fn lemma_map_at(vs: Seq<AttributionValue>, i: int)
    requires
        ids_increasing(vs),
        0 <= i < vs.len(),
    ensures
        label_map(vs).dom().contains(vs[i].id),
        label_map(vs)[vs[i].id] == vs[i].label,
    decreases vs.len(),
{
    let init = vs.drop_last();
    if i < vs.len() - 1 {
        assert forall|a: int, b: int| 0 <= a < b < init.len() implies lex_lt(
            (#[trigger] init[a]).id@,
            (#[trigger] init[b]).id@,
        ) by {
            assert(lex_lt(vs[a].id@, vs[b].id@));
        }
        lemma_map_at(init, i);
        assert(init[i] == vs[i]);
        assert(lex_lt(vs[i].id@, vs[vs.len() - 1].id@));
        lemma_lex_irreflexive(vs[i].id@);
    }
}

/// An id that no place of a listing has is not in the map.
proof fn lemma_map_without(vs: Seq<AttributionValue>, id: ObjectId)
    requires
        forall|i: int| 0 <= i < vs.len() ==> (#[trigger] vs[i]).id != id,
    ensures
        !label_map(vs).dom().contains(id),
    decreases vs.len(),
{
    if vs.len() > 0 {
        let init = vs.drop_last();
        assert forall|i: int| 0 <= i < init.len() implies (#[trigger] init[i]).id != id by {
            assert(init[i] == vs[i]);
        }
        lemma_map_without(init, id);
        assert(vs[vs.len() - 1].id != id);
    }
}

/// Replacing a label in the listing replaces it in the map.
proof fn lemma_map_update(vs: Seq<AttributionValue>, i: int, e: AttributionValue)
    requires
        ids_increasing(vs),
        0 <= i < vs.len(),
        vs[i].id == e.id,
    ensures
        label_map(vs.update(i, e)) == label_map(vs).insert(e.id, e.label),
    decreases vs.len(),
{
    let all = vs.update(i, e);
    let n = vs.len() - 1;
    if i == n {
        assert(all.drop_last() =~= vs.drop_last());
        assert(label_map(all) =~= label_map(vs).insert(e.id, e.label));
    } else {
        let init = vs.drop_last();
        assert forall|a: int, b: int| 0 <= a < b < init.len() implies lex_lt(
            (#[trigger] init[a]).id@,
            (#[trigger] init[b]).id@,
        ) by {
            assert(lex_lt(vs[a].id@, vs[b].id@));
        }
        lemma_map_update(init, i, e);
        assert(all.drop_last() =~= init.update(i, e));
        assert(lex_lt(vs[i].id@, vs[n].id@));
        lemma_lex_irreflexive(vs[i].id@);
        assert(label_map(all) =~= label_map(vs).insert(e.id, e.label));
    }
}

/// Inserting a new id into the listing inserts it into the map.
proof fn lemma_map_insert(vs: Seq<AttributionValue>, i: int, e: AttributionValue)
    requires
        0 <= i <= vs.len(),
        forall|k: int| i <= k < vs.len() ==> (#[trigger] vs[k]).id != e.id,
    ensures
        label_map(vs.insert(i, e)) == label_map(vs).insert(e.id, e.label),
    decreases vs.len(),
{
    let all = vs.insert(i, e);
    if i == vs.len() {
        assert(all =~= vs.push(e));
        assert(all.drop_last() =~= vs);
    } else {
        let init = vs.drop_last();
        assert forall|k: int| i <= k < init.len() implies (#[trigger] init[k]).id != e.id by {
            assert(init[k] == vs[k]);
        }
        lemma_map_insert(init, i, e);
        assert(all.drop_last() =~= init.insert(i, e));
        assert(all.last() == vs.last());
        assert(vs[vs.len() - 1].id != e.id);
        assert(label_map(all) =~= label_map(vs).insert(e.id, e.label));
    }
}

/// The map of attributions, followed by nothing.
pub open spec fn entries_bytes(vs: Seq<AttributionValue>) -> Seq<u8> {
    head(5, vs.len() as u64) + items_bytes::<Attribution>(vs)
}

/// A manifest: the map alone as early builds wrote it, or in an envelope that
/// names the version.
pub open spec fn manifest_bytes(vs: Seq<AttributionValue>, legacy: bool) -> Seq<u8> {
    if legacy {
        entries_bytes(vs)
    } else {
        head(5, 2) + (cbor_text("entries"@) + (entries_bytes(vs) + (cbor_text("version"@) + (
        cbor_u64(CURRENT_VERSION) + Seq::<u8>::empty()))))
    }
}

/// Every label is within its bound.
pub open spec fn labels_bounded(vs: Seq<AttributionValue>) -> bool {
    all_proper::<Attribution>(vs)
}

/// A manifest within its bounds and at most `max` bytes long.
pub open spec fn manifest_valid(vs: Seq<AttributionValue>, legacy: bool, max: int) -> bool {
    &&& vs.len() <= MAX_ENTRIES
    &&& ids_increasing(vs)
    &&& labels_bounded(vs)
    &&& manifest_bytes(vs, legacy).len() <= max
}

/// How attributions that are too many, or have too long a label, are refused.
pub open spec fn listing_bounds(vs: Seq<AttributionValue>) -> Fault {
    if vs.len() > MAX_ENTRIES {
        Fault::Invalid("provenance entry limit"@)
    } else {
        Fault::Invalid("provenance attribution label limit"@)
    }
}

/// How a manifest beyond its bounds is refused.
pub open spec fn manifest_bounds(vs: Seq<AttributionValue>) -> Fault {
    if vs.len() <= MAX_ENTRIES && labels_bounded(vs) {
        Fault::Invalid("provenance serialized size limit"@)
    } else {
        listing_bounds(vs)
    }
}

/// What follows `n` attributions after the key `last`.
pub open spec fn entries_walk(s: Seq<u8>, n: nat, last: Option<Seq<u8>>) -> Result<Seq<u8>, Fault>
    decreases n,
{
    if n == 0 {
        Ok(s)
    } else {
        match key_scan(s, last, Some((64nat, "provenance object id"@))) {
            Ok((k, t)) => if encode_utf8(k).len() != 64 {
                Err(Fault::Corrupt("provenance object id length"@))
            } else {
                match hex_value(encode_utf8(trimmed(k))) {
                    Some(raw) => if raw.len() != 32 {
                        Err(Fault::Corrupt("provenance object id: "@ + ("invalid: "@ + id_fault(k))))
                    } else if hex_of(raw) != k {
                        Err(Fault::Corrupt("provenance object ids must be lowercase hex"@))
                    } else {
                        match text_scan(
                            t,
                            Some((MAX_LABEL_BYTES as nat, "provenance attribution label"@)),
                        ) {
                            Ok((_, u)) => entries_walk(u, (n - 1) as nat, Some(cbor_text(k))),
                            Err(f) => Err(f),
                        }
                    },
                    None => Err(
                        Fault::Corrupt("provenance object id: "@ + ("invalid: "@ + id_fault(k))),
                    ),
                }
            },
            Err(f) => Err(f),
        }
    }
}

/// What follows a map of attributions.
pub open spec fn entries_scan(s: Seq<u8>) -> Result<Seq<u8>, Fault> {
    match map_scan(s) {
        Ok((n, t)) => if n > MAX_ENTRIES {
            Err(Fault::Corrupt("provenance entry limit"@))
        } else {
            entries_walk(t, n as nat, None)
        },
        Err(f) => Err(f),
    }
}

/// Whether bytes hold the map alone: an empty map, or one whose first key is an object id.
pub open spec fn legacy_scan(b: Seq<u8>) -> Result<bool, Fault> {
    match map_scan(b) {
        Ok((n, t)) => if n == 0 {
            Ok(true)
        } else {
            match key_scan(t, None, Some((64nat, "provenance map key"@))) {
                Ok((k, _)) => Ok(
                    encode_utf8(k).len() == 64 && match hex_value(encode_utf8(trimmed(k))) {
                        Some(raw) => raw.len() == 32 && hex_of(raw) == k,
                        None => false,
                    },
                ),
                Err(f) => Err(f),
            }
        },
        Err(f) => Err(f),
    }
}

/// What `n` fields of an envelope hold after the key `last`: the version, whether there are
/// entries, and what follows.
pub open spec fn envelope_walk(
    s: Seq<u8>,
    n: nat,
    last: Option<Seq<u8>>,
    version: Option<u64>,
    entries: bool,
) -> Result<(Option<u64>, bool, Seq<u8>), Fault>
    decreases n,
{
    if n == 0 {
        Ok((version, entries, s))
    } else {
        match key_scan(s, last, Some((32nat, "provenance envelope key"@))) {
            Ok((k, t)) => if k == "entries"@ {
                match entries_scan(t) {
                    Ok(u) => envelope_walk(u, (n - 1) as nat, Some(cbor_text(k)), version, true),
                    Err(f) => Err(f),
                }
            } else if k == "version"@ {
                match u64_scan(t) {
                    Ok((v, u)) => envelope_walk(
                        u,
                        (n - 1) as nat,
                        Some(cbor_text(k)),
                        Some(v),
                        entries,
                    ),
                    Err(f) => Err(f),
                }
            } else {
                Err(Fault::Corrupt("unknown provenance envelope key "@ + k))
            },
            Err(f) => Err(f),
        }
    }
}

/// What an envelope holds: the version, whether there are entries, and what follows.
pub open spec fn envelope_scan(b: Seq<u8>) -> Result<(Option<u64>, bool, Seq<u8>), Fault> {
    match map_scan(b) {
        Ok((n, t)) => envelope_walk(t, n as nat, None, None, false),
        Err(f) => Err(f),
    }
}

/// How bytes of at most `max` that are no manifest are refused.
pub open spec fn manifest_fault(b: Seq<u8>, max: int) -> Seq<char> {
    if b.len() > max {
        "provenance serialized size limit"@
    } else {
        match legacy_scan(b) {
            Ok(true) => match entries_scan(b) {
                Ok(t) => if t.len() > 0 {
                    "provenance trailing bytes"@
                } else {
                    "non-canonical provenance encoding"@
                },
                Err(f) => fault_text(f),
            },
            Ok(false) => match envelope_scan(b) {
                Ok((version, entries, t)) => if t.len() > 0 {
                    "provenance trailing bytes"@
                } else {
                    match version {
                        Some(v) => if v != CURRENT_VERSION {
                            "unsupported provenance version "@ + decimal(v as nat)
                        } else if !entries {
                            "provenance entries"@
                        } else {
                            "non-canonical provenance encoding"@
                        },
                        None => "provenance version"@,
                    }
                },
                Err(f) => fault_text(f),
            },
            Err(f) => fault_text(f),
        }
    }
}

/// Step over a map of attributions.
fn check_entries(r: &mut Reader<'_>) -> (res: Result<(), Error>)
    ensures
        refused_as(entries_scan(old(r).rest()), res),
        res is Ok ==> entries_scan(old(r).rest()) == Ok::<Seq<u8>, Fault>(final(r).rest()),
        res matches Err(e) ==> e is Corrupt,
{
    let count = r.map()?;
    if count > MAX_ENTRIES {
        return Err(corrupt("provenance entry limit"));
    }
    let ghost body = r.rest();
    let mut last: Option<Vec<u8>> = None;
    let mut i: u64 = 0;
    while i < count
        invariant
            i <= count,
            entries_scan(old(r).rest()) == entries_walk(body, count as nat, None),
            entries_walk(body, count as nat, None) == entries_walk(
                r.rest(),
                (count - i) as nat,
                key_bytes(last),
            ),
        decreases count - i,
    {
        let k = r.text_map_key_bounded(&mut last, 64, "provenance object id")?;
        if byte_len(k.as_str()) != 64 {
            return Err(corrupt("provenance object id length"));
        }
        let id = match ObjectId::from_hex(k.as_str()) {
            Ok(id) => id,
            Err(e) => {
                let mut msg = "provenance object id: ".to_string();
                msg.append(e.message().as_str());
                return Err(Error::Corrupt(msg));
            },
        };
        if !text_eq(id.hex().as_str(), k.as_str()) {
            return Err(corrupt("provenance object ids must be lowercase hex"));
        }
        r.text_bounded(MAX_LABEL_BYTES, "provenance attribution label")?;
        i += 1;
    }
    Ok(())
}

/// What an envelope holds: the version, and whether there are entries.
fn check_envelope(r: &mut Reader<'_>) -> (res: Result<(Option<u64>, bool), Error>)
    ensures
        refused_as(envelope_scan(old(r).rest()), res),
        res matches Ok((version, entries)) ==> envelope_scan(old(r).rest()) == Ok::<
            (Option<u64>, bool, Seq<u8>),
            Fault,
        >((version, entries, final(r).rest())),
        res matches Err(e) ==> e is Corrupt,
{
    let fields = r.map()?;
    let ghost body = r.rest();
    let mut last: Option<Vec<u8>> = None;
    let mut version: Option<u64> = None;
    let mut entries = false;
    let mut i: u64 = 0;
    while i < fields
        invariant
            i <= fields,
            envelope_scan(old(r).rest()) == envelope_walk(body, fields as nat, None, None, false),
            envelope_walk(body, fields as nat, None, None, false) == envelope_walk(
                r.rest(),
                (fields - i) as nat,
                key_bytes(last),
                version,
                entries,
            ),
        decreases fields - i,
    {
        let k = r.text_map_key_bounded(&mut last, 32, "provenance envelope key")?;
        if text_eq(k.as_str(), "entries") {
            check_entries(r)?;
            entries = true;
        } else if text_eq(k.as_str(), "version") {
            version = Some(r.u64()?);
        } else {
            return Err(unknown_key("unknown provenance envelope key ", k.as_str()));
        }
        i += 1;
    }
    Ok((version, entries))
}

/// What is wrong with bytes of at most `max_bytes` that are no manifest.
fn manifest_error(bytes: &[u8], max_bytes: usize) -> (e: Error)
    ensures
        e matches Error::Corrupt(m) && m@ == manifest_fault(bytes@, max_bytes as int),
{
    if bytes.len() > max_bytes {
        return corrupt("provenance serialized size limit");
    }
    let legacy = match looks_legacy(bytes) {
        Ok(legacy) => legacy,
        Err(e) => {
            return e;
        },
    };
    let mut r = Reader::new(bytes);
    if legacy {
        if let Err(e) = check_entries(&mut r) {
            return e;
        }
        return corrupt(
            if r.at_end() {
                "non-canonical provenance encoding"
            } else {
                "provenance trailing bytes"
            },
        );
    }
    let (version, entries) = match check_envelope(&mut r) {
        Ok(found) => found,
        Err(e) => {
            return e;
        },
    };
    if !r.at_end() {
        return corrupt("provenance trailing bytes");
    }
    match version {
        Some(v) => if v != CURRENT_VERSION {
            let mut msg = "unsupported provenance version ".to_string();
            msg.append(decimal_text(v).as_str());
            Error::Corrupt(msg)
        } else if !entries {
            corrupt("provenance entries")
        } else {
            corrupt("non-canonical provenance encoding")
        },
        None => corrupt("provenance version"),
    }
}

/// The length of the head for a length or count.
fn cbor_header_len(value: usize) -> (r: usize)
    ensures
        r == 1 + code_width(len_code(value as u64)),
{
    let v = value as u64;
    if v < 24 {
        1
    } else if v <= 0xff {
        2
    } else if v <= 0xffff {
        3
    } else if v <= 0xffff_ffff {
        5
    } else {
        9
    }
}

/// The encoded length of the entries, where they are within the bounds.
fn entries_encoded_len(entries: &AttributionMap) -> (r: Result<usize, Error>)
    ensures
        match r {
            Ok(n) => {
                &&& entries.listing().len() <= MAX_ENTRIES
                &&& labels_bounded(entries.listing())
                &&& n == entries_bytes(entries.listing()).len()
                &&& n <= 1_200_000_009
            },
            Err(e) => !(entries.listing().len() <= MAX_ENTRIES && labels_bounded(entries.listing()))
                && told(e, listing_bounds(entries.listing())),
        },
{
    let items = entries.items();
    if items.len() > MAX_ENTRIES as usize {
        return Err(invalid("provenance entry limit"));
    }
    let ghost all = entries.listing();
    let start = cbor_header_len(items.len());
    let mut serialized: usize = start;
    let mut i: usize = 0;
    proof {
        lemma_head_len(5, items@.len() as u64);
        assert(all.take(0) =~= Seq::<AttributionValue>::empty());
    }
    while i < items.len()
        invariant
            i <= items@.len() <= MAX_ENTRIES,
            all == vals(items@),
            all == entries.listing(),
            start <= 9,
            serialized == start + items_bytes::<Attribution>(all.take(i as int)).len(),
            serialized <= 9 + 1_200 * i,
            forall|k: int| 0 <= k < i ==> Attribution::proper(#[trigger] all[k]),
        decreases items@.len() - i,
    {
        let n = byte_len(items[i].label.as_str());
        assert(all[i as int] == items@[i as int]@);
        if n > MAX_LABEL_BYTES {
            assert(!Attribution::proper(all[i as int]));
            return Err(invalid("provenance attribution label limit"));
        }
        let key = cbor_header_len(64) + 64;
        let label = cbor_header_len(n) + n;
        proof {
            let v = all[i as int];
            lemma_hex_text(v.id@);
            assert(all.take(i + 1) =~= all.take(i as int).push(v));
            lemma_items_push::<Attribution>(all.take(i as int), v);
            lemma_head_len(3, 64);
            lemma_head_len(3, n as u64);
        }
        serialized = serialized + key + label;
        i += 1;
    }
    assert(all.take(i as int) =~= all);
    Ok(serialized)
}

proof fn lemma_envelope_keys()
    ensures
        lex_lt(cbor_text("entries"@), cbor_text("version"@)),
        encode_utf8("entries"@).len() == 7,
        encode_utf8("version"@).len() == 7,
{
    reveal_strlit("entries");
    reveal_strlit("version");
    lemma_key_order("entries"@, "version"@);
    vstd::utf8::is_ascii_chars_encode_utf8("entries"@);
    vstd::utf8::is_ascii_chars_encode_utf8("version"@);
}

/// The encoded length of a manifest, where its entries are within the bounds.
fn manifest_encoded_len(entries: &AttributionMap, legacy: bool) -> (r: Result<usize, Error>)
    ensures
        match r {
            Ok(n) => {
                &&& entries.listing().len() <= MAX_ENTRIES
                &&& labels_bounded(entries.listing())
                &&& n == manifest_bytes(entries.listing(), legacy).len()
            },
            Err(e) => !(entries.listing().len() <= MAX_ENTRIES && labels_bounded(entries.listing()))
                && told(e, listing_bounds(entries.listing())),
        },
{
    let entries_len = entries_encoded_len(entries)?;
    if legacy {
        return Ok(entries_len);
    }
    let map_len = cbor_header_len(2);
    let key_len = cbor_header_len(7) + 7;
    let version_len = cbor_header_len(CURRENT_VERSION as usize);
    proof {
        lemma_envelope_keys();
        lemma_head_len(5, 2);
        lemma_head_len(3, 7);
        lemma_head_len(0, CURRENT_VERSION);
    }
    Ok(map_len + key_len + entries_len + key_len + version_len)
}

fn validate_manifest(entries: &AttributionMap, legacy: bool, max_bytes: usize) -> (r: Result<
    (),
    Error,
>)
    ensures
        match r {
            Ok(_) => manifest_valid(entries.listing(), legacy, max_bytes as int),
            Err(e) => !manifest_valid(entries.listing(), legacy, max_bytes as int) && told(
                e,
                manifest_bounds(entries.listing()),
            ),
        },
{
    let n = manifest_encoded_len(entries, legacy)?;
    let count = entries.len();
    if n > max_bytes {
        return Err(invalid("provenance serialized size limit"));
    }
    Ok(())
}

fn encode_entries(out: &mut Vec<u8>, entries: &AttributionMap)
    ensures
        final(out)@ == old(out)@ + entries_bytes(entries.listing()),
{
    let items = entries.items();
    encode_map_header(out, items.len() as u64);
    let ghost start = out@;
    let ghost all = entries.listing();
    let mut i: usize = 0;
    assert(all.take(0) =~= Seq::<AttributionValue>::empty());
    assert(start + items_bytes::<Attribution>(all.take(0)) =~= start);
    while i < items.len()
        invariant
            i <= items@.len(),
            all == vals(items@),
            out@ == start + items_bytes::<Attribution>(all.take(i as int)),
        decreases items@.len() - i,
    {
        items[i].write(out);
        proof {
            assert(all.take(i + 1) =~= all.take(i as int).push(all[i as int]));
            lemma_items_push::<Attribution>(all.take(i as int), all[i as int]);
            assert(out@ =~= start + items_bytes::<Attribution>(all.take(i + 1)));
        }
        i += 1;
    }
    assert(all.take(i as int) =~= all);
    assert(out@ =~= old(out)@ + entries_bytes(all));
}

/// Read a map of attributions, where one comes next.
fn decode_entries(r: &mut Reader<'_>) -> (res: Option<AttributionMap>)
    ensures
        res matches Some(m) ==> {
            &&& old(r).rest() == entries_bytes(m.listing()) + final(r).rest()
            &&& ids_increasing(m.listing())
            &&& m.listing().len() <= MAX_ENTRIES
            &&& labels_bounded(m.listing())
        },
        forall|vs: Seq<AttributionValue>, t: Seq<u8>|
            vs.len() <= MAX_ENTRIES && ids_increasing(vs) && labels_bounded(vs) && old(r).rest()
                == #[trigger] (entries_bytes(vs) + t) ==> (res matches Some(m) && m.listing() == vs)
                && final(r).rest() == t,
{
    let ghost before = r.rest();
    let ghost known = exists|vs: Seq<AttributionValue>, t: Seq<u8>|
        vs.len() <= MAX_ENTRIES && ids_increasing(vs) && labels_bounded(vs) && before
            == #[trigger] (entries_bytes(vs) + t);
    let ghost (w, wt) = choose|vs: Seq<AttributionValue>, t: Seq<u8>|
        vs.len() <= MAX_ENTRIES && ids_increasing(vs) && labels_bounded(vs) && before
            == #[trigger] (entries_bytes(vs) + t);
    proof {
        if known {
            assert(before =~= head(5, w.len() as u64) + (items_bytes::<Attribution>(w) + wt));
            lemma_pairs_len(w);
        }
    }
    let count = r.map().ok()?;
    if count > MAX_ENTRIES {
        return None;
    }
    let ghost body = r.rest();
    let mut entries = AttributionMap::new();
    let mut prev: Option<ObjectId> = None;
    let mut i: u64 = 0;
    proof {
        assert(items_bytes::<Attribution>(entries.listing()) + body =~= body);
        assert(w.skip(0) =~= w);
        assert(w.take(0) =~= entries.listing());
    }
    while i < count
        invariant
            i <= count <= MAX_ENTRIES,
            before == old(r).rest(),
            entries.listing().len() == i,
            body == items_bytes::<Attribution>(entries.listing()) + r.rest(),
            ids_increasing(entries.listing()),
            labels_bounded(entries.listing()),
            prev is None <==> i == 0,
            prev matches Some(p) ==> p == entries.listing().last().id,
            known == exists|vs: Seq<AttributionValue>, t: Seq<u8>|
                vs.len() <= MAX_ENTRIES && ids_increasing(vs) && labels_bounded(vs) && before
                    == #[trigger] (entries_bytes(vs) + t),
            known ==> ids_increasing(w) && labels_bounded(w) && w.len() == count
                && entries.listing() == w.take(i as int) && r.rest() == items_bytes::<Attribution>(
                w.skip(i as int),
            ) + wt,
        decreases count - i,
    {
        let ghost here = r.rest();
        let ghost done = entries.listing();
        proof {
            if known {
                let tail = w.skip(i as int);
                assert(tail.drop_first() =~= w.skip(i + 1));
                assert(here =~= Attribution::wire(w[i as int]) + (items_bytes::<Attribution>(
                    w.skip(i + 1),
                ) + wt));
            }
        }
        let x = Attribution::read(r)?;
        if let Some(p) = prev {
            proof {
                assert(known ==> done[i - 1] == w[i - 1] && x@ == w[i as int]);
            }
            if !p.precedes(&x.id) {
                return None;
            }
        }
        let ghost v = x@;
        proof {
            assert forall|k: int| 0 <= k < done.len() implies lex_lt(
                (#[trigger] done[k]).id@,
                v.id@,
            ) by {
                if k < done.len() - 1 {
                    assert(lex_lt(done[k].id@, done[done.len() - 1].id@));
                    lemma_lex_transitive(done[k].id@, done[done.len() - 1].id@, v.id@);
                }
            }
        }
        prev = Some(x.id);
        let old_label = entries.insert(x.id, x.label);
        proof {
            assert(entries.listing() == done.push(v));
            lemma_items_push::<Attribution>(done, v);
            assert(body =~= items_bytes::<Attribution>(entries.listing()) + r.rest());
            if known {
                assert(entries.listing() =~= w.take(i + 1));
            }
        }
        i += 1;
    }
    proof {
        assert(before =~= entries_bytes(entries.listing()) + r.rest());
        if known {
            assert(w.take(count as int) =~= w);
            assert(w.skip(count as int) =~= Seq::<AttributionValue>::empty());
            assert(items_bytes::<Attribution>(w.skip(count as int)) + wt =~= wt);
        }
        assert forall|vs: Seq<AttributionValue>, t: Seq<u8>|
            vs.len() <= MAX_ENTRIES && ids_increasing(vs) && labels_bounded(vs) && before
                == #[trigger] (entries_bytes(vs) + t) implies entries.listing() == vs && r.rest()
            == t by {
            lemma_entries_prefix(entries.listing(), r.rest(), vs, t);
        }
    }
    Some(entries)
}

/// Every pair of the map takes two bytes or more.
proof fn lemma_pairs_len(vs: Seq<AttributionValue>)
    ensures
        items_bytes::<Attribution>(vs).len() >= 2 * vs.len(),
    decreases vs.len(),
{
    if vs.len() > 0 {
        lemma_value_lens(hex_of(vs[0].id@), vs[0].id@, 0);
        lemma_value_lens(vs[0].label, vs[0].id@, 0);
        lemma_pairs_len(vs.drop_first());
    }
}

/// The map of attributions determines itself and where it ends.
proof fn lemma_entries_prefix(
    a: Seq<AttributionValue>,
    t: Seq<u8>,
    b: Seq<AttributionValue>,
    u: Seq<u8>,
)
    requires
        a.len() <= MAX_ENTRIES,
        b.len() <= MAX_ENTRIES,
        labels_bounded(a),
        labels_bounded(b),
        entries_bytes(a) + t == entries_bytes(b) + u,
    ensures
        a == b,
        t == u,
{
    let (x, y) = (items_bytes::<Attribution>(a) + t, items_bytes::<Attribution>(b) + u);
    assert(entries_bytes(a) + t =~= head(5, a.len() as u64) + x);
    assert(entries_bytes(b) + u =~= head(5, b.len() as u64) + y);
    lemma_head_prefix(5, a.len() as u64, x, b.len() as u64, y);
    lemma_items_prefix::<Attribution>(a, t, b, u);
}

/// Whether bytes hold the map alone: an empty map, or one whose first key is
/// an object id.
fn looks_legacy(bytes: &[u8]) -> (r: Result<bool, Error>)
    ensures
        r matches Err(e) ==> e is Corrupt,
        refused_as(legacy_scan(bytes@), r),
        r matches Ok(legacy) ==> legacy_scan(bytes@) == Ok::<bool, Fault>(legacy),
        forall|vs: Seq<AttributionValue>, legacy: bool|
            vs.len() <= MAX_ENTRIES && #[trigger] manifest_bytes(vs, legacy) == bytes@ ==> r == Ok::<
                bool,
                Error,
            >(legacy),
{
    let mut reader = Reader::new(bytes);
    let ghost e = Seq::<u8>::empty();
    proof {
        lemma_envelope_keys();
        lemma_head_len(3, 7);
        assert forall|vs: Seq<AttributionValue>, legacy: bool|
            vs.len() <= MAX_ENTRIES && #[trigger] manifest_bytes(vs, legacy) == bytes@ implies {
            let tail = cbor_text("entries"@) + (entries_bytes(vs) + (cbor_text("version"@) + (
            cbor_u64(CURRENT_VERSION) + e)));
            &&& legacy ==> bytes@ == head(5, vs.len() as u64) + items_bytes::<Attribution>(vs)
                && 2 * vs.len() <= items_bytes::<Attribution>(vs).len()
            &&& legacy && vs.len() > 0 ==> {
                &&& items_bytes::<Attribution>(vs) == cbor_text(hex_of(vs[0].id@)) + (cbor_text(
                    vs[0].label,
                ) + items_bytes::<Attribution>(vs.drop_first()))
                &&& encode_utf8(hex_of(vs[0].id@)).len() == 64
                &&& trimmed(hex_of(vs[0].id@)) == hex_of(vs[0].id@)
                &&& hex_value(encode_utf8(hex_of(vs[0].id@))) == Some(vs[0].id@)
            }
            &&& !legacy ==> bytes@ == head(5, 2) + tail && 4 <= tail.len()
        } by {
            lemma_pairs_len(vs);
            if vs.len() > 0 {
                lemma_hex_text(vs[0].id@);
                assert(items_bytes::<Attribution>(vs) =~= cbor_text(hex_of(vs[0].id@)) + (cbor_text(
                    vs[0].label,
                ) + items_bytes::<Attribution>(vs.drop_first())));
            }
        }
    }
    let count = reader.map()?;
    if count == 0 {
        return Ok(true);
    }
    let mut last: Option<Vec<u8>> = None;
    let first = reader.text_map_key_bounded(&mut last, 64, "provenance map key")?;
    if byte_len(first.as_str()) != 64 {
        return Ok(false);
    }
    match ObjectId::from_hex(first.as_str()) {
        Ok(id) => {
            let r = text_eq(id.hex().as_str(), first.as_str());
            proof {
                assert forall|vs: Seq<AttributionValue>, legacy: bool|
                    vs.len() <= MAX_ENTRIES && #[trigger] manifest_bytes(vs, legacy)
                        == bytes@ implies r == legacy by {
                    if legacy {
                        lemma_id_ext(id, vs[0].id);
                    }
                }
            }
            Ok(r)
        },
        Err(_) => Ok(false),
    }
}

/// The provenance index that a snapshot signs.
///
/// Manifests are written in a versioned envelope. The map without an envelope,
/// as early builds wrote it, is still read.
#[derive(Debug, PartialEq, Eq)]
pub struct ProvenanceManifest {
    entries: AttributionMap,
    legacy: bool,
}

impl ProvenanceManifest {
    /// The attributions in the order of their ids.
    pub closed spec fn listing(self) -> Seq<AttributionValue> {
        self.entries.listing()
    }

    /// The manifest has no envelope.
    pub closed spec fn without_envelope(self) -> bool {
        self.legacy
    }

    pub fn new(entries: AttributionMap) -> (r: Result<Self, Error>)
        ensures
            match r {
                Ok(m) => m.listing() == entries.listing() && !m.without_envelope()
                    && manifest_valid(entries.listing(), false, MAX_SERIALIZED_BYTES as int),
                Err(e) => !manifest_valid(entries.listing(), false, MAX_SERIALIZED_BYTES as int)
                    && told(e, manifest_bounds(entries.listing())),
            },
    {
        validate_manifest(&entries, false, MAX_SERIALIZED_BYTES)?;
        Ok(ProvenanceManifest { entries, legacy: false })
    }

    pub fn entries(&self) -> (r: &AttributionMap)
        ensures
            r.listing() == self.listing(),
    {
        &self.entries
    }

    pub fn is_legacy(&self) -> (r: bool)
        ensures
            r == self.without_envelope(),
    {
        self.legacy
    }

    pub fn encode(&self) -> (r: Vec<u8>)
        ensures
            r@ == manifest_bytes(self.listing(), self.without_envelope()),
    {
        let mut out: Vec<u8> = Vec::new();
        if self.legacy {
            encode_entries(&mut out, &self.entries);
            assert(out@ =~= manifest_bytes(self.listing(), true));
            return out;
        }
        encode_map_header(&mut out, 2);
        encode_text(&mut out, "entries");
        encode_entries(&mut out, &self.entries);
        encode_text(&mut out, "version");
        encode_u64(&mut out, CURRENT_VERSION);
        assert(out@ =~= manifest_bytes(self.listing(), false));
        out
    }

    /// Accepts exactly the manifests within their bounds.
    pub fn decode(bytes: &[u8]) -> (r: Result<Self, Error>)
        ensures
            match r {
                Ok(m) => manifest_valid(
                    m.listing(),
                    m.without_envelope(),
                    MAX_SERIALIZED_BYTES as int,
                ) && manifest_bytes(m.listing(), m.without_envelope()) == bytes@,
                Err(e) => (e matches Error::Corrupt(m) && m@ == manifest_fault(
                    bytes@,
                    MAX_SERIALIZED_BYTES as int,
                )) && forall|vs: Seq<AttributionValue>, legacy: bool|
                    manifest_valid(vs, legacy, MAX_SERIALIZED_BYTES as int)
                        ==> #[trigger] manifest_bytes(vs, legacy) != bytes@,
            },
            forall|vs: Seq<AttributionValue>, legacy: bool|
                manifest_valid(vs, legacy, MAX_SERIALIZED_BYTES as int) && #[trigger] manifest_bytes(
                    vs,
                    legacy,
                ) == bytes@ ==> (r matches Ok(m) && m.listing() == vs && m.without_envelope()
                    == legacy),
            no_manifest(bytes@) ==> (r matches Err(Error::Corrupt(_))),
    {
        let r = Self::decode_with_limit(bytes, MAX_SERIALIZED_BYTES);
        proof {
            if r is Ok {
                let m = r->Ok_0;
                assert forall|vs: Seq<AttributionValue>, legacy: bool|
                    manifest_valid(vs, legacy, MAX_SERIALIZED_BYTES as int)
                        && #[trigger] manifest_bytes(vs, legacy) == bytes@ implies m.listing() == vs
                    && m.without_envelope() == legacy by {
                    lemma_manifest_unique(m.listing(), m.without_envelope(), vs, legacy);
                }
            }
        }
        r
    }

    /// Accepts exactly the manifests within their bounds and at most
    /// `max_bytes` long.
    pub fn decode_with_limit(bytes: &[u8], max_bytes: usize) -> (r: Result<Self, Error>)
        ensures
            match r {
                Ok(m) => manifest_valid(m.listing(), m.without_envelope(), max_bytes as int)
                    && manifest_bytes(m.listing(), m.without_envelope()) == bytes@,
                Err(e) => (e matches Error::Corrupt(m) && m@ == manifest_fault(
                    bytes@,
                    max_bytes as int,
                )) && forall|vs: Seq<AttributionValue>, legacy: bool|
                    manifest_valid(vs, legacy, max_bytes as int) ==> #[trigger] manifest_bytes(
                        vs,
                        legacy,
                    ) != bytes@,
            },
    {
        match Self::read(bytes, max_bytes) {
            Some(m) => Ok(m),
            None => Err(manifest_error(bytes, max_bytes)),
        }
    }

    fn read(bytes: &[u8], max_bytes: usize) -> (r: Option<Self>)
        ensures
            match r {
                Some(m) => manifest_valid(m.listing(), m.without_envelope(), max_bytes as int)
                    && manifest_bytes(m.listing(), m.without_envelope()) == bytes@,
                None => forall|vs: Seq<AttributionValue>, legacy: bool|
                    manifest_valid(vs, legacy, max_bytes as int) ==> #[trigger] manifest_bytes(
                        vs,
                        legacy,
                    ) != bytes@,
            },
    {
        if bytes.len() > max_bytes {
            return None;
        }
        let legacy = looks_legacy(bytes).ok()?;
        let ghost known = exists|vs: Seq<AttributionValue>, l: bool|
            manifest_valid(vs, l, max_bytes as int) && #[trigger] manifest_bytes(vs, l) == bytes@;
        let ghost (w, wl) = choose|vs: Seq<AttributionValue>, l: bool|
            manifest_valid(vs, l, max_bytes as int) && #[trigger] manifest_bytes(vs, l) == bytes@;
        let ghost e = Seq::<u8>::empty();
        assert(known ==> wl == legacy);
        let mut reader = Reader::new(bytes);
        let entries = if legacy {
            assert(known ==> bytes@ =~= entries_bytes(w) + e);
            decode_entries(&mut reader)?
        } else {
            proof {
                lemma_envelope_keys();
                lemma_head_len(3, 7);
            }
            let fields = reader.map().ok()?;
            if fields != 2 {
                return None;
            }
            let mut last: Option<Vec<u8>> = None;
            let first = reader.text_map_key_bounded(&mut last, 32, "provenance envelope key").ok()?;
            if !text_eq(first.as_str(), "entries") {
                return None;
            }
            let entries = decode_entries(&mut reader)?;
            let second = reader.text_map_key_bounded(&mut last, 32, "provenance envelope key").ok()?;
            if !text_eq(second.as_str(), "version") {
                return None;
            }
            let version = reader.u64().ok()?;
            if version != CURRENT_VERSION {
                return None;
            }
            entries
        };
        if !reader.at_end() {
            return None;
        }
        let m = ProvenanceManifest { entries, legacy };
        proof {
            assert(reader.rest() =~= e);
            if legacy {
                assert(bytes@ =~= manifest_bytes(m.listing(), true));
            } else {
                assert(bytes@ == manifest_bytes(m.listing(), false));
            }
        }
        Some(m)
    }
}

/// Manifests are told apart by their bytes.
pub proof fn lemma_manifest_unique(
    a: Seq<AttributionValue>,
    la: bool,
    b: Seq<AttributionValue>,
    lb: bool,
)
    requires
        manifest_valid(a, la, MAX_SERIALIZED_BYTES as int),
        manifest_valid(b, lb, MAX_SERIALIZED_BYTES as int),
        manifest_bytes(a, la) == manifest_bytes(b, lb),
    ensures
        a == b,
        la == lb,
{
    let e = Seq::<u8>::empty();
    if la == lb {
        if la {
            assert(entries_bytes(a) + e =~= entries_bytes(a));
            assert(entries_bytes(b) + e =~= entries_bytes(b));
            lemma_entries_prefix(a, e, b, e);
        } else {
            let t = cbor_text("version"@) + (cbor_u64(CURRENT_VERSION) + e);
            let x = cbor_text("entries"@) + (entries_bytes(a) + t);
            let y = cbor_text("entries"@) + (entries_bytes(b) + t);
            lemma_same_prefix(head(5, 2), x, y);
            lemma_same_prefix(cbor_text("entries"@), entries_bytes(a) + t, entries_bytes(b) + t);
            lemma_entries_prefix(a, t, b, t);
        }
    } else if la {
        lemma_forms_differ(a, b);
    } else {
        lemma_forms_differ(b, a);
    }
}

/// A map alone is never an envelope.
proof fn lemma_forms_differ(a: Seq<AttributionValue>, b: Seq<AttributionValue>)
    requires
        a.len() <= MAX_ENTRIES,
    ensures
        manifest_bytes(a, true) != manifest_bytes(b, false),
{
    if manifest_bytes(a, true) == manifest_bytes(b, false) {
        let e = Seq::<u8>::empty();
        let rest = entries_bytes(b) + (cbor_text("version"@) + (cbor_u64(CURRENT_VERSION) + e));
        lemma_head_prefix(
            5,
            a.len() as u64,
            items_bytes::<Attribution>(a),
            2,
            cbor_text("entries"@) + rest,
        );
        let tail = cbor_text(a[0].label) + items_bytes::<Attribution>(a.drop_first());
        assert(items_bytes::<Attribution>(a) =~= cbor_text(hex_of(a[0].id@)) + tail);
        lemma_hex_text(a[0].id@);
        lemma_envelope_keys();
        lemma_text_prefix(hex_of(a[0].id@), tail, "entries"@, rest);
    }
}

/// A map of texts to labels, whatever the keys are.
pub open spec fn text_pairs_bytes(ks: Seq<(Seq<char>, Seq<char>)>) -> Seq<u8>
    decreases ks.len(),
{
    if ks.len() == 0 {
        Seq::<u8>::empty()
    } else {
        cbor_text(ks[0].0) + (cbor_text(ks[0].1) + text_pairs_bytes(ks.drop_first()))
    }
}

/// What a writer might give for a manifest: a map of texts to labels, alone or in an
/// envelope with a version.
pub open spec fn loose_manifest(ks: Seq<(Seq<char>, Seq<char>)>, version: Option<u64>) -> Seq<u8> {
    let entries = head(5, ks.len() as u64) + text_pairs_bytes(ks);
    match version {
        None => entries,
        Some(v) => head(5, 2) + (cbor_text("entries"@) + (entries + (cbor_text("version"@) + (
        cbor_u64(v) + Seq::<u8>::empty())))),
    }
}

/// The lengths of the texts fit in their heads.
pub open spec fn texts_fit(ks: Seq<(Seq<char>, Seq<char>)>) -> bool {
    ks.len() <= u64::MAX && forall|i: int|
        0 <= i < ks.len() ==> encode_utf8((#[trigger] ks[i]).0).len() <= u64::MAX && encode_utf8(
            ks[i].1,
        ).len() <= u64::MAX
}

/// No manifest that is accepted has these bytes.
pub open spec fn no_manifest(b: Seq<u8>) -> bool {
    forall|vs: Seq<AttributionValue>, legacy: bool|
        manifest_valid(vs, legacy, MAX_SERIALIZED_BYTES as int) ==> #[trigger] manifest_bytes(
            vs,
            legacy,
        ) != b
}

proof fn lemma_text_pairs_prefix(
    ks: Seq<(Seq<char>, Seq<char>)>,
    t: Seq<u8>,
    vs: Seq<AttributionValue>,
    u: Seq<u8>,
)
    requires
        ks.len() == vs.len(),
        texts_fit(ks),
        labels_bounded(vs),
        text_pairs_bytes(ks) + t == items_bytes::<Attribution>(vs) + u,
    ensures
        t == u,
        forall|i: int|
            0 <= i < ks.len() ==> (#[trigger] ks[i]).0 == hex_of(vs[i].id@) && ks[i].1
                == vs[i].label,
    decreases ks.len(),
{
    if ks.len() == 0 {
        assert(text_pairs_bytes(ks) + t =~= t);
        assert(items_bytes::<Attribution>(vs) + u =~= u);
    } else {
        let k1 = ks.drop_first();
        let v1 = vs.drop_first();
        let (kt, vt) = (text_pairs_bytes(k1) + t, items_bytes::<Attribution>(v1) + u);
        assert(text_pairs_bytes(ks) + t =~= cbor_text(ks[0].0) + (cbor_text(ks[0].1) + kt));
        assert(items_bytes::<Attribution>(vs) + u =~= cbor_text(hex_of(vs[0].id@)) + (cbor_text(
            vs[0].label,
        ) + vt));
        lemma_hex_text(vs[0].id@);
        lemma_text_prefix(
            ks[0].0,
            cbor_text(ks[0].1) + kt,
            hex_of(vs[0].id@),
            cbor_text(vs[0].label) + vt,
        );
        lemma_text_prefix(ks[0].1, kt, vs[0].label, vt);
        assert forall|i: int| 0 <= i < k1.len() implies encode_utf8((#[trigger] k1[i]).0).len()
            <= u64::MAX && encode_utf8(k1[i].1).len() <= u64::MAX by {
            assert(k1[i] == ks[i + 1]);
        }
        assert forall|i: int| 0 <= i < v1.len() implies encode_utf8((#[trigger] v1[i]).label).len()
            <= MAX_LABEL_BYTES by {
            assert(v1[i] == vs[i + 1]);
        }
        lemma_text_pairs_prefix(k1, t, v1, u);
        assert forall|i: int| 0 <= i < ks.len() implies (#[trigger] ks[i]).0 == hex_of(vs[i].id@)
            && ks[i].1 == vs[i].label by {
            if i > 0 {
                assert(k1[i - 1] == ks[i]);
                assert(v1[i - 1] == vs[i]);
            }
        }
    }
}

proof fn lemma_loose_entries_prefix(
    ks: Seq<(Seq<char>, Seq<char>)>,
    t: Seq<u8>,
    vs: Seq<AttributionValue>,
    u: Seq<u8>,
)
    requires
        texts_fit(ks),
        vs.len() <= MAX_ENTRIES,
        labels_bounded(vs),
        loose_manifest(ks, None) + t == entries_bytes(vs) + u,
    ensures
        t == u,
        ks.len() == vs.len(),
        forall|i: int|
            0 <= i < ks.len() ==> (#[trigger] ks[i]).0 == hex_of(vs[i].id@) && ks[i].1
                == vs[i].label,
{
    let (x, y) = (text_pairs_bytes(ks) + t, items_bytes::<Attribution>(vs) + u);
    assert(loose_manifest(ks, None) + t =~= head(5, ks.len() as u64) + x);
    assert(entries_bytes(vs) + u =~= head(5, vs.len() as u64) + y);
    lemma_head_prefix(5, ks.len() as u64, x, vs.len() as u64, y);
    lemma_text_pairs_prefix(ks, t, vs, u);
}

/// What an accepted manifest can look like: nothing stands behind it, an envelope has the
/// current version, and the keys of the map are the lower-case digits of the ids.
pub proof fn lemma_manifest_strict(
    ks: Seq<(Seq<char>, Seq<char>)>,
    version: Option<u64>,
    tail: Seq<u8>,
    vs: Seq<AttributionValue>,
    legacy: bool,
)
    requires
        texts_fit(ks),
        manifest_valid(vs, legacy, MAX_SERIALIZED_BYTES as int),
        loose_manifest(ks, version) + tail == manifest_bytes(vs, legacy),
    ensures
        tail.len() == 0,
        version == (if legacy {
            None
        } else {
            Some(CURRENT_VERSION)
        }),
        ks.len() == vs.len(),
        forall|i: int|
            0 <= i < ks.len() ==> (#[trigger] ks[i]).0 == hex_of(vs[i].id@) && ks[i].1
                == vs[i].label,
{
    let e = Seq::<u8>::empty();
    lemma_envelope_keys();
    match version {
        None => {
            if legacy {
                assert(entries_bytes(vs) + e =~= entries_bytes(vs));
                lemma_loose_entries_prefix(ks, tail, vs, e);
            } else {
                let rest = entries_bytes(vs) + (cbor_text("version"@) + (cbor_u64(CURRENT_VERSION)
                    + e));
                let x = text_pairs_bytes(ks) + tail;
                assert(loose_manifest(ks, version) + tail =~= head(5, ks.len() as u64) + x);
                lemma_head_prefix(5, ks.len() as u64, x, 2, cbor_text("entries"@) + rest);
                let more = text_pairs_bytes(ks.drop_first()) + tail;
                assert(x =~= cbor_text(ks[0].0) + (cbor_text(ks[0].1) + more));
                lemma_text_prefix(ks[0].0, cbor_text(ks[0].1) + more, "entries"@, rest);
                assert(cbor_text(ks[0].1) + more == rest);
                assert((cbor_text(ks[0].1) + more)[0] == (3u8 * 32 + len_code(
                    encode_utf8(ks[0].1).len() as u64,
                )) as u8);
                assert(rest[0] == (5u8 * 32 + len_code(vs.len() as u64)) as u8);
            }
        },
        Some(v) => {
            let entries = loose_manifest(ks, None);
            let back = cbor_text("version"@) + (cbor_u64(v) + e);
            let rest = entries + (back + tail);
            assert(loose_manifest(ks, version) + tail =~= head(5, 2) + (cbor_text("entries"@)
                + rest));
            if legacy {
                lemma_head_prefix(
                    5,
                    2,
                    cbor_text("entries"@) + rest,
                    vs.len() as u64,
                    items_bytes::<Attribution>(vs),
                );
                let more = cbor_text(vs[0].label) + items_bytes::<Attribution>(vs.drop_first());
                assert(items_bytes::<Attribution>(vs) =~= cbor_text(hex_of(vs[0].id@)) + more);
                lemma_hex_text(vs[0].id@);
                lemma_text_prefix("entries"@, rest, hex_of(vs[0].id@), more);
            } else {
                let now = cbor_text("version"@) + (cbor_u64(CURRENT_VERSION) + e);
                lemma_same_prefix(
                    head(5, 2),
                    cbor_text("entries"@) + rest,
                    cbor_text("entries"@) + (entries_bytes(vs) + now),
                );
                lemma_same_prefix(cbor_text("entries"@), rest, entries_bytes(vs) + now);
                lemma_loose_entries_prefix(ks, back + tail, vs, now);
                assert(back + tail =~= cbor_text("version"@) + (cbor_u64(v) + tail));
                lemma_same_prefix(
                    cbor_text("version"@),
                    cbor_u64(v) + tail,
                    cbor_u64(CURRENT_VERSION) + e,
                );
                lemma_head_prefix(0, v, tail, CURRENT_VERSION, e);
            }
        },
    }
}

/// Bytes behind a manifest are refused.
pub proof fn lemma_trailing_refused(
    ks: Seq<(Seq<char>, Seq<char>)>,
    version: Option<u64>,
    tail: Seq<u8>,
)
    requires
        texts_fit(ks),
        tail.len() > 0,
    ensures
        no_manifest(loose_manifest(ks, version) + tail),
{
    let b = loose_manifest(ks, version) + tail;
    assert forall|vs: Seq<AttributionValue>, legacy: bool|
        manifest_valid(vs, legacy, MAX_SERIALIZED_BYTES as int) implies #[trigger] manifest_bytes(
        vs,
        legacy,
    ) != b by {
        if manifest_bytes(vs, legacy) == b {
            lemma_manifest_strict(ks, version, tail, vs, legacy);
        }
    }
}

/// An envelope of another version is refused.
pub proof fn lemma_version_refused(ks: Seq<(Seq<char>, Seq<char>)>, version: u64)
    requires
        texts_fit(ks),
        version != CURRENT_VERSION,
    ensures
        no_manifest(loose_manifest(ks, Some(version))),
{
    let all = loose_manifest(ks, Some(version));
    assert forall|vs: Seq<AttributionValue>, legacy: bool|
        manifest_valid(vs, legacy, MAX_SERIALIZED_BYTES as int) implies #[trigger] manifest_bytes(
        vs,
        legacy,
    ) != all by {
        if manifest_bytes(vs, legacy) == all {
            assert(all + Seq::<u8>::empty() =~= all);
            lemma_manifest_strict(ks, Some(version), Seq::<u8>::empty(), vs, legacy);
        }
    }
}

/// Entries out of order are refused: two of which the later has not the greater id, or
/// that have one id.
pub proof fn lemma_order_refused(
    ks: Seq<(Seq<char>, Seq<char>)>,
    version: Option<u64>,
    i: int,
    j: int,
    a: ObjectId,
    b: ObjectId,
)
    requires
        texts_fit(ks),
        0 <= i < j < ks.len(),
        ks[i].0 == hex_of(a@),
        ks[j].0 == hex_of(b@),
        !lex_lt(a@, b@),
    ensures
        no_manifest(loose_manifest(ks, version)),
{
    let all = loose_manifest(ks, version);
    assert forall|vs: Seq<AttributionValue>, legacy: bool|
        manifest_valid(vs, legacy, MAX_SERIALIZED_BYTES as int) implies #[trigger] manifest_bytes(
        vs,
        legacy,
    ) != all by {
        if manifest_bytes(vs, legacy) == all {
            assert(all + Seq::<u8>::empty() =~= all);
            lemma_manifest_strict(ks, version, Seq::<u8>::empty(), vs, legacy);
            assert(ks[i].0 == hex_of(vs[i].id@));
            assert(ks[j].0 == hex_of(vs[j].id@));
            lemma_hex_injective(a, vs[i].id);
            lemma_hex_injective(b, vs[j].id);
        }
    }
}

/// A key with an upper-case digit is refused.
pub proof fn lemma_upper_case_refused(
    ks: Seq<(Seq<char>, Seq<char>)>,
    version: Option<u64>,
    i: int,
    j: int,
)
    requires
        texts_fit(ks),
        0 <= i < ks.len(),
        0 <= j < ks[i].0.len(),
        'A' <= ks[i].0[j] <= 'F',
    ensures
        no_manifest(loose_manifest(ks, version)),
{
    let all = loose_manifest(ks, version);
    assert forall|vs: Seq<AttributionValue>, legacy: bool|
        manifest_valid(vs, legacy, MAX_SERIALIZED_BYTES as int) implies #[trigger] manifest_bytes(
        vs,
        legacy,
    ) != all by {
        if manifest_bytes(vs, legacy) == all {
            assert(all + Seq::<u8>::empty() =~= all);
            lemma_manifest_strict(ks, version, Seq::<u8>::empty(), vs, legacy);
            assert(ks[i].0 == hex_of(vs[i].id@));
            let raw = vs[i].id@[j / 2] as int;
            assert(0 <= raw / 16 < 16);
            assert(0 <= raw % 16 < 16);
        }
    }
}

/// A label beyond the limit is refused.
pub proof fn lemma_long_label_refused(
    ks: Seq<(Seq<char>, Seq<char>)>,
    version: Option<u64>,
    i: int,
)
    requires
        texts_fit(ks),
        0 <= i < ks.len(),
        encode_utf8(ks[i].1).len() > MAX_LABEL_BYTES,
    ensures
        no_manifest(loose_manifest(ks, version)),
{
    let all = loose_manifest(ks, version);
    assert forall|vs: Seq<AttributionValue>, legacy: bool|
        manifest_valid(vs, legacy, MAX_SERIALIZED_BYTES as int) implies #[trigger] manifest_bytes(
        vs,
        legacy,
    ) != all by {
        if manifest_bytes(vs, legacy) == all {
            assert(all + Seq::<u8>::empty() =~= all);
            lemma_manifest_strict(ks, version, Seq::<u8>::empty(), vs, legacy);
            assert(ks[i].1 == vs[i].label);
        }
    }
}

} // verus!
