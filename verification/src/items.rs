//! Lists of encoded values.
use crate::cbor::{
    cbor_bytes, cbor_text, encode_array_header, encode_bytes, encode_text, head,
    lemma_bytes_prefix, lemma_head_len, lemma_head_prefix, lemma_text_prefix, Reader,
};
use crate::text::byte_len;
use crate::types::{lemma_id_ext, ObjectId};
use vstd::prelude::*;
use vstd::utf8::encode_utf8;

verus! {

/// A type with a self-delimiting encoding.
pub trait Item: Sized {
    /// What an item stands for.
    type Val;

    spec fn val(&self) -> Self::Val;

    /// The encoding of a value.
    spec fn wire(v: Self::Val) -> Seq<u8>;

    /// The lengths in the encoding of `v` fit in their heads.
    spec fn fits(v: Self::Val) -> bool;

    /// A value that an item can stand for.
    spec fn proper(v: Self::Val) -> bool;

    proof fn wire_nonempty(v: Self::Val)
        ensures
            Self::wire(v).len() >= 1,
    ;

    /// An encoding determines its value and where it ends.
    proof fn wire_prefix(a: Self::Val, t: Seq<u8>, b: Self::Val, u: Seq<u8>)
        requires
            Self::fits(a),
            Self::fits(b),
            Self::proper(a),
            Self::proper(b),
            Self::wire(a) + t == Self::wire(b) + u,
        ensures
            a == b,
            t == u,
    ;

    fn write(&self, out: &mut Vec<u8>)
        ensures
            final(out)@ == old(out)@ + Self::wire(self.val()),
    ;

    /// Read an item, where one comes next.
    fn read(r: &mut Reader<'_>) -> (res: Option<Self>)
        ensures
            res matches Some(x) ==> old(r).rest() == Self::wire(x.val()) + final(r).rest()
                && Self::fits(x.val()) && Self::proper(x.val()),
            forall|v: Self::Val, t: Seq<u8>|
                Self::proper(v) && old(r).rest() == #[trigger] (Self::wire(v) + t) ==> (
                res matches Some(x) && x.val() == v) && final(r).rest() == t,
    ;
}

/// What some items stand for.
pub open spec fn vals<T: Item>(items: Seq<T>) -> Seq<T::Val> {
    Seq::new(items.len(), |i: int| items[i].val())
}

/// The encodings of some values, one after the other.
pub open spec fn items_bytes<T: Item>(vs: Seq<T::Val>) -> Seq<u8>
    decreases vs.len(),
{
    if vs.len() == 0 {
        Seq::<u8>::empty()
    } else {
        T::wire(vs[0]) + items_bytes::<T>(vs.drop_first())
    }
}

/// The array of some values.
pub open spec fn list_bytes<T: Item>(vs: Seq<T::Val>) -> Seq<u8> {
    head(4, vs.len() as u64) + items_bytes::<T>(vs)
}

pub proof fn lemma_items_push<T: Item>(vs: Seq<T::Val>, x: T::Val)
    ensures
        items_bytes::<T>(vs.push(x)) == items_bytes::<T>(vs) + T::wire(x),
    decreases vs.len(),
{
    let all = vs.push(x);
    if vs.len() == 0 {
        assert(all.drop_first() =~= vs);
        assert(items_bytes::<T>(all) =~= items_bytes::<T>(vs) + T::wire(x));
    } else {
        lemma_items_push::<T>(vs.drop_first(), x);
        assert(all.drop_first() =~= vs.drop_first().push(x));
        assert(items_bytes::<T>(all) =~= items_bytes::<T>(vs) + T::wire(x));
    }
}

/// Every item takes a byte or more.
pub proof fn lemma_items_len<T: Item>(vs: Seq<T::Val>)
    ensures
        items_bytes::<T>(vs).len() >= vs.len(),
    decreases vs.len(),
{
    if vs.len() > 0 {
        T::wire_nonempty(vs[0]);
        lemma_items_len::<T>(vs.drop_first());
    }
}

/// The items together are no shorter than each of them.
pub proof fn lemma_items_each<T: Item>(vs: Seq<T::Val>, i: int)
    requires
        0 <= i < vs.len(),
    ensures
        T::wire(vs[i]).len() <= items_bytes::<T>(vs).len(),
    decreases vs.len(),
{
    if i > 0 {
        lemma_items_each::<T>(vs.drop_first(), i - 1);
    }
}

/// The length of items of at most `hi` bytes each.
pub proof fn lemma_items_max<T: Item>(vs: Seq<T::Val>, hi: nat)
    requires
        forall|i: int| 0 <= i < vs.len() ==> (#[trigger] T::wire(vs[i])).len() <= hi,
    ensures
        items_bytes::<T>(vs).len() <= hi * vs.len(),
    decreases vs.len(),
{
    let n = vs.len();
    if n > 0 {
        let rest = vs.drop_first();
        assert forall|i: int| 0 <= i < rest.len() implies (#[trigger] T::wire(rest[i])).len()
            <= hi by {
            assert(rest[i] == vs[i + 1]);
        }
        assert(T::wire(vs[0]).len() <= hi);
        lemma_items_max::<T>(rest, hi);
        assert(hi * n == hi + hi * (n - 1)) by (nonlinear_arith);
    } else {
        assert(hi * n == 0) by (nonlinear_arith)
            requires
                n == 0,
        ;
    }
}

/// As many items determine themselves and where they end.
pub proof fn lemma_items_prefix<T: Item>(
    a: Seq<T::Val>,
    t: Seq<u8>,
    b: Seq<T::Val>,
    u: Seq<u8>,
)
    requires
        a.len() == b.len(),
        forall|i: int| 0 <= i < a.len() ==> T::fits(#[trigger] a[i]) && T::proper(a[i]),
        forall|i: int| 0 <= i < b.len() ==> T::fits(#[trigger] b[i]) && T::proper(b[i]),
        items_bytes::<T>(a) + t == items_bytes::<T>(b) + u,
    ensures
        a == b,
        t == u,
    decreases a.len(),
{
    if a.len() == 0 {
        assert(a =~= b);
        assert(items_bytes::<T>(a) + t =~= t);
        assert(items_bytes::<T>(b) + u =~= u);
    } else {
        let a1 = a.drop_first();
        let b1 = b.drop_first();
        assert(items_bytes::<T>(a) + t =~= T::wire(a[0]) + (items_bytes::<T>(a1) + t));
        assert(items_bytes::<T>(b) + u =~= T::wire(b[0]) + (items_bytes::<T>(b1) + u));
        T::wire_prefix(a[0], items_bytes::<T>(a1) + t, b[0], items_bytes::<T>(b1) + u);
        assert forall|i: int| 0 <= i < a1.len() implies T::fits(#[trigger] a1[i]) && T::proper(a1[i]) by {
            assert(a1[i] == a[i + 1]);
        }
        assert forall|i: int| 0 <= i < b1.len() implies T::fits(#[trigger] b1[i]) && T::proper(b1[i]) by {
            assert(b1[i] == b[i + 1]);
        }
        lemma_items_prefix::<T>(a1, t, b1, u);
        assert(a =~= seq![a[0]] + a1);
        assert(b =~= seq![b[0]] + b1);
    }
}

/// Values that items can stand for.
pub open spec fn all_proper<T: Item>(vs: Seq<T::Val>) -> bool {
    forall|i: int| 0 <= i < vs.len() ==> T::proper(#[trigger] vs[i])
}

/// A list whose lengths fit in their heads.
pub open spec fn list_fits<T: Item>(vs: Seq<T::Val>) -> bool {
    vs.len() <= u64::MAX && forall|i: int| 0 <= i < vs.len() ==> T::fits(#[trigger] vs[i])
}

/// A list determines itself and where it ends.
pub proof fn lemma_list_prefix<T: Item>(a: Seq<T::Val>, t: Seq<u8>, b: Seq<T::Val>, u: Seq<u8>)
    requires
        list_fits::<T>(a),
        list_fits::<T>(b),
        all_proper::<T>(a),
        all_proper::<T>(b),
        list_bytes::<T>(a) + t == list_bytes::<T>(b) + u,
    ensures
        a == b,
        t == u,
{
    assert(list_bytes::<T>(a) + t =~= head(4, a.len() as u64) + (items_bytes::<T>(a) + t));
    assert(list_bytes::<T>(b) + u =~= head(4, b.len() as u64) + (items_bytes::<T>(b) + u));
    lemma_head_prefix(
        4,
        a.len() as u64,
        items_bytes::<T>(a) + t,
        b.len() as u64,
        items_bytes::<T>(b) + u,
    );
    lemma_items_prefix::<T>(a, t, b, u);
}

/// Append a list.
pub fn write_list<T: Item>(items: &Vec<T>, out: &mut Vec<u8>)
    ensures
        final(out)@ == old(out)@ + list_bytes::<T>(vals(items@)),
{
    encode_array_header(out, items.len() as u64);
    let ghost start = out@;
    let ghost all = vals(items@);
    let mut i: usize = 0;
    assert(all.take(0) =~= Seq::<T::Val>::empty());
    assert(start + items_bytes::<T>(all.take(0)) =~= start);
    while i < items.len()
        invariant
            i <= items@.len(),
            all == vals(items@),
            out@ == start + items_bytes::<T>(all.take(i as int)),
        decreases items@.len() - i,
    {
        items[i].write(out);
        proof {
            assert(all.take(i + 1) =~= all.take(i as int).push(all[i as int]));
            lemma_items_push::<T>(all.take(i as int), all[i as int]);
            assert(out@ =~= start + items_bytes::<T>(all.take(i + 1)));
        }
        i += 1;
    }
    assert(all.take(i as int) =~= all);
    assert(out@ =~= old(out)@ + list_bytes::<T>(all));
}

/// Read a list of at most `max` items, where one comes next.
pub fn read_list<T: Item>(r: &mut Reader<'_>, max: u64) -> (res: Option<Vec<T>>)
    ensures
        res matches Some(v) ==> v@.len() <= max && list_fits::<T>(vals(v@)) && all_proper::<T>(
            vals(v@),
        ) && old(r).rest() == list_bytes::<T>(vals(v@)) + final(r).rest(),
        forall|n: u64, t: Seq<u8>|
            n > max && old(r).rest() == #[trigger] (head(4, n) + t) ==> res is None,
        forall|vs: Seq<T::Val>, t: Seq<u8>|
            vs.len() <= max && all_proper::<T>(vs) && old(r).rest() == #[trigger] (list_bytes::<T>(
                vs,
            ) + t) ==> (res matches Some(v) && vals(v@) == vs) && final(r).rest() == t,
{
    let ghost before = r.rest();
    proof {
        assert forall|vs: Seq<T::Val>, t: Seq<u8>|
            vs.len() <= max && all_proper::<T>(vs) && before == #[trigger] (list_bytes::<T>(vs) + t) implies before
            == head(4, vs.len() as u64) + (items_bytes::<T>(vs) + t) && vs.len()
            <= items_bytes::<T>(vs).len() by {
            assert(before =~= head(4, vs.len() as u64) + (items_bytes::<T>(vs) + t));
            lemma_items_len::<T>(vs);
        }
    }
    let n = r.array().ok()?;
    proof {
        assert forall|m: u64, t: Seq<u8>| before == #[trigger] (head(4, m) + t) implies m == n by {
            lemma_head_prefix(4, m, t, n, r.rest());
        }
    }
    if n > max {
        return None;
    }
    let ghost body = r.rest();
    let mut out: Vec<T> = Vec::new();
    let mut i: u64 = 0;
    proof {
        assert(vals(out@) =~= Seq::<T::Val>::empty());
        assert(items_bytes::<T>(vals(out@)) + body =~= body);
        assert forall|vs: Seq<T::Val>, t: Seq<u8>|
            vs.len() <= max && all_proper::<T>(vs) && before == #[trigger] (list_bytes::<T>(vs) + t) implies vs.len() == n
            && vals(out@) == vs.take(0) && body == items_bytes::<T>(vs.skip(0)) + t by {
            assert(vs.skip(0) =~= vs);
            assert(vals(out@) =~= vs.take(0));
        }
    }
    while i < n
        invariant
            i <= n <= max,
            before == old(r).rest(),
            out@.len() == i,
            body == items_bytes::<T>(vals(out@)) + r.rest(),
            forall|k: int|
                0 <= k < i ==> T::fits(#[trigger] vals(out@)[k]) && T::proper(vals(out@)[k]),
            forall|vs: Seq<T::Val>, t: Seq<u8>|
                vs.len() <= max && all_proper::<T>(vs) && before == #[trigger] (list_bytes::<T>(vs) + t) ==> vs.len() == n
                    && vals(out@) == vs.take(i as int) && r.rest() == items_bytes::<T>(
                    vs.skip(i as int),
                ) + t,
            before == head(4, n) + body,
            n <= body.len(),
            forall|m: u64, t: Seq<u8>| before == #[trigger] (head(4, m) + t) ==> m == n,
        decreases n - i,
    {
        let ghost here = r.rest();
        let ghost done = out@;
        proof {
            assert forall|vs: Seq<T::Val>, t: Seq<u8>|
                vs.len() <= max && all_proper::<T>(vs) && before == #[trigger] (list_bytes::<T>(vs) + t) implies here
                == T::wire(vs[i as int]) + (items_bytes::<T>(vs.skip(i + 1)) + t) by {
                let tail = vs.skip(i as int);
                assert(tail.drop_first() =~= vs.skip(i + 1));
                assert(here =~= T::wire(vs[i as int]) + (items_bytes::<T>(vs.skip(i + 1)) + t));
            }
        }
        let x = T::read(r)?;
        let ghost xv = x.val();
        out.push(x);
        proof {
            assert(vals(out@) =~= vals(done).push(xv));
            lemma_items_push::<T>(vals(done), xv);
            assert(body =~= items_bytes::<T>(vals(out@)) + r.rest());
            assert forall|vs: Seq<T::Val>, t: Seq<u8>|
                vs.len() <= max && all_proper::<T>(vs) && before == #[trigger] (list_bytes::<T>(vs) + t) implies vs.len()
                == n && vals(out@) == vs.take(i + 1) && r.rest() == items_bytes::<T>(
                vs.skip(i + 1),
            ) + t by {
                assert(here == T::wire(vs[i as int]) + (items_bytes::<T>(vs.skip(i + 1)) + t));
                assert(vals(out@) =~= vs.take(i + 1));
            }
        }
        i += 1;
    }
    proof {
        assert(before =~= list_bytes::<T>(vals(out@)) + r.rest());
        assert forall|vs: Seq<T::Val>, t: Seq<u8>|
            vs.len() <= max && all_proper::<T>(vs) && before == #[trigger] (list_bytes::<T>(vs) + t) implies vals(out@)
            == vs && r.rest() == t by {
            assert(vs.take(n as int) =~= vs);
            assert(vs.skip(n as int) =~= Seq::<T::Val>::empty());
            assert(items_bytes::<T>(vs.skip(n as int)) + t =~= t);
        }
    }
    Some(out)
}

impl Item for ObjectId {
    type Val = ObjectId;

    open spec fn val(&self) -> ObjectId {
        *self
    }

    open spec fn wire(v: ObjectId) -> Seq<u8> {
        cbor_bytes(v@)
    }

    open spec fn fits(v: ObjectId) -> bool {
        true
    }

    open spec fn proper(v: Self::Val) -> bool {
        true
    }

    proof fn wire_nonempty(v: ObjectId) {
        lemma_head_len(2, 32);
    }

    proof fn wire_prefix(a: ObjectId, t: Seq<u8>, b: ObjectId, u: Seq<u8>) {
        lemma_bytes_prefix(a@, t, b@, u);
        lemma_id_ext(a, b);
    }

    fn write(&self, out: &mut Vec<u8>) {
        encode_bytes(out, self.0.as_slice());
    }

    fn read(r: &mut Reader<'_>) -> (res: Option<Self>) {
        let ghost before = r.rest();
        let b = r.bstr32().ok()?;
        let id = ObjectId(b);
        proof {
            assert forall|v: ObjectId, t: Seq<u8>| before == #[trigger] (Self::wire(v)
                + t) implies id == v && r.rest() == t by {
                assert(before == cbor_bytes(v@) + t);
                lemma_id_ext(id, v);
            }
        }
        Some(id)
    }
}

impl Item for String {
    type Val = Seq<char>;

    open spec fn val(&self) -> Seq<char> {
        self@
    }

    open spec fn wire(v: Seq<char>) -> Seq<u8> {
        cbor_text(v)
    }

    open spec fn fits(v: Seq<char>) -> bool {
        encode_utf8(v).len() <= u64::MAX
    }

    open spec fn proper(v: Self::Val) -> bool {
        true
    }

    proof fn wire_nonempty(v: Seq<char>) {
        lemma_head_len(3, encode_utf8(v).len() as u64);
    }

    proof fn wire_prefix(a: Seq<char>, t: Seq<u8>, b: Seq<char>, u: Seq<u8>) {
        lemma_text_prefix(a, t, b, u);
    }

    fn write(&self, out: &mut Vec<u8>) {
        encode_text(out, self.as_str());
    }

    fn read(r: &mut Reader<'_>) -> (res: Option<Self>) {
        let ghost before = r.rest();
        let s = r.text().ok()?;
        let n = byte_len(s.as_str());
        proof {
            assert forall|v: Seq<char>, t: Seq<u8>| before == #[trigger] (Self::wire(v)
                + t) implies s@ == v && r.rest() == t by {
                assert(before == cbor_text(v) + t);
            }
        }
        Some(s)
    }
}

} // verus!
