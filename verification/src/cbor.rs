//! Minimal canonical CBOR (RFC 8949): definite lengths, shortest heads and
//! sorted map keys. Only the subset that objects need.
use crate::bytes::{
    big_endian, big_endian_value, bytes_lt, extend_bytes, lemma_big_endian_len,
    lemma_big_endian_roundtrip, lemma_big_endian_value_roundtrip, lemma_lex_antisymmetric,
    lemma_lex_common_prefix, lemma_lex_total, lemma_lex_transitive, lemma_pow256_values, lex_lt,
    push_be16, push_be32, push_be64, read_be, tail_bytes,
};
use crate::order::{is_stable_sort, stable_sort, Sortable};
use crate::scan::{
    array_scan, bool_scan, bytes_scan, head_scan, id_scan, key_bytes, key_scan, lemma_text_scan,
    map_scan, refused_as, text_scan, told, u64_scan, uint_scan, Fault,
};
use crate::text::{decimal_text, lemma_utf8_injective, text_from_utf8};
use crate::types::{corrupt, Error, ObjectId};
use vstd::prelude::*;
use vstd::slice::{slice_subrange, slice_to_vec};
use vstd::utf8::{decode_utf8_encode_utf8, encode_utf8, encode_utf8_decode_utf8};
use vstd::utf8::{encode_utf8_valid_utf8, is_ascii_chars, is_ascii_chars_encode_utf8, valid_utf8};

verus! {

/// The low five bits of the head of `n`: `n` itself, or a code for the width
/// of the bytes that follow.
pub open spec fn len_code(n: u64) -> u8 {
    if n < 24 {
        n as u8
    } else if n <= 0xff {
        24
    } else if n <= 0xffff {
        25
    } else if n <= 0xffff_ffff {
        26
    } else {
        27
    }
}

/// How many bytes follow a head with the given low bits.
pub open spec fn code_width(code: u8) -> nat {
    if code == 24 {
        1
    } else if code == 25 {
        2
    } else if code == 26 {
        4
    } else if code == 27 {
        8
    } else {
        0
    }
}

/// The shortest head for the number `n` under a major type.
pub open spec fn head(major: u8, n: u64) -> Seq<u8> {
    seq![(major * 32 + len_code(n)) as u8] + big_endian(n as nat, code_width(len_code(n)))
}

/// An unsigned integer.
pub open spec fn cbor_u64(n: u64) -> Seq<u8> {
    head(0, n)
}

pub open spec fn cbor_bool(v: bool) -> Seq<u8> {
    if v {
        seq![0xf5u8]
    } else {
        seq![0xf4u8]
    }
}

pub open spec fn cbor_null() -> Seq<u8> {
    seq![0xf6u8]
}

/// A byte string.
pub open spec fn cbor_bytes(b: Seq<u8>) -> Seq<u8> {
    head(2, b.len() as u64) + b
}

/// A text.
pub open spec fn cbor_text(s: Seq<char>) -> Seq<u8> {
    head(3, encode_utf8(s).len() as u64) + encode_utf8(s)
}

/// The keys and values of a map, one after the other.
pub open spec fn pair_bytes(pairs: Seq<(Vec<u8>, Vec<u8>)>) -> Seq<u8>
    decreases pairs.len(),
{
    if pairs.len() == 0 {
        Seq::<u8>::empty()
    } else {
        pair_bytes(pairs.drop_last()) + pairs.last().0@ + pairs.last().1@
    }
}

/// The code for the head of `n`.
pub fn u8_len(n: u64) -> (r: u8)
    ensures
        r == len_code(n),
{
    if n < 24 {
        n as u8
    } else if n <= 0xff {
        24
    } else if n <= 0xffff {
        25
    } else if n <= 0xffff_ffff {
        26
    } else {
        27
    }
}

fn push_uint(out: &mut Vec<u8>, major: u8, n: u64)
    requires
        major < 8,
    ensures
        final(out)@ == old(out)@ + head(major, n),
{
    let ai = u8_len(n);
    out.push(major * 32 + ai);
    let ghost first = out@;
    if ai == 24 {
        out.push(n as u8);
        proof {
            reveal_with_fuel(big_endian, 2);
            assert(n as nat / 256 == 0);
            assert(out@ =~= first + big_endian(n as nat, 1));
        }
    } else if ai == 25 {
        push_be16(out, n);
    } else if ai == 26 {
        push_be32(out, n);
    } else if ai == 27 {
        push_be64(out, n);
    } else {
        assert(big_endian(n as nat, 0) =~= Seq::<u8>::empty());
        assert(out@ =~= first + big_endian(n as nat, 0));
    }
    assert(out@ =~= old(out)@ + head(major, n));
}

/// Append an unsigned integer.
pub fn encode_u64(out: &mut Vec<u8>, n: u64)
    ensures
        final(out)@ == old(out)@ + cbor_u64(n),
{
    push_uint(out, 0, n);
}

/// Append a truth value.
pub fn encode_bool(out: &mut Vec<u8>, v: bool)
    ensures
        final(out)@ == old(out)@ + cbor_bool(v),
{
    out.push(
        if v {
            0xf5
        } else {
            0xf4
        },
    );
    assert(out@ =~= old(out)@ + cbor_bool(v));
}

/// Append the null value.
pub fn encode_null(out: &mut Vec<u8>)
    ensures
        final(out)@ == old(out)@ + cbor_null(),
{
    out.push(0xf6);
    assert(out@ =~= old(out)@ + cbor_null());
}

/// Append a byte string.
pub fn encode_bytes(out: &mut Vec<u8>, b: &[u8])
    ensures
        final(out)@ == old(out)@ + cbor_bytes(b@),
{
    push_uint(out, 2, b.len() as u64);
    extend_bytes(out, b);
    assert(out@ =~= old(out)@ + cbor_bytes(b@));
}

/// Append a text.
pub fn encode_text(out: &mut Vec<u8>, s: &str)
    ensures
        final(out)@ == old(out)@ + cbor_text(s@),
{
    let b = s.as_bytes();
    push_uint(out, 3, b.len() as u64);
    extend_bytes(out, b);
    assert(out@ =~= old(out)@ + cbor_text(s@));
}

/// Append the head of an array of `n` items.
pub fn encode_array_header(out: &mut Vec<u8>, n: u64)
    ensures
        final(out)@ == old(out)@ + head(4, n),
{
    push_uint(out, 4, n);
}

/// Append the head of a map of `n` pairs.
pub fn encode_map_header(out: &mut Vec<u8>, n: u64)
    ensures
        final(out)@ == old(out)@ + head(5, n),
{
    push_uint(out, 5, n);
}

impl Sortable for (Vec<u8>, Vec<u8>) {
    open spec fn le(self, other: Self) -> bool {
        !lex_lt(other.0@, self.0@)
    }

    proof fn le_total(a: Self, b: Self) {
        if lex_lt(b.0@, a.0@) {
            lemma_lex_antisymmetric(b.0@, a.0@);
        }
    }

    proof fn le_transitive(a: Self, b: Self, c: Self) {
        if lex_lt(c.0@, a.0@) {
            lemma_lex_total(a.0@, b.0@);
            lemma_lex_total(b.0@, c.0@);
            if lex_lt(a.0@, b.0@) {
                lemma_lex_transitive(c.0@, a.0@, b.0@);
            }
        }
    }

    fn strictly_before(&self, other: &Self) -> bool {
        bytes_lt(self.0.as_slice(), other.0.as_slice())
    }
}

/// Append a map from keys and values that are already encoded, sorted by the
/// bytes of the keys.
pub fn encode_map_sorted(out: &mut Vec<u8>, pairs: Vec<(Vec<u8>, Vec<u8>)>)
    ensures
        exists|sorted: Seq<(Vec<u8>, Vec<u8>)>| #[trigger]
            is_stable_sort(pairs@, sorted) && final(out)@ == old(out)@ + head(
                5,
                pairs@.len() as u64,
            ) + pair_bytes(sorted),
{
    let ghost given = pairs@;
    let sorted = stable_sort(pairs);
    proof {
        given.to_multiset_ensures();
        sorted@.to_multiset_ensures();
    }
    encode_map_header(out, sorted.len() as u64);
    let ghost start = out@;
    let mut i: usize = 0;
    assert(sorted@.take(0) =~= Seq::<(Vec<u8>, Vec<u8>)>::empty());
    assert(start + Seq::<u8>::empty() =~= start);
    while i < sorted.len()
        invariant
            i <= sorted@.len(),
            out@ == start + pair_bytes(sorted@.take(i as int)),
        decreases sorted@.len() - i,
    {
        extend_bytes(out, sorted[i].0.as_slice());
        extend_bytes(out, sorted[i].1.as_slice());
        proof {
            let next = sorted@.take(i + 1);
            assert(next.drop_last() =~= sorted@.take(i as int));
            assert(out@ =~= start + pair_bytes(next));
        }
        i += 1;
    }
    assert(sorted@.take(i as int) =~= sorted@);
}

/// A text as a map key.
pub fn text_key(s: &str) -> (k: Vec<u8>)
    ensures
        k@ == cbor_text(s@),
{
    let mut k: Vec<u8> = Vec::new();
    encode_text(&mut k, s);
    assert(Seq::<u8>::empty() + cbor_text(s@) =~= cbor_text(s@));
    k
}

/// A head determines its number and where it ends.
pub proof fn lemma_head_prefix(major: u8, n: u64, t: Seq<u8>, m: u64, u: Seq<u8>)
    requires
        major < 8,
        head(major, n) + t == head(major, m) + u,
    ensures
        n == m,
        t == u,
{
    let s = head(major, n) + t;
    let cn = len_code(n);
    let cm = len_code(m);
    assert(s[0] == (major * 32 + cn) as u8);
    assert(s[0] == (major * 32 + cm) as u8);
    let w = code_width(cn);
    lemma_big_endian_len(n as nat, w);
    lemma_big_endian_len(m as nat, w);
    lemma_pow256_values();
    assert(s.subrange(1, 1 + w as int) =~= big_endian(n as nat, w));
    assert(s.subrange(1, 1 + w as int) =~= big_endian(m as nat, w));
    if w > 0 {
        lemma_big_endian_roundtrip(n as nat, w);
        lemma_big_endian_roundtrip(m as nat, w);
    }
    assert(s.skip(1 + w as int) =~= t);
    assert(s.skip(1 + w as int) =~= u);
}

/// The length of a head.
pub proof fn lemma_head_len(major: u8, n: u64)
    ensures
        head(major, n).len() == 1 + code_width(len_code(n)),
        1 <= head(major, n).len() <= 9,
{
    lemma_big_endian_len(n as nat, code_width(len_code(n)));
}

/// A text determines itself and where it ends.
pub proof fn lemma_text_prefix(a: Seq<char>, t: Seq<u8>, b: Seq<char>, u: Seq<u8>)
    requires
        encode_utf8(a).len() <= u64::MAX,
        encode_utf8(b).len() <= u64::MAX,
        cbor_text(a) + t == cbor_text(b) + u,
    ensures
        a == b,
        t == u,
{
    let x = encode_utf8(a);
    let y = encode_utf8(b);
    assert(cbor_text(a) + t =~= head(3, x.len() as u64) + (x + t));
    assert(cbor_text(b) + u =~= head(3, y.len() as u64) + (y + u));
    lemma_head_prefix(3, x.len() as u64, x + t, y.len() as u64, y + u);
    assert(x =~= (x + t).take(x.len() as int));
    assert(y =~= (y + u).take(x.len() as int));
    assert(t =~= (x + t).skip(x.len() as int));
    assert(u =~= (y + u).skip(x.len() as int));
    lemma_utf8_injective(a, b);
}

/// A byte string determines itself and where it ends.
pub proof fn lemma_bytes_prefix(a: Seq<u8>, t: Seq<u8>, b: Seq<u8>, u: Seq<u8>)
    requires
        a.len() <= u64::MAX,
        b.len() <= u64::MAX,
        cbor_bytes(a) + t == cbor_bytes(b) + u,
    ensures
        a == b,
        t == u,
{
    assert(cbor_bytes(a) + t =~= head(2, a.len() as u64) + (a + t));
    assert(cbor_bytes(b) + u =~= head(2, b.len() as u64) + (b + u));
    lemma_head_prefix(2, a.len() as u64, a + t, b.len() as u64, b + u);
    assert(a =~= (a + t).take(a.len() as int));
    assert(b =~= (b + u).take(a.len() as int));
    assert(t =~= (a + t).skip(a.len() as int));
    assert(u =~= (b + u).skip(a.len() as int));
}

/// A truth value determines itself and where it ends.
pub proof fn lemma_bool_prefix(a: bool, t: Seq<u8>, b: bool, u: Seq<u8>)
    requires
        cbor_bool(a) + t == cbor_bool(b) + u,
    ensures
        a == b,
        t == u,
{
    let s = cbor_bool(a) + t;
    assert(s[0] == cbor_bool(a)[0]);
    assert(s[0] == cbor_bool(b)[0]);
    assert(s.skip(1) =~= t);
    assert(s.skip(1) =~= u);
}

/// Joining byte strings is associative.
pub proof fn lemma_join(a: Seq<u8>, b: Seq<u8>, c: Seq<u8>)
    ensures
        (a + b) + c == a + (b + c),
{
    assert((a + b) + c =~= a + (b + c));
}

/// The same prefix taken off both sides leaves the same rest.
pub proof fn lemma_same_prefix(p: Seq<u8>, t: Seq<u8>, u: Seq<u8>)
    requires
        p + t == p + u,
    ensures
        t == u,
{
    assert((p + t).skip(p.len() as int) =~= t);
    assert((p + u).skip(p.len() as int) =~= u);
}

/// Of two short map keys of different lengths the shorter one comes first.
pub proof fn lemma_shorter_key_first(a: Seq<char>, b: Seq<char>)
    requires
        encode_utf8(a).len() < encode_utf8(b).len() < 24,
    ensures
        lex_lt(cbor_text(a), cbor_text(b)),
{
    lemma_head_len(3, encode_utf8(a).len() as u64);
    lemma_head_len(3, encode_utf8(b).len() as u64);
    let x = cbor_text(a);
    let y = cbor_text(b);
    assert(x[0] == (96 + encode_utf8(a).len()) as u8);
    assert(y[0] == (96 + encode_utf8(b).len()) as u8);
}

/// Map keys of the same length come in the order of their bytes.
pub proof fn lemma_same_length_key_order(a: Seq<char>, b: Seq<char>)
    requires
        encode_utf8(a).len() == encode_utf8(b).len(),
        lex_lt(encode_utf8(a), encode_utf8(b)),
    ensures
        lex_lt(cbor_text(a), cbor_text(b)),
{
    let h = head(3, encode_utf8(a).len() as u64);
    let x = cbor_text(a);
    let y = cbor_text(b);
    assert forall|i: int| 0 <= i < h.len() implies x[i] == y[i] by {
        assert(x[i] == h[i]);
        assert(y[i] == h[i]);
    }
    lemma_lex_common_prefix(x, y, h.len() as int);
    assert(x.skip(h.len() as int) =~= encode_utf8(a));
    assert(y.skip(h.len() as int) =~= encode_utf8(b));
}

/// ASCII map keys come in the order of their lengths, and keys of one length
/// in the order of their first characters where these differ.
pub proof fn lemma_key_order(a: Seq<char>, b: Seq<char>)
    requires
        is_ascii_chars(a),
        is_ascii_chars(b),
        0 < a.len() <= b.len() < 24,
        a.len() < b.len() || (a[0] as u32) < (b[0] as u32),
    ensures
        lex_lt(cbor_text(a), cbor_text(b)),
{
    is_ascii_chars_encode_utf8(a);
    is_ascii_chars_encode_utf8(b);
    if a.len() < b.len() {
        lemma_shorter_key_first(a, b);
    } else {
        assert(a[0] as u8 == encode_utf8(a)[0]);
        assert(b[0] as u8 == encode_utf8(b)[0]);
        lemma_same_length_key_order(a, b);
    }
}

/// 6 pieces joined from the left are the same joined from the right.
pub proof fn lemma_nest_6(
    p0: Seq<u8>,
    p1: Seq<u8>,
    p2: Seq<u8>,
    p3: Seq<u8>,
    p4: Seq<u8>,
    p5: Seq<u8>,
)
    ensures
        p0 + p1 + p2 + p3 + p4 + p5 == p0 + (p1 + (p2 + (p3 + (p4 + (p5 + Seq::<u8>::empty()))))),
{
}

/// 11 pieces joined from the left are the same joined from the right.
pub proof fn lemma_nest_11(
    p0: Seq<u8>,
    p1: Seq<u8>,
    p2: Seq<u8>,
    p3: Seq<u8>,
    p4: Seq<u8>,
    p5: Seq<u8>,
    p6: Seq<u8>,
    p7: Seq<u8>,
    p8: Seq<u8>,
    p9: Seq<u8>,
    p10: Seq<u8>,
)
    ensures
        p0 + p1 + p2 + p3 + p4 + p5 + p6 + p7 + p8 + p9 + p10 == p0 + (p1 + (p2 + (p3 + (p4 + (p5 + (p6 + (p7 + (p8 + (p9 + (p10 + Seq::<u8>::empty())))))))))),
{
}

/// 13 pieces joined from the left are the same joined from the right.
pub proof fn lemma_nest_13(
    p0: Seq<u8>,
    p1: Seq<u8>,
    p2: Seq<u8>,
    p3: Seq<u8>,
    p4: Seq<u8>,
    p5: Seq<u8>,
    p6: Seq<u8>,
    p7: Seq<u8>,
    p8: Seq<u8>,
    p9: Seq<u8>,
    p10: Seq<u8>,
    p11: Seq<u8>,
    p12: Seq<u8>,
)
    ensures
        p0 + p1 + p2 + p3 + p4 + p5 + p6 + p7 + p8 + p9 + p10 + p11 + p12 == p0 + (p1 + (p2 + (p3 + (p4 + (p5 + (p6 + (p7 + (p8 + (p9 + (p10 + (p11 + (p12 + Seq::<u8>::empty())))))))))))),
{
}

/// Five pieces before the others are the same joined from the right.
proof fn lemma_nest_before(
    p0: Seq<u8>,
    p1: Seq<u8>,
    p2: Seq<u8>,
    p3: Seq<u8>,
    p4: Seq<u8>,
    rest: Seq<u8>,
)
    ensures
        p0 + p1 + p2 + p3 + p4 + rest == p0 + (p1 + (p2 + (p3 + (p4 + rest)))),
{
    assert(p0 + p1 + p2 + p3 + p4 + rest =~= p0 + (p1 + (p2 + (p3 + (p4 + rest)))));
}

/// 15 pieces joined from the left are the same joined from the right.
pub proof fn lemma_nest_15(
    p0: Seq<u8>,
    p1: Seq<u8>,
    p2: Seq<u8>,
    p3: Seq<u8>,
    p4: Seq<u8>,
    p5: Seq<u8>,
    p6: Seq<u8>,
    p7: Seq<u8>,
    p8: Seq<u8>,
    p9: Seq<u8>,
    p10: Seq<u8>,
    p11: Seq<u8>,
    p12: Seq<u8>,
    p13: Seq<u8>,
    p14: Seq<u8>,
)
    ensures
        p0 + p1 + p2 + p3 + p4 + p5 + p6 + p7 + p8 + p9 + p10 + p11 + p12 + p13 + p14 == p0 + (p1 + (p2 + (p3 + (p4 + (p5 + (p6 + (p7 + (p8 + (p9 + (p10 + (p11 + (p12 + (p13 + (p14 + Seq::<u8>::empty())))))))))))))),
{
    let rest = p5 + (p6 + (p7 + (p8 + (p9 + (p10 + (p11 + (p12 + (p13 + (p14
        + Seq::<u8>::empty())))))))));
    lemma_nest_11(p0 + p1 + p2 + p3 + p4, p5, p6, p7, p8, p9, p10, p11, p12, p13, p14);
    lemma_nest_before(p0, p1, p2, p3, p4, rest);
}

/// A cursor over canonical CBOR.
pub struct Reader<'a> {
    buf: &'a [u8],
    pos: usize,
}

impl<'a> Reader<'a> {
    #[verifier::type_invariant]
    spec fn inv(self) -> bool {
        self.pos <= self.buf@.len()
    }

    /// What is left to read.
    pub closed spec fn rest(self) -> Seq<u8> {
        self.buf@.skip(self.pos as int)
    }

    pub fn new(buf: &'a [u8]) -> (r: Self)
        ensures
            r.rest() == buf@,
    {
        assert(buf@.skip(0) =~= buf@);
        Reader { buf, pos: 0 }
    }

    pub fn remaining(&self) -> (r: &[u8])
        ensures
            r@ == self.rest(),
    {
        proof {
            use_type_invariant(self);
        }
        tail_bytes(self.buf, self.pos)
    }

    pub fn at_end(&self) -> (r: bool)
        ensures
            r == (self.rest().len() == 0),
    {
        proof {
            use_type_invariant(self);
        }
        self.pos == self.buf.len()
    }

    /// How many bytes are left.
    fn left(&self) -> (r: usize)
        ensures
            r == self.rest().len(),
    {
        self.remaining().len()
    }

    fn take(&mut self, n: usize) -> (r: Result<&'a [u8], Error>)
        ensures
            match r {
                Ok(s) => n <= old(self).rest().len() && s@ == old(self).rest().take(n as int)
                    && final(self).rest() == old(self).rest().skip(n as int),
                Err(e) => n > old(self).rest().len() && final(self).rest() == old(self).rest()
                    && told(e, Fault::Corrupt("cbor truncated"@)),
            },
    {
        proof {
            use_type_invariant(&*self);
        }
        if n > self.buf.len() - self.pos {
            return Err(corrupt("cbor truncated"));
        }
        let end = self.pos + n;
        let s = slice_subrange(self.buf, self.pos, end);
        self.pos = end;
        assert(s@ =~= old(self).rest().take(n as int));
        assert(self.rest() =~= old(self).rest().skip(n as int));
        Ok(s)
    }

    /// Read the bytes that follow a head with the low bits `ai`.
    fn take_uint(&mut self, ai: u8) -> (r: Result<u64, Error>)
        ensures
            match r {
                Ok(n) => len_code(n) == ai && old(self).rest() == big_endian(
                    n as nat,
                    code_width(ai),
                ) + final(self).rest(),
                Err(e) => e is Corrupt && final(self).rest().len() <= old(self).rest().len(),
            },
            refused_as(uint_scan(ai, old(self).rest()), r),
            r matches Ok(n) ==> uint_scan(ai, old(self).rest()) == Ok::<(u64, Seq<u8>), Fault>(
                (n, final(self).rest()),
            ),
            forall|n: u64, t: Seq<u8>|
                len_code(n) == ai && old(self).rest() == #[trigger] (big_endian(
                    n as nat,
                    code_width(ai),
                ) + t) ==> r == Ok::<u64, Error>(n) && final(self).rest() == t,
    {
        let ghost before = self.rest();
        let ghost w = code_width(ai);
        proof {
            reveal(uint_scan);
        }
        if ai <= 23 {
            proof {
                assert(big_endian(ai as nat, 0) + before =~= before);
                assert forall|n: u64, t: Seq<u8>|
                    len_code(n) == ai && before == #[trigger] (big_endian(n as nat, w)
                        + t) implies n == ai && before == t by {
                    assert(big_endian(n as nat, 0) + t =~= t);
                }
            }
            return Ok(ai as u64);
        }
        if ai > 27 {
            if ai == 31 {
                return Err(corrupt("indefinite cbor is not canonical"));
            }
            return Err(corrupt("cbor additional info"));
        }
        let width: usize = if ai == 24 {
            1
        } else if ai == 25 {
            2
        } else if ai == 26 {
            4
        } else {
            8
        };
        proof {
            assert forall|n: u64, t: Seq<u8>|
                len_code(n) == ai && before == #[trigger] (big_endian(n as nat, w)
                    + t) implies before.len() >= w && big_endian_value(before.take(w as int)) == n
                && before.skip(w as int) == t by {
                lemma_big_endian_len(n as nat, w);
                lemma_pow256_values();
                lemma_big_endian_roundtrip(n as nat, w);
                assert(before.take(w as int) =~= big_endian(n as nat, w));
                assert(before.skip(w as int) =~= t);
            }
        }
        let b = self.take(width)?;
        let n = read_be(b);
        let least: u64 = if ai == 24 {
            24
        } else if ai == 25 {
            0x100
        } else if ai == 26 {
            0x1_0000
        } else {
            0x1_0000_0000
        };
        proof {
            lemma_pow256_values();
            lemma_big_endian_value_roundtrip(b@);
            assert(before =~= before.take(w as int) + before.skip(w as int));
        }
        if n < least {
            return Err(corrupt("non-canonical uint"));
        }
        Ok(n)
    }

    /// Read the first byte of a head: the major type and the low five bits.
    fn header(&mut self) -> (r: Result<(u8, u8), Error>)
        ensures
            match r {
                Ok((major, ai)) => major < 8 && major != 6 && ai < 32 && old(self).rest() == seq![
                    (major * 32 + ai) as u8,
                ] + final(self).rest(),
                Err(e) => if old(self).rest().len() == 0 {
                    told(e, Fault::Corrupt("cbor truncated"@))
                } else {
                    old(self).rest()[0] / 32 == 6 && told(
                        e,
                        Fault::Corrupt("cbor tags are not canonical here"@),
                    )
                },
            },
    {
        let ghost before = self.rest();
        let b = self.take(1)?[0];
        let major: u8 = b / 32;
        let ai: u8 = b % 32;
        if major == 6 {
            return Err(corrupt("cbor tags are not canonical here"));
        }
        assert(before =~= seq![b] + self.rest());
        Ok((major, ai))
    }

    /// Read a head of the given major type.
    fn number(&mut self, wanted: u8, what: &str) -> (r: Result<u64, Error>)
        requires
            wanted < 6,
        ensures
            match r {
                Ok(n) => old(self).rest() == head(wanted, n) + final(self).rest(),
                Err(e) => e is Corrupt,
            },
            refused_as(head_scan(old(self).rest(), wanted, what@), r),
            r matches Ok(n) ==> head_scan(old(self).rest(), wanted, what@) == Ok::<
                (u64, Seq<u8>),
                Fault,
            >((n, final(self).rest())),
            forall|n: u64, t: Seq<u8>|
                old(self).rest() == #[trigger] (head(wanted, n) + t) ==> r == Ok::<u64, Error>(n)
                    && final(self).rest() == t,
    {
        let ghost before = self.rest();
        proof {
            reveal(head_scan);
            assert forall|n: u64, t: Seq<u8>| before == #[trigger] (head(wanted, n) + t) implies {
                &&& before.len() > 0
                &&& before[0] == wanted * 32 + len_code(n)
                &&& before.skip(1) == big_endian(n as nat, code_width(len_code(n))) + t
            } by {
                assert(before.skip(1) =~= big_endian(n as nat, code_width(len_code(n))) + t);
            }
        }
        let (major, ai) = self.header()?;
        let ghost after = self.rest();
        assert(after =~= before.skip(1));
        if major != wanted {
            return Err(Error::Corrupt(what.to_string()));
        }
        let n = self.take_uint(ai)?;
        assert(before =~= head(wanted, n) + self.rest());
        Ok(n)
    }

    fn bounded_len(&self, n: u64, what: &str) -> (r: Result<usize, Error>)
        ensures
            match r {
                Ok(k) => k == n && n <= self.rest().len(),
                Err(e) => n > self.rest().len() && told(
                    e,
                    Fault::Corrupt(what@ + " length exceeds input"@),
                ),
            },
    {
        if n > self.remaining().len() as u64 {
            let mut msg = what.to_string();
            msg.append(" length exceeds input");
            return Err(Error::Corrupt(msg));
        }
        Ok(n as usize)
    }

    /// Read a map key. Keys come strictly increasing by their encoded bytes:
    /// `last` holds the key before this one.
    pub fn text_map_key(&mut self, last: &mut Option<Vec<u8>>) -> (r: Result<String, Error>)
        ensures
            match r {
                Ok(k) => {
                    &&& old(self).rest() == cbor_text(k@) + final(self).rest()
                    &&& key_follows(*old(last), cbor_text(k@))
                    &&& *final(last) matches Some(v) && v@ == cbor_text(k@)
                },
                Err(e) => e is Corrupt && *final(last) == *old(last),
            },
            refused_as(key_scan(old(self).rest(), key_bytes(*old(last)), None), r),
            r matches Ok(k) ==> key_scan(old(self).rest(), key_bytes(*old(last)), None) == Ok::<
                (Seq<char>, Seq<u8>),
                Fault,
            >((k@, final(self).rest())),
            forall|k: Seq<char>, t: Seq<u8>|
                old(self).rest() == #[trigger] (cbor_text(k) + t) && key_follows(
                    *old(last),
                    cbor_text(k),
                ) ==> (r matches Ok(v) && v@ == k) && final(self).rest() == t,
    {
        let ghost before = self.rest();
        let left: usize = self.left();
        proof {
            assert(before.len() == left);
            reveal(key_scan);
            lemma_text_scan(before, usize::MAX as nat, "map key"@);
            assert forall|k: Seq<char>, t: Seq<u8>| before == #[trigger] (cbor_text(k)
                + t) implies encode_utf8(k).len() <= usize::MAX by {}
        }
        self.text_map_key_bounded(last, usize::MAX, "map key")
    }

    /// Read a map key of at most `max` bytes of text.
    pub fn text_map_key_bounded(
        &mut self,
        last: &mut Option<Vec<u8>>,
        max: usize,
        what: &str,
    ) -> (r: Result<String, Error>)
        ensures
            match r {
                Ok(k) => {
                    &&& old(self).rest() == cbor_text(k@) + final(self).rest()
                    &&& encode_utf8(k@).len() <= max
                    &&& key_follows(*old(last), cbor_text(k@))
                    &&& *final(last) matches Some(v) && v@ == cbor_text(k@)
                },
                Err(e) => e is Corrupt && *final(last) == *old(last),
            },
            refused_as(key_scan(old(self).rest(), key_bytes(*old(last)), Some((max as nat, what@))), r),
            r matches Ok(k) ==> key_scan(old(self).rest(), key_bytes(*old(last)), Some((max as nat, what@))) == Ok::<
                (Seq<char>, Seq<u8>),
                Fault,
            >((k@, final(self).rest())),
            forall|k: Seq<char>, t: Seq<u8>|
                old(self).rest() == #[trigger] (cbor_text(k) + t) && encode_utf8(k).len() <= max
                    && key_follows(*old(last), cbor_text(k)) ==> (r matches Ok(v) && v@ == k)
                    && final(self).rest() == t,
    {
        proof {
            reveal(key_scan);
        }
        let k = self.text_bounded(max, what)?;
        let encoded = text_key(k.as_str());
        if let Some(prev) = &*last {
            if !bytes_lt(prev.as_slice(), encoded.as_slice()) {
                return Err(corrupt("cbor map keys not strictly sorted"));
            }
        }
        *last = Some(encoded);
        Ok(k)
    }

    /// Read an unsigned integer.
    pub fn u64(&mut self) -> (r: Result<u64, Error>)
        ensures
            match r {
                Ok(n) => old(self).rest() == cbor_u64(n) + final(self).rest(),
                Err(e) => e is Corrupt,
            },
            refused_as(u64_scan(old(self).rest()), r),
            r matches Ok(v) ==> u64_scan(old(self).rest()) == Ok::<(u64, Seq<u8>), Fault>((v, final(self).rest())),
            forall|n: u64, t: Seq<u8>|
                old(self).rest() == #[trigger] (cbor_u64(n) + t) ==> r == Ok::<u64, Error>(n)
                    && final(self).rest() == t,
    {
        let ghost before = self.rest();
        let r = self.number(0, "expected uint");
        proof {
            assert forall|n: u64, t: Seq<u8>| before == #[trigger] (cbor_u64(n) + t) implies r
                == Ok::<u64, Error>(n) && self.rest() == t by {
                assert(before == head(0, n) + t);
            }
        }
        r
    }

    /// Read a truth value.
    pub fn bool(&mut self) -> (r: Result<bool, Error>)
        ensures
            match r {
                Ok(v) => old(self).rest() == cbor_bool(v) + final(self).rest(),
                Err(e) => e is Corrupt,
            },
            refused_as(bool_scan(old(self).rest()), r),
            r matches Ok(v) ==> bool_scan(old(self).rest()) == Ok::<Seq<u8>, Fault>(final(self).rest()),
            forall|v: bool, t: Seq<u8>|
                old(self).rest() == #[trigger] (cbor_bool(v) + t) ==> r == Ok::<bool, Error>(v)
                    && final(self).rest() == t,
    {
        let ghost before = self.rest();
        proof {
            reveal(bool_scan);
            assert forall|v: bool, t: Seq<u8>| before == #[trigger] (cbor_bool(v) + t) implies {
                &&& before.len() > 0
                &&& before[0] == cbor_bool(v)[0]
                &&& before.skip(1) == t
            } by {
                assert(before.skip(1) =~= t);
            }
        }
        let b = self.take(1)?[0];
        assert(before =~= seq![b] + self.rest());
        if b == 0xf4 {
            Ok(false)
        } else if b == 0xf5 {
            Ok(true)
        } else {
            Err(corrupt("expected bool"))
        }
    }

    /// Step over a null value, where one comes next.
    pub fn take_null(&mut self) -> (r: bool)
        ensures
            r ==> old(self).rest() == cbor_null() + final(self).rest(),
            !r ==> final(self).rest() == old(self).rest(),
            r == starts_with_null(old(self).rest()),
    {
        proof {
            use_type_invariant(&*self);
        }
        let ghost before = self.rest();
        if self.pos < self.buf.len() && self.buf[self.pos] == 0xf6 {
            self.pos += 1;
            assert(before =~= cbor_null() + self.rest());
            true
        } else {
            false
        }
    }

    /// Read a null value as nothing, or else what `read` reads.
    pub fn null_or<T>(&mut self, read: impl FnOnce(&mut Self) -> Result<T, Error>) -> (r: Result<
        Option<T>,
        Error,
    >)
        requires
            forall|x: &mut Self| call_requires(read, (x,)),
        ensures
            starts_with_null(old(self).rest()) ==> r == Ok::<Option<T>, Error>(None)
                && old(self).rest() == cbor_null() + final(self).rest(),
            !starts_with_null(old(self).rest()) ==> exists|x: &mut Self, out: Result<T, Error>|
                #[trigger] call_ensures(read, (x,), out) && x.rest() == old(self).rest()
                    && final(x).rest() == final(self).rest() && r == match out {
                    Ok(v) => Ok::<Option<T>, Error>(Some(v)),
                    Err(e) => Err(e),
                },
    {
        if self.take_null() {
            return Ok(None);
        }
        match read(self) {
            Ok(v) => Ok(Some(v)),
            Err(e) => Err(e),
        }
    }

    /// Read a byte string.
    pub fn bytes(&mut self) -> (r: Result<&'a [u8], Error>)
        ensures
            match r {
                Ok(b) => old(self).rest() == cbor_bytes(b@) + final(self).rest(),
                Err(e) => e is Corrupt,
            },
            refused_as(bytes_scan(old(self).rest()), r),
            r matches Ok(v) ==> bytes_scan(old(self).rest()) == Ok::<(Seq<u8>, Seq<u8>), Fault>((v@, final(self).rest())),
            forall|b: Seq<u8>, t: Seq<u8>|
                old(self).rest() == #[trigger] (cbor_bytes(b) + t) ==> (r matches Ok(v) && v@ == b)
                    && final(self).rest() == t,
    {
        let ghost before = self.rest();
        let left: usize = self.left();
        proof {
            reveal(bytes_scan);
            assert(before.len() == left);
            assert forall|b: Seq<u8>, t: Seq<u8>| before == #[trigger] (cbor_bytes(b) + t) implies {
                &&& before == head(2, b.len() as u64) + (b + t)
                &&& b.len() <= u64::MAX
                &&& (b + t).take(b.len() as int) == b
                &&& (b + t).skip(b.len() as int) == t
            } by {
                assert(before =~= head(2, b.len() as u64) + (b + t));
                assert((b + t).take(b.len() as int) =~= b);
                assert((b + t).skip(b.len() as int) =~= t);
            }
        }
        let raw = self.number(2, "expected bytes")?;
        let ghost after = self.rest();
        let n = self.bounded_len(raw, "bytes")?;
        let b = self.take(n)?;
        proof {
            assert(after =~= b@ + self.rest());
            assert(before =~= cbor_bytes(b@) + self.rest());
        }
        Ok(b)
    }

    /// Read a byte string of 32 bytes.
    pub fn bstr32(&mut self) -> (r: Result<[u8; 32], Error>)
        ensures
            match r {
                Ok(b) => old(self).rest() == cbor_bytes(b@) + final(self).rest(),
                Err(e) => e is Corrupt,
            },
            refused_as(id_scan(old(self).rest()), r),
            r matches Ok(v) ==> id_scan(old(self).rest()) == Ok::<Seq<u8>, Fault>(final(self).rest()),
            forall|b: Seq<u8>, t: Seq<u8>|
                b.len() == 32 && old(self).rest() == #[trigger] (cbor_bytes(b) + t) ==> (
                r matches Ok(v) && v@ == b) && final(self).rest() == t,
    {
        proof {
            reveal(id_scan);
        }
        let b = self.bytes()?;
        if b.len() != 32 {
            let mut msg = "expected 32-byte bstr, got ".to_string();
            msg.append(decimal_text(b.len() as u64).as_str());
            return Err(Error::Corrupt(msg));
        }
        Ok(ObjectId::from_slice(b).0)
    }

    /// Read a text.
    pub fn text(&mut self) -> (r: Result<String, Error>)
        ensures
            match r {
                Ok(s) => old(self).rest() == cbor_text(s@) + final(self).rest(),
                Err(e) => e is Corrupt,
            },
            refused_as(text_scan(old(self).rest(), None), r),
            r matches Ok(v) ==> text_scan(old(self).rest(), None) == Ok::<(Seq<char>, Seq<u8>), Fault>((v@, final(self).rest())),
            forall|s: Seq<char>, t: Seq<u8>|
                old(self).rest() == #[trigger] (cbor_text(s) + t) ==> (r matches Ok(v) && v@ == s)
                    && final(self).rest() == t,
    {
        let ghost before = self.rest();
        let left: usize = self.left();
        let r = self.text_bounded(usize::MAX, "text");
        proof {
            assert(before.len() == left);
            lemma_text_scan(before, usize::MAX as nat, "text"@);
            assert forall|s: Seq<char>, t: Seq<u8>| before == #[trigger] (cbor_text(s)
                + t) implies (r matches Ok(v) && v@ == s) && self.rest() == t by {
                assert(before.len() >= encode_utf8(s).len());
            }
        }
        r
    }

    /// Read a text of at most `max` bytes. A longer one is refused before it
    /// is copied.
    pub fn text_bounded(&mut self, max: usize, what: &str) -> (r: Result<String, Error>)
        ensures
            match r {
                Ok(s) => old(self).rest() == cbor_text(s@) + final(self).rest() && encode_utf8(
                    s@,
                ).len() <= max,
                Err(e) => e is Corrupt,
            },
            refused_as(text_scan(old(self).rest(), Some((max as nat, what@))), r),
            r matches Ok(v) ==> text_scan(old(self).rest(), Some((max as nat, what@))) == Ok::<(Seq<char>, Seq<u8>), Fault>((v@, final(self).rest())),
            forall|s: Seq<char>, t: Seq<u8>|
                old(self).rest() == #[trigger] (cbor_text(s) + t) && encode_utf8(s).len() <= max
                    ==> (r matches Ok(v) && v@ == s) && final(self).rest() == t,
    {
        let ghost before = self.rest();
        let left: usize = self.left();
        proof {
            reveal(text_scan);
            assert(before.len() == left);
            assert forall|s: Seq<char>, t: Seq<u8>| before == #[trigger] (cbor_text(s) + t) implies {
                let x = encode_utf8(s);
                &&& before == head(3, x.len() as u64) + (x + t)
                &&& x.len() <= u64::MAX
                &&& (x + t).take(x.len() as int) == x
                &&& (x + t).skip(x.len() as int) == t
            } by {
                let x = encode_utf8(s);
                assert(before =~= head(3, x.len() as u64) + (x + t));
                assert((x + t).take(x.len() as int) =~= x);
                assert((x + t).skip(x.len() as int) =~= t);
            }
        }
        let raw = self.number(3, "expected text")?;
        let ghost after = self.rest();
        let n = self.bounded_len(raw, "text")?;
        if n > max {
            let mut msg = what.to_string();
            msg.append(" limit");
            return Err(Error::Corrupt(msg));
        }
        let b = self.take(n)?;
        proof {
            assert(after =~= b@ + self.rest());
            assert forall|s: Seq<char>, t: Seq<u8>| before == #[trigger] (cbor_text(s)
                + t) implies encode_utf8(s) == b@ && self.rest() == t by {}
            assert forall|s: Seq<char>| encode_utf8(s) == b@ implies #[trigger] valid_utf8(b@)
                && vstd::utf8::decode_utf8(b@) == s by {
                encode_utf8_valid_utf8(s);
                encode_utf8_decode_utf8(s);
            }
        }
        match text_from_utf8(slice_to_vec(b)) {
            Some(s) => {
                proof {
                    decode_utf8_encode_utf8(b@);
                    assert(before =~= cbor_text(s@) + self.rest());
                }
                Ok(s)
            },
            None => Err(corrupt("utf8")),
        }
    }

    /// Read the head of an array. Every item takes a byte or more, so a count
    /// beyond what is left is refused.
    pub fn array(&mut self) -> (r: Result<u64, Error>)
        ensures
            match r {
                Ok(n) => old(self).rest() == head(4, n) + final(self).rest() && n <= final(self).rest().len(),
                Err(e) => e is Corrupt,
            },
            refused_as(array_scan(old(self).rest()), r),
            r matches Ok(v) ==> array_scan(old(self).rest()) == Ok::<(u64, Seq<u8>), Fault>((v, final(self).rest())),
            forall|n: u64, t: Seq<u8>|
                old(self).rest() == #[trigger] (head(4, n) + t) && n <= t.len() ==> r == Ok::<
                    u64,
                    Error,
                >(n) && final(self).rest() == t,
    {
        proof {
            reveal(array_scan);
        }
        let n = self.number(4, "expected array")?;
        if n > self.remaining().len() as u64 {
            return Err(corrupt("array count exceeds input"));
        }
        Ok(n)
    }

    /// Read the head of a map. Every pair takes two bytes or more, so a count
    /// beyond half of what is left is refused.
    pub fn map(&mut self) -> (r: Result<u64, Error>)
        ensures
            match r {
                Ok(n) => old(self).rest() == head(5, n) + final(self).rest() && 2 * n <= final(self).rest().len(),
                Err(e) => e is Corrupt,
            },
            refused_as(map_scan(old(self).rest()), r),
            r matches Ok(v) ==> map_scan(old(self).rest()) == Ok::<(u64, Seq<u8>), Fault>((v, final(self).rest())),
            forall|n: u64, t: Seq<u8>|
                old(self).rest() == #[trigger] (head(5, n) + t) && 2 * n <= t.len() ==> r == Ok::<
                    u64,
                    Error,
                >(n) && final(self).rest() == t,
    {
        proof {
            reveal(map_scan);
        }
        let n = self.number(5, "expected map")?;
        if n > (self.remaining().len() / 2) as u64 {
            return Err(corrupt("map count exceeds input"));
        }
        Ok(n)
    }
}

/// The next value is null.
pub open spec fn starts_with_null(s: Seq<u8>) -> bool {
    s.len() > 0 && s[0] == 0xf6
}

/// The key `k` may follow the key `last`.
pub open spec fn key_follows(last: Option<Vec<u8>>, k: Seq<u8>) -> bool {
    match last {
        Some(prev) => lex_lt(prev@, k),
        None => true,
    }
}

} // verus!
