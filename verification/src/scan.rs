//! What is wrong with encoded bytes, told as a reader finds it.
use crate::bytes::{
    big_endian, big_endian_value, lemma_big_endian_len, lemma_big_endian_roundtrip,
    lemma_pow256_values, lex_lt,
};
use crate::cbor::{cbor_text, code_width, head, len_code, starts_with_null};
use crate::text::decimal;
use crate::types::Error;
use vstd::prelude::*;
use vstd::utf8::{
    decode_utf8, encode_utf8, encode_utf8_decode_utf8, encode_utf8_valid_utf8, valid_utf8,
};

verus! {

/// Why bytes are refused, with the text that says so.
pub enum Fault {
    Corrupt(Seq<char>),
    Invalid(Seq<char>),
}

/// The text of a fault.
pub open spec fn fault_text(f: Fault) -> Seq<char> {
    match f {
        Fault::Corrupt(m) => m,
        Fault::Invalid(m) => m,
    }
}

/// The error tells of the fault.
pub open spec fn told(e: Error, f: Fault) -> bool {
    match f {
        Fault::Corrupt(m) => e matches Error::Corrupt(s) && s@ == m,
        Fault::Invalid(m) => e matches Error::Invalid(s) && s@ == m,
    }
}

/// Where a read fails, it tells of the fault that the bytes have.
pub open spec fn refused_as<V, T>(want: Result<V, Fault>, got: Result<T, Error>) -> bool {
    got matches Err(e) ==> (want matches Err(f) && told(e, f))
}

/// The number with the low bits `ai` in its head, and what follows it.
#[verifier::opaque]
pub open spec fn uint_scan(ai: u8, s: Seq<u8>) -> Result<(u64, Seq<u8>), Fault> {
    let w = code_width(ai);
    let n = big_endian_value(s.take(w as int)) as u64;
    if ai <= 23 {
        Ok((ai as u64, s))
    } else if ai == 31 {
        Err(Fault::Corrupt("indefinite cbor is not canonical"@))
    } else if ai > 27 {
        Err(Fault::Corrupt("cbor additional info"@))
    } else if s.len() < w {
        Err(Fault::Corrupt("cbor truncated"@))
    } else if len_code(n) != ai {
        Err(Fault::Corrupt("non-canonical uint"@))
    } else {
        Ok((n, s.skip(w as int)))
    }
}

/// The number in a head of the major type `wanted`, and what follows it. Another type is
/// refused with the text `what`.
#[verifier::opaque]
pub open spec fn head_scan(
    s: Seq<u8>,
    wanted: u8,
    what: Seq<char>,
) -> Result<(u64, Seq<u8>), Fault> {
    if s.len() == 0 {
        Err(Fault::Corrupt("cbor truncated"@))
    } else if s[0] / 32 == 6 {
        Err(Fault::Corrupt("cbor tags are not canonical here"@))
    } else if s[0] / 32 != wanted {
        Err(Fault::Corrupt(what))
    } else {
        uint_scan((s[0] % 32) as u8, s.skip(1))
    }
}

/// A head takes a byte or more.
pub proof fn lemma_head_scan(s: Seq<u8>, wanted: u8, what: Seq<char>)
    ensures
        head_scan(s, wanted, what) matches Ok((n, t)) ==> t.len() < s.len(),
        head_scan(s, wanted, what) matches Err(f) ==> f is Corrupt,
{
    reveal(head_scan);
    reveal(uint_scan);
}

/// A head that was written is read back.
pub proof fn lemma_head_read(major: u8, n: u64, t: Seq<u8>, what: Seq<char>)
    requires
        major < 6,
    ensures
        head_scan(head(major, n) + t, major, what) == Ok::<(u64, Seq<u8>), Fault>((n, t)),
{
    reveal(head_scan);
    reveal(uint_scan);
    let s = head(major, n) + t;
    let ai = len_code(n);
    let w = code_width(ai);
    let tail = s.skip(1);
    assert(s[0] == (major * 32 + ai) as u8);
    assert(tail =~= big_endian(n as nat, w) + t);
    if ai <= 23 {
        assert(big_endian(n as nat, 0) + t =~= t);
    } else {
        lemma_big_endian_len(n as nat, w);
        lemma_pow256_values();
        lemma_big_endian_roundtrip(n as nat, w);
        assert(tail.take(w as int) =~= big_endian(n as nat, w));
        assert(tail.skip(w as int) =~= t);
    }
}

/// A text that was written is read back.
pub proof fn lemma_text_read(k: Seq<char>, t: Seq<u8>)
    requires
        encode_utf8(k).len() <= u64::MAX,
    ensures
        text_scan(cbor_text(k) + t, None) == Ok::<(Seq<char>, Seq<u8>), Fault>((k, t)),
{
    reveal(text_scan);
    let x = encode_utf8(k);
    let s = cbor_text(k) + t;
    assert(s =~= head(3, x.len() as u64) + (x + t));
    lemma_head_read(3, x.len() as u64, x + t, "expected text"@);
    assert((x + t).take(x.len() as int) =~= x);
    assert((x + t).skip(x.len() as int) =~= t);
    encode_utf8_valid_utf8(k);
    encode_utf8_decode_utf8(k);
}

/// A text within what is left needs no limit.
pub proof fn lemma_text_scan(s: Seq<u8>, max: nat, what: Seq<char>)
    requires
        s.len() <= max,
    ensures
        text_scan(s, Some((max, what))) == text_scan(s, None),
{
    reveal(text_scan);
    lemma_head_scan(s, 3, "expected text"@);
}

/// An unsigned integer, and what follows it.
pub open spec fn u64_scan(s: Seq<u8>) -> Result<(u64, Seq<u8>), Fault> {
    head_scan(s, 0, "expected uint"@)
}

/// What follows a truth value.
#[verifier::opaque]
pub open spec fn bool_scan(s: Seq<u8>) -> Result<Seq<u8>, Fault> {
    if s.len() == 0 {
        Err(Fault::Corrupt("cbor truncated"@))
    } else if s[0] == 0xf4 || s[0] == 0xf5 {
        Ok(s.skip(1))
    } else {
        Err(Fault::Corrupt("expected bool"@))
    }
}

/// The count of an array, and what follows it.
#[verifier::opaque]
pub open spec fn array_scan(s: Seq<u8>) -> Result<(u64, Seq<u8>), Fault> {
    match head_scan(s, 4, "expected array"@) {
        Ok((n, t)) => if n > t.len() {
            Err(Fault::Corrupt("array count exceeds input"@))
        } else {
            Ok((n, t))
        },
        Err(f) => Err(f),
    }
}

/// The count of a map, and what follows it.
#[verifier::opaque]
pub open spec fn map_scan(s: Seq<u8>) -> Result<(u64, Seq<u8>), Fault> {
    match head_scan(s, 5, "expected map"@) {
        Ok((n, t)) => if 2 * n > t.len() {
            Err(Fault::Corrupt("map count exceeds input"@))
        } else {
            Ok((n, t))
        },
        Err(f) => Err(f),
    }
}

/// A byte string, and what follows it.
#[verifier::opaque]
pub open spec fn bytes_scan(s: Seq<u8>) -> Result<(Seq<u8>, Seq<u8>), Fault> {
    match head_scan(s, 2, "expected bytes"@) {
        Ok((n, t)) => if n > t.len() {
            Err(Fault::Corrupt("bytes"@ + " length exceeds input"@))
        } else {
            Ok((t.take(n as int), t.skip(n as int)))
        },
        Err(f) => Err(f),
    }
}

/// What follows a byte string of 32 bytes.
#[verifier::opaque]
pub open spec fn id_scan(s: Seq<u8>) -> Result<Seq<u8>, Fault> {
    match bytes_scan(s) {
        Ok((b, t)) => if b.len() != 32 {
            Err(Fault::Corrupt("expected 32-byte bstr, got "@ + decimal(b.len())))
        } else {
            Ok(t)
        },
        Err(f) => Err(f),
    }
}

/// What follows a byte string of 32 bytes, or a null value in its place.
pub open spec fn opt_id_scan(s: Seq<u8>) -> Result<Seq<u8>, Fault> {
    if starts_with_null(s) {
        Ok(s.skip(1))
    } else {
        id_scan(s)
    }
}

/// How a text of `n` bytes is refused where it is over the limit.
pub open spec fn over_limit(n: u64, limit: Option<(nat, Seq<char>)>) -> Option<Fault> {
    match limit {
        Some((max, what)) => if n > max {
            Some(Fault::Corrupt(what + " limit"@))
        } else {
            None
        },
        None => None,
    }
}

/// A text, and what follows it. Where there is a limit, a text of more bytes is refused
/// with the name of the limit.
#[verifier::opaque]
pub open spec fn text_scan(
    s: Seq<u8>,
    limit: Option<(nat, Seq<char>)>,
) -> Result<(Seq<char>, Seq<u8>), Fault> {
    match head_scan(s, 3, "expected text"@) {
        Ok((n, t)) => if n > t.len() {
            Err(Fault::Corrupt("text"@ + " length exceeds input"@))
        } else if let Some(f) = over_limit(n, limit) {
            Err(f)
        } else if !valid_utf8(t.take(n as int)) {
            Err(Fault::Corrupt("utf8"@))
        } else {
            Ok((decode_utf8(t.take(n as int)), t.skip(n as int)))
        },
        Err(f) => Err(f),
    }
}

/// A map key that follows the key `last`, and what follows it.
#[verifier::opaque]
pub open spec fn key_scan(
    s: Seq<u8>,
    last: Option<Seq<u8>>,
    limit: Option<(nat, Seq<char>)>,
) -> Result<(Seq<char>, Seq<u8>), Fault> {
    match text_scan(s, limit) {
        Ok((k, t)) => if last matches Some(p) && !lex_lt(p, cbor_text(k)) {
            Err(Fault::Corrupt("cbor map keys not strictly sorted"@))
        } else {
            Ok((k, t))
        },
        Err(f) => Err(f),
    }
}

/// A truth value is refused as `Corrupt`.
pub proof fn lemma_bool_scan(s: Seq<u8>)
    ensures
        bool_scan(s) matches Err(f) ==> f is Corrupt,
{
    reveal(bool_scan);
}

/// An array is refused as `Corrupt`.
pub proof fn lemma_array_scan(s: Seq<u8>)
    ensures
        array_scan(s) matches Err(f) ==> f is Corrupt,
{
    reveal(array_scan);
    lemma_head_scan(s, 4, "expected array"@);
}

/// A map is refused as `Corrupt`.
pub proof fn lemma_map_scan(s: Seq<u8>)
    ensures
        map_scan(s) matches Err(f) ==> f is Corrupt,
{
    reveal(map_scan);
    lemma_head_scan(s, 5, "expected map"@);
}

/// A byte string is refused as `Corrupt`.
pub proof fn lemma_bytes_scan(s: Seq<u8>)
    ensures
        bytes_scan(s) matches Err(f) ==> f is Corrupt,
{
    reveal(bytes_scan);
    lemma_head_scan(s, 2, "expected bytes"@);
}

/// An id is refused as `Corrupt`.
pub proof fn lemma_id_scan(s: Seq<u8>)
    ensures
        id_scan(s) matches Err(f) ==> f is Corrupt,
{
    reveal(id_scan);
    lemma_bytes_scan(s);
}

/// A text is refused as `Corrupt`.
pub proof fn lemma_text_faults(s: Seq<u8>, limit: Option<(nat, Seq<char>)>)
    ensures
        text_scan(s, limit) matches Err(f) ==> f is Corrupt,
{
    reveal(text_scan);
    lemma_head_scan(s, 3, "expected text"@);
}

/// A key is refused as `Corrupt`.
pub proof fn lemma_key_scan(s: Seq<u8>, last: Option<Seq<u8>>, limit: Option<(nat, Seq<char>)>)
    ensures
        key_scan(s, last, limit) matches Err(f) ==> f is Corrupt,
{
    reveal(key_scan);
    lemma_text_faults(s, limit);
}

/// The key before, as its bytes.
pub open spec fn key_bytes(last: Option<Vec<u8>>) -> Option<Seq<u8>> {
    match last {
        Some(v) => Some(v@),
        None => None,
    }
}

} // verus!
