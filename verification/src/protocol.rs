//! The wire protocol: requests and responses, each in a frame of a four-byte
//! big-endian length and that many bytes.
use vstd::prelude::*;
use vstd::slice::slice_subrange;

use crate::bytes::{
    big_endian, big_endian_value, extend_bytes, lemma_big_endian_len, lemma_big_endian_roundtrip,
    lemma_pow256_values, push_be32, read_be, tail_bytes,
};
use crate::types::{invalid, Error};

verus! {

/// What a client asks for. The body is in the form that the transport gives it.
#[derive(Clone, Debug)]
pub struct Request<B> {
    pub v: u8,
    pub id: u64,
    pub op: String,
    pub cap: String,
    pub body: B,
}

/// What a server answers.
#[derive(Clone, Debug)]
pub struct Response<B> {
    pub v: u8,
    pub id: u64,
    pub ok: bool,
    pub body: Option<B>,
    pub err: Option<ErrBody>,
}

/// An error as a response carries it.
#[derive(Clone, Debug)]
pub struct ErrBody {
    pub code: String,
    pub msg: String,
}

impl<B> Response<B> {
    /// The answer to a request that was carried out.
    pub fn ok(id: u64, body: B) -> (r: Self)
        ensures
            r == (Response { v: 1, id, ok: true, body: Some(body), err: None }),
    {
        Response { v: 1, id, ok: true, body: Some(body), err: None }
    }

    /// The answer to a request that failed: the class of the error and its
    /// message, and no body.
    pub fn err(id: u64, e: &Error) -> (r: Self)
        ensures
            r.v == 1,
            r.id == id,
            !r.ok,
            r.body is None,
            r.err matches Some(b) && b.code@ == e.class() && b.msg@ == e.text(),
    {
        Response {
            v: 1,
            id,
            ok: false,
            body: None,
            err: Some(ErrBody { code: e.code().to_string(), msg: e.message() }),
        }
    }
}

/// Hard cap on the body of a frame. A length above it is refused before anything
/// is allocated for it.
pub const MAX_FRAME_BYTES: usize = 33_554_432;

/// A body in its frame.
pub open spec fn framed(body: Seq<u8>) -> Seq<u8> {
    big_endian(body.len(), 4) + body
}

/// Append a body in its frame. Of the length only the four low-order bytes are
/// written.
pub fn write_frame(w: &mut Vec<u8>, body: &[u8])
    ensures
        final(w)@ == old(w)@ + framed(body@),
{
    push_be32(w, body.len() as u64);
    extend_bytes(w, body);
    assert(w@ =~= old(w)@ + framed(body@));
}

/// The length that a prefix announces, where it is within the cap.
pub fn decode_frame_len(prefix: [u8; 4]) -> (r: Result<usize, Error>)
    ensures
        match r {
            Ok(n) => n == big_endian_value(prefix@) && n <= MAX_FRAME_BYTES,
            Err(e) => big_endian_value(prefix@) > MAX_FRAME_BYTES && (e matches Error::Invalid(msg)
                && msg@ == "frame too large"@),
        },
{
    let n: u64 = read_be(prefix.as_slice());
    if n > 33_554_432 {
        return Err(invalid("frame too large"));
    }
    Ok(n as usize)
}

/// The first bytes of what is left of the input, which is then after them. Where
/// there are fewer, the input is used up.
fn take_exact<'a>(r: &mut &'a [u8], n: usize) -> (b: Result<&'a [u8], Error>)
    ensures
        match b {
            Ok(head) => n <= old(r)@.len() && head@ == old(r)@.take(n as int) && final(r)@ == old(
                r,
            )@.skip(n as int),
            Err(e) => n > old(r)@.len() && e is Io && final(r)@.len() == 0,
        },
{
    let all: &'a [u8] = *r;
    let count = all.len();
    if n > count {
        *r = tail_bytes(all, count);
        return Err(Error::Io("failed to fill whole buffer".to_string()));
    }
    let head = slice_subrange(all, 0, n);
    assert(head@ =~= all@.take(n as int));
    *r = tail_bytes(all, n);
    Ok(head)
}

/// What reading the length of a frame gives: the length that four bytes announce.
pub open spec fn len_read(prefix: Seq<u8>, r: Result<usize, Error>) -> bool {
    match r {
        Ok(n) => n == big_endian_value(prefix) && n <= MAX_FRAME_BYTES,
        Err(e) => big_endian_value(prefix) > MAX_FRAME_BYTES && (e matches Error::Invalid(msg)
            && msg@ == "frame too large"@),
    }
}

/// Read the length of a frame.
///
/// It is apart from [`read_frame`] so that a server can set another deadline
/// between the length and the body: the length commits the peer to a frame.
pub fn read_frame_len(r: &mut &[u8]) -> (n: Result<usize, Error>)
    ensures
        if old(r)@.len() < 4 {
            n is Err && n->Err_0 is Io && final(r)@.len() == 0
        } else {
            len_read(old(r)@.take(4), n) && final(r)@ == old(r)@.skip(4)
        },
{
    let b = take_exact(r, 4)?;
    let prefix: [u8; 4] = [b[0], b[1], b[2], b[3]];
    assert(prefix@ =~= b@);
    decode_frame_len(prefix)
}

/// Read the rest of a length whose first byte the caller has read.
///
/// A server that wants to tell an idle connection from a peer that started a
/// frame and stalled has to see the first byte on its own.
pub fn read_frame_len_after(r: &mut &[u8], first: u8) -> (n: Result<usize, Error>)
    ensures
        if old(r)@.len() < 3 {
            n is Err && n->Err_0 is Io && final(r)@.len() == 0
        } else {
            len_read(seq![first] + old(r)@.take(3), n) && final(r)@ == old(r)@.skip(3)
        },
{
    let rest = take_exact(r, 3)?;
    let prefix: [u8; 4] = [first, rest[0], rest[1], rest[2]];
    assert(prefix@ =~= seq![first] + rest@);
    decode_frame_len(prefix)
}

/// Read the body of a frame, given its length.
pub fn read_frame_body(r: &mut &[u8], n: usize) -> (b: Result<Vec<u8>, Error>)
    ensures
        match b {
            Ok(body) => n <= old(r)@.len() && body@ == old(r)@.take(n as int) && final(r)@ == old(
                r,
            )@.skip(n as int),
            Err(e) => n > old(r)@.len() && e is Io && final(r)@.len() == 0,
        },
{
    let head = take_exact(r, n)?;
    let mut body: Vec<u8> = Vec::new();
    extend_bytes(&mut body, head);
    assert(body@ =~= head@);
    Ok(body)
}

/// What reading a frame gives: the body, and what is left of the input.
pub open spec fn frame_read(s: Seq<u8>) -> Option<(Seq<u8>, Seq<u8>)> {
    let n = big_endian_value(s.take(4)) as int;
    if s.len() < 4 || n > MAX_FRAME_BYTES || s.len() < 4 + n {
        None
    } else {
        Some((s.subrange(4, 4 + n), s.skip(4 + n)))
    }
}

/// Read one whole frame.
pub fn read_frame(r: &mut &[u8]) -> (b: Result<Vec<u8>, Error>)
    ensures
        match frame_read(old(r)@) {
            Some((body, rest)) => b matches Ok(v) && v@ == body && final(r)@ == rest,
            None => if old(r)@.len() >= 4 && big_endian_value(old(r)@.take(4)) > MAX_FRAME_BYTES {
                b matches Err(Error::Invalid(msg)) && msg@ == "frame too large"@
            } else {
                b matches Err(Error::Io(_))
            },
        },
{
    let ghost s = r@;
    let n = read_frame_len(r)?;
    let b = read_frame_body(r, n)?;
    proof {
        assert(s.skip(4).take(n as int) =~= s.subrange(4, 4 + n));
        assert(s.skip(4).skip(n as int) =~= s.skip(4 + n));
    }
    Ok(b)
}

/// A frame that was written is read back as its body, and what follows it is
/// left.
pub proof fn lemma_frame_roundtrip(body: Seq<u8>, rest: Seq<u8>)
    requires
        body.len() <= MAX_FRAME_BYTES,
    ensures
        frame_read(framed(body) + rest) == Some((body, rest)),
{
    let s = framed(body) + rest;
    lemma_big_endian_len(body.len(), 4);
    lemma_pow256_values();
    lemma_big_endian_roundtrip(body.len(), 4);
    assert(s.take(4) =~= big_endian(body.len(), 4));
    assert(s.subrange(4, (4 + body.len()) as int) =~= body);
    assert(s.skip((4 + body.len()) as int) =~= rest);
}

/// The length is the same whether its four bytes are read at once or the first
/// one apart.
pub proof fn lemma_split_length(s: Seq<u8>, r: Result<usize, Error>)
    requires
        s.len() >= 4,
    ensures
        len_read(s.take(4), r) <==> len_read(seq![s[0]] + s.skip(1).take(3), r),
{
    assert(s.take(4) =~= seq![s[0]] + s.skip(1).take(3));
}

} // verus!
