//! Object identity: BLAKE3 over the bytes of an object file.
use crate::types::ObjectId;
use vstd::prelude::*;

verus! {

/// The 32-byte BLAKE3 digest of a byte string.
pub uninterp spec fn blake3_digest(input: Seq<u8>) -> Seq<u8>;

/// The incremental state of BLAKE3, `blake3::Hasher`.
#[verifier::external_type_specification]
#[verifier::external_body]
pub struct ExHasher(blake3::Hasher);

/// The bytes that an incremental state has taken in so far.
pub uninterp spec fn absorbed(h: blake3::Hasher) -> Seq<u8>;

/// Calls `blake3::hash`: the id is the digest of the bytes.
#[verifier::external_body]
pub fn hash_bytes(bytes: &[u8]) -> (r: ObjectId)
    ensures
        r@ == blake3_digest(bytes@),
{
    ObjectId(*blake3::hash(bytes).as_bytes())
}

/// Calls `blake3::Hasher::new`: a fresh state has taken in nothing.
#[verifier::external_body]
fn hasher_new() -> (h: blake3::Hasher)
    ensures
        absorbed(h) == Seq::<u8>::empty(),
{
    blake3::Hasher::new()
}

/// Calls `blake3::Hasher::update`: the state takes in the bytes after what it
/// already has.
#[verifier::external_body]
fn hasher_update(h: &mut blake3::Hasher, bytes: &[u8])
    ensures
        absorbed(*final(h)) == absorbed(*old(h)) + bytes@,
{
    h.update(bytes);
}

/// Calls `blake3::Hasher::finalize`: the id is the digest of all that the
/// state has taken in.
#[verifier::external_body]
fn hasher_finalize(h: &blake3::Hasher) -> (r: ObjectId)
    ensures
        r@ == blake3_digest(absorbed(*h)),
{
    ObjectId(*h.finalize().as_bytes())
}

/// The parts of an object file, joined.
pub open spec fn joined(parts: Seq<&[u8]>) -> Seq<u8>
    decreases parts.len(),
{
    if parts.len() == 0 {
        Seq::<u8>::empty()
    } else {
        joined(parts.drop_last()) + parts.last()@
    }
}

/// The identity of bytes that come piece by piece.
#[derive(Debug)]
pub struct ObjectHasher {
    state: blake3::Hasher,
}

impl ObjectHasher {
    /// The bytes that have come so far.
    pub closed spec fn seen(self) -> Seq<u8> {
        absorbed(self.state)
    }

    pub fn new() -> (r: Self)
        ensures
            r.seen() == Seq::<u8>::empty(),
    {
        ObjectHasher { state: hasher_new() }
    }

    /// Take in the next piece.
    pub fn update(&mut self, bytes: &[u8])
        ensures
            final(self).seen() == old(self).seen() + bytes@,
    {
        hasher_update(&mut self.state, bytes);
    }

    /// The identity of all that has come.
    pub fn id(&self) -> (r: ObjectId)
        ensures
            r@ == blake3_digest(self.seen()),
    {
        hasher_finalize(&self.state)
    }
}

/// Identity of the object file that the parts form when joined, without
/// joining them: a publisher that holds a payload needs no second copy of it.
pub fn hash_parts(parts: &[&[u8]]) -> (r: ObjectId)
    ensures
        r@ == blake3_digest(joined(parts@)),
{
    let mut h = ObjectHasher::new();
    let mut i: usize = 0;
    assert(parts@.take(0) =~= Seq::<&[u8]>::empty());
    while i < parts.len()
        invariant
            i <= parts@.len(),
            h.seen() == joined(parts@.take(i as int)),
        decreases parts@.len() - i,
    {
        proof {
            let next = parts@.take(i + 1);
            assert(next.drop_last() =~= parts@.take(i as int));
            assert(next.last() == parts@[i as int]);
        }
        h.update(parts[i]);
        i += 1;
    }
    assert(parts@.take(i as int) =~= parts@);
    h.id()
}

/// Cutting an object file in two places nothing into it and leaves nothing
/// out, wherever the cut is.
pub proof fn lemma_joined_pair(a: &[u8], b: &[u8])
    ensures
        joined(seq![a, b]) == a@ + b@,
{
    reveal_with_fuel(joined, 3);
    assert(seq![a, b].drop_last() =~= seq![a]);
    assert(seq![a].drop_last() =~= Seq::<&[u8]>::empty());
    assert(joined(seq![a, b]) =~= a@ + b@);
}

} // verus!
