//! Byte strings: comparison, copying and big-endian integers.
use vstd::prelude::*;
use vstd::slice::slice_subrange;

verus! {

/// `a` comes strictly before `b` in the bytewise lexicographic order.
pub open spec fn lex_lt(a: Seq<u8>, b: Seq<u8>) -> bool
    decreases a.len(),
{
    if b.len() == 0 {
        false
    } else if a.len() == 0 {
        true
    } else if a[0] != b[0] {
        a[0] < b[0]
    } else {
        lex_lt(a.drop_first(), b.drop_first())
    }
}

/// The order is irreflexive.
pub proof fn lemma_lex_irreflexive(a: Seq<u8>)
    ensures
        !lex_lt(a, a),
    decreases a.len(),
{
    if a.len() > 0 {
        lemma_lex_irreflexive(a.drop_first());
    }
}

/// The order is transitive.
pub proof fn lemma_lex_transitive(a: Seq<u8>, b: Seq<u8>, c: Seq<u8>)
    requires
        lex_lt(a, b),
        lex_lt(b, c),
    ensures
        lex_lt(a, c),
    decreases a.len(),
{
    if a.len() > 0 && b.len() > 0 && c.len() > 0 && a[0] == b[0] && b[0] == c[0] {
        lemma_lex_transitive(a.drop_first(), b.drop_first(), c.drop_first());
    }
}

/// Two byte strings are equal, or one comes before the other.
pub proof fn lemma_lex_total(a: Seq<u8>, b: Seq<u8>)
    ensures
        lex_lt(a, b) || a == b || lex_lt(b, a),
    decreases a.len(),
{
    if a.len() == 0 && b.len() == 0 {
        assert(a =~= b);
    } else if a.len() > 0 && b.len() > 0 && a[0] == b[0] {
        lemma_lex_total(a.drop_first(), b.drop_first());
        if a.drop_first() == b.drop_first() {
            assert(a =~= seq![a[0]] + a.drop_first());
            assert(b =~= seq![b[0]] + b.drop_first());
        }
    }
}

/// The order never holds in both directions.
pub proof fn lemma_lex_antisymmetric(a: Seq<u8>, b: Seq<u8>)
    requires
        lex_lt(a, b),
    ensures
        !lex_lt(b, a),
        a != b,
{
    lemma_lex_irreflexive(a);
    if lex_lt(b, a) {
        lemma_lex_transitive(a, b, a);
    }
}

/// A common prefix does not influence the order.
pub proof fn lemma_lex_common_prefix(a: Seq<u8>, b: Seq<u8>, k: int)
    requires
        0 <= k <= a.len(),
        k <= b.len(),
        forall|i: int| 0 <= i < k ==> a[i] == b[i],
    ensures
        lex_lt(a, b) == lex_lt(a.skip(k), b.skip(k)),
    decreases k,
{
    if k > 0 {
        assert forall|i: int| 0 <= i < k - 1 implies a.drop_first()[i] == b.drop_first()[i] by {
            assert(a[i + 1] == b[i + 1]);
        }
        lemma_lex_common_prefix(a.drop_first(), b.drop_first(), k - 1);
        assert(a.drop_first().skip(k - 1) =~= a.skip(k));
        assert(b.drop_first().skip(k - 1) =~= b.skip(k));
        assert(a[0] == b[0]);
    } else {
        assert(a.skip(0) =~= a);
        assert(b.skip(0) =~= b);
    }
}

/// Whether `a` comes strictly before `b`.
pub fn bytes_lt(a: &[u8], b: &[u8]) -> (r: bool)
    ensures
        r == lex_lt(a@, b@),
{
    let mut i: usize = 0;
    while i < a.len() && i < b.len() && a[i] == b[i]
        invariant
            i <= a@.len(),
            i <= b@.len(),
            forall|j: int| 0 <= j < i ==> a@[j] == b@[j],
        decreases a@.len() - i,
    {
        i += 1;
    }
    proof {
        lemma_lex_common_prefix(a@, b@, i as int);
    }
    if i == b.len() {
        false
    } else if i == a.len() {
        true
    } else {
        assert(a@.skip(i as int)[0] == a@[i as int]);
        assert(b@.skip(i as int)[0] == b@[i as int]);
        a[i] < b[i]
    }
}

/// Whether two byte strings are the same.
pub fn bytes_eq(a: &[u8], b: &[u8]) -> (r: bool)
    ensures
        r == (a@ == b@),
{
    if a.len() != b.len() {
        return false;
    }
    let mut i: usize = 0;
    while i < a.len()
        invariant
            i <= a@.len(),
            a@.len() == b@.len(),
            forall|j: int| 0 <= j < i ==> a@[j] == b@[j],
        decreases a@.len() - i,
    {
        if a[i] != b[i] {
            return false;
        }
        i += 1;
    }
    assert(a@ =~= b@);
    true
}

/// Append `b` to `out`.
pub fn extend_bytes(out: &mut Vec<u8>, b: &[u8])
    ensures
        final(out)@ == old(out)@ + b@,
{
    out.extend_from_slice(b);
    assert(out@ =~= old(out)@ + b@);
}

/// The bytes of `b` from `from` on.
pub fn tail_bytes(b: &[u8], from: usize) -> (r: &[u8])
    requires
        from <= b@.len(),
    ensures
        r@ == b@.skip(from as int),
{
    let r = slice_subrange(b, from, b.len());
    assert(r@ =~= b@.skip(from as int));
    r
}

/// The `k` low-order bytes of `n`, most significant byte first.
pub open spec fn big_endian(n: nat, k: nat) -> Seq<u8>
    decreases k,
{
    if k == 0 {
        Seq::<u8>::empty()
    } else {
        big_endian(n / 256, (k - 1) as nat).push((n % 256) as u8)
    }
}

/// The number that a big-endian byte string stands for.
pub open spec fn big_endian_value(s: Seq<u8>) -> nat
    decreases s.len(),
{
    if s.len() == 0 {
        0
    } else {
        big_endian_value(s.drop_last()) * 256 + s.last() as nat
    }
}

/// `256` to the power `k`.
pub open spec fn pow256(k: nat) -> nat
    decreases k,
{
    if k == 0 {
        1
    } else {
        256 * pow256((k - 1) as nat)
    }
}

pub proof fn lemma_pow256_values()
    ensures
        pow256(1) == 0x100,
        pow256(2) == 0x1_0000,
        pow256(4) == 0x1_0000_0000,
        pow256(8) == 0x1_0000_0000_0000_0000,
{
    reveal_with_fuel(pow256, 9);
}

pub proof fn lemma_big_endian_len(n: nat, k: nat)
    ensures
        big_endian(n, k).len() == k,
    decreases k,
{
    if k > 0 {
        lemma_big_endian_len(n / 256, (k - 1) as nat);
    }
}

/// Reading back the bytes of a number gives the number.
pub proof fn lemma_big_endian_roundtrip(n: nat, k: nat)
    requires
        n < pow256(k),
    ensures
        big_endian_value(big_endian(n, k)) == n,
    decreases k,
{
    if k > 0 {
        let s = big_endian(n, k);
        assert(pow256(k) == 256 * pow256((k - 1) as nat));
        lemma_big_endian_roundtrip(n / 256, (k - 1) as nat);
        assert(s.drop_last() =~= big_endian(n / 256, (k - 1) as nat));
        assert(s.last() == (n % 256) as u8);
    }
}

/// Writing the number that bytes stand for gives the bytes.
pub proof fn lemma_big_endian_value_roundtrip(s: Seq<u8>)
    ensures
        big_endian(big_endian_value(s), s.len()) == s,
        big_endian_value(s) < pow256(s.len()),
    decreases s.len(),
{
    if s.len() > 0 {
        lemma_big_endian_value_roundtrip(s.drop_last());
        let n = big_endian_value(s);
        assert(n / 256 == big_endian_value(s.drop_last()));
        assert(n % 256 == s.last() as nat);
        assert(s =~= s.drop_last().push(s.last()));
    } else {
        assert(s =~= Seq::<u8>::empty());
    }
}

/// Append the two low-order bytes of `n`.
pub fn push_be16(out: &mut Vec<u8>, n: u64)
    ensures
        final(out)@ == old(out)@ + big_endian(n as nat, 2),
{
    let n1: u64 = n / 256;
    out.push((n1 % 256) as u8);
    out.push((n % 256) as u8);
    proof {
        reveal_with_fuel(big_endian, 3);
        assert(out@ =~= old(out)@ + big_endian(n as nat, 2));
    }
}

/// Append the four low-order bytes of `n`.
pub fn push_be32(out: &mut Vec<u8>, n: u64)
    ensures
        final(out)@ == old(out)@ + big_endian(n as nat, 4),
{
    let n1: u64 = n / 256;
    let n2: u64 = n1 / 256;
    let n3: u64 = n2 / 256;
    out.push((n3 % 256) as u8);
    out.push((n2 % 256) as u8);
    out.push((n1 % 256) as u8);
    out.push((n % 256) as u8);
    proof {
        reveal_with_fuel(big_endian, 5);
        assert(out@ =~= old(out)@ + big_endian(n as nat, 4));
    }
}

/// Append the eight bytes of `n`.
pub fn push_be64(out: &mut Vec<u8>, n: u64)
    ensures
        final(out)@ == old(out)@ + big_endian(n as nat, 8),
{
    let n1: u64 = n / 256;
    let n2: u64 = n1 / 256;
    let n3: u64 = n2 / 256;
    let n4: u64 = n3 / 256;
    let n5: u64 = n4 / 256;
    let n6: u64 = n5 / 256;
    let n7: u64 = n6 / 256;
    out.push((n7 % 256) as u8);
    out.push((n6 % 256) as u8);
    out.push((n5 % 256) as u8);
    out.push((n4 % 256) as u8);
    out.push((n3 % 256) as u8);
    out.push((n2 % 256) as u8);
    out.push((n1 % 256) as u8);
    out.push((n % 256) as u8);
    proof {
        reveal_with_fuel(big_endian, 9);
        assert(out@ =~= old(out)@ + big_endian(n as nat, 8));
    }
}

/// The number that a big-endian byte string of at most eight bytes stands for.
pub fn read_be(b: &[u8]) -> (n: u64)
    requires
        b@.len() <= 8,
    ensures
        n == big_endian_value(b@),
{
    let mut n: u64 = 0;
    let mut i: usize = 0;
    while i < b.len()
        invariant
            i <= b@.len() <= 8,
            n == big_endian_value(b@.take(i as int)),
        decreases b@.len() - i,
    {
        proof {
            let next = b@.take(i + 1);
            assert(next.drop_last() =~= b@.take(i as int));
            assert(next.last() == b@[i as int]);
            lemma_big_endian_value_roundtrip(next);
            reveal_with_fuel(pow256, 10);
            assert(pow256((i + 1) as nat) <= pow256(8));
        }
        n = n * 256 + b[i] as u64;
        i += 1;
    }
    assert(b@.take(i as int) =~= b@);
    n
}

} // verus!
