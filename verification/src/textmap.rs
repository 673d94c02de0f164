//! Maps keyed by text, in the order of the keys' bytes.
use crate::bytes::{
    lemma_lex_antisymmetric, lemma_lex_irreflexive, lemma_lex_total, lemma_lex_transitive,
};
use crate::text::{lemma_utf8_injective, text_before, text_eq, text_lt};
use vstd::prelude::*;
use vstd::utf8::encode_utf8;

verus! {

/// Texts that come strictly increasing by their bytes.
pub open spec fn increasing(ks: Seq<Seq<char>>) -> bool {
    forall|i: int, j: int| 0 <= i < j < ks.len() ==> text_before(#[trigger] ks[i], #[trigger] ks[j])
}

/// Increasing texts are distinct.
pub proof fn lemma_increasing_differ(ks: Seq<Seq<char>>, i: int, j: int)
    requires
        increasing(ks),
        0 <= i < ks.len(),
        0 <= j < ks.len(),
        i != j,
    ensures
        ks[i] != ks[j],
{
    lemma_lex_irreflexive(encode_utf8(ks[i]));
    if i < j {
        assert(text_before(ks[i], ks[j]));
    } else {
        assert(text_before(ks[j], ks[i]));
    }
}

/// Increasing sequences of the same texts are the same.
pub proof fn lemma_increasing_unique(a: Seq<Seq<char>>, b: Seq<Seq<char>>)
    requires
        increasing(a),
        increasing(b),
        forall|k: Seq<char>| #[trigger] a.contains(k) <==> b.contains(k),
    ensures
        a == b,
    decreases a.len(),
{
    if a.len() == 0 {
        if b.len() > 0 {
            assert(b.contains(b[0]));
            assert(a.contains(b[0]));
        }
        assert(a =~= b);
    } else {
        assert(a.contains(a[a.len() - 1]));
        let x = a[a.len() - 1];
        assert(b.contains(x));
        let y = b[b.len() - 1];
        assert(b.contains(y));
        assert(a.contains(y));
        let i = choose|i: int| 0 <= i < a.len() && a[i] == y;
        let j = choose|j: int| 0 <= j < b.len() && b[j] == x;
        if i < a.len() - 1 && j < b.len() - 1 {
            assert(text_before(a[i], x));
            assert(text_before(b[j], y));
            lemma_lex_antisymmetric(encode_utf8(x), encode_utf8(y));
        }
        assert(x == y);
        let a1 = a.drop_last();
        let b1 = b.drop_last();
        assert forall|p: int, q: int| 0 <= p < q < a1.len() implies text_before(
            #[trigger] a1[p],
            #[trigger] a1[q],
        ) by {
            assert(text_before(a[p], a[q]));
        }
        assert forall|p: int, q: int| 0 <= p < q < b1.len() implies text_before(
            #[trigger] b1[p],
            #[trigger] b1[q],
        ) by {
            assert(text_before(b[p], b[q]));
        }
        assert forall|k: Seq<char>| #[trigger] a1.contains(k) <==> b1.contains(k) by {
            if a1.contains(k) {
                let p = choose|p: int| 0 <= p < a1.len() && a1[p] == k;
                assert(a[p] == k);
                lemma_increasing_differ(a, p, a.len() - 1);
                assert(a.contains(k));
                let q = choose|q: int| 0 <= q < b.len() && b[q] == k;
                assert(b1[q] == k);
            }
            if b1.contains(k) {
                let p = choose|p: int| 0 <= p < b1.len() && b1[p] == k;
                assert(b[p] == k);
                lemma_increasing_differ(b, p, b.len() - 1);
                assert(b.contains(k));
                assert(a.contains(k));
                let q = choose|q: int| 0 <= q < a.len() && a[q] == k;
                assert(a1[q] == k);
            }
        }
        lemma_increasing_unique(a1, b1);
        assert(a =~= a1.push(x));
        assert(b =~= b1.push(y));
    }
}

/// A place of `k`.
pub open spec fn place_of(ks: Seq<Seq<char>>, k: Seq<char>) -> int {
    choose|i: int| 0 <= i < ks.len() && ks[i] == k
}

/// A map from texts to values.
pub struct TextMap<V> {
    items: Vec<(String, V)>,
}

/// The keys of some pairs.
spec fn keys_of<V>(v: Seq<(String, V)>) -> Seq<Seq<char>> {
    Seq::new(v.len(), |i: int| v[i].0@)
}

/// The values of some pairs.
spec fn values_of<V>(v: Seq<(String, V)>) -> Seq<V> {
    Seq::new(v.len(), |i: int| v[i].1)
}

impl<V> TextMap<V> {
    #[verifier::type_invariant]
    spec fn inv(self) -> bool {
        increasing(keys_of(self.items@))
    }

    /// The keys in their order.
    pub closed spec fn key_list(self) -> Seq<Seq<char>> {
        keys_of(self.items@)
    }

    /// The values in the order of their keys.
    pub closed spec fn value_list(self) -> Seq<V> {
        values_of(self.items@)
    }

    /// The keys are in order and each has a value.
    pub open spec fn ordered(self) -> bool {
        increasing(self.key_list()) && self.key_list().len() == self.value_list().len()
    }

    /// The map has the key `k`.
    pub open spec fn has(self, k: Seq<char>) -> bool {
        self.key_list().contains(k)
    }

    /// The value of the key `k`.
    pub open spec fn at(self, k: Seq<char>) -> V {
        self.value_list()[place_of(self.key_list(), k)]
    }

    /// The value that stands beside a key is the value of that key.
    pub proof fn lemma_at(self, i: int)
        requires
            self.ordered(),
            0 <= i < self.key_list().len(),
        ensures
            self.has(self.key_list()[i]),
            self.at(self.key_list()[i]) == self.value_list()[i],
    {
        let k = self.key_list()[i];
        let j = place_of(self.key_list(), k);
        if j != i {
            lemma_increasing_differ(self.key_list(), i, j);
        }
    }

    pub fn new() -> (r: Self)
        ensures
            r.key_list() == Seq::<Seq<char>>::empty(),
            r.value_list() == Seq::<V>::empty(),
            r.ordered(),
    {
        let r = TextMap { items: Vec::new() };
        assert(r.key_list() =~= Seq::<Seq<char>>::empty());
        assert(r.value_list() =~= Seq::<V>::empty());
        r
    }

    pub fn len(&self) -> (n: usize)
        ensures
            n == self.key_list().len(),
            self.ordered(),
    {
        proof {
            use_type_invariant(self);
        }
        self.items.len()
    }

    /// The key at a place of the order.
    pub fn key(&self, i: usize) -> (k: &String)
        requires
            i < self.key_list().len(),
        ensures
            k@ == self.key_list()[i as int],
            self.ordered(),
            self.has(k@),
    {
        proof {
            use_type_invariant(self);
            self.lemma_at(i as int);
        }
        &self.items[i].0
    }

    /// The value at a place of the order.
    pub fn value(&self, i: usize) -> (v: &V)
        requires
            i < self.key_list().len(),
        ensures
            *v == self.value_list()[i as int],
            self.ordered(),
            *v == self.at(self.key_list()[i as int]),
    {
        proof {
            use_type_invariant(self);
            self.lemma_at(i as int);
        }
        &self.items[i].1
    }

    /// The first place whose key is not before `k`.
    fn seek(&self, k: &str) -> (r: usize)
        ensures
            r <= self.key_list().len(),
            forall|i: int| 0 <= i < r ==> text_before(#[trigger] self.key_list()[i], k@),
            forall|i: int|
                r <= i < self.key_list().len() ==> !text_before(#[trigger] self.key_list()[i], k@),
    {
        proof {
            use_type_invariant(self);
        }
        let mut lo: usize = 0;
        let mut hi: usize = self.items.len();
        while lo < hi
            invariant
                lo <= hi <= self.items@.len(),
                increasing(self.key_list()),
                self.key_list() == keys_of(self.items@),
                forall|i: int| 0 <= i < lo ==> text_before(#[trigger] self.key_list()[i], k@),
                forall|i: int|
                    hi <= i < self.key_list().len() ==> !text_before(
                        #[trigger] self.key_list()[i],
                        k@,
                    ),
            decreases hi - lo,
        {
            let mid: usize = lo + (hi - lo) / 2;
            assert(self.key_list()[mid as int] == self.items@[mid as int].0@);
            if text_lt(self.items[mid].0.as_str(), k) {
                proof {
                    assert forall|i: int| 0 <= i < mid + 1 implies text_before(
                        #[trigger] self.key_list()[i],
                        k@,
                    ) by {
                        if i < mid {
                            lemma_lex_transitive(
                                encode_utf8(self.key_list()[i]),
                                encode_utf8(self.key_list()[mid as int]),
                                encode_utf8(k@),
                            );
                        }
                    }
                }
                lo = mid + 1;
            } else {
                proof {
                    assert forall|i: int| mid <= i < self.key_list().len() implies !text_before(
                        #[trigger] self.key_list()[i],
                        k@,
                    ) by {
                        if mid < i && text_before(self.key_list()[i], k@) {
                            lemma_lex_transitive(
                                encode_utf8(self.key_list()[mid as int]),
                                encode_utf8(self.key_list()[i]),
                                encode_utf8(k@),
                            );
                        }
                    }
                }
                hi = mid;
            }
        }
        lo
    }

    /// The value of a key.
    pub fn get(&self, k: &str) -> (r: Option<&V>)
        ensures
            self.ordered(),
            match r {
                Some(v) => self.has(k@) && *v == self.at(k@),
                None => !self.has(k@),
            },
    {
        proof {
            use_type_invariant(self);
        }
        let i = self.seek(k);
        if i < self.items.len() && text_eq(self.items[i].0.as_str(), k) {
            proof {
                assert(self.key_list()[i as int] == k@);
                self.lemma_at(i as int);
            }
            return Some(&self.items[i].1);
        }
        proof {
            lemma_absent(self.key_list(), i as int, k@);
        }
        None
    }

    pub fn contains(&self, k: &str) -> (r: bool)
        ensures
            self.ordered(),
            r == self.has(k@),
    {
        self.get(k).is_some()
    }

    /// Set the value of a key; the value that it had before comes back.
    pub fn insert(&mut self, k: String, v: V) -> (r: Option<V>)
        ensures
            final(self).ordered(),
            forall|x: Seq<char>| #[trigger]
                final(self).has(x) <==> (old(self).has(x) || x == k@),
            final(self).at(k@) == v,
            forall|x: Seq<char>|
                old(self).has(x) && x != k@ ==> #[trigger] final(self).at(x) == old(self).at(x),
            match r {
                Some(w) => old(self).has(k@) && w == old(self).at(k@),
                None => !old(self).has(k@),
            },
            (forall|i: int|
                0 <= i < old(self).key_list().len() ==> text_before(
                    #[trigger] old(self).key_list()[i],
                    k@,
                )) ==> final(self).key_list() == old(self).key_list().push(k@)
                && final(self).value_list() == old(self).value_list().push(v),
    {
        proof {
            use_type_invariant(&*self);
        }
        let i = self.seek(k.as_str());
        let ghost ks = self.key_list();
        let ghost vs = self.value_list();
        let ghost key = k@;
        let ghost val = v;
        if i < self.items.len() && text_eq(self.items[i].0.as_str(), k.as_str()) {
            let mut v = v;
            proof {
                assert(ks[i as int] == key);
                self.lemma_at(i as int);
                lemma_lex_irreflexive(encode_utf8(key));
            }
            let mut items: Vec<(String, V)> = Vec::new();
            core::mem::swap(&mut self.items, &mut items);
            core::mem::swap(&mut items[i].1, &mut v);
            assert(keys_of(items@) =~= ks);
            self.items = items;
            proof {
                assert(self.key_list() =~= ks);
                assert(self.value_list() =~= vs.update(i as int, val));
                self.lemma_at(i as int);
                assert forall|x: Seq<char>| old(self).has(x) && x != key implies #[trigger] self.at(
                    x,
                ) == old(self).at(x) by {
                    let j = choose|j: int| 0 <= j < ks.len() && ks[j] == x;
                    self.lemma_at(j);
                    old(self).lemma_at(j);
                }
            }
            return Some(v);
        }
        proof {
            lemma_absent(ks, i as int, key);
            let now = self.items@.insert(i as int, (k, v));
            assert(keys_of(now) =~= ks.insert(i as int, key));
            lemma_insert_increasing(ks, i as int, key);
        }
        let mut items: Vec<(String, V)> = Vec::new();
        core::mem::swap(&mut self.items, &mut items);
        items.insert(i, (k, v));
        self.items = items;
        proof {
            assert(self.key_list() =~= ks.insert(i as int, key));
            assert(self.value_list() =~= vs.insert(i as int, val));
            assert forall|x: Seq<char>| #[trigger] self.has(x) <==> (old(self).has(x) || x
                == key) by {
                if self.has(x) {
                    let j = choose|j: int|
                        0 <= j < self.key_list().len() && self.key_list()[j] == x;
                    if j < i {
                        assert(ks[j] == x);
                    } else if j > i {
                        assert(ks[j - 1] == x);
                    }
                }
                if old(self).has(x) {
                    let j = choose|j: int| 0 <= j < ks.len() && ks[j] == x;
                    let j1 = if j < i {
                        j
                    } else {
                        j + 1
                    };
                    assert(self.key_list()[j1] == x);
                }
                if x == key {
                    assert(self.key_list()[i as int] == x);
                }
            }
            self.lemma_at(i as int);
            assert forall|x: Seq<char>| old(self).has(x) && x != key implies #[trigger] self.at(x)
                == old(self).at(x) by {
                let j = choose|j: int| 0 <= j < ks.len() && ks[j] == x;
                let j1 = if j < i {
                    j
                } else {
                    j + 1
                };
                self.lemma_at(j1);
                old(self).lemma_at(j);
            }
            if forall|j: int| 0 <= j < ks.len() ==> text_before(#[trigger] ks[j], key) {
                if i < ks.len() {
                    assert(text_before(ks[i as int], key));
                }
                assert(ks.insert(i as int, key) =~= ks.push(key));
                assert(vs.insert(i as int, val) =~= vs.push(val));
            }
        }
        None
    }

    /// Take a key out of the map, with its value.
    pub fn remove(&mut self, k: &str) -> (r: Option<V>)
        ensures
            final(self).ordered(),
            forall|x: Seq<char>| #[trigger]
                final(self).has(x) <==> (old(self).has(x) && x != k@),
            forall|x: Seq<char>|
                old(self).has(x) && x != k@ ==> #[trigger] final(self).at(x) == old(self).at(x),
            match r {
                Some(v) => old(self).has(k@) && v == old(self).at(k@),
                None => !old(self).has(k@) && *final(self) == *old(self),
            },
    {
        proof {
            use_type_invariant(&*self);
        }
        let i = self.seek(k);
        let ghost ks = self.key_list();
        if !(i < self.items.len() && text_eq(self.items[i].0.as_str(), k)) {
            proof {
                lemma_absent(ks, i as int, k@);
            }
            return None;
        }
        proof {
            assert(ks[i as int] == k@);
            self.lemma_at(i as int);
            lemma_remove_increasing(ks, i as int);
        }
        let mut items: Vec<(String, V)> = Vec::new();
        core::mem::swap(&mut self.items, &mut items);
        let (_, v) = items.remove(i);
        assert(keys_of(items@) =~= ks.remove(i as int));
        self.items = items;
        proof {
            assert forall|x: Seq<char>| #[trigger] self.has(x) <==> (old(self).has(x) && x
                != k@) by {
                if self.has(x) {
                    let j = choose|j: int|
                        0 <= j < self.key_list().len() && self.key_list()[j] == x;
                    let j1 = if j < i {
                        j
                    } else {
                        j + 1
                    };
                    assert(ks[j1] == x);
                    lemma_increasing_differ(ks, j1, i as int);
                }
                if old(self).has(x) && x != k@ {
                    let j = choose|j: int| 0 <= j < ks.len() && ks[j] == x;
                    let j1 = if j < i {
                        j
                    } else {
                        j - 1
                    };
                    assert(self.key_list()[j1] == x);
                }
            }
            assert forall|x: Seq<char>| old(self).has(x) && x != k@ implies #[trigger] self.at(x)
                == old(self).at(x) by {
                let j = choose|j: int| 0 <= j < ks.len() && ks[j] == x;
                let j1 = if j < i {
                    j
                } else {
                    j - 1
                };
                self.lemma_at(j1);
                old(self).lemma_at(j);
            }
        }
        Some(v)
    }
}

/// Keys without one of them stay increasing.
proof fn lemma_remove_increasing(ks: Seq<Seq<char>>, i: int)
    requires
        increasing(ks),
        0 <= i < ks.len(),
    ensures
        increasing(ks.remove(i)),
{
    let now = ks.remove(i);
    assert forall|a: int, b: int| 0 <= a < b < now.len() implies text_before(
        #[trigger] now[a],
        #[trigger] now[b],
    ) by {
        let a1 = if a < i {
            a
        } else {
            a + 1
        };
        let b1 = if b < i {
            b
        } else {
            b + 1
        };
        assert(text_before(ks[a1], ks[b1]));
    }
}

/// A key put in its place keeps the keys increasing.
proof fn lemma_insert_increasing(ks: Seq<Seq<char>>, i: int, k: Seq<char>)
    requires
        increasing(ks),
        0 <= i <= ks.len(),
        forall|j: int| 0 <= j < i ==> text_before(#[trigger] ks[j], k),
        forall|j: int| i <= j < ks.len() ==> text_before(k, #[trigger] ks[j]),
    ensures
        increasing(ks.insert(i, k)),
{
    let now = ks.insert(i, k);
    assert forall|a: int, b: int| 0 <= a < b < now.len() implies text_before(
        #[trigger] now[a],
        #[trigger] now[b],
    ) by {
        if b < i {
            assert(text_before(ks[a], ks[b]));
        } else if b == i {
            assert(text_before(ks[a], k));
        } else if a < i {
            assert(text_before(ks[a], ks[b - 1]));
        } else if a == i {
            assert(text_before(k, ks[b - 1]));
        } else {
            assert(text_before(ks[a - 1], ks[b - 1]));
        }
    }
}

/// Where the place for a key does not hold it, no place does.
proof fn lemma_absent(ks: Seq<Seq<char>>, i: int, k: Seq<char>)
    requires
        increasing(ks),
        0 <= i <= ks.len(),
        forall|j: int| 0 <= j < i ==> text_before(#[trigger] ks[j], k),
        forall|j: int| i <= j < ks.len() ==> !text_before(#[trigger] ks[j], k),
        i < ks.len() ==> ks[i] != k,
    ensures
        !ks.contains(k),
        forall|j: int| i <= j < ks.len() ==> text_before(k, #[trigger] ks[j]),
{
    lemma_lex_irreflexive(encode_utf8(k));
    assert forall|j: int| i <= j < ks.len() implies text_before(k, #[trigger] ks[j]) by {
        lemma_lex_total(encode_utf8(ks[i]), encode_utf8(k));
        assert(!text_before(ks[i], k));
        if encode_utf8(ks[i]) == encode_utf8(k) {
            lemma_utf8_injective(ks[i], k);
        }
        if i < j {
            lemma_lex_transitive(encode_utf8(k), encode_utf8(ks[i]), encode_utf8(ks[j]));
        }
    }
    if ks.contains(k) {
        let j = choose|j: int| 0 <= j < ks.len() && ks[j] == k;
        if j < i {
            assert(text_before(ks[j], k));
        } else {
            assert(text_before(k, ks[j]));
        }
    }
}

} // verus!
