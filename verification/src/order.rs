//! Stable sorting by a total preorder.
use vstd::multiset::Multiset;
use vstd::prelude::*;

verus! {

/// A type whose values a total preorder arranges.
pub trait Sortable: Sized {
    /// `self` may stand before `other`.
    spec fn le(self, other: Self) -> bool;

    proof fn le_total(a: Self, b: Self)
        ensures
            a.le(b) || b.le(a),
    ;

    proof fn le_transitive(a: Self, b: Self, c: Self)
        requires
            a.le(b),
            b.le(c),
        ensures
            a.le(c),
    ;

    /// Whether `self` has to stand before `other`.
    fn strictly_before(&self, other: &Self) -> (r: bool)
        ensures
            r == !other.le(*self),
    ;
}

/// Neither of two values has to stand before the other.
pub open spec fn tied<T: Sortable>(a: T, b: T) -> bool {
    a.le(b) && b.le(a)
}

/// The values of `s` that are tied with `x`, in their order.
pub open spec fn ties<T: Sortable>(s: Seq<T>, x: T) -> Seq<T> {
    s.filter(|y: T| tied(y, x))
}

/// Every value may stand before those that follow it.
pub open spec fn sorted<T: Sortable>(s: Seq<T>) -> bool {
    forall|i: int, j: int| 0 <= i <= j < s.len() ==> (#[trigger] s[i]).le(#[trigger] s[j])
}

/// `r` holds the values of `s` in sorted order, tied values in the order that
/// they have in `s`.
pub open spec fn is_stable_sort<T: Sortable>(s: Seq<T>, r: Seq<T>) -> bool {
    &&& r.to_multiset() == s.to_multiset()
    &&& sorted(r)
    &&& forall|x: T| #[trigger] ties(r, x) == ties(s, x)
}

proof fn lemma_ties_add<T: Sortable>(a: Seq<T>, b: Seq<T>, x: T)
    ensures
        ties(a + b, x) == ties(a, x) + ties(b, x),
{
    Seq::filter_distributes_over_add(a, b, |y: T| tied(y, x));
}

proof fn lemma_ties_one<T: Sortable>(v: T, x: T)
    ensures
        ties(seq![v], x) == if tied(v, x) {
            seq![v]
        } else {
            Seq::empty()
        },
{
    reveal_with_fuel(Seq::filter, 2);
    assert(seq![v].drop_last() =~= Seq::empty());
    assert(ties(seq![v], x) =~= if tied(v, x) {
        seq![v]
    } else {
        Seq::empty()
    });
}

proof fn lemma_ties_none<T: Sortable>(s: Seq<T>, x: T)
    requires
        forall|i: int| 0 <= i < s.len() ==> !tied(#[trigger] s[i], x),
    ensures
        ties(s, x) == Seq::<T>::empty(),
    decreases s.len(),
{
    reveal(Seq::filter);
    if s.len() > 0 {
        assert forall|i: int| 0 <= i < s.drop_last().len() implies !tied(
            #[trigger] s.drop_last()[i],
            x,
        ) by {
            assert(s.drop_last()[i] == s[i]);
        }
        lemma_ties_none(s.drop_last(), x);
        assert(!tied(s[s.len() - 1], x));
    }
}

/// The values tied with `x` in three runs, one after the other.
spec fn ties_in_three<T: Sortable>(a: Seq<T>, b: Seq<T>, m: Seq<T>, x: T) -> Seq<T> {
    ties(a, x) + ties(b, x) + ties(m, x)
}

/// Turn a sequence around.
fn reverse<T>(v: Vec<T>) -> (r: Vec<T>)
    ensures
        r@ == v@.reverse(),
{
    let mut v = v;
    let ghost whole = v@;
    let mut out: Vec<T> = Vec::new();
    while v.len() > 0
        invariant
            out@ + v@.reverse() == whole.reverse(),
        decreases v@.len(),
    {
        let ghost before = v@;
        let ghost done = out@;
        let x = v.pop();
        if let Some(x) = x {
            out.push(x);
            proof {
                assert(before.reverse() =~= seq![before.last()] + v@.reverse());
                assert(out@ =~= done + seq![before.last()]);
                assert(out@ + v@.reverse() =~= done + before.reverse());
            }
        }
    }
    assert(out@ + v@.reverse() =~= out@);
    out
}

/// The two runs as one: `a` first among tied values.
fn merge_runs<T: Sortable>(a: Vec<T>, b: Vec<T>) -> (r: Vec<T>)
    requires
        sorted(a@),
        sorted(b@),
    ensures
        is_stable_sort(a@ + b@, r@),
{
    let mut a = a;
    let mut b = b;
    let ghost a0 = a@;
    let ghost b0 = b@;
    // The merged tail, last value first.
    let mut out: Vec<T> = Vec::new();
    proof {
        assert(out@.reverse() =~= Seq::empty());
        assert(a@ + b@ + out@.reverse() =~= a0 + b0);
        assert forall|x: T| #[trigger]
            ties_in_three(a0, b0, out@.reverse(), x) == ties(a0 + b0, x) by {
            lemma_ties_add(a0, b0, x);
            lemma_ties_none(out@.reverse(), x);
            assert(ties(a0, x) + ties(b0, x) + Seq::<T>::empty() =~= ties(a0, x) + ties(b0, x));
        }
    }
    while a.len() > 0 || b.len() > 0
        invariant
            sorted(a@),
            sorted(b@),
            sorted(out@.reverse()),
            forall|i: int, j: int|
                0 <= i < a@.len() && 0 <= j < out@.len() ==> (#[trigger] a@[i]).le(
                    #[trigger] out@[j],
                ),
            forall|i: int, j: int|
                0 <= i < b@.len() && 0 <= j < out@.len() ==> (#[trigger] b@[i]).le(
                    #[trigger] out@[j],
                ),
            (a@ + b@ + out@.reverse()).to_multiset() == (a0 + b0).to_multiset(),
            forall|x: T| #[trigger]
                ties_in_three(a@, b@, out@.reverse(), x) == ties(a0 + b0, x),
        decreases a@.len() + b@.len(),
    {
        let ghost pa = a@;
        let ghost pb = b@;
        let ghost po = out@;
        let from_a: bool = if a.len() == 0 {
            false
        } else if b.len() == 0 {
            true
        } else {
            b[b.len() - 1].strictly_before(&a[a.len() - 1])
        };
        let v = if from_a {
            a.pop()
        } else {
            b.pop()
        };
        if let Some(v) = v {
            out.push(v);
            proof {
                let m = out@.reverse();
                assert(m =~= seq![v] + po.reverse());
                assert forall|i: int, j: int| 0 <= i <= j < m.len() implies (#[trigger] m[i]).le(
                    #[trigger] m[j],
                ) by {
                    if i == 0 && j == 0 {
                        T::le_total(v, v);
                    } else if i == 0 {
                        assert(m[j] == po[po.len() - j]);
                        if from_a {
                            assert(pa[pa.len() - 1].le(po[po.len() - j]));
                        } else {
                            assert(pb[pb.len() - 1].le(po[po.len() - j]));
                        }
                    } else {
                        assert(m[i] == po.reverse()[i - 1]);
                        assert(m[j] == po.reverse()[j - 1]);
                    }
                }
                assert forall|i: int, j: int|
                    0 <= i < a@.len() && 0 <= j < out@.len() implies (#[trigger] a@[i]).le(
                    #[trigger] out@[j],
                ) by {
                    assert(a@[i] == pa[i]);
                    if j == out@.len() - 1 {
                        if from_a {
                            assert(pa[i].le(pa[pa.len() - 1]));
                        } else {
                            assert(pa[i].le(pa[pa.len() - 1]));
                            T::le_transitive(pa[i], pa[pa.len() - 1], v);
                        }
                    } else {
                        assert(out@[j] == po[j]);
                    }
                }
                assert forall|i: int, j: int|
                    0 <= i < b@.len() && 0 <= j < out@.len() implies (#[trigger] b@[i]).le(
                    #[trigger] out@[j],
                ) by {
                    assert(b@[i] == pb[i]);
                    if j == out@.len() - 1 {
                        assert(pb[i].le(pb[pb.len() - 1]));
                        if from_a {
                            T::le_total(pb[pb.len() - 1], v);
                            T::le_transitive(pb[i], pb[pb.len() - 1], v);
                        }
                    } else {
                        assert(out@[j] == po[j]);
                    }
                }
                if from_a {
                    assert(a@ =~= pa.drop_last());
                    lemma_merge_step_values(pa, pb, po.reverse(), v);
                } else {
                    assert(b@ =~= pb.drop_last());
                    assert(a@ + b@ + m =~= pa + pb + po.reverse());
                }
                assert forall|x: T| #[trigger]
                    ties_in_three(a@, b@, m, x) == ties(a0 + b0, x) by {
                    lemma_merge_step_ties(pa, pb, po.reverse(), v, from_a, x);
                    assert(ties_in_three(pa, pb, po.reverse(), x) == ties(a0 + b0, x));
                }
            }
        }
    }
    let r = reverse(out);
    proof {
        assert(a@ + b@ + r@ =~= r@);
        assert forall|x: T| #[trigger] ties(r@, x) == ties(a0 + b0, x) by {
            lemma_ties_none(a@, x);
            lemma_ties_none(b@, x);
            assert(ties_in_three(a@, b@, r@, x) =~= ties(r@, x));
        }
    }
    r
}

/// Moving the last value of one run in front of the merged tail keeps the
/// values.
proof fn lemma_merge_step_values<T>(a: Seq<T>, b: Seq<T>, m: Seq<T>, v: T)
    requires
        a.len() > 0,
        v == a.last(),
    ensures
        (a.drop_last() + b + (seq![v] + m)).to_multiset() == (a + b + m).to_multiset(),
{
    let a1 = a.drop_last();
    let left = a1 + b;
    assert(left + (seq![v] + m) =~= (left + seq![v]) + m);
    assert(a + b + m =~= a1 + ((seq![v] + b) + m));
    assert((left + seq![v]) + m =~= a1 + ((b + seq![v]) + m));
    vstd::seq_lib::lemma_multiset_commutative(b, seq![v]);
    vstd::seq_lib::lemma_multiset_commutative(seq![v], b);
    vstd::seq_lib::lemma_multiset_commutative(b + seq![v], m);
    vstd::seq_lib::lemma_multiset_commutative(seq![v] + b, m);
    vstd::seq_lib::lemma_multiset_commutative(a1, (b + seq![v]) + m);
    vstd::seq_lib::lemma_multiset_commutative(a1, (seq![v] + b) + m);
    assert((b + seq![v]).to_multiset() =~= (seq![v] + b).to_multiset());
    assert(((b + seq![v]) + m).to_multiset() =~= ((seq![v] + b) + m).to_multiset());
    assert((a1 + ((b + seq![v]) + m)).to_multiset() =~= (a1 + ((seq![v] + b)
        + m)).to_multiset());
}

/// Moving the last value of one run in front of the merged tail keeps the
/// order among ties.
proof fn lemma_merge_step_ties<T: Sortable>(
    a: Seq<T>,
    b: Seq<T>,
    m: Seq<T>,
    v: T,
    from_a: bool,
    x: T,
)
    requires
        sorted(b),
        from_a ==> a.len() > 0 && v == a.last(),
        !from_a ==> b.len() > 0 && v == b.last(),
        from_a && b.len() > 0 ==> !v.le(b.last()),
    ensures
        from_a ==> ties_in_three(a.drop_last(), b, seq![v] + m, x) == ties_in_three(a, b, m, x),
        !from_a ==> ties_in_three(a, b.drop_last(), seq![v] + m, x) == ties_in_three(a, b, m, x),
{
    lemma_ties_add(seq![v], m, x);
    lemma_ties_one(v, x);
    if from_a {
        let a1 = a.drop_last();
        assert(a =~= a1 + seq![v]);
        lemma_ties_add(a1, seq![v], x);
        if tied(v, x) {
            assert forall|i: int| 0 <= i < b.len() implies !tied(#[trigger] b[i], x) by {
                assert(b[i].le(b[b.len() - 1]));
                if tied(b[i], x) {
                    T::le_transitive(v, x, b[i]);
                    T::le_transitive(v, b[i], b[b.len() - 1]);
                }
            }
            lemma_ties_none(b, x);
        }
        assert(ties_in_three(a1, b, seq![v] + m, x) =~= ties_in_three(a, b, m, x));
    } else {
        let b1 = b.drop_last();
        assert(b =~= b1 + seq![v]);
        lemma_ties_add(b1, seq![v], x);
        assert(ties_in_three(a, b1, seq![v] + m, x) =~= ties_in_three(a, b, m, x));
    }
}

/// Sort, keeping the order of tied values.
pub fn stable_sort<T: Sortable>(v: Vec<T>) -> (r: Vec<T>)
    ensures
        is_stable_sort(v@, r@),
    decreases v@.len(),
{
    if v.len() <= 1 {
        proof {
            if v@.len() == 1 {
                T::le_total(v@[0], v@[0]);
            }
        }
        return v;
    }
    let ghost whole = v@;
    let mut a = v;
    let half: usize = a.len() / 2;
    let b = a.split_off(half);
    let ghost pa = a@;
    let ghost pb = b@;
    assert(pa + pb =~= whole);
    let a = stable_sort(a);
    let b = stable_sort(b);
    let r = merge_runs(a, b);
    proof {
        broadcast use vstd::multiset::group_multiset_axioms;

        vstd::seq_lib::lemma_multiset_commutative(pa, pb);
        vstd::seq_lib::lemma_multiset_commutative(a@, b@);
        assert(r@.to_multiset() =~= whole.to_multiset());
        assert forall|x: T| #[trigger] ties(r@, x) == ties(whole, x) by {
            lemma_ties_add(pa, pb, x);
            lemma_ties_add(a@, b@, x);
            assert(ties(a@, x) == ties(pa, x));
            assert(ties(b@, x) == ties(pb, x));
        }
    }
    r
}

} // verus!
