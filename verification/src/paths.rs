//! Slash-separated paths.
use crate::text::{chars_of, text_of};
use vstd::prelude::*;
use vstd::slice::slice_subrange;

verus! {

/// Where the first slash stands, or the length where there is none.
pub open spec fn slash(s: Seq<char>) -> int
    decreases s.len(),
{
    if s.len() == 0 || s[0] == '/' {
        0
    } else {
        1 + slash(s.drop_first())
    }
}

/// The text has a slash.
pub open spec fn nested(s: Seq<char>) -> bool {
    slash(s) < s.len()
}

/// What comes before the first slash.
pub open spec fn first_part(s: Seq<char>) -> Seq<char> {
    s.take(slash(s))
}

/// What comes after the first slash.
pub open spec fn after_first(s: Seq<char>) -> Seq<char> {
    s.skip(slash(s) + 1)
}

/// A path below a directory.
pub open spec fn below(dir: Seq<char>, rest: Seq<char>) -> Seq<char> {
    dir.push('/') + rest
}

pub proof fn lemma_slash_bounds(s: Seq<char>)
    ensures
        0 <= slash(s) <= s.len(),
        nested(s) ==> s[slash(s)] == '/',
        forall|i: int| 0 <= i < slash(s) ==> s[i] != '/',
        !nested(s) <==> !s.contains('/'),
    decreases s.len(),
{
    if s.len() > 0 && s[0] != '/' {
        lemma_slash_bounds(s.drop_first());
        let d = s.drop_first();
        if nested(s) {
            assert(s[slash(s)] == d[slash(d)]);
        }
        assert forall|i: int| 0 <= i < slash(s) implies s[i] != '/' by {
            if i > 0 {
                assert(s[i] == d[i - 1]);
            }
        }
    }
    if nested(s) {
        assert(s.contains(s[slash(s)]));
    }
}

/// The first slash is the only place with no slash before it.
pub proof fn lemma_slash_at(s: Seq<char>, i: int)
    requires
        0 <= i <= s.len(),
        forall|j: int| 0 <= j < i ==> s[j] != '/',
        i < s.len() ==> s[i] == '/',
    ensures
        slash(s) == i,
{
    lemma_slash_bounds(s);
    if slash(s) < i {
        assert(s[slash(s)] != '/');
    } else if i < slash(s) {
        assert(s[i] != '/');
    }
}

/// A nested path is what lies below its first part.
pub proof fn lemma_below_split(s: Seq<char>)
    requires
        nested(s),
    ensures
        below(first_part(s), after_first(s)) == s,
        !first_part(s).contains('/'),
{
    lemma_slash_bounds(s);
    assert(below(first_part(s), after_first(s)) =~= s);
}

/// Below a directory without slashes, that directory is the first part.
pub proof fn lemma_below_parts(dir: Seq<char>, rest: Seq<char>)
    requires
        !dir.contains('/'),
    ensures
        nested(below(dir, rest)),
        first_part(below(dir, rest)) == dir,
        after_first(below(dir, rest)) == rest,
{
    let s = below(dir, rest);
    let n = dir.len() as int;
    assert forall|j: int| 0 <= j < n implies s[j] != '/' by {
        assert(dir.contains(dir[j]));
    }
    assert(s[n] == '/');
    lemma_slash_at(s, n);
    assert(first_part(s) =~= dir);
    assert(after_first(s) =~= rest);
}

/// Where the first slash stands from `from` on, or the end.
pub fn find_slash(cs: &Vec<char>, from: usize) -> (i: usize)
    requires
        from <= cs@.len(),
    ensures
        from <= i <= cs@.len(),
        i - from == slash(cs@.skip(from as int)),
{
    let mut i: usize = from;
    while i < cs.len() && cs[i] != '/'
        invariant
            from <= i <= cs@.len(),
            forall|j: int| from <= j < i ==> cs@[j] != '/',
        decreases cs@.len() - i,
    {
        i += 1;
    }
    proof {
        let t = cs@.skip(from as int);
        assert forall|j: int| 0 <= j < i - from implies t[j] != '/' by {
            assert(t[j] == cs@[from + j]);
        }
        lemma_slash_at(t, i - from);
    }
    i
}

/// The parts between the slashes.
pub open spec fn split_slashes(s: Seq<char>) -> Seq<Seq<char>>
    decreases s.len(),
    via split_slashes_decreases
{
    if nested(s) {
        seq![first_part(s)] + split_slashes(after_first(s))
    } else {
        seq![s]
    }
}

#[via_fn]
proof fn split_slashes_decreases(s: Seq<char>) {
    lemma_slash_bounds(s);
}

/// Texts as values.
pub open spec fn texts(v: Seq<String>) -> Seq<Seq<char>> {
    v.map_values(|s: String| s@)
}

/// The parts between the slashes.
pub fn split_parts(s: &str) -> (r: Vec<String>)
    ensures
        texts(r@) == split_slashes(s@),
{
    let cs = chars_of(s);
    assert(cs@.skip(0) =~= cs@);
    split_chars(&cs, 0)
}

/// The parts between the slashes from `start` on.
pub fn split_chars(cs: &Vec<char>, start: usize) -> (r: Vec<String>)
    requires
        start <= cs@.len(),
    ensures
        texts(r@) == split_slashes(cs@.skip(start as int)),
{
    let mut out: Vec<String> = Vec::new();
    let ghost whole = split_slashes(cs@.skip(start as int));
    let mut from: usize = start;
    assert(texts(out@) + split_slashes(cs@.skip(start as int)) =~= whole);
    loop
        invariant_except_break
            from <= cs@.len(),
            texts(out@) + split_slashes(cs@.skip(from as int)) == whole,
        ensures
            texts(out@) == whole,
        decreases cs@.len() - from,
    {
        let i = find_slash(cs, from);
        let ghost t = cs@.skip(from as int);
        let ghost done = texts(out@);
        let part = text_of(slice_subrange(cs.as_slice(), from, i));
        out.push(part);
        proof {
            assert(part@ =~= t.take(slash(t)));
            assert(texts(out@) =~= done.push(part@));
        }
        if i == cs.len() {
            proof {
                assert(part@ =~= t);
                assert(texts(out@) =~= done + seq![t]);
            }
            break;
        }
        proof {
            assert(cs@.skip(i + 1) =~= after_first(t));
            assert(texts(out@) + split_slashes(after_first(t)) =~= done + (seq![first_part(t)]
                + split_slashes(after_first(t))));
        }
        from = i + 1;
    }
    out
}

/// A text without its leading slashes.
pub open spec fn without_leading_slashes(s: Seq<char>) -> Seq<char>
    decreases s.len(),
{
    if s.len() > 0 && s[0] == '/' {
        without_leading_slashes(s.drop_first())
    } else {
        s
    }
}

/// Where the leading slashes end.
pub fn skip_slashes(cs: &Vec<char>) -> (i: usize)
    ensures
        i <= cs@.len(),
        cs@.skip(i as int) == without_leading_slashes(cs@),
        i < cs@.len() ==> cs@[i as int] != '/',
{
    let mut i: usize = 0;
    assert(cs@.skip(0) =~= cs@);
    while i < cs.len() && cs[i] == '/'
        invariant
            i <= cs@.len(),
            without_leading_slashes(cs@.skip(i as int)) == without_leading_slashes(cs@),
        decreases cs@.len() - i,
    {
        assert(cs@.skip(i as int).drop_first() =~= cs@.skip(i + 1));
        i += 1;
    }
    i
}

/// Whether `cs` starts with `p`.
pub fn chars_start_with(cs: &Vec<char>, p: &Vec<char>) -> (r: bool)
    ensures
        r == p@.is_prefix_of(cs@),
{
    if p.len() > cs.len() {
        return false;
    }
    let mut i: usize = 0;
    while i < p.len()
        invariant
            i <= p@.len() <= cs@.len(),
            forall|j: int| 0 <= j < i ==> p@[j] == cs@[j],
        decreases p@.len() - i,
    {
        if p[i] != cs[i] {
            assert(cs@.subrange(0, p@.len() as int)[i as int] == cs@[i as int]);
            return false;
        }
        i += 1;
    }
    assert(cs@.subrange(0, p@.len() as int) =~= p@);
    true
}

/// Whether a text starts with a prefix.
pub fn starts_with(s: &str, p: &str) -> (r: bool)
    ensures
        r == p@.is_prefix_of(s@),
{
    chars_start_with(&chars_of(s), &chars_of(p))
}

/// There is always a part.
pub proof fn lemma_split_nonempty(s: Seq<char>)
    ensures
        split_slashes(s).len() > 0,
{
}

} // verus!
