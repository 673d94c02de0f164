//! What two trees have and lack against each other, and the renames that can
//! be told from it.
use crate::conflict::{path_values, ConflictPath, PathValue};
use crate::idmap::{ids_differ, lemma_insert, IdMap};
use crate::intro::MAX_NESTING;
use crate::objectstore::ObjectStore;
use crate::overlay::{
    entry_named, extends, find_entry, lemma_contains_push, lemma_entry_named,
};
use crate::paths::{
    after_first, below, first_part, lemma_below_parts, lemma_below_split, lemma_slash_bounds,
    nested,
};
use crate::store::{lemma_the_tree, tree_refused, trees_of, Store};
use crate::text::{text_before, text_eq};
use crate::textmap::{lemma_increasing_differ, TextMap};
use crate::tree::{
    canonical, lemma_increasing_distinct, names_increasing, valid_name, Entry, TreeEntry,
};
use crate::types::{EntryKind, Error, ObjectId};
use vstd::prelude::*;

verus! {

/// Two entries are the same but for their names: the object, the kind and the
/// mode all agree.
pub open spec fn same(a: Entry, b: Entry) -> bool {
    a.id == b.id && a.kind == b.kind && a.executable == b.executable
}

/// Whether two entries are the same but for their names.
pub fn same_entry(a: &TreeEntry, b: &TreeEntry) -> (r: bool)
    ensures
        r == same(a@, b@),
{
    a.id.same(&b.id) && a.kind == b.kind && a.executable == b.executable
}

/// What stands at a path in two trees. Below a directory that both trees hold
/// alike nothing is told apart, nor below anything but two directories.
pub open spec fn pair_at(
    trees: Map<ObjectId, Seq<Entry>>,
    base: ObjectId,
    side: ObjectId,
    path: Seq<char>,
) -> Option<(Option<Entry>, Option<Entry>)>
    decreases path.len(),
{
    proof {
        lemma_slash_bounds(path);
    }
    if base == side {
        None
    } else if !nested(path) {
        Some((entry_named(trees[base], path), entry_named(trees[side], path)))
    } else {
        match (
            entry_named(trees[base], first_part(path)),
            entry_named(trees[side], first_part(path)),
        ) {
            (Some(x), Some(y)) => if !same(x, y) && x.kind == EntryKind::Tree && y.kind
                == EntryKind::Tree {
                pair_at(trees, x.id, y.id, after_first(path))
            } else {
                None
            },
            _ => None,
        }
    }
}

/// What the base has at a path and the side lacks.
pub open spec fn deleted_at(
    trees: Map<ObjectId, Seq<Entry>>,
    base: ObjectId,
    side: ObjectId,
    path: Seq<char>,
) -> Option<Entry> {
    match pair_at(trees, base, side, path) {
        Some((Some(x), None)) => Some(x),
        _ => None,
    }
}

/// What the side has at a path and the base lacks.
pub open spec fn added_at(
    trees: Map<ObjectId, Seq<Entry>>,
    base: ObjectId,
    side: ObjectId,
    path: Seq<char>,
) -> Option<Entry> {
    match pair_at(trees, base, side, path) {
        Some((None, Some(y))) => Some(y),
        _ => None,
    }
}

/// The path of a name in a directory; the root has the empty path.
pub open spec fn join(prefix: Seq<char>, name: Seq<char>) -> Seq<char> {
    if prefix.len() == 0 {
        name
    } else {
        below(prefix, name)
    }
}

/// The path of a name in a directory.
pub fn join_path(prefix: &str, name: &str) -> (r: String)
    ensures
        r@ == join(prefix@, name@),
{
    if prefix.is_empty() {
        name.to_string()
    } else {
        let mut p = prefix.to_string();
        p.append("/");
        p.append(name);
        proof {
            reveal_strlit("/");
            assert(p@ =~= below(prefix@, name@));
        }
        p
    }
}

/// A path lies below a directory.
pub open spec fn lies_in(prefix: Seq<char>, p: Seq<char>) -> bool {
    prefix.len() == 0 || (p.len() > prefix.len() && p.take(prefix.len() as int) == prefix
        && p[prefix.len() as int] == '/')
}

/// A path as seen from a directory that it lies below.
pub open spec fn from_dir(prefix: Seq<char>, p: Seq<char>) -> Seq<char> {
    if prefix.len() == 0 {
        p
    } else {
        p.skip(prefix.len() as int + 1)
    }
}

/// The first name of a path.
pub open spec fn head_name(q: Seq<char>) -> Seq<char> {
    if nested(q) {
        first_part(q)
    } else {
        q
    }
}

/// The path of a name lies in the directory, and is seen from there as the
/// name.
pub proof fn lemma_join(prefix: Seq<char>, name: Seq<char>)
    ensures
        lies_in(prefix, join(prefix, name)),
        from_dir(prefix, join(prefix, name)) == name,
{
    if prefix.len() > 0 {
        let p = below(prefix, name);
        assert(p.take(prefix.len() as int) =~= prefix);
        assert(p.skip(prefix.len() as int + 1) =~= name);
    }
}

/// A path is that of its name in the directory.
pub proof fn lemma_from_dir(prefix: Seq<char>, p: Seq<char>)
    requires
        lies_in(prefix, p),
    ensures
        join(prefix, from_dir(prefix, p)) == p,
{
    if prefix.len() > 0 {
        let q = p.skip(prefix.len() as int + 1);
        assert(below(prefix, q) =~= p) by {
            assert forall|i: int| 0 <= i < p.len() implies below(prefix, q)[i] == p[i] by {
                if i < prefix.len() {
                    assert(p.take(prefix.len() as int)[i] == p[i]);
                }
            }
        }
    }
}

/// What lies below a name of a directory, as seen from there.
pub proof fn lemma_lies_in_child(prefix: Seq<char>, name: Seq<char>, p: Seq<char>)
    requires
        name.len() > 0,
        !name.contains('/'),
    ensures
        lies_in(join(prefix, name), p) <==> lies_in(prefix, p) && nested(from_dir(prefix, p))
            && first_part(from_dir(prefix, p)) == name,
        lies_in(join(prefix, name), p) ==> from_dir(join(prefix, name), p) == after_first(
            from_dir(prefix, p),
        ),
{
    let dir = join(prefix, name);
    let n = dir.len() as int;
    if lies_in(dir, p) {
        let rest = p.skip(n + 1);
        assert(p =~= below(dir, rest)) by {
            assert forall|i: int| 0 <= i < p.len() implies below(dir, rest)[i] == p[i] by {
                if i < n {
                    assert(p.take(n)[i] == p[i]);
                }
            }
        }
        if prefix.len() > 0 {
            assert(p =~= below(prefix, below(name, rest)));
            assert(p.take(prefix.len() as int) =~= prefix);
            assert(from_dir(prefix, p) =~= below(name, rest));
        } else {
            assert(from_dir(prefix, p) =~= below(name, rest));
        }
        lemma_below_parts(name, rest);
    }
    if lies_in(prefix, p) && nested(from_dir(prefix, p)) && first_part(from_dir(prefix, p))
        == name {
        let q = from_dir(prefix, p);
        lemma_below_split(q);
        lemma_from_dir(prefix, p);
        let rest = after_first(q);
        if prefix.len() > 0 {
            assert(p =~= below(dir, rest));
        } else {
            assert(p =~= below(dir, rest));
        }
        assert(p.take(n) =~= dir);
        assert(p[n] == '/');
    }
}

/// Entries by their paths.
pub type EntryMap = TextMap<TreeEntry>;

/// What is in one of two trees only.
pub struct TreeChanges {
    pub deleted: EntryMap,
    pub added: EntryMap,
}

/// What a change map makes of a path.
pub open spec fn entry_in(m: EntryMap, p: Seq<char>) -> Option<Entry> {
    if m.has(p) {
        Some(m.at(p)@)
    } else {
        None
    }
}

/// What is in one of two trees only: in the base, or else in the side.
pub open spec fn change(
    trees: Map<ObjectId, Seq<Entry>>,
    base: ObjectId,
    side: ObjectId,
    lost: bool,
    q: Seq<char>,
) -> Option<Entry> {
    if lost {
        deleted_at(trees, base, side, q)
    } else {
        added_at(trees, base, side, q)
    }
}

/// A name among the first `i` entries.
spec fn named_before(es: Seq<Entry>, i: int, name: Seq<char>) -> bool {
    exists|j: int| 0 <= j < i && (#[trigger] es[j]).name == name
}

/// A path starts with a name of the first entries of the base, or is a name
/// of the first entries of the side.
spec fn covered(es: Seq<Entry>, i: int, fs: Seq<Entry>, k: int, q: Seq<char>) -> bool {
    named_before(es, i, head_name(q)) || named_before(fs, k, q)
}

/// The map holds what it held, and of the covered paths of a directory, the
/// changes.
#[verifier::opaque]
spec fn grown(
    before: EntryMap,
    after: EntryMap,
    prefix: Seq<char>,
    trees: Map<ObjectId, Seq<Entry>>,
    base: ObjectId,
    side: ObjectId,
    lost: bool,
    i: int,
    k: int,
) -> bool {
    forall|p: Seq<char>| #[trigger]
        entry_in(after, p) == (if lies_in(prefix, p) && covered(
            trees[base],
            i,
            trees[side],
            k,
            from_dir(prefix, p),
        ) && change(trees, base, side, lost, from_dir(prefix, p)) is Some {
            change(trees, base, side, lost, from_dir(prefix, p))
        } else {
            entry_in(before, p)
        })
}

/// The map holds what it held, and all changes of a directory.
#[verifier::opaque]
spec fn all_grown(
    before: EntryMap,
    after: EntryMap,
    prefix: Seq<char>,
    trees: Map<ObjectId, Seq<Entry>>,
    base: ObjectId,
    side: ObjectId,
    lost: bool,
) -> bool {
    forall|p: Seq<char>| #[trigger]
        entry_in(after, p) == (if lies_in(prefix, p) && change(
            trees,
            base,
            side,
            lost,
            from_dir(prefix, p),
        ) is Some {
            change(trees, base, side, lost, from_dir(prefix, p))
        } else {
            entry_in(before, p)
        })
}

proof fn lemma_named(es: Seq<Entry>, i: int)
    requires
        names_increasing(es),
        0 <= i < es.len(),
    ensures
        entry_named(es, es[i].name) == Some(es[i]),
        !named_before(es, i, es[i].name),
        forall|name: Seq<char>| #[trigger]
            named_before(es, i + 1, name) <==> named_before(es, i, name) || name == es[i].name,
{
    assert(es.contains(es[i]));
    lemma_entry_named(es, es[i]);
    lemma_increasing_distinct(es);
    if named_before(es, i, es[i].name) {
        let j = choose|j: int| 0 <= j < i && (#[trigger] es[j]).name == es[i].name;
        assert(es[j].name != es[i].name);
    }
    assert forall|name: Seq<char>| #[trigger] named_before(es, i + 1, name) <==> named_before(
        es,
        i,
        name,
    ) || name == es[i].name by {
        if named_before(es, i + 1, name) {
            let j = choose|j: int| 0 <= j < i + 1 && (#[trigger] es[j]).name == name;
            if j < i {
                assert(named_before(es, i, name));
            }
        }
        if named_before(es, i, name) {
            let j = choose|j: int| 0 <= j < i && (#[trigger] es[j]).name == name;
            assert(es[j].name == name);
        }
    }
}

/// What an insertion does to the entries of a map.
proof fn lemma_entry_insert(before: EntryMap, after: EntryMap, key: Seq<char>, v: TreeEntry)
    requires
        forall|x: Seq<char>| #[trigger] after.has(x) <==> (before.has(x) || x == key),
        after.at(key) == v,
        forall|x: Seq<char>|
            before.has(x) && x != key ==> #[trigger] after.at(x) == before.at(x),
    ensures
        forall|p: Seq<char>| #[trigger]
            entry_in(after, p) == (if p == key {
                Some(v@)
            } else {
                entry_in(before, p)
            }),
{
    assert forall|p: Seq<char>| #[trigger] entry_in(after, p) == (if p == key {
        Some(v@)
    } else {
        entry_in(before, p)
    }) by {
        assert(after.has(p) <==> before.has(p) || p == key);
        if p != key && before.has(p) {
            assert(after.at(p) == before.at(p));
        }
    }
}

proof fn lemma_grown_start(
    m: EntryMap,
    prefix: Seq<char>,
    trees: Map<ObjectId, Seq<Entry>>,
    base: ObjectId,
    side: ObjectId,
    lost: bool,
)
    ensures
        grown(m, m, prefix, trees, base, side, lost, 0, 0),
{
    reveal(grown);
}

/// An entry of the base at which nothing is in one tree only.
proof fn lemma_base_skip(
    m0: EntryMap,
    m1: EntryMap,
    prefix: Seq<char>,
    trees: Map<ObjectId, Seq<Entry>>,
    base: ObjectId,
    side: ObjectId,
    lost: bool,
    i: int,
)
    requires
        grown(m0, m1, prefix, trees, base, side, lost, i, 0),
        base != side,
        canonical(trees[base]),
        0 <= i < trees[base].len(),
        match entry_named(trees[side], trees[base][i].name) {
            None => !lost,
            Some(y) => {
                let x = trees[base][i];
                same(x, y) || x.kind != EntryKind::Tree || y.kind != EntryKind::Tree
            },
        },
    ensures
        grown(m0, m1, prefix, trees, base, side, lost, i + 1, 0),
{
    reveal(grown);
    let x = trees[base][i];
    lemma_named(trees[base], i);
    assert(valid_name(x.name));
    lemma_slash_bounds(x.name);
    assert forall|q: Seq<char>| head_name(q) == x.name implies (#[trigger] change(
        trees,
        base,
        side,
        lost,
        q,
    )) is None by {}
    assert forall|p: Seq<char>| #[trigger] entry_in(m1, p) == (if lies_in(prefix, p) && covered(
        trees[base],
        i + 1,
        trees[side],
        0,
        from_dir(prefix, p),
    ) && change(trees, base, side, lost, from_dir(prefix, p)) is Some {
        change(trees, base, side, lost, from_dir(prefix, p))
    } else {
        entry_in(m0, p)
    }) by {
        let q = from_dir(prefix, p);
        assert(named_before(trees[base], i + 1, head_name(q)) <==> named_before(
            trees[base],
            i,
            head_name(q),
        ) || head_name(q) == x.name);
    }
}

/// An entry of the base that the side lacks.
proof fn lemma_base_lost(
    m0: EntryMap,
    m1: EntryMap,
    m2: EntryMap,
    prefix: Seq<char>,
    trees: Map<ObjectId, Seq<Entry>>,
    base: ObjectId,
    side: ObjectId,
    i: int,
)
    requires
        grown(m0, m1, prefix, trees, base, side, true, i, 0),
        base != side,
        canonical(trees[base]),
        0 <= i < trees[base].len(),
        entry_named(trees[side], trees[base][i].name) is None,
        forall|p: Seq<char>| #[trigger]
            entry_in(m2, p) == (if p == join(prefix, trees[base][i].name) {
                Some(trees[base][i])
            } else {
                entry_in(m1, p)
            }),
    ensures
        grown(m0, m2, prefix, trees, base, side, true, i + 1, 0),
{
    reveal(grown);
    let x = trees[base][i];
    lemma_named(trees[base], i);
    assert(valid_name(x.name));
    lemma_slash_bounds(x.name);
    lemma_join(prefix, x.name);
    assert forall|p: Seq<char>| #[trigger] entry_in(m2, p) == (if lies_in(prefix, p) && covered(
        trees[base],
        i + 1,
        trees[side],
        0,
        from_dir(prefix, p),
    ) && change(trees, base, side, true, from_dir(prefix, p)) is Some {
        change(trees, base, side, true, from_dir(prefix, p))
    } else {
        entry_in(m0, p)
    }) by {
        let q = from_dir(prefix, p);
        assert(named_before(trees[base], i + 1, head_name(q)) <==> named_before(
            trees[base],
            i,
            head_name(q),
        ) || head_name(q) == x.name);
        if lies_in(prefix, p) {
            lemma_from_dir(prefix, p);
            if q == x.name {
                assert(change(trees, base, side, true, q) == Some(x));
            } else if head_name(q) == x.name {
                assert(change(trees, base, side, true, q) is None);
            }
        }
    }
}

/// Two directories that differ.
proof fn lemma_base_descend(
    m0: EntryMap,
    m1: EntryMap,
    m2: EntryMap,
    prefix: Seq<char>,
    trees: Map<ObjectId, Seq<Entry>>,
    base: ObjectId,
    side: ObjectId,
    lost: bool,
    i: int,
    y: Entry,
)
    requires
        grown(m0, m1, prefix, trees, base, side, lost, i, 0),
        base != side,
        canonical(trees[base]),
        0 <= i < trees[base].len(),
        entry_named(trees[side], trees[base][i].name) == Some(y),
        !same(trees[base][i], y),
        trees[base][i].kind == EntryKind::Tree,
        y.kind == EntryKind::Tree,
        all_grown(
            m1,
            m2,
            join(prefix, trees[base][i].name),
            trees,
            trees[base][i].id,
            y.id,
            lost,
        ),
    ensures
        grown(m0, m2, prefix, trees, base, side, lost, i + 1, 0),
{
    reveal(grown);
    reveal(all_grown);
    let x = trees[base][i];
    lemma_named(trees[base], i);
    assert(valid_name(x.name));
    lemma_slash_bounds(x.name);
    assert forall|p: Seq<char>| #[trigger] entry_in(m2, p) == (if lies_in(prefix, p) && covered(
        trees[base],
        i + 1,
        trees[side],
        0,
        from_dir(prefix, p),
    ) && change(trees, base, side, lost, from_dir(prefix, p)) is Some {
        change(trees, base, side, lost, from_dir(prefix, p))
    } else {
        entry_in(m0, p)
    }) by {
        let q = from_dir(prefix, p);
        assert(named_before(trees[base], i + 1, head_name(q)) <==> named_before(
            trees[base],
            i,
            head_name(q),
        ) || head_name(q) == x.name);
        lemma_lies_in_child(prefix, x.name, p);
        if lies_in(prefix, p) && head_name(q) == x.name {
            if nested(q) {
                assert(change(trees, base, side, lost, q) == change(
                    trees,
                    x.id,
                    y.id,
                    lost,
                    after_first(q),
                ));
            } else {
                assert(change(trees, base, side, lost, q) is None);
            }
        }
    }
}

/// An entry of the side of a name that the base has.
proof fn lemma_side_skip(
    m0: EntryMap,
    m1: EntryMap,
    prefix: Seq<char>,
    trees: Map<ObjectId, Seq<Entry>>,
    base: ObjectId,
    side: ObjectId,
    lost: bool,
    k: int,
)
    requires
        grown(m0, m1, prefix, trees, base, side, lost, trees[base].len() as int, k),
        base != side,
        canonical(trees[side]),
        0 <= k < trees[side].len(),
        entry_named(trees[base], trees[side][k].name) is Some || lost,
    ensures
        grown(m0, m1, prefix, trees, base, side, lost, trees[base].len() as int, k + 1),
{
    reveal(grown);
    let y = trees[side][k];
    let n = trees[base].len() as int;
    lemma_named(trees[side], k);
    assert(valid_name(y.name));
    lemma_slash_bounds(y.name);
    assert forall|p: Seq<char>| #[trigger] entry_in(m1, p) == (if lies_in(prefix, p) && covered(
        trees[base],
        n,
        trees[side],
        k + 1,
        from_dir(prefix, p),
    ) && change(trees, base, side, lost, from_dir(prefix, p)) is Some {
        change(trees, base, side, lost, from_dir(prefix, p))
    } else {
        entry_in(m0, p)
    }) by {
        let q = from_dir(prefix, p);
        assert(named_before(trees[side], k + 1, q) <==> named_before(trees[side], k, q) || q
            == y.name);
        if q == y.name {
            if entry_named(trees[base], q) is Some {
                assert(named_before(trees[base], n, head_name(q)));
            } else {
                assert(change(trees, base, side, lost, q) is None);
            }
        }
    }
}

/// An entry of the side that the base lacks.
proof fn lemma_side_new(
    m0: EntryMap,
    m1: EntryMap,
    m2: EntryMap,
    prefix: Seq<char>,
    trees: Map<ObjectId, Seq<Entry>>,
    base: ObjectId,
    side: ObjectId,
    k: int,
)
    requires
        grown(m0, m1, prefix, trees, base, side, false, trees[base].len() as int, k),
        base != side,
        canonical(trees[side]),
        0 <= k < trees[side].len(),
        entry_named(trees[base], trees[side][k].name) is None,
        forall|p: Seq<char>| #[trigger]
            entry_in(m2, p) == (if p == join(prefix, trees[side][k].name) {
                Some(trees[side][k])
            } else {
                entry_in(m1, p)
            }),
    ensures
        grown(m0, m2, prefix, trees, base, side, false, trees[base].len() as int, k + 1),
{
    reveal(grown);
    let y = trees[side][k];
    let n = trees[base].len() as int;
    lemma_named(trees[side], k);
    assert(valid_name(y.name));
    lemma_slash_bounds(y.name);
    lemma_join(prefix, y.name);
    assert forall|p: Seq<char>| #[trigger] entry_in(m2, p) == (if lies_in(prefix, p) && covered(
        trees[base],
        n,
        trees[side],
        k + 1,
        from_dir(prefix, p),
    ) && change(trees, base, side, false, from_dir(prefix, p)) is Some {
        change(trees, base, side, false, from_dir(prefix, p))
    } else {
        entry_in(m0, p)
    }) by {
        let q = from_dir(prefix, p);
        assert(named_before(trees[side], k + 1, q) <==> named_before(trees[side], k, q) || q
            == y.name);
        if lies_in(prefix, p) {
            lemma_from_dir(prefix, p);
            if q == y.name {
                assert(change(trees, base, side, false, q) == Some(y));
            }
        }
    }
}

proof fn lemma_grown_all(
    m0: EntryMap,
    m1: EntryMap,
    prefix: Seq<char>,
    trees: Map<ObjectId, Seq<Entry>>,
    base: ObjectId,
    side: ObjectId,
    lost: bool,
)
    requires
        grown(
            m0,
            m1,
            prefix,
            trees,
            base,
            side,
            lost,
            trees[base].len() as int,
            trees[side].len() as int,
        ),
    ensures
        all_grown(m0, m1, prefix, trees, base, side, lost),
{
    reveal(grown);
    reveal(all_grown);
    assert forall|q: Seq<char>| (#[trigger] change(trees, base, side, lost, q)) is Some implies
        covered(trees[base], trees[base].len() as int, trees[side], trees[side].len() as int, q) by {
        if nested(q) {
            assert(entry_named(trees[base], first_part(q)) is Some);
            assert(named_before(trees[base], trees[base].len() as int, head_name(q)));
        } else if lost {
            assert(entry_named(trees[base], q) is Some);
            assert(named_before(trees[base], trees[base].len() as int, head_name(q)));
        } else {
            assert(entry_named(trees[side], q) is Some);
            assert(named_before(trees[side], trees[side].len() as int, q));
        }
    }
}

/// Every tree that has to be read to tell two trees apart is there, no more
/// than `n` levels deep.
#[verifier::opaque]
pub open spec fn diffable(
    trees: Map<ObjectId, Seq<Entry>>,
    base: ObjectId,
    side: ObjectId,
    n: nat,
) -> bool
    decreases n,
{
    base == side || {
        &&& n > 0
        &&& trees.dom().contains(base)
        &&& trees.dom().contains(side)
        &&& forall|i: int|
            0 <= i < trees[base].len() ==> {
                let x = #[trigger] trees[base][i];
                match entry_named(trees[side], x.name) {
                    Some(y) => !same(x, y) && x.kind == EntryKind::Tree && y.kind == EntryKind::Tree
                        ==> diffable(trees, x.id, y.id, (n - 1) as nat),
                    None => true,
                }
            }
    }
}

/// What can be told apart here can be told apart at each entry.
proof fn lemma_diffable(
    trees: Map<ObjectId, Seq<Entry>>,
    base: ObjectId,
    side: ObjectId,
    n: nat,
)
    requires
        base != side,
    ensures
        diffable(trees, base, side, n) <==> {
            &&& n > 0
            &&& trees.dom().contains(base)
            &&& trees.dom().contains(side)
            &&& forall|i: int|
                0 <= i < trees[base].len() ==> {
                    let x = #[trigger] trees[base][i];
                    match entry_named(trees[side], x.name) {
                        Some(y) => !same(x, y) && x.kind == EntryKind::Tree && y.kind
                            == EntryKind::Tree ==> diffable(trees, x.id, y.id, (n - 1) as nat),
                        None => true,
                    }
                }
        },
{
    reveal_with_fuel(diffable, 1);
}

/// Directories are nested deeper than a walk goes.
pub open spec fn too_deep(e: Error) -> bool {
    e matches Error::Corrupt(msg) && msg@ == "trees are nested too deeply"@
}

/// Why two trees cannot be told apart: one of the two that differ at a directory cannot
/// be read, or the directories are nested too deeply.
#[verifier::opaque]
pub open spec fn diff_refused(
    objects: Map<ObjectId, Seq<u8>>,
    steady: bool,
    base: ObjectId,
    side: ObjectId,
    n: nat,
    e: Error,
) -> bool
    decreases n,
{
    let trees = trees_of(objects);
    base != side && {
        ||| tree_refused(objects, steady, base, e)
        ||| tree_refused(objects, steady, side, e)
        ||| n == 0 && too_deep(e)
        ||| n > 0 && trees.dom().contains(base) && trees.dom().contains(side) && exists|i: int|
            0 <= i < trees[base].len() && {
                let x = #[trigger] trees[base][i];
                match entry_named(trees[side], x.name) {
                    Some(y) => !same(x, y) && x.kind == EntryKind::Tree && y.kind
                        == EntryKind::Tree && diff_refused(
                        objects,
                        steady,
                        x.id,
                        y.id,
                        (n - 1) as nat,
                        e,
                    ),
                    None => false,
                }
            }
    }
}

proof fn lemma_diff_refused_here(
    objects: Map<ObjectId, Seq<u8>>,
    steady: bool,
    base: ObjectId,
    side: ObjectId,
    n: nat,
    e: Error,
)
    requires
        base != side,
        tree_refused(objects, steady, base, e) || tree_refused(objects, steady, side, e) || (n == 0
            && too_deep(e)),
    ensures
        diff_refused(objects, steady, base, side, n, e),
{
    reveal_with_fuel(diff_refused, 1);
}

proof fn lemma_diff_refused_below(
    objects: Map<ObjectId, Seq<u8>>,
    steady: bool,
    base: ObjectId,
    side: ObjectId,
    n: nat,
    e: Error,
    i: int,
    y: Entry,
)
    requires
        base != side,
        n > 0,
        trees_of(objects).dom().contains(base),
        trees_of(objects).dom().contains(side),
        0 <= i < trees_of(objects)[base].len(),
        entry_named(trees_of(objects)[side], trees_of(objects)[base][i].name) == Some(y),
        !same(trees_of(objects)[base][i], y),
        trees_of(objects)[base][i].kind == EntryKind::Tree,
        y.kind == EntryKind::Tree,
        diff_refused(
            objects,
            steady,
            trees_of(objects)[base][i].id,
            y.id,
            (n - 1) as nat,
            e,
        ),
    ensures
        diff_refused(objects, steady, base, side, n, e),
{
    reveal_with_fuel(diff_refused, 1);
}

/// Collect what is in one of two trees only, below a directory. Directories
/// that are the same are not read; one that is in one tree only is a single
/// change.
fn collect_changes<O: ObjectStore>(
    store: &mut Store<O>,
    prefix: &str,
    base: ObjectId,
    side: ObjectId,
    deleted: &mut EntryMap,
    added: &mut EntryMap,
    depth: u64,
) -> (r: Result<(), Error>)
    requires
        old(store).settled(),
    ensures
        final(store).blobs == old(store).blobs,
        final(store).settled(),
        final(store).collided@ == old(store).collided@,
        !old(store).collided@ && r is Ok ==> diffable(
            trees_of(old(store).blobs.objects()),
            base,
            side,
            depth as nat,
        ),
        !old(store).collided@ && old(store).blobs.steady() && diffable(
            trees_of(old(store).blobs.objects()),
            base,
            side,
            depth as nat,
        ) ==> r is Ok,
        !old(store).collided@ ==> (r matches Err(e) ==> diff_refused(
            old(store).blobs.objects(),
            old(store).blobs.steady(),
            base,
            side,
            depth as nat,
            e,
        )),
        !old(store).collided@ && r is Ok ==> forall|t: Map<ObjectId, Seq<Entry>>| #[trigger]
            extends(trees_of(old(store).blobs.objects()), t) ==> all_grown(
                *old(deleted),
                *final(deleted),
                prefix@,
                t,
                base,
                side,
                true,
            ) && all_grown(*old(added), *final(added), prefix@, t, base, side, false),
    decreases depth,
{
    let ghost trees = trees_of(store.blobs.objects());
    let ghost known = !store.collided@;
    if base.same(&side) {
        proof {
            reveal(all_grown);
            reveal_with_fuel(diffable, 1);
        }
        return Ok(());
    }
    proof {
        lemma_diffable(trees, base, side, depth as nat);
    }
    let ghost objects = store.blobs.objects();
    let ghost steady = store.blobs.steady();
    let base_tree = match store.get_tree(base) {
        Ok(t) => t,
        Err(e) => {
            proof {
                lemma_diff_refused_here(objects, steady, base, side, depth as nat, e);
            }
            return Err(e);
        },
    };
    let side_tree = match store.get_tree(side) {
        Ok(t) => t,
        Err(e) => {
            proof {
                lemma_diff_refused_here(objects, steady, base, side, depth as nat, e);
            }
            return Err(e);
        },
    };
    if depth == 0 {
        let e = Error::Corrupt("trees are nested too deeply".to_string());
        proof {
            lemma_diff_refused_here(objects, steady, base, side, depth as nat, e);
        }
        return Err(e);
    }
    let ghost es = base_tree@;
    let ghost fs = side_tree@;
    let ghost d0 = *deleted;
    let ghost a0 = *added;
    proof {
        lemma_the_tree(es);
        lemma_the_tree(fs);
        assert forall|t: Map<ObjectId, Seq<Entry>>| #[trigger] extends(trees, t)
            && known implies t[base]
            == es && t[side] == fs && grown(d0, d0, prefix@, t, base, side, true, 0, 0) && grown(
            a0,
            a0,
            prefix@,
            t,
            base,
            side,
            false,
            0,
            0,
        ) by {
            assert(trees.dom().contains(base));
            assert(trees.dom().contains(side));
            lemma_grown_start(d0, prefix@, t, base, side, true);
            lemma_grown_start(a0, prefix@, t, base, side, false);
        }
    }
    let mut i: usize = 0;
    while i < base_tree.entries.len()
        invariant
            depth > 0,
            base != side,
            i <= base_tree.entries@.len(),
            es == base_tree@,
            fs == side_tree@,
            trees == trees_of(old(store).blobs.objects()),
            objects == old(store).blobs.objects(),
            steady == old(store).blobs.steady(),
            known == !old(store).collided@,
            store.collided@ == old(store).collided@,
            known ==> trees.dom().contains(base) && trees[base] == es && trees.dom().contains(side)
                && trees[side] == fs,
            diffable(trees, base, side, depth as nat) <==> {
                &&& depth > 0
                &&& trees.dom().contains(base)
                &&& trees.dom().contains(side)
                &&& forall|m: int|
                    0 <= m < trees[base].len() ==> {
                        let x = #[trigger] trees[base][m];
                        match entry_named(trees[side], x.name) {
                            Some(y) => !same(x, y) && x.kind == EntryKind::Tree && y.kind
                                == EntryKind::Tree ==> diffable(
                                trees,
                                x.id,
                                y.id,
                                (depth - 1) as nat,
                            ),
                            None => true,
                        }
                    }
            },
            known ==> forall|m: int|
                0 <= m < i ==> {
                    let x = #[trigger] es[m];
                    match entry_named(fs, x.name) {
                        Some(y) => !same(x, y) && x.kind == EntryKind::Tree && y.kind
                            == EntryKind::Tree ==> diffable(trees, x.id, y.id, (depth - 1) as nat),
                        None => true,
                    }
                },
            canonical(es),
            canonical(fs),
            store.blobs == old(store).blobs,
            store.settled(),
            known ==> forall|t: Map<ObjectId, Seq<Entry>>| #[trigger]
                extends(trees, t) ==> t[base] == es && t[side] == fs && grown(
                    d0,
                    *deleted,
                    prefix@,
                    t,
                    base,
                    side,
                    true,
                    i as int,
                    0,
                ) && grown(a0, *added, prefix@, t, base, side, false, i as int, 0),
        decreases base_tree.entries@.len() - i,
    {
        let before = &base_tree.entries[i];
        let ghost x = es[i as int];
        assert(x == before@);
        assert(known ==> x == trees[base][i as int]);
        let path = join_path(prefix, before.name.as_str());
        let ghost d1 = *deleted;
        let ghost a1 = *added;
        match find_entry(&side_tree, before.name.as_str()) {
            None => {
                let ghost key = path@;
                let gone = before.copy();
                let ghost value = gone;
                deleted.insert(path, gone);
                proof {
                    lemma_entry_insert(d1, *deleted, key, value);
                    assert forall|t: Map<ObjectId, Seq<Entry>>| #[trigger]
                        extends(trees, t) && known implies grown(
                        d0,
                        *deleted,
                        prefix@,
                        t,
                        base,
                        side,
                        true,
                        i + 1,
                        0,
                    ) && grown(a0, *added, prefix@, t, base, side, false, i + 1, 0) by {
                        lemma_base_lost(d0, d1, *deleted, prefix@, t, base, side, i as int);
                        lemma_base_skip(a0, a1, prefix@, t, base, side, false, i as int);
                    }
                }
            },
            Some(after) => {
                let ghost y = after@;
                if !same_entry(before, &after) && before.kind == EntryKind::Tree && after.kind
                    == EntryKind::Tree {
                    let below = collect_changes(
                        store,
                        path.as_str(),
                        before.id,
                        after.id,
                        deleted,
                        added,
                        depth - 1,
                    );
                    if let Err(e) = below {
                        proof {
                            if known {
                                lemma_diff_refused_below(
                                    objects,
                                    steady,
                                    base,
                                    side,
                                    depth as nat,
                                    e,
                                    i as int,
                                    y,
                                );
                            }
                        }
                        return Err(e);
                    }
                    proof {
                        assert forall|t: Map<ObjectId, Seq<Entry>>| #[trigger]
                            extends(trees, t) && known implies grown(
                            d0,
                            *deleted,
                            prefix@,
                            t,
                            base,
                            side,
                            true,
                            i + 1,
                            0,
                        ) && grown(a0, *added, prefix@, t, base, side, false, i + 1, 0) by {
                            let n = i as int;
                            lemma_base_descend(
                                d0,
                                d1,
                                *deleted,
                                prefix@,
                                t,
                                base,
                                side,
                                true,
                                n,
                                y,
                            );
                            lemma_base_descend(
                                a0,
                                a1,
                                *added,
                                prefix@,
                                t,
                                base,
                                side,
                                false,
                                n,
                                y,
                            );
                        }
                    }
                } else {
                    proof {
                        assert forall|t: Map<ObjectId, Seq<Entry>>| #[trigger]
                            extends(trees, t) && known implies grown(
                            d0,
                            *deleted,
                            prefix@,
                            t,
                            base,
                            side,
                            true,
                            i + 1,
                            0,
                        ) && grown(a0, *added, prefix@, t, base, side, false, i + 1, 0) by {
                            lemma_base_skip(d0, d1, prefix@, t, base, side, true, i as int);
                            lemma_base_skip(a0, a1, prefix@, t, base, side, false, i as int);
                        }
                    }
                }
            },
        }
        i += 1;
    }
    let mut k: usize = 0;
    while k < side_tree.entries.len()
        invariant
            base != side,
            k <= side_tree.entries@.len(),
            es == base_tree@,
            fs == side_tree@,
            canonical(es),
            canonical(fs),
            known ==> forall|t: Map<ObjectId, Seq<Entry>>| #[trigger]
                extends(trees, t) ==> t[base] == es && t[side] == fs && grown(
                    d0,
                    *deleted,
                    prefix@,
                    t,
                    base,
                    side,
                    true,
                    es.len() as int,
                    k as int,
                ) && grown(
                    a0,
                    *added,
                    prefix@,
                    t,
                    base,
                    side,
                    false,
                    es.len() as int,
                    k as int,
                ),
        decreases side_tree.entries@.len() - k,
    {
        let after = &side_tree.entries[k];
        let ghost y = fs[k as int];
        assert(y == after@);
        let ghost a1 = *added;
        let found = find_entry(&base_tree, after.name.as_str());
        let ghost seen = found is Some;
        if found.is_none() {
            let path = join_path(prefix, after.name.as_str());
            let ghost key = path@;
            let fresh = after.copy();
            let ghost value = fresh;
            added.insert(path, fresh);
            proof {
                lemma_entry_insert(a1, *added, key, value);
            }
        }
        proof {
            let n = es.len() as int;
            assert forall|t: Map<ObjectId, Seq<Entry>>| #[trigger] extends(trees, t)
            && known implies grown(
                d0,
                *deleted,
                prefix@,
                t,
                base,
                side,
                true,
                n,
                k + 1,
            ) && grown(a0, *added, prefix@, t, base, side, false, n, k + 1) by {
                if seen {
                    lemma_side_skip(a0, a1, prefix@, t, base, side, false, k as int);
                } else {
                    lemma_side_new(a0, a1, *added, prefix@, t, base, side, k as int);
                }
                lemma_side_skip(d0, *deleted, prefix@, t, base, side, true, k as int);
            }
        }
        k += 1;
    }
    proof {
        assert forall|t: Map<ObjectId, Seq<Entry>>| #[trigger] extends(trees, t)
            && known implies all_grown(
            d0,
            *deleted,
            prefix@,
            t,
            base,
            side,
            true,
        ) && all_grown(a0, *added, prefix@, t, base, side, false) by {
            lemma_grown_all(d0, *deleted, prefix@, t, base, side, true);
            lemma_grown_all(a0, *added, prefix@, t, base, side, false);
        }
    }
    Ok(())
}

/// The maps hold what is in one of two trees only.
pub open spec fn lists_changes(
    c: TreeChanges,
    trees: Map<ObjectId, Seq<Entry>>,
    base: ObjectId,
    side: ObjectId,
) -> bool {
    &&& c.deleted.ordered()
    &&& c.added.ordered()
    &&& forall|p: Seq<char>| #[trigger]
        entry_in(c.deleted, p) == deleted_at(trees, base, side, p)
    &&& forall|p: Seq<char>| #[trigger] entry_in(c.added, p) == added_at(trees, base, side, p)
}

/// What is in one of two trees only. Trees that are stored later change
/// nothing of it.
pub fn tree_changes<O: ObjectStore>(store: &mut Store<O>, base: ObjectId, side: ObjectId) -> (r:
    Result<TreeChanges, Error>)
    requires
        old(store).settled(),
    ensures
        final(store).blobs == old(store).blobs,
        final(store).settled(),
        final(store).collided@ == old(store).collided@,
        !old(store).collided@ && r is Ok ==> diffable(
            trees_of(old(store).blobs.objects()),
            base,
            side,
            MAX_NESTING as nat,
        ),
        !old(store).collided@ && old(store).blobs.steady() && diffable(
            trees_of(old(store).blobs.objects()),
            base,
            side,
            MAX_NESTING as nat,
        ) ==> r is Ok,
        !old(store).collided@ ==> (r matches Err(e) ==> diff_refused(
            old(store).blobs.objects(),
            old(store).blobs.steady(),
            base,
            side,
            MAX_NESTING as nat,
            e,
        )),
        r matches Ok(c) ==> c.deleted.ordered() && c.added.ordered(),
        !old(store).collided@ ==> (r matches Ok(c) ==> forall|t: Map<ObjectId, Seq<Entry>>|
            #[trigger]
            extends(trees_of(old(store).blobs.objects()), t) ==> lists_changes(c, t, base, side)),
{
    let mut deleted: EntryMap = TextMap::new();
    let mut added: EntryMap = TextMap::new();
    let ghost d0 = deleted;
    let ghost a0 = added;
    let ghost trees = trees_of(store.blobs.objects());
    collect_changes(store, "", base, side, &mut deleted, &mut added, MAX_NESTING)?;
    let n = deleted.len();
    let m = added.len();
    let c = TreeChanges { deleted, added };
    proof {
        reveal_strlit("");
        assert forall|t: Map<ObjectId, Seq<Entry>>| #[trigger] extends(
            trees,
            t,
        ) && !store.collided@ implies lists_changes(c, t, base, side) by {
            lemma_all_changes(d0, c.deleted, t, base, side, true);
            lemma_all_changes(a0, c.added, t, base, side, false);
        }
    }
    Ok(c)
}

/// Grown from nothing, the map holds all changes.
proof fn lemma_all_changes(
    before: EntryMap,
    after: EntryMap,
    t: Map<ObjectId, Seq<Entry>>,
    base: ObjectId,
    side: ObjectId,
    lost: bool,
)
    requires
        all_grown(before, after, ""@, t, base, side, lost),
        before.key_list().len() == 0,
    ensures
        forall|p: Seq<char>| #[trigger]
            entry_in(after, p) == change(t, base, side, lost, p),
{
    reveal(all_grown);
    reveal_strlit("");
    assert forall|p: Seq<char>| #[trigger] entry_in(after, p) == change(
        t,
        base,
        side,
        lost,
        p,
    ) by {
        assert(!before.has(p));
        assert(entry_in(before, p) is None);
        assert(from_dir(""@, p) == p);
    }
}

/// How often a tree holds an entry, whatever its name: in itself, and in the
/// trees below it, `n` levels deep.
pub open spec fn occurrences(
    trees: Map<ObjectId, Seq<Entry>>,
    es: Seq<Entry>,
    x: Entry,
    n: nat,
) -> nat
    decreases n, es.len(),
{
    if es.len() == 0 {
        0
    } else {
        let e = es.last();
        occurrences(trees, es.drop_last(), x, n) + (if same(e, x) {
            1nat
        } else {
            0nat
        }) + (if e.kind == EntryKind::Tree && n > 0 {
            occurrences(trees, trees[e.id], x, (n - 1) as nat)
        } else {
            0nat
        })
    }
}

/// A count that stops at two.
pub open spec fn two(n: nat) -> nat {
    if n > 2 {
        2
    } else {
        n
    }
}

/// One number for each kind and mode that entries of an object can have.
#[derive(Clone, Copy)]
pub struct Slots {
    plain_blob: u128,
    executable_blob: u128,
    plain_tree: u128,
    executable_tree: u128,
}

impl Slots {
    /// The number of a kind and mode.
    pub closed spec fn slot(self, kind: EntryKind, executable: bool) -> u128 {
        match kind {
            EntryKind::Blob => if executable {
                self.executable_blob
            } else {
                self.plain_blob
            },
            EntryKind::Tree => if executable {
                self.executable_tree
            } else {
                self.plain_tree
            },
        }
    }

    fn all(n: u128) -> (r: Slots)
        ensures
            forall|k: EntryKind, x: bool| #[trigger] r.slot(k, x) == n,
    {
        Slots { plain_blob: n, executable_blob: n, plain_tree: n, executable_tree: n }
    }

    fn get(&self, kind: EntryKind, executable: bool) -> (r: u128)
        ensures
            r == self.slot(kind, executable),
    {
        match kind {
            EntryKind::Blob => if executable {
                self.executable_blob
            } else {
                self.plain_blob
            },
            EntryKind::Tree => if executable {
                self.executable_tree
            } else {
                self.plain_tree
            },
        }
    }

    fn with(self, kind: EntryKind, executable: bool, n: u128) -> (r: Slots)
        ensures
            forall|k: EntryKind, x: bool| #[trigger]
                r.slot(k, x) == (if k == kind && x == executable {
                    n
                } else {
                    self.slot(k, x)
                }),
    {
        let mut s = self;
        match kind {
            EntryKind::Blob => if executable {
                s.executable_blob = n;
            } else {
                s.plain_blob = n;
            },
            EntryKind::Tree => if executable {
                s.executable_tree = n;
            } else {
                s.plain_tree = n;
            },
        }
        s
    }
}

/// Counts of entries by their objects.
pub type Counts = IdMap<Slots>;

/// The count of an entry.
pub open spec fn count_of(c: Counts, x: Entry) -> nat {
    c.at(x.id).slot(x.kind, x.executable) as nat
}

/// Both count the same objects, and `after` counts `add` more of each entry,
/// up to two.
#[verifier::opaque]
spec fn counted(
    before: Counts,
    after: Counts,
    trees: Map<ObjectId, Seq<Entry>>,
    es: Seq<Entry>,
    n: nat,
) -> bool {
    &&& ids_differ(after.pairs())
    &&& forall|id: ObjectId| #[trigger] after.has(id) == before.has(id)
    &&& forall|x: Entry|
        before.has(x.id) ==> #[trigger] count_of(after, x) == two(
            count_of(before, x) + occurrences(trees, es, x, n),
        )
    &&& forall|x: Entry| after.has(x.id) ==> #[trigger] count_of(after, x) <= 2
}

/// A tree and all trees below it are there, no more than `n` levels deep.
#[verifier::opaque]
pub open spec fn whole(trees: Map<ObjectId, Seq<Entry>>, id: ObjectId, n: nat) -> bool
    decreases n,
{
    &&& trees.dom().contains(id)
    &&& forall|i: int|
        0 <= i < trees[id].len() && (#[trigger] trees[id][i]).kind == EntryKind::Tree ==> n > 0
            && whole(trees, trees[id][i].id, (n - 1) as nat)
}

/// A tree is whole if what it holds is.
proof fn lemma_whole(trees: Map<ObjectId, Seq<Entry>>, id: ObjectId, n: nat)
    ensures
        whole(trees, id, n) <==> {
            &&& trees.dom().contains(id)
            &&& forall|i: int|
                0 <= i < trees[id].len() && (#[trigger] trees[id][i]).kind == EntryKind::Tree
                    ==> n > 0 && whole(trees, trees[id][i].id, (n - 1) as nat)
        },
{
    reveal_with_fuel(whole, 1);
}

/// Why a tree cannot be counted: it or a tree below it cannot be read, or they are nested
/// too deeply.
#[verifier::opaque]
pub open spec fn whole_refused(
    objects: Map<ObjectId, Seq<u8>>,
    steady: bool,
    id: ObjectId,
    n: nat,
    e: Error,
) -> bool
    decreases n,
{
    let trees = trees_of(objects);
    ||| tree_refused(objects, steady, id, e)
    ||| trees.dom().contains(id) && exists|i: int|
        0 <= i < trees[id].len() && (#[trigger] trees[id][i]).kind == EntryKind::Tree && if n > 0 {
            whole_refused(objects, steady, trees[id][i].id, (n - 1) as nat, e)
        } else {
            too_deep(e)
        }
}

proof fn lemma_whole_refused(
    objects: Map<ObjectId, Seq<u8>>,
    steady: bool,
    id: ObjectId,
    n: nat,
    e: Error,
    i: int,
)
    requires
        tree_refused(objects, steady, id, e) || {
            let trees = trees_of(objects);
            trees.dom().contains(id) && 0 <= i < trees[id].len() && trees[id][i].kind
                == EntryKind::Tree && if n > 0 {
                whole_refused(objects, steady, trees[id][i].id, (n - 1) as nat, e)
            } else {
                too_deep(e)
            }
        },
    ensures
        whole_refused(objects, steady, id, n, e),
{
    reveal_with_fuel(whole_refused, 1);
}

/// Count the entries of a tree and of the trees below it.
fn count_in<O: ObjectStore>(
    store: &mut Store<O>,
    tree_id: ObjectId,
    counts: &mut Counts,
    depth: u64,
) -> (r: Result<(), Error>)
    requires
        old(store).settled(),
        ids_differ(old(counts).pairs()),
        forall|x: Entry| old(counts).has(x.id) ==> #[trigger] count_of(*old(counts), x) <= 2,
    ensures
        final(store).blobs == old(store).blobs,
        final(store).settled(),
        final(store).collided@ == old(store).collided@,
        ids_differ(final(counts).pairs()),
        forall|x: Entry| final(counts).has(x.id) ==> #[trigger] count_of(*final(counts), x) <= 2,
        forall|id: ObjectId| #[trigger] final(counts).has(id) == old(counts).has(id),
        !old(store).collided@ && r is Ok ==> whole(
            trees_of(old(store).blobs.objects()),
            tree_id,
            depth as nat,
        ),
        !old(store).collided@ && old(store).blobs.steady() && whole(
            trees_of(old(store).blobs.objects()),
            tree_id,
            depth as nat,
        ) ==> r is Ok,
        !old(store).collided@ ==> (r matches Err(e) ==> whole_refused(
            old(store).blobs.objects(),
            old(store).blobs.steady(),
            tree_id,
            depth as nat,
            e,
        )),
        !old(store).collided@ && r is Ok ==> forall|t: Map<ObjectId, Seq<Entry>>| #[trigger]
            extends(trees_of(old(store).blobs.objects()), t) ==> counted(
                *old(counts),
                *final(counts),
                t,
                t[tree_id],
                depth as nat,
            ),
    decreases depth,
{
    let ghost trees = trees_of(store.blobs.objects());
    let ghost known = !store.collided@;
    proof {
        lemma_whole(trees, tree_id, depth as nat);
    }
    let ghost objects = store.blobs.objects();
    let ghost steady = store.blobs.steady();
    let tree = match store.get_tree(tree_id) {
        Ok(t) => t,
        Err(e) => {
            proof {
                lemma_whole_refused(objects, steady, tree_id, depth as nat, e, 0);
            }
            return Err(e);
        },
    };
    let ghost es = tree@;
    let ghost c0 = *counts;
    let mut i: usize = 0;
    proof {
        lemma_the_tree(es);
        assert(es.take(0) =~= Seq::<Entry>::empty());
        assert forall|t: Map<ObjectId, Seq<Entry>>| #[trigger] extends(trees, t)
            && known implies t[tree_id]
            == es && counted(c0, c0, t, es.take(0), depth as nat) by {
            reveal(counted);
            assert(trees.dom().contains(tree_id));
        }
        assert(extends(trees, trees));
    }
    while i < tree.entries.len()
        invariant
            i <= tree.entries@.len(),
            es == tree@,
            trees == trees_of(old(store).blobs.objects()),
            extends(trees, trees),
            objects == old(store).blobs.objects(),
            steady == old(store).blobs.steady(),
            known == !old(store).collided@,
            store.collided@ == old(store).collided@,
            known ==> trees.dom().contains(tree_id) && trees[tree_id] == es,
            ids_differ(counts.pairs()),
            forall|x: Entry| counts.has(x.id) ==> #[trigger] count_of(*counts, x) <= 2,
            forall|id: ObjectId| #[trigger] counts.has(id) == old(counts).has(id),
            whole(trees, tree_id, depth as nat) <==> {
                &&& trees.dom().contains(tree_id)
                &&& forall|m: int|
                    0 <= m < trees[tree_id].len() && (#[trigger] trees[tree_id][m]).kind
                        == EntryKind::Tree ==> depth > 0 && whole(
                        trees,
                        trees[tree_id][m].id,
                        (depth - 1) as nat,
                    )
            },
            known ==> forall|m: int|
                0 <= m < i && (#[trigger] es[m]).kind == EntryKind::Tree ==> depth > 0 && whole(
                    trees,
                    es[m].id,
                    (depth - 1) as nat,
                ),
            store.blobs == old(store).blobs,
            store.settled(),
            known ==> forall|t: Map<ObjectId, Seq<Entry>>| #[trigger]
                extends(trees, t) ==> t[tree_id] == es && counted(
                    c0,
                    *counts,
                    t,
                    es.take(i as int),
                    depth as nat,
                ),
        decreases tree.entries@.len() - i,
    {
        let entry = &tree.entries[i];
        let ghost e = es[i as int];
        assert(e == entry@);
        assert(known ==> e == trees[tree_id][i as int]);
        let ghost c1 = *counts;
        let seen: Option<Slots> = match counts.get(&entry.id) {
            Some(s) => Some(*s),
            None => None,
        };
        if let Some(slots) = seen {
            let n: u128 = slots.get(entry.kind, entry.executable);
            assert(count_of(*counts, e) == n);
            if n < 2 {
                let now = slots.with(entry.kind, entry.executable, n + 1);
                counts.insert(entry.id, now);
                proof {
                    lemma_insert(c1, *counts, e.id, now);
                }
            }
        }
        let ghost c2 = *counts;
        proof {
            assert forall|x: Entry| c1.has(x.id) implies #[trigger] count_of(c2, x) == two(
                count_of(c1, x) + (if same(e, x) {
                    1nat
                } else {
                    0nat
                }),
            ) by {
                assert(count_of(c1, x) <= 2);
                if x.id == e.id {
                    assert(c2.has(x.id));
                } else {
                    assert(c2.at(x.id) == c1.at(x.id));
                }
            }
            assert forall|x: Entry| c2.has(x.id) implies #[trigger] count_of(c2, x) <= 2 by {
                assert(c1.has(x.id));
                assert(count_of(c1, x) <= 2);
            }
        }
        if entry.kind == EntryKind::Tree {
            if depth == 0 {
                let e = Error::Corrupt("trees are nested too deeply".to_string());
                proof {
                    if known {
                        lemma_whole_refused(objects, steady, tree_id, depth as nat, e, i as int);
                    }
                }
                return Err(e);
            }
            if let Err(e) = count_in(store, entry.id, counts, depth - 1) {
                proof {
                    if known {
                        lemma_whole_refused(objects, steady, tree_id, depth as nat, e, i as int);
                    }
                }
                return Err(e);
            }
        }
        proof {
            assert forall|t: Map<ObjectId, Seq<Entry>>| #[trigger] extends(
                trees,
                t,
            ) && known implies counted(c0, *counts, t, es.take(i + 1), depth as nat) by {
                lemma_counted_step(c0, c1, c2, *counts, t, es, i as int, depth as nat);
            }
        }
        i += 1;
    }
    assert(es.take(i as int) =~= es);
    Ok(())
}

proof fn lemma_counted_step(
    c0: Counts,
    c1: Counts,
    c2: Counts,
    c3: Counts,
    trees: Map<ObjectId, Seq<Entry>>,
    es: Seq<Entry>,
    i: int,
    n: nat,
)
    requires
        0 <= i < es.len(),
        counted(c0, c1, trees, es.take(i), n),
        ids_differ(c2.pairs()),
        forall|id: ObjectId| #[trigger] c2.has(id) == c1.has(id),
        forall|x: Entry|
            c1.has(x.id) ==> #[trigger] count_of(c2, x) == two(
                count_of(c1, x) + (if same(es[i], x) {
                    1nat
                } else {
                    0nat
                }),
            ),
        if es[i].kind == EntryKind::Tree {
            n > 0 && counted(c2, c3, trees, trees[es[i].id], (n - 1) as nat)
        } else {
            c3 == c2
        },
    ensures
        counted(c0, c3, trees, es.take(i + 1), n),
{
    reveal(counted);
    let next = es.take(i + 1);
    assert(next.drop_last() =~= es.take(i));
    assert(next.last() == es[i]);
    assert forall|id: ObjectId| #[trigger] c3.has(id) == c0.has(id) by {
        assert(c2.has(id) == c1.has(id));
        assert(c1.has(id) == c0.has(id));
    }
    assert forall|x: Entry| c0.has(x.id) implies #[trigger] count_of(c3, x) == two(
        count_of(c0, x) + occurrences(trees, next, x, n),
    ) by {
        assert(c1.has(x.id));
        assert(c2.has(x.id));
        assert(count_of(c1, x) == two(count_of(c0, x) + occurrences(trees, es.take(i), x, n)));
        assert(count_of(c2, x) == two(
            count_of(c1, x) + (if same(es[i], x) {
                1nat
            } else {
                0nat
            }),
        ));
        if es[i].kind == EntryKind::Tree {
            assert(count_of(c3, x) == two(
                count_of(c2, x) + occurrences(trees, trees[es[i].id], x, (n - 1) as nat),
            ));
        }
    }
    assert forall|x: Entry| c3.has(x.id) implies #[trigger] count_of(c3, x) <= 2 by {
        assert(c0.has(x.id));
    }
}

/// Count nothing yet of the objects of some entries.
fn want(counts: &mut Counts, entries: &EntryMap)
    requires
        ids_differ(old(counts).pairs()),
        forall|x: Entry| old(counts).has(x.id) ==> #[trigger] count_of(*old(counts), x) == 0,
    ensures
        ids_differ(final(counts).pairs()),
        forall|x: Entry| final(counts).has(x.id) ==> #[trigger] count_of(*final(counts), x) == 0,
        forall|id: ObjectId| #[trigger] old(counts).has(id) ==> final(counts).has(id),
        forall|p: Seq<char>|
            entries.has(p) ==> final(counts).has((#[trigger] entries.at(p)).id),
        (forall|p: Seq<char>| !#[trigger] entries.has(p)) ==> *final(counts) == *old(counts),
{
    let count = entries.len();
    let ghost vs = entries.value_list();
    let mut i: usize = 0;
    while i < count
        invariant
            i <= count,
            entries.ordered(),
            count == entries.key_list().len(),
            vs == entries.value_list(),
            ids_differ(counts.pairs()),
            forall|x: Entry| counts.has(x.id) ==> #[trigger] count_of(*counts, x) == 0,
            forall|id: ObjectId| #[trigger] old(counts).has(id) ==> counts.has(id),
            forall|j: int| 0 <= j < i ==> counts.has((#[trigger] vs[j]).id),
            i == 0 ==> *counts == *old(counts),
        decreases count - i,
    {
        let id = entries.value(i).id;
        if !counts.contains(&id) {
            let ghost c1 = *counts;
            let none = Slots::all(0);
            counts.insert(id, none);
            proof {
                lemma_insert(c1, *counts, id, none);
                assert forall|x: Entry| counts.has(x.id) implies #[trigger] count_of(*counts, x)
                    == 0 by {
                    if x.id != id {
                        assert(c1.has(x.id));
                        assert(count_of(c1, x) == 0);
                        assert(counts.at(x.id) == c1.at(x.id));
                    }
                }
            }
        }
        i += 1;
    }
    proof {
        if count > 0 {
            assert(entries.has(entries.key_list()[0]));
        }
        assert forall|p: Seq<char>| entries.has(p) implies counts.has(
            (#[trigger] entries.at(p)).id,
        ) by {
            let j = choose|j: int| 0 <= j < entries.key_list().len() && entries.key_list()[j] == p;
            entries.lemma_at(j);
            assert(vs[j] == entries.at(p));
        }
    }
}

/// The counts are those of the base.
pub open spec fn counts_base(
    c: Counts,
    trees: Map<ObjectId, Seq<Entry>>,
    base: ObjectId,
) -> bool {
    forall|x: Entry|
        c.has(x.id) ==> #[trigger] count_of(c, x) == two(
            occurrences(trees, trees[base], x, MAX_NESTING as nat),
        )
}

/// How often the base holds each of some entries, up to two. Where there are
/// none to count, the base is not read.
fn count_base_identities<O: ObjectStore>(
    store: &mut Store<O>,
    base: ObjectId,
    ours: &EntryMap,
    theirs: &EntryMap,
) -> (r: Result<Counts, Error>)
    requires
        old(store).settled(),
    ensures
        final(store).blobs == old(store).blobs,
        final(store).settled(),
        final(store).collided@ == old(store).collided@,
        !old(store).collided@ ==> ({
            let empty = (forall|p: Seq<char>| !#[trigger] ours.has(p)) && (forall|p: Seq<char>|
                !#[trigger] theirs.has(p));
            let ready = empty || whole(
                trees_of(old(store).blobs.objects()),
                base,
                MAX_NESTING as nat,
            );
            &&& r is Ok ==> ready
            &&& old(store).blobs.steady() && ready ==> r is Ok
            &&& r matches Err(e) ==> !empty && whole_refused(
                old(store).blobs.objects(),
                old(store).blobs.steady(),
                base,
                MAX_NESTING as nat,
                e,
            )
        }),
        r matches Ok(c) ==> {
            &&& !old(store).collided@ ==> forall|t: Map<ObjectId, Seq<Entry>>| #[trigger]
                extends(trees_of(old(store).blobs.objects()), t) ==> counts_base(c, t, base)
            &&& forall|p: Seq<char>| ours.has(p) ==> c.has((#[trigger] ours.at(p)).id)
            &&& forall|p: Seq<char>| theirs.has(p) ==> c.has((#[trigger] theirs.at(p)).id)
        },
{
    let ghost trees = trees_of(store.blobs.objects());
    let mut counts: Counts = IdMap::new();
    want(&mut counts, ours);
    let ghost mid = counts;
    want(&mut counts, theirs);
    if counts.len() == 0 {
        proof {
            assert forall|p: Seq<char>| !#[trigger] ours.has(p) by {
                if ours.has(p) {
                    assert(mid.has(ours.at(p).id));
                    assert(counts.has(ours.at(p).id));
                }
            }
            assert forall|p: Seq<char>| !#[trigger] theirs.has(p) by {
                if theirs.has(p) {
                    assert(counts.has(theirs.at(p).id));
                }
            }
        }
        return Ok(counts);
    }
    let ghost c0 = counts;
    count_in(store, base, &mut counts, MAX_NESTING)?;
    proof {
        assert forall|t: Map<ObjectId, Seq<Entry>>| #[trigger] extends(
            trees,
            t,
        ) && !store.collided@ implies counts_base(counts, t, base) by {
            reveal(counted);
        }
        assert forall|id: ObjectId| #[trigger] c0.has(id) implies counts.has(id) by {
            assert(counts.has(id) == c0.has(id));
        }
        assert forall|p: Seq<char>| ours.has(p) implies counts.has(
            (#[trigger] ours.at(p)).id,
        ) by {
            assert(mid.has(ours.at(p).id));
            assert(c0.has(ours.at(p).id));
        }
        assert forall|p: Seq<char>| theirs.has(p) implies counts.has(
            (#[trigger] theirs.at(p)).id,
        ) by {
            assert(c0.has(theirs.at(p).id));
        }
    }
    Ok(counts)
}

/// The side has the entry at a path that the base lacks.
pub open spec fn lands(
    trees: Map<ObjectId, Seq<Entry>>,
    base: ObjectId,
    side: ObjectId,
    e: Entry,
    p: Seq<char>,
) -> bool {
    added_at(trees, base, side, p) matches Some(y) && same(y, e)
}

/// The only path that the entry lands at.
pub open spec fn sole_landing(
    trees: Map<ObjectId, Seq<Entry>>,
    base: ObjectId,
    side: ObjectId,
    e: Entry,
    p: Seq<char>,
) -> bool {
    lands(trees, base, side, e, p) && forall|q: Seq<char>| #[trigger]
        lands(trees, base, side, e, q) ==> q == p
}

/// Where the side has moved what the base has at a path: it is gone from
/// there, the base holds it only once, and it lands at one path only. Anything
/// less certain is no rename.
pub open spec fn renamed(
    trees: Map<ObjectId, Seq<Entry>>,
    base: ObjectId,
    side: ObjectId,
    p: Seq<char>,
) -> Option<Seq<char>> {
    match deleted_at(trees, base, side, p) {
        Some(e) => if occurrences(trees, trees[base], e, MAX_NESTING as nat) == 1 && (exists|
            q: Seq<char>,
        | #[trigger] sole_landing(trees, base, side, e, q)) {
            Some(choose|q: Seq<char>| #[trigger] sole_landing(trees, base, side, e, q))
        } else {
            None
        },
        None => None,
    }
}

/// Where among the first `n` entries of a map each entry stands: nowhere, at
/// one place or at several.
spec fn placed(added: EntryMap, n: int, x: Entry, slot: u128) -> bool {
    let vs = added.value_list();
    if slot == 0 {
        forall|j: int| 0 <= j < n ==> !same((#[trigger] vs[j])@, x)
    } else if slot == 1 {
        exists|j: int, k: int|
            0 <= j < k < n && same((#[trigger] vs[j])@, x) && same((#[trigger] vs[k])@, x)
    } else {
        &&& slot - 2 < n
        &&& same(vs[slot - 2]@, x)
        &&& forall|j: int| 0 <= j < n && j != slot - 2 ==> !same((#[trigger] vs[j])@, x)
    }
}

/// The slot of an entry in a map of places.
spec fn place_slot(m: Counts, x: Entry) -> u128 {
    if m.has(x.id) {
        m.at(x.id).slot(x.kind, x.executable)
    } else {
        0
    }
}

/// The place of every entry.
fn destinations(added: &EntryMap) -> (r: Counts)
    ensures
        forall|x: Entry| placed(*added, added.key_list().len() as int, x, #[trigger] place_slot(r, x)),
{
    let count = added.len();
    let mut m: Counts = IdMap::new();
    let mut i: usize = 0;
    proof {
        assert forall|x: Entry| placed(*added, 0, x, #[trigger] place_slot(m, x)) by {
            assert(!m.has(x.id));
        }
    }
    while i < count
        invariant
            i <= count,
            added.ordered(),
            count == added.key_list().len(),
            ids_differ(m.pairs()),
            forall|x: Entry| placed(*added, i as int, x, #[trigger] place_slot(m, x)),
        decreases count - i,
    {
        let entry = added.value(i);
        let ghost e = entry@;
        let slots: Slots = match m.get(&entry.id) {
            Some(s) => *s,
            None => Slots::all(0),
        };
        let now: u128 = if slots.get(entry.kind, entry.executable) == 0 {
            i as u128 + 2
        } else {
            1
        };
        let ghost m0 = m;
        let next = slots.with(entry.kind, entry.executable, now);
        m.insert(entry.id, next);
        proof {
            lemma_insert(m0, m, e.id, next);
            assert forall|x: Entry| placed(*added, i + 1, x, #[trigger] place_slot(m, x)) by {
                let vs = added.value_list();
                assert(vs[i as int]@ == e);
                assert(placed(*added, i as int, x, place_slot(m0, x)));
                if same(e, x) {
                    assert(place_slot(m, x) == now);
                    let was = place_slot(m0, x);
                    if was >= 2 {
                        assert(same(vs[was - 2]@, x) && same(vs[i as int]@, x));
                    } else if was == 1 {
                        let (j, k) = choose|j: int, k: int|
                            0 <= j < k < i && same((#[trigger] vs[j])@, x) && same(
                                (#[trigger] vs[k])@,
                                x,
                            );
                        assert(same(vs[j]@, x) && same(vs[k]@, x));
                    }
                } else {
                    if x.id == e.id {
                        assert(m.has(x.id));
                    } else {
                        assert(m.has(x.id) == m0.has(x.id));
                        if m0.has(x.id) {
                            assert(m.at(x.id) == m0.at(x.id));
                        }
                    }
                    assert(place_slot(m, x) == place_slot(m0, x));
                    let was = place_slot(m0, x);
                    if was == 1 {
                        let (j, k) = choose|j: int, k: int|
                            0 <= j < k < i && same((#[trigger] vs[j])@, x) && same(
                                (#[trigger] vs[k])@,
                                x,
                            );
                        assert(same(vs[j]@, x) && same(vs[k]@, x));
                    }
                }
            }
        }
        i += 1;
    }
    m
}

/// Paths by paths.
pub type PathMap = TextMap<String>;

/// The path of a path.
pub open spec fn path_in(m: PathMap, p: Seq<char>) -> Option<Seq<char>> {
    if m.has(p) {
        Some(m.at(p)@)
    } else {
        None
    }
}

/// The map has the entry at a path, and at no other.
pub open spec fn sole_place(added: EntryMap, e: Entry, p: Seq<char>) -> bool {
    &&& entry_in(added, p) matches Some(y) && same(y, e)
    &&& forall|q: Seq<char>|
        (#[trigger] entry_in(added, q) matches Some(y) && same(y, e)) ==> q == p
}

/// Where the changes say that an entry has gone.
pub open spec fn inferred(c: TreeChanges, counts: Counts, p: Seq<char>) -> Option<Seq<char>> {
    match entry_in(c.deleted, p) {
        Some(e) => if count_of(counts, e) == 1 && (exists|q: Seq<char>| #[trigger]
            sole_place(c.added, e, q)) {
            Some(choose|q: Seq<char>| #[trigger] sole_place(c.added, e, q))
        } else {
            None
        },
        None => None,
    }
}

/// The place that has been found for an entry decides where it has gone.
proof fn lemma_placed(added: EntryMap, e: Entry, slot: u128)
    requires
        added.ordered(),
        placed(added, added.key_list().len() as int, e, slot),
    ensures
        slot < 2 ==> forall|q: Seq<char>| !(#[trigger] sole_place(added, e, q)),
        slot >= 2 ==> slot - 2 < added.key_list().len() && sole_place(
            added,
            e,
            added.key_list()[slot - 2],
        ),
{
    let ks = added.key_list();
    let vs = added.value_list();
    assert forall|j: int| 0 <= j < ks.len() implies entry_in(added, #[trigger] ks[j]) == Some(
        vs[j]@,
    ) by {
        added.lemma_at(j);
    }
    assert forall|q: Seq<char>|
        (#[trigger] entry_in(added, q) matches Some(y) && same(y, e)) implies exists|j: int|
        0 <= j < ks.len() && #[trigger] ks[j] == q && same(vs[j]@, e) by {
        let j = choose|j: int| 0 <= j < ks.len() && ks[j] == q;
        added.lemma_at(j);
        assert(ks[j] == q && same(vs[j]@, e));
    }
    if slot == 0 {
        assert forall|q: Seq<char>| !(#[trigger] sole_place(added, e, q)) by {
            if sole_place(added, e, q) {
                assert(entry_in(added, q) is Some);
                let j = choose|j: int|
                    0 <= j < ks.len() && #[trigger] ks[j] == q && same(vs[j]@, e);
                assert(!same(vs[j]@, e));
            }
        }
    } else if slot == 1 {
        let (j, k) = choose|j: int, k: int|
            0 <= j < k < ks.len() && same((#[trigger] vs[j])@, e) && same((#[trigger] vs[k])@, e);
        assert(entry_in(added, ks[j]) == Some(vs[j]@));
        assert(entry_in(added, ks[k]) == Some(vs[k]@));
        lemma_increasing_differ(ks, j, k);
    } else {
        let n = slot - 2;
        assert(entry_in(added, ks[n]) == Some(vs[n]@));
        assert forall|q: Seq<char>|
            (#[trigger] entry_in(added, q) matches Some(y) && same(y, e)) implies q == ks[n] by {
            let j = choose|j: int| 0 <= j < ks.len() && #[trigger] ks[j] == q && same(vs[j]@, e);
            assert(same(vs[j]@, e));
        }
    }
}

/// The renames that can be told with certainty, by the paths that they leave.
fn infer_exact_renames(changes: &TreeChanges, counts: &Counts) -> (r: PathMap)
    requires
        forall|p: Seq<char>|
            changes.deleted.has(p) ==> counts.has((#[trigger] changes.deleted.at(p)).id),
    ensures
        forall|p: Seq<char>| #[trigger] path_in(r, p) == inferred(*changes, *counts, p),
{
    let places = destinations(&changes.added);
    let mut renames: PathMap = TextMap::new();
    let n = changes.added.len();
    let count = changes.deleted.len();
    let ghost ks = changes.deleted.key_list();
    let mut i: usize = 0;
    proof {
        assert(ks.take(0) =~= Seq::<Seq<char>>::empty());
    }
    while i < count
        invariant
            i <= count,
            count == ks.len(),
            ks == changes.deleted.key_list(),
            changes.deleted.ordered(),
            changes.added.ordered(),
            n == changes.added.key_list().len(),
            forall|x: Entry|
                placed(
                    changes.added,
                    changes.added.key_list().len() as int,
                    x,
                    #[trigger] place_slot(places, x),
                ),
            forall|p: Seq<char>|
                changes.deleted.has(p) ==> counts.has((#[trigger] changes.deleted.at(p)).id),
            forall|p: Seq<char>| #[trigger]
                path_in(renames, p) == (if ks.take(i as int).contains(p) {
                    inferred(*changes, *counts, p)
                } else {
                    None
                }),
        decreases count - i,
    {
        let source = changes.deleted.key(i);
        let entry = changes.deleted.value(i);
        let ghost e = entry@;
        let ghost p = ks[i as int];
        let ghost before = renames;
        let single: bool = match counts.get(&entry.id) {
            Some(s) => s.get(entry.kind, entry.executable) == 1,
            None => false,
        };
        let place: u128 = match places.get(&entry.id) {
            Some(s) => s.get(entry.kind, entry.executable),
            None => 0,
        };
        proof {
            assert(entry_in(changes.deleted, p) == Some(e));
            assert(counts.has(changes.deleted.at(p).id));
            assert(place == place_slot(places, e));
            lemma_placed(changes.added, e, place);
            assert(ks.take(i + 1) =~= ks.take(i as int).push(p));
            if ks.take(i as int).contains(p) {
                let j = choose|j: int| 0 <= j < i && ks.take(i as int)[j] == p;
                lemma_increasing_differ(ks, j, i as int);
            }
        }
        if single && place >= 2 {
            let target = changes.added.key((place - 2) as usize).clone();
            let ghost t = target@;
            renames.insert(source.clone(), target);
            proof {
                assert(sole_place(changes.added, e, t));
                let q = choose|q: Seq<char>| #[trigger] sole_place(changes.added, e, q);
                assert(entry_in(changes.added, q) is Some);
                assert(inferred(*changes, *counts, p) == Some(t));
            }
        }
        proof {
            assert forall|x: Seq<char>| #[trigger] path_in(renames, x) == (if ks.take(
                i + 1,
            ).contains(x) {
                inferred(*changes, *counts, x)
            } else {
                None
            }) by {
                lemma_contains_push(ks.take(i as int), p, x);
                assert(path_in(before, x) == (if ks.take(i as int).contains(x) {
                    inferred(*changes, *counts, x)
                } else {
                    None
                }));
                if single && place >= 2 && x != p && before.has(x) {
                    assert(renames.at(x) == before.at(x));
                }
            }
        }
        i += 1;
    }
    proof {
        assert(ks.take(i as int) =~= ks);
        assert forall|p: Seq<char>| #[trigger] path_in(renames, p) == inferred(
            *changes,
            *counts,
            p,
        ) by {
            if !ks.contains(p) {
                assert(entry_in(changes.deleted, p) is None);
            }
        }
    }
    renames
}

/// What the changes say is so.
proof fn lemma_inferred(
    c: TreeChanges,
    counts: Counts,
    trees: Map<ObjectId, Seq<Entry>>,
    base: ObjectId,
    side: ObjectId,
    p: Seq<char>,
)
    requires
        lists_changes(c, trees, base, side),
        counts_base(counts, trees, base),
        forall|q: Seq<char>| c.deleted.has(q) ==> counts.has((#[trigger] c.deleted.at(q)).id),
    ensures
        inferred(c, counts, p) == renamed(trees, base, side, p),
{
    assert(entry_in(c.deleted, p) == deleted_at(trees, base, side, p));
    if let Some(e) = entry_in(c.deleted, p) {
        assert(counts.has(c.deleted.at(p).id));
        assert(count_of(counts, e) == two(
            occurrences(trees, trees[base], e, MAX_NESTING as nat),
        ));
        assert forall|q: Seq<char>| #[trigger] sole_place(c.added, e, q) <==> sole_landing(
            trees,
            base,
            side,
            e,
            q,
        ) by {
            assert forall|x: Seq<char>| #[trigger] entry_in(c.added, x) == added_at(
                trees,
                base,
                side,
                x,
            ) by {}
            if sole_place(c.added, e, q) {
                assert(entry_in(c.added, q) is Some);
                assert forall|x: Seq<char>| #[trigger] lands(trees, base, side, e, x) implies x
                    == q by {
                    assert(entry_in(c.added, x) is Some);
                }
            }
            if sole_landing(trees, base, side, e, q) {
                assert forall|x: Seq<char>|
                    (#[trigger] entry_in(c.added, x) matches Some(y) && same(y, e)) implies x
                    == q by {
                    assert(lands(trees, base, side, e, x));
                }
                assert(lands(trees, base, side, e, q));
                assert(entry_in(c.added, q) is Some);
            }
        }
        if exists|q: Seq<char>| #[trigger] sole_place(c.added, e, q) {
            let q = choose|q: Seq<char>| #[trigger] sole_place(c.added, e, q);
            assert(sole_landing(trees, base, side, e, q));
            let w = choose|q: Seq<char>| #[trigger] sole_landing(trees, base, side, e, q);
            assert(lands(trees, base, side, e, w));
        }
        if exists|q: Seq<char>| #[trigger] sole_landing(trees, base, side, e, q) {
            let q = choose|q: Seq<char>| #[trigger] sole_landing(trees, base, side, e, q);
            assert(sole_place(c.added, e, q));
        }
    }
}

/// The conflict that renames make at a path: both sides lack what the base has
/// there, and they do not agree on where it went.
pub open spec fn rename_clash(
    trees: Map<ObjectId, Seq<Entry>>,
    base: ObjectId,
    ours: ObjectId,
    theirs: ObjectId,
    p: Seq<char>,
) -> Option<PathValue> {
    let a = renamed(trees, base, ours, p);
    let b = renamed(trees, base, theirs, p);
    match deleted_at(trees, base, ours, p) {
        Some(e) => if deleted_at(trees, base, theirs, p) is Some && (a is Some || b is Some) && a
            != b {
            Some(PathValue { path: p, a: None, b: None, base: Some(e.id) })
        } else {
            None
        },
        None => None,
    }
}

/// The list holds exactly the given conflicts, in the order of their paths.
pub open spec fn lists_clashes(
    v: Seq<PathValue>,
    at: spec_fn(Seq<char>) -> Option<PathValue>,
) -> bool {
    &&& forall|i: int, j: int|
        0 <= i < j < v.len() ==> text_before((#[trigger] v[i]).path, (#[trigger] v[j]).path)
    &&& forall|x: PathValue| #[trigger] v.contains(x) <==> at(x.path) == Some(x)
}

/// Where renames clash.
pub open spec fn rename_clashes(
    trees: Map<ObjectId, Seq<Entry>>,
    base: ObjectId,
    ours: ObjectId,
    theirs: ObjectId,
) -> spec_fn(Seq<char>) -> Option<PathValue> {
    |p: Seq<char>| rename_clash(trees, base, ours, theirs, p)
}

/// The conflict that the changes of two sides make at a path.
spec fn map_clash(
    ours: TreeChanges,
    theirs: TreeChanges,
    counts: Counts,
    p: Seq<char>,
) -> Option<PathValue> {
    let a = inferred(ours, counts, p);
    let b = inferred(theirs, counts, p);
    match entry_in(ours.deleted, p) {
        Some(e) => if entry_in(theirs.deleted, p) is Some && (a is Some || b is Some) && a != b {
            Some(PathValue { path: p, a: None, b: None, base: Some(e.id) })
        } else {
            None
        },
        None => None,
    }
}

/// A side lacks nothing of the base when no deletion is listed.
proof fn lemma_nothing_deleted(
    c: TreeChanges,
    trees: Map<ObjectId, Seq<Entry>>,
    base: ObjectId,
    side: ObjectId,
)
    requires
        lists_changes(c, trees, base, side),
    ensures
        (forall|p: Seq<char>| !#[trigger] c.deleted.has(p)) <==> (forall|p: Seq<char>|
            (#[trigger] deleted_at(trees, base, side, p)) is None),
{
    if forall|p: Seq<char>| !#[trigger] c.deleted.has(p) {
        assert forall|p: Seq<char>| (#[trigger] deleted_at(trees, base, side, p)) is None by {
            assert(entry_in(c.deleted, p) is None);
        }
    }
    if forall|p: Seq<char>| (#[trigger] deleted_at(trees, base, side, p)) is None {
        assert forall|p: Seq<char>| !#[trigger] c.deleted.has(p) by {
            assert(entry_in(c.deleted, p) == deleted_at(trees, base, side, p));
        }
    }
}

/// Every tree that has to be read to find the conflicts of renames is there:
/// those that tell the sides from the base, and, if a side lacks anything of
/// the base, the whole base.
pub open spec fn renames_readable(
    trees: Map<ObjectId, Seq<Entry>>,
    base: ObjectId,
    ours: ObjectId,
    theirs: ObjectId,
) -> bool {
    &&& diffable(trees, base, ours, MAX_NESTING as nat)
    &&& diffable(trees, base, theirs, MAX_NESTING as nat)
    &&& whole(trees, base, MAX_NESTING as nat) || forall|p: Seq<char>|
        (#[trigger] deleted_at(trees, base, ours, p)) is None && deleted_at(
            trees,
            base,
            theirs,
            p,
        ) is None
}

/// Why the conflicts of renames cannot be told: a tree cannot be read that tells a side
/// from the base, or, where a side lacks something of the base, one of the base.
pub open spec fn renames_refused(
    objects: Map<ObjectId, Seq<u8>>,
    steady: bool,
    base: ObjectId,
    ours: ObjectId,
    theirs: ObjectId,
    e: Error,
) -> bool {
    let n = MAX_NESTING as nat;
    ||| diff_refused(objects, steady, base, ours, n, e)
    ||| diff_refused(objects, steady, base, theirs, n, e)
    ||| whole_refused(objects, steady, base, n, e) && exists|p: Seq<char>|
        (#[trigger] deleted_at(trees_of(objects), base, ours, p)) is Some || deleted_at(
            trees_of(objects),
            base,
            theirs,
            p,
        ) is Some
}

/// The conflicts that renames make. The result lacks the source on both
/// sides, so a conflict holds the object of the base alone; the two trees keep
/// the destinations. Trees that are stored later change nothing of it.
pub fn exact_rename_conflicts<O: ObjectStore>(
    store: &mut Store<O>,
    base: ObjectId,
    ours: ObjectId,
    theirs: ObjectId,
) -> (r: Result<Vec<ConflictPath>, Error>)
    requires
        old(store).settled(),
    ensures
        final(store).blobs == old(store).blobs,
        final(store).settled(),
        final(store).collided@ == old(store).collided@,
        !old(store).collided@ && r is Ok ==> renames_readable(
            trees_of(old(store).blobs.objects()),
            base,
            ours,
            theirs,
        ),
        !old(store).collided@ && old(store).blobs.steady() && renames_readable(
            trees_of(old(store).blobs.objects()),
            base,
            ours,
            theirs,
        ) ==> r is Ok,
        !old(store).collided@ ==> (r matches Err(e) ==> renames_refused(
            old(store).blobs.objects(),
            old(store).blobs.steady(),
            base,
            ours,
            theirs,
            e,
        )),
        !old(store).collided@ ==> (r matches Ok(v) ==> forall|t: Map<ObjectId, Seq<Entry>>|
            #[trigger]
            extends(trees_of(old(store).blobs.objects()), t) ==> lists_clashes(
                path_values(v@),
                rename_clashes(t, base, ours, theirs),
            )),
{
    let ghost trees = trees_of(store.blobs.objects());
    let ours_changes = tree_changes(store, base, ours)?;
    let theirs_changes = tree_changes(store, base, theirs)?;
    let ghost known = !store.collided@;
    proof {
        assert(extends(trees, trees));
        if known {
            lemma_nothing_deleted(ours_changes, trees, base, ours);
            lemma_nothing_deleted(theirs_changes, trees, base, theirs);
            if forall|p: Seq<char>|
                (#[trigger] deleted_at(trees, base, ours, p)) is None && deleted_at(
                    trees,
                    base,
                    theirs,
                    p,
                ) is None {
                assert forall|p: Seq<char>| (#[trigger] deleted_at(trees, base, theirs, p)) is None by {
                    assert(deleted_at(trees, base, ours, p) is None);
                }
            }
            if !(forall|p: Seq<char>| !#[trigger] theirs_changes.deleted.has(p)) {
                let p = choose|p: Seq<char>| (#[trigger] deleted_at(trees, base, theirs, p)) is Some;
                assert(deleted_at(trees, base, ours, p) is Some || deleted_at(trees, base, theirs, p)
                    is Some);
            }
        }
    }
    let counts = count_base_identities(
        store,
        base,
        &ours_changes.deleted,
        &theirs_changes.deleted,
    )?;
    let ours_renames = infer_exact_renames(&ours_changes, &counts);
    let theirs_renames = infer_exact_renames(&theirs_changes, &counts);
    let mut conflicts: Vec<ConflictPath> = Vec::new();
    let count = ours_changes.deleted.len();
    let ghost ks = ours_changes.deleted.key_list();
    let mut i: usize = 0;
    proof {
        assert(ks.take(0) =~= Seq::<Seq<char>>::empty());
        assert(path_values(conflicts@) =~= Seq::<PathValue>::empty());
    }
    while i < count
        invariant
            i <= count,
            count == ks.len(),
            ks == ours_changes.deleted.key_list(),
            ours_changes.deleted.ordered(),
            forall|p: Seq<char>| #[trigger]
                path_in(ours_renames, p) == inferred(ours_changes, counts, p),
            forall|p: Seq<char>| #[trigger]
                path_in(theirs_renames, p) == inferred(theirs_changes, counts, p),
            forall|a: int, b: int|
                0 <= a < b < path_values(conflicts@).len() ==> text_before(
                    (#[trigger] path_values(conflicts@)[a]).path,
                    (#[trigger] path_values(conflicts@)[b]).path,
                ),
            forall|x: PathValue| #[trigger]
                path_values(conflicts@).contains(x) <==> ks.take(i as int).contains(x.path)
                    && map_clash(ours_changes, theirs_changes, counts, x.path) == Some(x),
        decreases count - i,
    {
        let source = ours_changes.deleted.key(i);
        let base_entry = ours_changes.deleted.value(i);
        let ghost p = ks[i as int];
        let ghost before = path_values(conflicts@);
        let ghost here = map_clash(ours_changes, theirs_changes, counts, p);
        let clash: bool = if !theirs_changes.deleted.contains(source.as_str()) {
            false
        } else {
            match (ours_renames.get(source.as_str()), theirs_renames.get(source.as_str())) {
                (None, None) => false,
                (Some(a), Some(b)) => !text_eq(a.as_str(), b.as_str()),
                _ => true,
            }
        };
        proof {
            assert(entry_in(ours_changes.deleted, p) == Some(base_entry@));
            assert(path_in(ours_renames, p) == inferred(ours_changes, counts, p));
            assert(path_in(theirs_renames, p) == inferred(theirs_changes, counts, p));
            assert(clash == here is Some);
            assert(ks.take(i + 1) =~= ks.take(i as int).push(p));
        }
        if clash {
            conflicts.push(
                ConflictPath {
                    path: source.clone(),
                    a: None,
                    b: None,
                    base: Some(base_entry.id),
                },
            );
            proof {
                assert(path_values(conflicts@) =~= before.push(here->0));
                assert forall|a: int, b: int|
                    0 <= a < b < path_values(conflicts@).len() implies text_before(
                    (#[trigger] path_values(conflicts@)[a]).path,
                    (#[trigger] path_values(conflicts@)[b]).path,
                ) by {
                    if b == before.len() {
                        let x = before[a];
                        assert(before.contains(x));
                        let j = choose|j: int| 0 <= j < i && ks.take(i as int)[j] == x.path;
                        assert(text_before(ks[j], ks[i as int]));
                    } else {
                        assert(text_before(before[a].path, before[b].path));
                    }
                }
            }
        }
        proof {
            assert forall|x: PathValue| #[trigger]
                path_values(conflicts@).contains(x) <==> ks.take(i + 1).contains(x.path)
                    && map_clash(ours_changes, theirs_changes, counts, x.path) == Some(x) by {
                lemma_contains_push(ks.take(i as int), p, x.path);
                if clash {
                    lemma_contains_push(before, here->0, x);
                }
                assert(before.contains(x) <==> ks.take(i as int).contains(x.path) && map_clash(
                    ours_changes,
                    theirs_changes,
                    counts,
                    x.path,
                ) == Some(x));
            }
        }
        i += 1;
    }
    proof {
        assert(ks.take(i as int) =~= ks);
        assert forall|t: Map<ObjectId, Seq<Entry>>| #[trigger] extends(
            trees,
            t,
        ) && known implies lists_clashes(path_values(conflicts@), rename_clashes(t, base, ours, theirs)) by {
            assert forall|x: PathValue| #[trigger]
                path_values(conflicts@).contains(x) <==> rename_clashes(t, base, ours, theirs)(
                    x.path,
                ) == Some(x) by {
                lemma_inferred(ours_changes, counts, t, base, ours, x.path);
                lemma_inferred(theirs_changes, counts, t, base, theirs, x.path);
                assert(entry_in(ours_changes.deleted, x.path) == deleted_at(
                    t,
                    base,
                    ours,
                    x.path,
                ));
                assert(entry_in(theirs_changes.deleted, x.path) == deleted_at(
                    t,
                    base,
                    theirs,
                    x.path,
                ));
                assert(map_clash(ours_changes, theirs_changes, counts, x.path) == rename_clash(
                    t,
                    base,
                    ours,
                    theirs,
                    x.path,
                ));
            }
        }
    }
    Ok(conflicts)
}

} // verus!
