//! Three-way merge of trees, path by path. What cannot be merged becomes a
//! conflict; no side is lost.
use crate::conflict::{path_values, Conflict, ConflictPath, PathValue};
use crate::bytes::{
    lemma_lex_antisymmetric, lemma_lex_irreflexive, lemma_lex_total, lemma_lex_transitive,
};
use crate::intro::MAX_NESTING;
use crate::object::{tree_encodable, unencodable};
use crate::objectstore::ObjectStore;
use crate::order::{stable_sort, Sortable};
use crate::overlay::{
    agrees, entry_at, entry_named, extends, find_entry, has_tree, lacking, lemma_agrees_put,
    lemma_contains_push, lemma_entries_unique, lemma_entry_named, lemma_lacking_before, lemma_recedes_trans, recedes,
    tree_id, TreeStore,
};
use crate::paths::{
    after_first, below, first_part, lemma_below_parts, lemma_below_split, lemma_slash_bounds, nested,
};
use crate::renames::{
    deleted_at, exact_rename_conflicts, from_dir, head_name, join, join_path, lemma_from_dir,
    lemma_join, lemma_lies_in_child, lies_in, lists_clashes, rename_clash, rename_clashes,
    renames_refused, same, same_entry, too_deep,
};
use crate::store::Store;
use crate::scan::told;
use crate::text::{lemma_utf8_injective, text_before, text_lt};
use crate::textmap::{lemma_increasing_differ, TextMap};
use crate::tree::{canonical, entry_values, names_increasing, valid_name, Entry, Tree, TreeEntry};
use crate::types::{EntryKind, Error, ObjectId};
use vstd::prelude::*;
use vstd::utf8::encode_utf8;

verus! {

/// What a merge comes to.
#[derive(Clone, Debug)]
pub enum MergeOutcome {
    Tree(ObjectId),
    Conflict(Conflict),
}

/// What the three trees have at a conflict.
pub struct Clash {
    pub a: Option<ObjectId>,
    pub b: Option<ObjectId>,
    pub base: Option<ObjectId>,
}

/// The base has the same entry.
pub open spec fn unchanged(g: Option<Entry>, x: Entry) -> bool {
    g matches Some(e) && same(e, x)
}

/// The object of an entry, if there is one.
pub open spec fn id_of(g: Option<Entry>) -> Option<ObjectId> {
    match g {
        Some(e) => Some(e.id),
        None => None,
    }
}

/// The two sides have changed a name in ways that have to be merged below it:
/// both have a directory there. The base takes part if it has one too.
pub open spec fn descend(
    pa: Option<Entry>,
    pb: Option<Entry>,
    pg: Option<Entry>,
) -> Option<(Option<ObjectId>, ObjectId, ObjectId)> {
    match (pa, pb) {
        (Some(x), Some(y)) => if !same(x, y) && !unchanged(pg, x) && !unchanged(pg, y) && x.kind
            == EntryKind::Tree && y.kind == EntryKind::Tree {
            Some((
                match pg {
                    Some(g) => if g.kind == EntryKind::Tree {
                        Some(g.id)
                    } else {
                        None
                    },
                    None => None,
                },
                x.id,
                y.id,
            ))
        } else {
            None
        },
        _ => None,
    }
}

/// The conflict at a name itself: both sides have changed it, and not in the
/// same way.
pub open spec fn name_clash(
    pa: Option<Entry>,
    pb: Option<Entry>,
    pg: Option<Entry>,
) -> Option<Clash> {
    match (pa, pb) {
        (None, None) => None,
        (Some(x), None) => if pg is Some && !unchanged(pg, x) {
            Some(Clash { a: Some(x.id), b: None, base: id_of(pg) })
        } else {
            None
        },
        (None, Some(y)) => if pg is Some && !unchanged(pg, y) {
            Some(Clash { a: None, b: Some(y.id), base: id_of(pg) })
        } else {
            None
        },
        (Some(x), Some(y)) => if same(x, y) || unchanged(pg, x) || unchanged(pg, y) || (x.kind
            == EntryKind::Tree && y.kind == EntryKind::Tree) {
            None
        } else {
            Some(Clash { a: Some(x.id), b: Some(y.id), base: id_of(pg) })
        },
    }
}

/// Neither side is the other or the base.
pub open spec fn unsettled(base: Option<ObjectId>, ours: ObjectId, theirs: ObjectId) -> bool {
    ours != theirs && base != Some(ours) && base != Some(theirs)
}

/// What the three trees have at a name.
pub open spec fn three(
    trees: Map<ObjectId, Seq<Entry>>,
    base: Option<ObjectId>,
    ours: ObjectId,
    theirs: ObjectId,
    name: Seq<char>,
) -> (Option<Entry>, Option<Entry>, Option<Entry>) {
    (
        entry_named(trees[ours], name),
        entry_named(trees[theirs], name),
        match base {
            Some(b) => entry_named(trees[b], name),
            None => None,
        },
    )
}

/// The conflict at a path.
pub open spec fn clash(
    trees: Map<ObjectId, Seq<Entry>>,
    base: Option<ObjectId>,
    ours: ObjectId,
    theirs: ObjectId,
    q: Seq<char>,
) -> Option<Clash>
    decreases q.len(), 1int,
{
    if !unsettled(base, ours, theirs) {
        None
    } else {
        let (pa, pb, pg) = three(trees, base, ours, theirs, head_name(q));
        clash_below(trees, pa, pb, pg, q)
    }
}

/// The conflict at a path, given what the three trees have at its first name.
pub open spec fn clash_below(
    trees: Map<ObjectId, Seq<Entry>>,
    pa: Option<Entry>,
    pb: Option<Entry>,
    pg: Option<Entry>,
    q: Seq<char>,
) -> Option<Clash>
    decreases q.len(), 0int,
{
    proof {
        lemma_slash_bounds(q);
    }
    if !nested(q) {
        name_clash(pa, pb, pg)
    } else {
        match descend(pa, pb, pg) {
            Some((b, o, t)) => clash(trees, b, o, t, after_first(q)),
            None => None,
        }
    }
}

/// The entry that a merge makes of a name, given what the three trees have
/// there. A side that has left the name as the base has it gives way to the
/// other. At a conflict between two entries the merge keeps ours.
pub open spec fn merged_entry(
    trees: Map<ObjectId, Seq<Entry>>,
    pa: Option<Entry>,
    pb: Option<Entry>,
    pg: Option<Entry>,
    n: nat,
) -> Option<Entry>
    decreases n, 0int,
{
    match (pa, pb) {
        (None, None) => None,
        (Some(x), None) => if pg is None {
            Some(x)
        } else {
            None
        },
        (None, Some(y)) => if pg is None {
            Some(y)
        } else {
            None
        },
        (Some(x), Some(y)) => if same(x, y) {
            Some(x)
        } else if unchanged(pg, x) {
            Some(y)
        } else if unchanged(pg, y) {
            Some(x)
        } else {
            match descend(pa, pb, pg) {
                Some((b, o, t)) => if n > 0 {
                    Some(Entry { id: merged_tree(trees, b, o, t, (n - 1) as nat), ..x })
                } else {
                    Some(x)
                },
                None => Some(x),
            }
        },
    }
}

/// What a merge makes of each name.
pub open spec fn merged_at(
    trees: Map<ObjectId, Seq<Entry>>,
    base: Option<ObjectId>,
    ours: ObjectId,
    theirs: ObjectId,
    n: nat,
) -> spec_fn(Seq<char>) -> Option<Entry>
    decreases n, 1int,
{
    |name: Seq<char>|
        {
            let (pa, pb, pg) = three(trees, base, ours, theirs, name);
            merged_entry(trees, pa, pb, pg, n)
        }
}

/// The entries, by increasing names, are those that a function of the names
/// gives.
pub open spec fn made_of(es: Seq<Entry>, at: spec_fn(Seq<char>) -> Option<Entry>) -> bool {
    &&& names_increasing(es)
    &&& forall|e: Entry| #[trigger] es.contains(e) <==> at(e.name) == Some(e)
}

/// The entries of a merged tree.
pub open spec fn merged_entries(
    trees: Map<ObjectId, Seq<Entry>>,
    base: Option<ObjectId>,
    ours: ObjectId,
    theirs: ObjectId,
    n: nat,
) -> Seq<Entry>
    decreases n, 2int,
{
    choose|es: Seq<Entry>| #[trigger] made_of(es, merged_at(trees, base, ours, theirs, n))
}

/// The tree that a merge makes: where one side is the base the other, else
/// the merged entries. Directories are merged `n` levels deep.
pub open spec fn merged_tree(
    trees: Map<ObjectId, Seq<Entry>>,
    base: Option<ObjectId>,
    ours: ObjectId,
    theirs: ObjectId,
    n: nat,
) -> ObjectId
    decreases n, 3int,
{
    if ours == theirs {
        ours
    } else if base == Some(ours) {
        theirs
    } else if base == Some(theirs) {
        ours
    } else {
        tree_id(merged_entries(trees, base, ours, theirs, n))
    }
}

/// Every directory that a merge makes and that can be encoded stands in `t` under its id.
#[verifier::opaque]
pub open spec fn merge_sheltered(
    t: Map<ObjectId, Seq<Entry>>,
    base: Option<ObjectId>,
    ours: ObjectId,
    theirs: ObjectId,
    n: nat,
) -> bool
    decreases n,
{
    unsettled(base, ours, theirs) ==> {
        let es = merged_entries(t, base, ours, theirs, n);
        &&& tree_encodable(es) ==> has_tree(t, es)
        &&& forall|name: Seq<char>|
            {
                let (pa, pb, pg) = #[trigger] three(t, base, ours, theirs, name);
                match descend(pa, pb, pg) {
                    Some((b, o, th)) => n > 0 ==> merge_sheltered(t, b, o, th, (n - 1) as nat),
                    None => true,
                }
            }
    }
}

/// As `merge_sheltered`, for one name, given what the three trees have there.
pub open spec fn name_sheltered(
    t: Map<ObjectId, Seq<Entry>>,
    pa: Option<Entry>,
    pb: Option<Entry>,
    pg: Option<Entry>,
    n: nat,
) -> bool {
    match descend(pa, pb, pg) {
        Some((b, o, th)) => n > 0 ==> merge_sheltered(t, b, o, th, (n - 1) as nat),
        None => true,
    }
}

/// A tree is there, and canonical.
pub open spec fn stored_tree(trees: Map<ObjectId, Seq<Entry>>, id: ObjectId) -> bool {
    trees.dom().contains(id) && canonical(trees[id])
}

/// Every tree that a merge compares is there, no more than `n` levels deep.
#[verifier::opaque]
pub open spec fn merge_read(
    trees: Map<ObjectId, Seq<Entry>>,
    base: Option<ObjectId>,
    ours: ObjectId,
    theirs: ObjectId,
    n: nat,
) -> bool
    decreases n,
{
    unsettled(base, ours, theirs) ==> {
        &&& stored_tree(trees, ours)
        &&& stored_tree(trees, theirs)
        &&& base matches Some(b) ==> stored_tree(trees, b)
        &&& forall|name: Seq<char>|
            {
                let (pa, pb, pg) = #[trigger] three(trees, base, ours, theirs, name);
                match descend(pa, pb, pg) {
                    Some((b, o, t)) => n > 0 && merge_read(trees, b, o, t, (n - 1) as nat),
                    None => true,
                }
            }
    }
}

/// As `merge_read`, for one name, given what the three trees have there.
pub open spec fn name_read(
    trees: Map<ObjectId, Seq<Entry>>,
    pa: Option<Entry>,
    pb: Option<Entry>,
    pg: Option<Entry>,
    n: nat,
) -> bool {
    match descend(pa, pb, pg) {
        Some((b, o, t)) => n > 0 && merge_read(trees, b, o, t, (n - 1) as nat),
        None => true,
    }
}

/// The tree that a merge makes stands among the trees under its id, and so does that of
/// every directory that was merged below.
#[verifier::opaque]
pub open spec fn merge_stored(
    trees: Map<ObjectId, Seq<Entry>>,
    base: Option<ObjectId>,
    ours: ObjectId,
    theirs: ObjectId,
    n: nat,
) -> bool
    decreases n,
{
    unsettled(base, ours, theirs) ==> {
        &&& has_tree(trees, merged_entries(trees, base, ours, theirs, n))
        &&& canonical(merged_entries(trees, base, ours, theirs, n))
        &&& made_of(
            merged_entries(trees, base, ours, theirs, n),
            merged_at(trees, base, ours, theirs, n),
        )
        &&& forall|name: Seq<char>|
            {
                let (pa, pb, pg) = #[trigger] three(trees, base, ours, theirs, name);
                match descend(pa, pb, pg) {
                    Some((b, o, t)) => n > 0 && merge_stored(trees, b, o, t, (n - 1) as nat),
                    None => true,
                }
            }
    }
}

/// As `merge_stored`, for one name, given what the three trees have there.
pub open spec fn name_stored(
    trees: Map<ObjectId, Seq<Entry>>,
    pa: Option<Entry>,
    pb: Option<Entry>,
    pg: Option<Entry>,
    n: nat,
) -> bool {
    match descend(pa, pb, pg) {
        Some((b, o, t)) => n > 0 && merge_stored(trees, b, o, t, (n - 1) as nat),
        None => true,
    }
}

/// Why a merge is refused: at a directory that both sides have changed a tree is lacking,
/// or the merged entries are too many, or the directories are nested too deeply.
#[verifier::opaque]
pub open spec fn merge_refused<S: TreeStore>(
    store: S,
    t: Map<ObjectId, Seq<Entry>>,
    base: Option<ObjectId>,
    ours: ObjectId,
    theirs: ObjectId,
    n: nat,
    e: Error,
) -> bool
    decreases n,
{
    let es = merged_entries(t, base, ours, theirs, n);
    unsettled(base, ours, theirs) && {
        ||| lacking(store, ours, e)
        ||| lacking(store, theirs, e)
        ||| base matches Some(b) && lacking(store, b, e)
        ||| !tree_encodable(es) && told(e, unencodable(es))
        ||| exists|name: Seq<char>|
            {
                let (pa, pb, pg) = #[trigger] three(t, base, ours, theirs, name);
                match descend(pa, pb, pg) {
                    Some((b, o, th)) => if n > 0 {
                        merge_refused(store, t, b, o, th, (n - 1) as nat, e)
                    } else {
                        too_deep(e)
                    },
                    None => false,
                }
            }
    }
}

/// As `merge_refused`, for one name, given what the three trees have there.
pub open spec fn name_refused<S: TreeStore>(
    store: S,
    t: Map<ObjectId, Seq<Entry>>,
    pa: Option<Entry>,
    pb: Option<Entry>,
    pg: Option<Entry>,
    n: nat,
    e: Error,
) -> bool {
    match descend(pa, pb, pg) {
        Some((b, o, th)) => if n > 0 {
            merge_refused(store, t, b, o, th, (n - 1) as nat, e)
        } else {
            too_deep(e)
        },
        None => false,
    }
}

proof fn lemma_merge_sheltered_here(
    t: Map<ObjectId, Seq<Entry>>,
    base: Option<ObjectId>,
    ours: ObjectId,
    theirs: ObjectId,
    n: nat,
)
    requires
        merge_sheltered(t, base, ours, theirs, n),
        unsettled(base, ours, theirs),
    ensures
        tree_encodable(merged_entries(t, base, ours, theirs, n)) ==> has_tree(
            t,
            merged_entries(t, base, ours, theirs, n),
        ),
        forall|name: Seq<char>|
            {
                let (pa, pb, pg) = #[trigger] three(t, base, ours, theirs, name);
                name_sheltered(t, pa, pb, pg, n)
            },
{
    reveal_with_fuel(merge_sheltered, 1);
}

proof fn lemma_merge_refused_here<S: TreeStore>(
    store: S,
    t: Map<ObjectId, Seq<Entry>>,
    base: Option<ObjectId>,
    ours: ObjectId,
    theirs: ObjectId,
    n: nat,
    e: Error,
)
    requires
        unsettled(base, ours, theirs),
        ({
            let es = merged_entries(t, base, ours, theirs, n);
            ||| lacking(store, ours, e)
            ||| lacking(store, theirs, e)
            ||| base matches Some(b) && lacking(store, b, e)
            ||| !tree_encodable(es) && told(e, unencodable(es))
        }),
    ensures
        merge_refused(store, t, base, ours, theirs, n, e),
{
    reveal_with_fuel(merge_refused, 1);
}

proof fn lemma_merge_refused_before<S: TreeStore>(
    before: S,
    after: S,
    t: Map<ObjectId, Seq<Entry>>,
    base: Option<ObjectId>,
    ours: ObjectId,
    theirs: ObjectId,
    n: nat,
    e: Error,
)
    requires
        recedes(before, after),
        extends(before.trees(), after.trees()),
        merge_refused(after, t, base, ours, theirs, n, e),
    ensures
        merge_refused(before, t, base, ours, theirs, n, e),
    decreases n,
{
    reveal_with_fuel(merge_refused, 1);
    if lacking(after, ours, e) {
        lemma_lacking_before(before, after, ours, e);
    }
    if lacking(after, theirs, e) {
        lemma_lacking_before(before, after, theirs, e);
    }
    if base is Some && lacking(after, base->0, e) {
        lemma_lacking_before(before, after, base->0, e);
    }
    assert forall|name: Seq<char>|
        {
            let (pa, pb, pg) = #[trigger] three(t, base, ours, theirs, name);
            name_refused(after, t, pa, pb, pg, n, e) ==> name_refused(before, t, pa, pb, pg, n, e)
        } by {
        let (pa, pb, pg) = three(t, base, ours, theirs, name);
        if name_refused(after, t, pa, pb, pg, n, e) && n > 0 {
            let (b, o, th) = descend(pa, pb, pg)->0;
            lemma_merge_refused_before(before, after, t, b, o, th, (n - 1) as nat, e);
        }
    }
}

proof fn lemma_merge_refused_name<S: TreeStore>(
    before: S,
    after: S,
    t: Map<ObjectId, Seq<Entry>>,
    base: Option<ObjectId>,
    ours: ObjectId,
    theirs: ObjectId,
    n: nat,
    e: Error,
    name: Seq<char>,
)
    requires
        unsettled(base, ours, theirs),
        recedes(before, after),
        extends(before.trees(), after.trees()),
        ({
            let (pa, pb, pg) = three(t, base, ours, theirs, name);
            name_refused(after, t, pa, pb, pg, n, e)
        }),
    ensures
        merge_refused(before, t, base, ours, theirs, n, e),
{
    let (pa, pb, pg) = three(t, base, ours, theirs, name);
    if n > 0 {
        let (b, o, th) = descend(pa, pb, pg)->0;
        lemma_merge_refused_before(before, after, t, b, o, th, (n - 1) as nat, e);
    }
    reveal_with_fuel(merge_refused, 1);
}

/// The conflict that a path value reports.
pub open spec fn clash_of(v: PathValue) -> Clash {
    Clash { a: v.a, b: v.b, base: v.base }
}

/// No path is reported twice.
pub open spec fn paths_differ(v: Seq<PathValue>) -> bool {
    forall|i: int, j: int| 0 <= i < j < v.len() ==> (#[trigger] v[i]).path != (#[trigger] v[j]).path
}

/// The list reports the conflicts of a merge below a directory.
#[verifier::opaque]
pub open spec fn reports(
    v: Seq<PathValue>,
    prefix: Seq<char>,
    trees: Map<ObjectId, Seq<Entry>>,
    base: Option<ObjectId>,
    ours: ObjectId,
    theirs: ObjectId,
) -> bool {
    &&& paths_differ(v)
    &&& forall|x: PathValue| #[trigger]
        v.contains(x) <==> lies_in(prefix, x.path) && clash(
            trees,
            base,
            ours,
            theirs,
            from_dir(prefix, x.path),
        ) == Some(clash_of(x))
}

/// The list reports the conflicts at and below one name of a directory.
#[verifier::opaque]
spec fn reports_name(
    v: Seq<PathValue>,
    prefix: Seq<char>,
    name: Seq<char>,
    trees: Map<ObjectId, Seq<Entry>>,
    pa: Option<Entry>,
    pb: Option<Entry>,
    pg: Option<Entry>,
) -> bool {
    &&& paths_differ(v)
    &&& forall|x: PathValue| #[trigger]
        v.contains(x) <==> lies_in(prefix, x.path) && head_name(from_dir(prefix, x.path)) == name
            && clash_below(trees, pa, pb, pg, from_dir(prefix, x.path)) == Some(clash_of(x))
}

/// The list reports the conflicts at and below some names of a directory.
#[verifier::opaque]
spec fn reports_names(
    v: Seq<PathValue>,
    prefix: Seq<char>,
    names: Seq<Seq<char>>,
    trees: Map<ObjectId, Seq<Entry>>,
    base: Option<ObjectId>,
    ours: ObjectId,
    theirs: ObjectId,
) -> bool {
    &&& paths_differ(v)
    &&& forall|x: PathValue| #[trigger]
        v.contains(x) <==> lies_in(prefix, x.path) && names.contains(
            head_name(from_dir(prefix, x.path)),
        ) && clash(trees, base, ours, theirs, from_dir(prefix, x.path)) == Some(clash_of(x))
}

/// The entries that a merge makes of some names.
#[verifier::opaque]
spec fn made_of_names(
    es: Seq<Entry>,
    names: Seq<Seq<char>>,
    at: spec_fn(Seq<char>) -> Option<Entry>,
) -> bool {
    &&& names_increasing(es)
    &&& forall|e: Entry| #[trigger]
        es.contains(e) <==> names.contains(e.name) && at(e.name) == Some(e)
}

proof fn lemma_quiet_name(
    prefix: Seq<char>,
    name: Seq<char>,
    trees: Map<ObjectId, Seq<Entry>>,
    pa: Option<Entry>,
    pb: Option<Entry>,
    pg: Option<Entry>,
)
    requires
        name_clash(pa, pb, pg) is None,
        descend(pa, pb, pg) is None,
    ensures
        reports_name(Seq::<PathValue>::empty(), prefix, name, trees, pa, pb, pg),
{
    reveal(reports_name);
    let v = Seq::<PathValue>::empty();
    assert forall|x: PathValue| #[trigger] v.contains(x) <==> lies_in(prefix, x.path) && head_name(
        from_dir(prefix, x.path),
    ) == name && clash_below(trees, pa, pb, pg, from_dir(prefix, x.path)) == Some(clash_of(x)) by {
    }
}

proof fn lemma_direct_clash(
    prefix: Seq<char>,
    name: Seq<char>,
    trees: Map<ObjectId, Seq<Entry>>,
    pa: Option<Entry>,
    pb: Option<Entry>,
    pg: Option<Entry>,
    v: PathValue,
)
    requires
        !name.contains('/'),
        name_clash(pa, pb, pg) == Some(clash_of(v)),
        descend(pa, pb, pg) is None,
        v.path == join(prefix, name),
    ensures
        reports_name(seq![v], prefix, name, trees, pa, pb, pg),
{
    reveal(reports_name);
    lemma_slash_bounds(name);
    lemma_join(prefix, name);
    let s = seq![v];
    assert forall|x: PathValue| #[trigger] s.contains(x) <==> lies_in(prefix, x.path) && head_name(
        from_dir(prefix, x.path),
    ) == name && clash_below(trees, pa, pb, pg, from_dir(prefix, x.path)) == Some(clash_of(x)) by {
        if s.contains(x) {
            assert(x == v);
        }
        if lies_in(prefix, x.path) && head_name(from_dir(prefix, x.path)) == name && clash_below(
            trees,
            pa,
            pb,
            pg,
            from_dir(prefix, x.path),
        ) == Some(clash_of(x)) {
            assert(!nested(from_dir(prefix, x.path)));
            lemma_from_dir(prefix, x.path);
            assert(x == v);
            assert(s[0] == v);
        }
    }
}

proof fn lemma_clash_below_dir(
    v: Seq<PathValue>,
    prefix: Seq<char>,
    name: Seq<char>,
    trees: Map<ObjectId, Seq<Entry>>,
    pa: Option<Entry>,
    pb: Option<Entry>,
    pg: Option<Entry>,
    b: Option<ObjectId>,
    o: ObjectId,
    t: ObjectId,
)
    requires
        valid_name(name),
        descend(pa, pb, pg) == Some((b, o, t)),
        reports(v, join(prefix, name), trees, b, o, t),
    ensures
        reports_name(v, prefix, name, trees, pa, pb, pg),
{
    reveal(reports);
    reveal(reports_name);
    lemma_slash_bounds(name);
    assert forall|x: PathValue| #[trigger] v.contains(x) <==> lies_in(prefix, x.path) && head_name(
        from_dir(prefix, x.path),
    ) == name && clash_below(trees, pa, pb, pg, from_dir(prefix, x.path)) == Some(clash_of(x)) by {
        lemma_lies_in_child(prefix, name, x.path);
    }
}

proof fn lemma_reports_step(
    v: Seq<PathValue>,
    w: Seq<PathValue>,
    prefix: Seq<char>,
    names: Seq<Seq<char>>,
    name: Seq<char>,
    trees: Map<ObjectId, Seq<Entry>>,
    base: Option<ObjectId>,
    ours: ObjectId,
    theirs: ObjectId,
)
    requires
        unsettled(base, ours, theirs),
        !names.contains(name),
        reports_names(v, prefix, names, trees, base, ours, theirs),
        ({
            let (pa, pb, pg) = three(trees, base, ours, theirs, name);
            reports_name(w, prefix, name, trees, pa, pb, pg)
        }),
    ensures
        reports_names(v + w, prefix, names.push(name), trees, base, ours, theirs),
{
    reveal(reports_names);
    reveal(reports_name);
    let s = v + w;
    assert forall|x: PathValue| #[trigger] s.contains(x) <==> v.contains(x) || w.contains(x) by {
        if v.contains(x) {
            let i = choose|i: int| 0 <= i < v.len() && v[i] == x;
            assert(s[i] == x);
        }
        if w.contains(x) {
            let i = choose|i: int| 0 <= i < w.len() && w[i] == x;
            assert(s[v.len() + i] == x);
        }
        if s.contains(x) {
            let i = choose|i: int| 0 <= i < s.len() && s[i] == x;
            if i < v.len() {
                assert(v[i] == x);
            } else {
                assert(w[i - v.len()] == x);
            }
        }
    }
    assert forall|x: PathValue| #[trigger] s.contains(x) <==> lies_in(prefix, x.path)
        && names.push(name).contains(head_name(from_dir(prefix, x.path))) && clash(
        trees,
        base,
        ours,
        theirs,
        from_dir(prefix, x.path),
    ) == Some(clash_of(x)) by {
        lemma_contains_push(names, name, head_name(from_dir(prefix, x.path)));
        assert(v.contains(x) || !v.contains(x));
        assert(w.contains(x) || !w.contains(x));
    }
    assert forall|i: int, j: int| 0 <= i < j < s.len() implies (#[trigger] s[i]).path != (
    #[trigger] s[j]).path by {
        if j < v.len() {
            assert(v[i].path != v[j].path);
        } else if i >= v.len() {
            assert(w[i - v.len()].path != w[j - v.len()].path);
        } else {
            assert(v.contains(v[i]));
            assert(w.contains(w[j - v.len()]));
        }
    }
}

proof fn lemma_made_step(
    es: Seq<Entry>,
    fs: Seq<Entry>,
    names: Seq<Seq<char>>,
    name: Seq<char>,
    at: spec_fn(Seq<char>) -> Option<Entry>,
)
    requires
        made_of_names(es, names, at),
        !names.contains(name),
        forall|k: Seq<char>| #[trigger] names.contains(k) ==> text_before(k, name),
        fs == (match at(name) {
            Some(e) => es.push(e),
            None => es,
        }),
        at(name) matches Some(e) ==> e.name == name,
    ensures
        made_of_names(fs, names.push(name), at),
{
    reveal(made_of_names);
    assert forall|e: Entry| #[trigger] fs.contains(e) <==> names.push(name).contains(e.name) && at(
        e.name,
    ) == Some(e) by {
        lemma_contains_push(names, name, e.name);
        if let Some(x) = at(name) {
            lemma_contains_push(es, x, e);
        }
        assert(es.contains(e) <==> names.contains(e.name) && at(e.name) == Some(e));
    }
    assert forall|i: int, j: int| 0 <= i < j < fs.len() implies text_before(
        (#[trigger] fs[i]).name,
        (#[trigger] fs[j]).name,
    ) by {
        if j < es.len() {
            assert(text_before(es[i].name, es[j].name));
        } else {
            assert(es.contains(es[i]));
        }
    }
}

/// Entries that are made name by name, in order of the names, are in order.
proof fn lemma_increasing_step(
    es: Seq<Entry>,
    fs: Seq<Entry>,
    names: Seq<Seq<char>>,
    name: Seq<char>,
    made: Option<Entry>,
)
    requires
        names_increasing(es),
        forall|e: Entry| #[trigger] es.contains(e) ==> names.contains(e.name),
        forall|k: Seq<char>| #[trigger] names.contains(k) ==> text_before(k, name),
        bears(made, name),
        fs == (match made {
            Some(e) => es.push(e),
            None => es,
        }),
    ensures
        names_increasing(fs),
        forall|e: Entry| #[trigger] fs.contains(e) ==> names.push(name).contains(e.name),
{
    assert forall|e: Entry| #[trigger] fs.contains(e) implies names.push(name).contains(e.name) by {
        lemma_contains_push(names, name, e.name);
        if let Some(x) = made {
            lemma_contains_push(es, x, e);
        }
        assert(es.contains(e) ==> names.contains(e.name));
    }
    assert forall|i: int, j: int| 0 <= i < j < fs.len() implies text_before(
        (#[trigger] fs[i]).name,
        (#[trigger] fs[j]).name,
    ) by {
        if j < es.len() {
            assert(text_before(es[i].name, es[j].name));
        } else {
            assert(es.contains(es[i]));
        }
    }
}

/// All names of three trees, in order.
fn all_names(a: &Tree, b: &Tree, g: &Tree) -> (r: TextMap<bool>)
    ensures
        r.ordered(),
        forall|k: Seq<char>| #[trigger]
            r.has(k) <==> entry_named(a@, k) is Some || entry_named(b@, k) is Some || entry_named(
                g@,
                k,
            ) is Some,
{
    let mut m: TextMap<bool> = TextMap::new();
    add_names(&mut m, a);
    add_names(&mut m, b);
    add_names(&mut m, g);
    let n = m.len();
    m
}

fn add_names(m: &mut TextMap<bool>, t: &Tree)
    ensures
        forall|k: Seq<char>| #[trigger]
            final(m).has(k) <==> old(m).has(k) || entry_named(t@, k) is Some,
{
    let mut i: usize = 0;
    while i < t.entries.len()
        invariant
            i <= t.entries@.len(),
            forall|k: Seq<char>| #[trigger]
                m.has(k) <==> old(m).has(k) || exists|j: int|
                    0 <= j < i && (#[trigger] t@[j]).name == k,
        decreases t.entries@.len() - i,
    {
        let ghost before = *m;
        m.insert(t.entries[i].name.clone(), true);
        proof {
            assert(t@[i as int].name == t.entries@[i as int].name@);
            assert forall|k: Seq<char>| #[trigger] m.has(k) <==> old(m).has(k) || exists|j: int|
                0 <= j < i + 1 && (#[trigger] t@[j]).name == k by {
                assert(m.has(k) <==> before.has(k) || k == t@[i as int].name);
            }
        }
        i += 1;
    }
}

/// `after` is `before` with more behind it.
pub open spec fn appended(before: Seq<ConflictPath>, after: Seq<ConflictPath>) -> bool {
    before.len() <= after.len() && after.take(before.len() as int) == before
}

/// What has been appended.
pub open spec fn news(before: Seq<ConflictPath>, after: Seq<ConflictPath>) -> Seq<PathValue> {
    path_values(after.skip(before.len() as int))
}

/// The value of an optional entry.
pub open spec fn entry_value(e: Option<TreeEntry>) -> Option<Entry> {
    match e {
        Some(e) => Some(e@),
        None => None,
    }
}

/// What is looked up for a name has that name.
pub open spec fn bears(e: Option<Entry>, name: Seq<char>) -> bool {
    e matches Some(x) ==> x.name == name
}

fn unchanged_in(g: &Option<TreeEntry>, x: &TreeEntry) -> (r: bool)
    ensures
        r == unchanged(entry_value(*g), x@),
{
    match g {
        Some(e) => same_entry(e, x),
        None => false,
    }
}

fn push_conflict(
    conflicts: &mut Vec<ConflictPath>,
    path: String,
    a: Option<ObjectId>,
    b: Option<ObjectId>,
    g: &Option<TreeEntry>,
)
    ensures
        appended(old(conflicts)@, final(conflicts)@),
        news(old(conflicts)@, final(conflicts)@) == seq![
            PathValue { path: path@, a, b, base: id_of(entry_value(*g)) },
        ],
{
    let base = match g {
        Some(e) => Some(e.id),
        None => None,
    };
    conflicts.push(ConflictPath { path, a, b, base });
    proof {
        assert(conflicts@.take(old(conflicts)@.len() as int) =~= old(conflicts)@);
        assert(news(old(conflicts)@, conflicts@) =~= seq![
            PathValue { path: path@, a, b, base: id_of(entry_value(*g)) },
        ]);
    }
}

proof fn lemma_no_news(v: Seq<ConflictPath>)
    ensures
        appended(v, v),
        news(v, v) == Seq::<PathValue>::empty(),
{
    assert(v.take(v.len() as int) =~= v);
    assert(news(v, v) =~= Seq::<PathValue>::empty());
}

proof fn lemma_news_chain(a: Seq<ConflictPath>, b: Seq<ConflictPath>, c: Seq<ConflictPath>)
    requires
        appended(a, b),
        appended(b, c),
    ensures
        appended(a, c),
        news(a, c) == news(a, b) + news(b, c),
{
    assert(c.take(a.len() as int) =~= a) by {
        assert forall|i: int| 0 <= i < a.len() implies c[i] == a[i] by {
            assert(c.take(b.len() as int)[i] == c[i]);
            assert(b.take(a.len() as int)[i] == b[i]);
        }
    }
    assert(news(a, c) =~= news(a, b) + news(b, c)) by {
        assert forall|i: int| 0 <= i < c.len() - a.len() implies news(a, c)[i] == (news(a, b)
            + news(b, c))[i] by {
            if i < b.len() - a.len() {
                assert(c.take(b.len() as int)[a.len() + i] == b[a.len() + i]);
            }
        }
    }
}

/// Merge one name of a directory.
fn merge_name<S: TreeStore>(
    store: &mut S,
    prefix: &str,
    name: &str,
    pa: Option<TreeEntry>,
    pb: Option<TreeEntry>,
    pg: Option<TreeEntry>,
    conflicts: &mut Vec<ConflictPath>,
    depth: u64,
) -> (r: Result<Option<TreeEntry>, Error>)
    requires
        old(store).sane(),
        valid_name(name@),
        bears(entry_value(pa), name@),
        bears(entry_value(pb), name@),
    ensures
        final(store).sane(),
        extends(old(store).trees(), final(store).trees()),
        old(store).steady() ==> final(store).steady(),
        recedes(*old(store), *final(store)),
        forall|t: Map<ObjectId, Seq<Entry>>| #[trigger]
            name_sheltered(
                t,
                entry_value(pa),
                entry_value(pb),
                entry_value(pg),
                depth as nat,
            ) && agrees(*old(store), t) && old(store).steady() ==> match r {
                Ok(_) => agrees(*final(store), t),
                Err(e) => name_refused(
                    *old(store),
                    t,
                    entry_value(pa),
                    entry_value(pb),
                    entry_value(pg),
                    depth as nat,
                    e,
                ),
            },
        old(store).confused() ==> final(store).confused(),
        r matches Ok(e) ==> {
            &&& appended(old(conflicts)@, final(conflicts)@)
            &&& bears(entry_value(e), name@)
            &&& !final(store).confused() ==> forall|t: Map<ObjectId, Seq<Entry>>| #[trigger]
                extends(final(store).trees(), t) ==> {
                    &&& entry_value(e) == merged_entry(
                        t,
                        entry_value(pa),
                        entry_value(pb),
                        entry_value(pg),
                        depth as nat,
                    )
                    &&& name_read(
                        t,
                        entry_value(pa),
                        entry_value(pb),
                        entry_value(pg),
                        depth as nat,
                    )
                    &&& name_stored(
                        t,
                        entry_value(pa),
                        entry_value(pb),
                        entry_value(pg),
                        depth as nat,
                    )
                    &&& reports_name(
                        news(old(conflicts)@, final(conflicts)@),
                        prefix@,
                        name@,
                        t,
                        entry_value(pa),
                        entry_value(pb),
                        entry_value(pg),
                    )
                }
        },
    decreases depth, 0int,
{
    let ghost va = entry_value(pa);
    let ghost vb = entry_value(pb);
    let ghost vg = entry_value(pg);
    let ghost c0 = conflicts@;
    proof {
        lemma_no_news(c0);
        if name_clash(va, vb, vg) is None && descend(va, vb, vg) is None {
            assert forall|t: Map<ObjectId, Seq<Entry>>| reports_name(
                Seq::<PathValue>::empty(),
                prefix@,
                name@,
                t,
                va,
                vb,
                vg,
            ) by {
                lemma_quiet_name(prefix@, name@, t, va, vb, vg);
            }
        }
        assert forall|t: Map<ObjectId, Seq<Entry>>, v: PathValue|
            name_clash(va, vb, vg) == Some(clash_of(v)) && descend(va, vb, vg) is None && v.path
                == join(prefix@, name@) implies #[trigger] reports_name(
            seq![v],
            prefix@,
            name@,
            t,
            va,
            vb,
            vg,
        ) by {
            lemma_direct_clash(prefix@, name@, t, va, vb, vg, v);
        }
    }
    let x = match pa {
        Some(x) => x,
        None => {
            let y = match pb {
                Some(y) => y,
                None => return Ok(None),
            };
            if pg.is_none() {
                return Ok(Some(y));
            }
            if !unchanged_in(&pg, &y) {
                push_conflict(conflicts, join_path(prefix, name), None, Some(y.id), &pg);
            }
            return Ok(None);
        },
    };
    let y = match pb {
        Some(y) => y,
        None => {
            if pg.is_none() {
                return Ok(Some(x));
            }
            if !unchanged_in(&pg, &x) {
                push_conflict(conflicts, join_path(prefix, name), Some(x.id), None, &pg);
            }
            return Ok(None);
        },
    };
    if same_entry(&x, &y) {
        return Ok(Some(x));
    }
    if unchanged_in(&pg, &x) {
        return Ok(Some(y));
    }
    if unchanged_in(&pg, &y) {
        return Ok(Some(x));
    }
    if x.kind == EntryKind::Tree && y.kind == EntryKind::Tree {
        let base_subtree: Option<ObjectId> = match &pg {
            Some(g) => if g.kind == EntryKind::Tree {
                Some(g.id)
            } else {
                None
            },
            None => None,
        };
        if depth == 0 {
            return Err(Error::Corrupt("trees are nested too deeply".to_string()));
        }
        let path = join_path(prefix, name);
        proof {
            assert forall|t: Map<ObjectId, Seq<Entry>>| #[trigger]
                name_sheltered(t, va, vb, vg, depth as nat) implies merge_sheltered(
                t,
                base_subtree,
                x.id,
                y.id,
                (depth - 1) as nat,
            ) by {
                assert(descend(va, vb, vg) == Some((base_subtree, x.id, y.id)));
            }
        }
        let merged = merge_dirs(
            store,
            path.as_str(),
            base_subtree,
            x.id,
            y.id,
            conflicts,
            depth - 1,
        )?;
        proof {
            assert forall|t: Map<ObjectId, Seq<Entry>>| #[trigger] extends(
                store.trees(),
                t,
            ) && !store.confused() implies reports_name(news(c0, conflicts@), prefix@, name@, t, va, vb, vg) by {
                lemma_clash_below_dir(
                    news(c0, conflicts@),
                    prefix@,
                    name@,
                    t,
                    va,
                    vb,
                    vg,
                    base_subtree,
                    x.id,
                    y.id,
                );
            }
        }
        let e = TreeEntry { name: x.name, kind: x.kind, id: merged, executable: x.executable };
        return Ok(Some(e));
    }
    push_conflict(conflicts, join_path(prefix, name), Some(x.id), Some(y.id), &pg);
    Ok(Some(x))
}

/// Merge two trees with a common base, or none. Conflicts are appended with
/// their paths, and the merged trees are stored. A steady store owes success
/// where every tree that is compared is stored, every tree that is made can be
/// encoded, and no id of one is taken by something else.
pub fn merge_trees<S: TreeStore>(
    store: &mut S,
    prefix: &str,
    base: Option<ObjectId>,
    ours: ObjectId,
    theirs: ObjectId,
    conflicts: &mut Vec<ConflictPath>,
    depth: u64,
) -> (r: Result<ObjectId, Error>)
    requires
        old(store).sane(),
    ensures
        final(store).sane(),
        extends(old(store).trees(), final(store).trees()),
        old(store).steady() ==> final(store).steady(),
        recedes(*old(store), *final(store)),
        forall|t: Map<ObjectId, Seq<Entry>>| #[trigger]
            merge_sheltered(t, base, ours, theirs, depth as nat) && agrees(*old(store), t)
                && old(store).steady() ==> match r {
                Ok(_) => agrees(*final(store), t) && merge_stored(
                    final(store).trees(),
                    base,
                    ours,
                    theirs,
                    depth as nat,
                ),
                Err(e) => merge_refused(
                    *old(store),
                    t,
                    base,
                    ours,
                    theirs,
                    depth as nat,
                    e,
                ),
            },
        old(store).confused() ==> final(store).confused(),
        r matches Ok(id) ==> {
            &&& appended(old(conflicts)@, final(conflicts)@)
            &&& !final(store).confused() ==> forall|t: Map<ObjectId, Seq<Entry>>| #[trigger]
                extends(final(store).trees(), t) ==> {
                    &&& id == merged_tree(t, base, ours, theirs, depth as nat)
                    &&& merge_read(t, base, ours, theirs, depth as nat)
                    &&& merge_stored(t, base, ours, theirs, depth as nat)
                    &&& merged_or_told(
                        news(old(conflicts)@, final(conflicts)@),
                        prefix@,
                        t,
                        base,
                        ours,
                        theirs,
                        id,
                    )
                    &&& reports(
                        news(old(conflicts)@, final(conflicts)@),
                        prefix@,
                        t,
                        base,
                        ours,
                        theirs,
                    )
                }
        },
{
    let r = merge_dirs(store, prefix, base, ours, theirs, conflicts, depth);
    proof {
        if r is Ok && !store.confused() {
            let v = news(old(conflicts)@, conflicts@);
            assert forall|t: Map<ObjectId, Seq<Entry>>| #[trigger]
                extends(store.trees(), t) implies merged_or_told(
                v,
                prefix@,
                t,
                base,
                ours,
                theirs,
                r->Ok_0,
            ) by {
                lemma_merged_or_told(v, prefix@, t, base, ours, theirs, depth as nat);
            }
        }
    }
    r
}

/// As `merge_trees`, for a directory.
fn merge_dirs<S: TreeStore>(
    store: &mut S,
    prefix: &str,
    base: Option<ObjectId>,
    ours: ObjectId,
    theirs: ObjectId,
    conflicts: &mut Vec<ConflictPath>,
    depth: u64,
) -> (r: Result<ObjectId, Error>)
    requires
        old(store).sane(),
    ensures
        final(store).sane(),
        extends(old(store).trees(), final(store).trees()),
        old(store).steady() ==> final(store).steady(),
        recedes(*old(store), *final(store)),
        forall|t: Map<ObjectId, Seq<Entry>>| #[trigger]
            merge_sheltered(t, base, ours, theirs, depth as nat) && agrees(*old(store), t)
                && old(store).steady() ==> match r {
                Ok(_) => agrees(*final(store), t) && merge_stored(
                    final(store).trees(),
                    base,
                    ours,
                    theirs,
                    depth as nat,
                ),
                Err(e) => merge_refused(
                    *old(store),
                    t,
                    base,
                    ours,
                    theirs,
                    depth as nat,
                    e,
                ),
            },
        old(store).confused() ==> final(store).confused(),
        r matches Ok(id) ==> {
            &&& appended(old(conflicts)@, final(conflicts)@)
            &&& !final(store).confused() ==> forall|t: Map<ObjectId, Seq<Entry>>| #[trigger]
                extends(final(store).trees(), t) ==> {
                    &&& id == merged_tree(t, base, ours, theirs, depth as nat)
                    &&& merge_read(t, base, ours, theirs, depth as nat)
                    &&& merge_stored(t, base, ours, theirs, depth as nat)
                    &&& reports(
                        news(old(conflicts)@, final(conflicts)@),
                        prefix@,
                        t,
                        base,
                        ours,
                        theirs,
                    )
                }
        },
    decreases depth, 1int,
{
    let ghost c0 = conflicts@;
    proof {
        lemma_no_news(c0);
        reveal(reports);
        if !unsettled(base, ours, theirs) {
            reveal_with_fuel(merge_read, 1);
            reveal_with_fuel(merge_stored, 1);
        }
        assert(extends(store.trees(), store.trees()));
    }
    if ours.same(&theirs) {
        return Ok(ours);
    }
    if let Some(b) = base {
        if ours.same(&b) {
            return Ok(theirs);
        }
        if theirs.same(&b) {
            return Ok(ours);
        }
    }
    let ghost t0 = store.trees();
    proof {
        assert forall|t: Map<ObjectId, Seq<Entry>>, e: Error| #![trigger
            merge_refused(*old(store), t, base, ours, theirs, depth as nat, e)]
            lacking(*old(store), ours, e) || lacking(*old(store), theirs, e) || (
            base matches Some(b) && lacking(*old(store), b, e)) implies merge_refused(
            *old(store),
            t,
            base,
            ours,
            theirs,
            depth as nat,
            e,
        ) by {
            lemma_merge_refused_here(*old(store), t, base, ours, theirs, depth as nat, e);
        }
    }
    let a = store.get_tree(ours)?;
    let b = store.get_tree(theirs)?;
    let g = match base {
        Some(id) => store.get_tree(id)?,
        None => {
            let e = Tree { entries: Vec::new() };
            assert(e@ =~= Seq::<Entry>::empty());
            e
        },
    };
    let names = all_names(&a, &b, &g);
    let count = names.len();
    let ghost ks = names.key_list();
    let mut out: Vec<TreeEntry> = Vec::new();
    let mut i: usize = 0;
    proof {
        assert(ks.take(0) =~= Seq::<Seq<char>>::empty());
        assert(entry_values(out@) =~= Seq::<Entry>::empty());
        assert forall|t: Map<ObjectId, Seq<Entry>>| #[trigger] extends(t0, t) implies made_of_names(
            entry_values(out@),
            ks.take(0),
            merged_at(t, base, ours, theirs, depth as nat),
        ) && reports_names(
            Seq::<PathValue>::empty(),
            prefix@,
            ks.take(0),
            t,
            base,
            ours,
            theirs,
        ) by {
            reveal(made_of_names);
            reveal(reports_names);
        }
    }
    while i < count
        invariant
            i <= count,
            count == ks.len(),
            ks == names.key_list(),
            names.ordered(),
            unsettled(base, ours, theirs),
            canonical(a@),
            canonical(b@),
            canonical(g@),
            t0 == old(store).trees(),
            old(store).confused() ==> store.confused(),
            !old(store).confused() ==> {
                &&& t0.dom().contains(ours)
                &&& t0[ours] == a@
                &&& t0.dom().contains(theirs)
                &&& t0[theirs] == b@
                &&& base matches Some(id) ==> t0.dom().contains(id) && t0[id] == g@
            },
            base is None ==> g@ == Seq::<Entry>::empty(),
            names_increasing(entry_values(out@)),
            forall|e: Entry| #[trigger]
                entry_values(out@).contains(e) ==> ks.take(i as int).contains(e.name),
            forall|k: Seq<char>| #[trigger]
                names.has(k) <==> entry_named(a@, k) is Some || entry_named(b@, k) is Some
                    || entry_named(g@, k) is Some,
            store.sane(),
            extends(t0, store.trees()),
            old(store).steady() ==> store.steady(),
            recedes(*old(store), *store),
            forall|t: Map<ObjectId, Seq<Entry>>| #[trigger]
                merge_sheltered(t, base, ours, theirs, depth as nat) && agrees(*old(store), t)
                    && old(store).steady() ==> agrees(*store, t),
            appended(c0, conflicts@),
            forall|t: Map<ObjectId, Seq<Entry>>, j: int|
                #![trigger extends(store.trees(), t), ks[j]]
                !store.confused() && extends(store.trees(), t) && 0 <= j < i ==> {
                    let (pa, pb, pg) = three(t, base, ours, theirs, ks[j]);
                    name_read(t, pa, pb, pg, depth as nat) && name_stored(
                        t,
                        pa,
                        pb,
                        pg,
                        depth as nat,
                    )
                },
            !store.confused() ==> forall|t: Map<ObjectId, Seq<Entry>>| #[trigger]
                extends(store.trees(), t) ==> made_of_names(
                    entry_values(out@),
                    ks.take(i as int),
                    merged_at(t, base, ours, theirs, depth as nat),
                ) && reports_names(
                    news(c0, conflicts@),
                    prefix@,
                    ks.take(i as int),
                    t,
                    base,
                    ours,
                    theirs,
                ),
        decreases count - i,
    {
        let name = names.key(i);
        let ghost k = ks[i as int];
        let pa = find_entry(&a, name.as_str());
        let pb = find_entry(&b, name.as_str());
        let pg = find_entry(&g, name.as_str());
        let ghost va = entry_value(pa);
        let ghost vb = entry_value(pb);
        let ghost vg = entry_value(pg);
        proof {
            assert(names.has(k));
            lemma_named_valid(a@, k);
            lemma_named_valid(b@, k);
            lemma_named_valid(g@, k);
        }
        let ghost t1 = store.trees();
        let ghost c1 = conflicts@;
        let ghost prior = *store;
        proof {
            assert forall|t: Map<ObjectId, Seq<Entry>>| #[trigger]
                merge_sheltered(t, base, ours, theirs, depth as nat) && agrees(*old(store), t)
                    && old(store).steady() implies three(t, base, ours, theirs, k) == (va, vb, vg)
                && name_sheltered(t, va, vb, vg, depth as nat) by {
                assert(agrees(*store, t));
                lemma_extends_chain(t0, t1, t);
                assert(three(t, base, ours, theirs, k) == (va, vb, vg));
                lemma_merge_sheltered_here(t, base, ours, theirs, depth as nat);
            }
        }
        let outcome = merge_name(
            store,
            prefix,
            name.as_str(),
            pa,
            pb,
            pg,
            conflicts,
            depth,
        );
        proof {
            lemma_recedes_trans(*old(store), prior, *store);
            lemma_extends_chain(t0, t1, store.trees());
        }
        let merged = match outcome {
            Ok(merged) => merged,
            Err(e) => {
                proof {
                    assert forall|t: Map<ObjectId, Seq<Entry>>| #[trigger]
                        merge_sheltered(t, base, ours, theirs, depth as nat) && agrees(
                            *old(store),
                            t,
                        ) && old(store).steady() implies merge_refused(
                        *old(store),
                        t,
                        base,
                        ours,
                        theirs,
                        depth as nat,
                        e,
                    ) by {
                        assert(three(t, base, ours, theirs, k) == (va, vb, vg));
                        lemma_merge_refused_name(
                            *old(store),
                            prior,
                            t,
                            base,
                            ours,
                            theirs,
                            depth as nat,
                            e,
                            k,
                        );
                    }
                }
                return Err(e);
            },
        };
        let ghost before = entry_values(out@);
        let ghost res = entry_value(merged);
        let ghost t2 = store.trees();
        if let Some(e) = merged {
            out.push(e);
        }
        proof {
            lemma_extends_chain(t0, t1, t2);
            lemma_news_chain(c0, c1, conflicts@);
            assert(ks.take(i + 1) =~= ks.take(i as int).push(k));
            assert(entry_values(out@) =~= (match res {
                Some(e) => before.push(e),
                None => before,
            }));
            assert forall|n: Seq<char>| #[trigger] ks.take(i as int).contains(n) implies text_before(
                n,
                k,
            ) by {
                let j = choose|j: int| 0 <= j < i && ks.take(i as int)[j] == n;
                assert(text_before(ks[j], ks[i as int]));
            }
            assert(!ks.take(i as int).contains(k)) by {
                if ks.take(i as int).contains(k) {
                    let j = choose|j: int| 0 <= j < i && ks.take(i as int)[j] == k;
                    lemma_increasing_differ(ks, j, i as int);
                }
            }
            assert forall|t: Map<ObjectId, Seq<Entry>>, j: int|
                #![trigger extends(store.trees(), t), ks[j]]
                !store.confused() && extends(store.trees(), t) && 0 <= j < i + 1 implies {
                let (pa, pb, pg) = three(t, base, ours, theirs, ks[j]);
                name_read(t, pa, pb, pg, depth as nat) && name_stored(t, pa, pb, pg, depth as nat)
            } by {
                lemma_extends_chain(t1, t2, t);
                lemma_extends_chain(t0, t1, t);
                if j == i {
                    assert(three(t, base, ours, theirs, k) == (va, vb, vg));
                } else {
                    assert(extends(t1, t));
                }
            }
            lemma_increasing_step(before, entry_values(out@), ks.take(i as int), k, res);
            assert forall|t: Map<ObjectId, Seq<Entry>>| #[trigger] extends(t2, t)
                && !store.confused() implies made_of_names(
                entry_values(out@),
                ks.take(i + 1),
                merged_at(t, base, ours, theirs, depth as nat),
            ) && reports_names(
                news(c0, conflicts@),
                prefix@,
                ks.take(i + 1),
                t,
                base,
                ours,
                theirs,
            ) by {
                lemma_extends_chain(t1, t2, t);
                lemma_extends_chain(t0, t1, t);
                assert(three(t, base, ours, theirs, k) == (va, vb, vg));
                lemma_made_step(
                    before,
                    entry_values(out@),
                    ks.take(i as int),
                    k,
                    merged_at(t, base, ours, theirs, depth as nat),
                );
                lemma_reports_step(
                    news(c0, c1),
                    news(c1, conflicts@),
                    prefix@,
                    ks.take(i as int),
                    k,
                    t,
                    base,
                    ours,
                    theirs,
                );
            }
        }
        i += 1;
    }
    let tree = Tree { entries: out };
    let ghost es = tree@;
    let ghost t3 = store.trees();
    let ghost prior = *store;
    proof {
        assert(ks.take(i as int) =~= ks);
        assert forall|t: Map<ObjectId, Seq<Entry>>| #[trigger] extends(t3, t)
            && !store.confused() implies merge_read(t, base, ours, theirs, depth as nat)
            && forall|k: Seq<char>|
            {
                let (pa, pb, pg) = #[trigger] three(t, base, ours, theirs, k);
                name_stored(t, pa, pb, pg, depth as nat)
            } by {
            lemma_extends_chain(t0, t3, t);
            assert forall|k: Seq<char>|
                {
                    let (pa, pb, pg) = #[trigger] three(t, base, ours, theirs, k);
                    name_read(t, pa, pb, pg, depth as nat) && name_stored(
                        t,
                        pa,
                        pb,
                        pg,
                        depth as nat,
                    )
                } by {
                let (pa, pb, pg) = three(t, base, ours, theirs, k);
                if pa is Some && pb is Some {
                    assert(names.has(k));
                    let j = choose|j: int| 0 <= j < ks.len() && ks[j] == k;
                    assert(three(t, base, ours, theirs, ks[j]) == (pa, pb, pg));
                }
            }
            reveal_with_fuel(merge_read, 1);
        }
        assert forall|t: Map<ObjectId, Seq<Entry>>| #[trigger] extends(t3, t)
            && !store.confused() implies es == merged_entries(t, base, ours, theirs, depth as nat) && made_of(
            es,
            merged_at(t, base, ours, theirs, depth as nat),
        ) && reports(
            news(c0, conflicts@),
            prefix@,
            t,
            base,
            ours,
            theirs,
        ) by {
            lemma_extends_chain(t0, t3, t);
            assert forall|k: Seq<char>|
                {
                    let (pa, pb, pg) = #[trigger] three(t, base, ours, theirs, k);
                    pa is Some || pb is Some ==> ks.contains(k)
                } by {
                assert(names.has(k) <==> entry_named(a@, k) is Some || entry_named(b@, k) is Some
                    || entry_named(g@, k) is Some);
            }
            lemma_merge_done(
                es,
                news(c0, conflicts@),
                ks,
                prefix@,
                t,
                base,
                ours,
                theirs,
                depth as nat,
            );
        }
        assert forall|t: Map<ObjectId, Seq<Entry>>| #[trigger]
            merge_sheltered(t, base, ours, theirs, depth as nat) && agrees(*old(store), t)
                && old(store).steady() implies extends(t3, t) && es == merged_entries(
            t,
            base,
            ours,
            theirs,
            depth as nat,
        ) && (tree_encodable(es) ==> has_tree(t, es)) by {
            assert(agrees(*store, t));
            lemma_merge_sheltered_here(t, base, ours, theirs, depth as nat);
        }
    }
    let r = store.put_tree(&tree);
    proof {
        let t4 = store.trees();
        lemma_extends_chain(t0, t3, t4);
        assert forall|t: Map<ObjectId, Seq<Entry>>| #[trigger] extends(t4, t) implies extends(
            t3,
            t,
        ) by {
            lemma_extends_chain(t3, t4, t);
        }
        assert forall|t: Map<ObjectId, Seq<Entry>>| #[trigger] extends(t4, t) && r is Ok
            && !store.confused() implies merge_stored(t, base, ours, theirs, depth as nat) by {
            assert(extends(t3, t));
            assert(has_tree(t4, es));
            reveal_with_fuel(merge_stored, 1);
        }
        assert(extends(t4, t4));
        lemma_recedes_trans(*old(store), prior, *store);
        assert forall|t: Map<ObjectId, Seq<Entry>>| #[trigger]
            merge_sheltered(t, base, ours, theirs, depth as nat) && agrees(*old(store), t)
                && old(store).steady() implies match r {
            Ok(_) => agrees(*store, t) && merge_stored(t4, base, ours, theirs, depth as nat),
            Err(e) => merge_refused(*old(store), t, base, ours, theirs, depth as nat, e),
        } by {
            match r {
                Ok(_) => {
                    lemma_agrees_put(prior, *store, t, es);
                },
                Err(e) => {
                    lemma_merge_refused_here(
                        *old(store),
                        t,
                        base,
                        ours,
                        theirs,
                        depth as nat,
                        e,
                    );
                },
            }
        }
    }
    r
}

proof fn lemma_extends_chain(
    a: Map<ObjectId, Seq<Entry>>,
    b: Map<ObjectId, Seq<Entry>>,
    c: Map<ObjectId, Seq<Entry>>,
)
    requires
        extends(a, b),
        extends(b, c),
    ensures
        extends(a, c),
{
    assert forall|id: ObjectId| #[trigger] a.dom().contains(id) implies c.dom().contains(id) && c[id]
        == a[id] by {
        assert(b.dom().contains(id));
    }
}

proof fn lemma_named_valid(es: Seq<Entry>, k: Seq<char>)
    requires
        canonical(es),
    ensures
        entry_named(es, k) matches Some(e) ==> e.name == k && valid_name(k),
{
    if entry_named(es, k) is Some {
        let i = choose|i: int| 0 <= i < es.len() && (#[trigger] es[i]).name == k;
        assert(valid_name(es[i].name));
    }
}

/// Once all names have been merged, the merge is done.
proof fn lemma_merge_done(
    es: Seq<Entry>,
    v: Seq<PathValue>,
    ks: Seq<Seq<char>>,
    prefix: Seq<char>,
    t: Map<ObjectId, Seq<Entry>>,
    base: Option<ObjectId>,
    ours: ObjectId,
    theirs: ObjectId,
    n: nat,
)
    requires
        unsettled(base, ours, theirs),
        made_of_names(es, ks, merged_at(t, base, ours, theirs, n)),
        reports_names(v, prefix, ks, t, base, ours, theirs),
        forall|k: Seq<char>|
            {
                let (pa, pb, pg) = #[trigger] three(t, base, ours, theirs, k);
                pa is Some || pb is Some ==> ks.contains(k)
            },
    ensures
        es == merged_entries(t, base, ours, theirs, n),
        made_of(es, merged_at(t, base, ours, theirs, n)),
        reports(v, prefix, t, base, ours, theirs),
{
    reveal(made_of_names);
    reveal(reports_names);
    reveal(reports);
    let at = merged_at(t, base, ours, theirs, n);
    assert forall|e: Entry| #[trigger] es.contains(e) <==> at(e.name) == Some(e) by {
        if at(e.name) == Some(e) {
            let (pa, pb, pg) = three(t, base, ours, theirs, e.name);
            assert(pa is Some || pb is Some);
        }
    }
    assert(made_of(es, at));
    let got = merged_entries(t, base, ours, theirs, n);
    assert(made_of(got, at));
    assert forall|e: Entry| #[trigger] es.contains(e) <==> got.contains(e) by {}
    lemma_entries_unique(es, got);
    assert forall|x: PathValue| #[trigger] v.contains(x) <==> lies_in(prefix, x.path) && clash(
        t,
        base,
        ours,
        theirs,
        from_dir(prefix, x.path),
    ) == Some(clash_of(x)) by {
        let q = from_dir(prefix, x.path);
        if clash(t, base, ours, theirs, q) is Some {
            let (pa, pb, pg) = three(t, base, ours, theirs, head_name(q));
            assert(pa is Some || pb is Some);
        }
    }
}

/// The conflict at a path: of renames, or of the merge.
pub open spec fn conflict_at(
    trees: Map<ObjectId, Seq<Entry>>,
    base: Option<ObjectId>,
    ours: ObjectId,
    theirs: ObjectId,
    p: Seq<char>,
) -> Option<PathValue> {
    match rename_conflict_at(trees, base, ours, theirs, p) {
        Some(v) => Some(v),
        None => match clash(trees, base, ours, theirs, p) {
            Some(c) => Some(PathValue { path: p, a: c.a, b: c.b, base: c.base }),
            None => None,
        },
    }
}

/// The conflict of renames at a path: only where neither side is the other or
/// the base.
pub open spec fn rename_conflict_at(
    trees: Map<ObjectId, Seq<Entry>>,
    base: Option<ObjectId>,
    ours: ObjectId,
    theirs: ObjectId,
    p: Seq<char>,
) -> Option<PathValue> {
    match base {
        Some(b) => if unsettled(base, ours, theirs) {
            rename_clash(trees, b, ours, theirs, p)
        } else {
            None
        },
        None => None,
    }
}

/// All conflicts by their paths.
pub open spec fn conflicts_of(
    trees: Map<ObjectId, Seq<Entry>>,
    base: Option<ObjectId>,
    ours: ObjectId,
    theirs: ObjectId,
) -> spec_fn(Seq<char>) -> Option<PathValue> {
    |p: Seq<char>| conflict_at(trees, base, ours, theirs, p)
}

/// Where both sides lack what the base has, the merge itself sees no conflict.
pub proof fn lemma_both_deleted(
    trees: Map<ObjectId, Seq<Entry>>,
    base: ObjectId,
    ours: ObjectId,
    theirs: ObjectId,
    p: Seq<char>,
)
    requires
        deleted_at(trees, base, ours, p) is Some,
        deleted_at(trees, base, theirs, p) is Some,
    ensures
        clash(trees, Some(base), ours, theirs, p) is None,
        deleted_at(trees, base, ours, p) == deleted_at(trees, base, theirs, p),
    decreases p.len(),
{
    lemma_slash_bounds(p);
    if nested(p) {
        let f = first_part(p);
        let x = entry_named(trees[base], f)->0;
        let y = entry_named(trees[ours], f)->0;
        let z = entry_named(trees[theirs], f)->0;
        lemma_both_deleted(trees, x.id, y.id, z.id, after_first(p));
    }
}

impl Sortable for ConflictPath {
    open spec fn le(self, other: Self) -> bool {
        !text_before(other.path@, self.path@)
    }

    proof fn le_total(a: Self, b: Self) {
        if text_before(b.path@, a.path@) {
            lemma_lex_antisymmetric(encode_utf8(b.path@), encode_utf8(a.path@));
        }
    }

    proof fn le_transitive(a: Self, b: Self, c: Self) {
        if text_before(c.path@, a.path@) {
            lemma_lex_total(encode_utf8(b.path@), encode_utf8(c.path@));
            if text_before(b.path@, c.path@) {
                lemma_lex_transitive(
                    encode_utf8(b.path@),
                    encode_utf8(c.path@),
                    encode_utf8(a.path@),
                );
            } else {
                assert(encode_utf8(b.path@) == encode_utf8(c.path@));
            }
        }
    }

    fn strictly_before(&self, other: &Self) -> (r: bool) {
        text_lt(self.path.as_str(), other.path.as_str())
    }
}

/// Paths that differ are in order once they are sorted, and none is lost.
proof fn lemma_sorted_conflicts(s: Seq<ConflictPath>, r: Seq<ConflictPath>)
    requires
        paths_differ(path_values(s)),
        r.len() == s.len(),
        r.to_multiset() == s.to_multiset(),
        forall|i: int, j: int| 0 <= i < j < r.len() ==> (#[trigger] r[i]).le(#[trigger] r[j]),
    ensures
        forall|i: int, j: int|
            0 <= i < j < r.len() ==> text_before(
                (#[trigger] path_values(r)[i]).path,
                (#[trigger] path_values(r)[j]).path,
            ),
        forall|x: PathValue| #[trigger]
            path_values(r).contains(x) <==> path_values(s).contains(x),
{
    let ps = path_values(s);
    s.to_multiset_ensures();
    r.to_multiset_ensures();
    assert(s.no_duplicates()) by {
        assert forall|i: int, j: int| 0 <= i < s.len() && 0 <= j < s.len() && i != j implies s[i]
            != s[j] by {
            if i < j {
                assert(ps[i].path != ps[j].path);
            } else {
                assert(ps[j].path != ps[i].path);
            }
        }
    }
    s.lemma_multiset_has_no_duplicates();
    r.lemma_multiset_has_no_duplicates_conv();
    assert forall|c: ConflictPath| #[trigger] r.contains(c) <==> s.contains(c) by {
        assert(r.contains(c) <==> r.to_multiset().count(c) > 0);
        assert(s.contains(c) <==> s.to_multiset().count(c) > 0);
    }
    assert forall|x: PathValue| #[trigger]
        path_values(r).contains(x) <==> ps.contains(x) by {
        if path_values(r).contains(x) {
            let i = choose|i: int| 0 <= i < r.len() && path_values(r)[i] == x;
            assert(r.contains(r[i]));
            let j = choose|j: int| 0 <= j < s.len() && s[j] == r[i];
            assert(ps[j] == x);
        }
        if ps.contains(x) {
            let i = choose|i: int| 0 <= i < s.len() && ps[i] == x;
            assert(s.contains(s[i]));
            assert(r.contains(s[i]));
            let j = choose|j: int| 0 <= j < r.len() && r[j] == s[i];
            assert(path_values(r)[j] == x);
        }
    }
    assert forall|i: int, j: int| 0 <= i < j < r.len() implies text_before(
        (#[trigger] path_values(r)[i]).path,
        (#[trigger] path_values(r)[j]).path,
    ) by {
        assert(r[i].le(r[j]));
        let a = r[i].path@;
        let b = r[j].path@;
        lemma_lex_total(encode_utf8(a), encode_utf8(b));
        if encode_utf8(a) == encode_utf8(b) {
            lemma_utf8_injective(a, b);
            assert(r.contains(r[i]));
            assert(r.contains(r[j]));
            let p = choose|p: int| 0 <= p < s.len() && s[p] == r[i];
            let q = choose|q: int| 0 <= q < s.len() && s[q] == r[j];
            if p < q {
                assert(ps[p].path != ps[q].path);
            } else if q < p {
                assert(ps[q].path != ps[p].path);
            }
        }
    }
}

/// Different paths in their order.
fn sort_conflicts(v: Vec<ConflictPath>) -> (r: Vec<ConflictPath>)
    ensures
        r@.len() == v@.len(),
        paths_differ(path_values(v@)) ==> {
            &&& forall|i: int, j: int|
                0 <= i < j < r@.len() ==> text_before(
                    (#[trigger] path_values(r@)[i]).path,
                    (#[trigger] path_values(r@)[j]).path,
                )
            &&& forall|x: PathValue| #[trigger]
                path_values(r@).contains(x) <==> path_values(v@).contains(x)
        },
{
    let ghost s = v@;
    let r = stable_sort(v);
    proof {
        s.to_multiset_ensures();
        r@.to_multiset_ensures();
        if paths_differ(path_values(s)) {
            lemma_sorted_conflicts(s, r@);
        }
    }
    r
}

/// The bases of a merge as a list.
pub open spec fn base_list(base: Option<ObjectId>) -> Seq<ObjectId> {
    match base {
        Some(b) => seq![b],
        None => Seq::<ObjectId>::empty(),
    }
}

/// What a merge comes to: without conflicts the merged tree, else all the
/// conflicts, by their paths.
pub open spec fn outcome_of(
    o: MergeOutcome,
    trees: Map<ObjectId, Seq<Entry>>,
    base: Option<ObjectId>,
    ours: ObjectId,
    theirs: ObjectId,
) -> bool {
    match o {
        MergeOutcome::Tree(id) => id == merged_tree(trees, base, ours, theirs, MAX_NESTING as nat)
            && forall|p: Seq<char>|
            (#[trigger] conflict_at(trees, base, ours, theirs, p)) is None,
        MergeOutcome::Conflict(c) => {
            &&& c@.bases == base_list(base)
            &&& c@.ours == ours
            &&& c@.theirs == theirs
            &&& c@.causal == Seq::<ObjectId>::empty()
            &&& c@.paths.len() > 0
            &&& lists_clashes(c@.paths, conflicts_of(trees, base, ours, theirs))
        },
    }
}

/// Why a merge of two trees is refused: the conflicts of renames cannot be told, or the
/// trees cannot be merged.
pub open spec fn three_way_refused<O: ObjectStore>(
    store: Store<O>,
    t: Map<ObjectId, Seq<Entry>>,
    base: Option<ObjectId>,
    ours: ObjectId,
    theirs: ObjectId,
    e: Error,
) -> bool {
    ||| merge_refused(store, t, base, ours, theirs, MAX_NESTING as nat, e)
    ||| unsettled(base, ours, theirs) && (base matches Some(b) && renames_refused(
        store.blobs.objects(),
        store.blobs.steady(),
        b,
        ours,
        theirs,
        e,
    ))
}

/// Merge two trees with a common base, or none.
pub fn three_way<O: ObjectStore>(
    store: &mut Store<O>,
    base: Option<ObjectId>,
    ours: ObjectId,
    theirs: ObjectId,
) -> (r: Result<MergeOutcome, Error>)
    requires
        old(store).settled(),
    ensures
        final(store).settled(),
        extends(old(store).trees(), final(store).trees()),
        old(store).steady() ==> final(store).steady(),
        recedes(*old(store), *final(store)),
        forall|t: Map<ObjectId, Seq<Entry>>| #[trigger]
            merge_sheltered(t, base, ours, theirs, MAX_NESTING as nat) && agrees(*old(store), t)
                && old(store).steady() ==> match r {
                Ok(_) => agrees(*final(store), t) && merge_stored(
                    final(store).trees(),
                    base,
                    ours,
                    theirs,
                    MAX_NESTING as nat,
                ),
                Err(e) => three_way_refused(*old(store), t, base, ours, theirs, e),
            },
        old(store).confused() ==> final(store).confused(),
        !final(store).confused() ==> (r matches Ok(o) ==> forall|t: Map<ObjectId, Seq<Entry>>|
            #[trigger]
            extends(final(store).trees(), t) ==> outcome_of(o, t, base, ours, theirs)
                && nothing_lost(o, t, base, ours, theirs) && merge_read(t, base, ours, theirs, MAX_NESTING as nat) && merge_stored(
                t,
                base,
                ours,
                theirs,
                MAX_NESTING as nat,
            )),
{
    let ghost t0 = store.trees();
    let mut paths: Vec<ConflictPath> = Vec::new();
    let looks: bool = match base {
        Some(b) => !ours.same(&theirs) && !ours.same(&b) && !theirs.same(&b),
        None => false,
    };
    if looks {
        if let Some(b) = base {
            paths = exact_rename_conflicts(store, b, ours, theirs)?;
        }
    }
    let ghost first = paths@;
    proof {
        assert forall|t: Map<ObjectId, Seq<Entry>>| #[trigger]
            merge_sheltered(t, base, ours, theirs, MAX_NESTING as nat) && agrees(
                *old(store),
                t,
            ) implies agrees(*store, t) by {
            assert forall|id: ObjectId|
                t.dom().contains(id) && #[trigger] store.holds(id) implies store.trees().dom().contains(
                id,
            ) by {
                assert(old(store).holds(id));
            }
        }
    }
    let ghost mid = *store;
    let merged = merge_trees(store, "", base, ours, theirs, &mut paths, MAX_NESTING);
    let tree = match merged {
        Ok(tree) => tree,
        Err(e) => {
            proof {
                assert forall|t: Map<ObjectId, Seq<Entry>>| #[trigger]
                    merge_sheltered(t, base, ours, theirs, MAX_NESTING as nat) && agrees(
                        *old(store),
                        t,
                    ) && old(store).steady() implies merge_refused(
                    *old(store),
                    t,
                    base,
                    ours,
                    theirs,
                    MAX_NESTING as nat,
                    e,
                ) by {
                    lemma_merge_refused_before(
                        *old(store),
                        mid,
                        t,
                        base,
                        ours,
                        theirs,
                        MAX_NESTING as nat,
                        e,
                    );
                }
            }
            return Err(e);
        },
    };
    let ghost t1 = store.trees();
    let ghost all = paths@;
    proof {
        assert forall|t: Map<ObjectId, Seq<Entry>>| #[trigger] extends(t1, t)
            && !store.confused() implies paths_differ(
            path_values(all),
        ) && forall|x: PathValue| #[trigger]
            path_values(all).contains(x) <==> conflicts_of(t, base, ours, theirs)(x.path) == Some(
                x,
            ) by {
            lemma_extends_chain(t0, t1, t);
            lemma_all_conflicts(first, all, t, base, ours, theirs, looks);
        }
        assert(extends(t1, t1));
    }
    let paths = sort_conflicts(paths);
    proof {
        assert forall|t: Map<ObjectId, Seq<Entry>>| #[trigger] extends(t1, t)
            && !store.confused() implies lists_clashes(
            path_values(paths@),
            conflicts_of(t, base, ours, theirs),
        ) by {
            let at = conflicts_of(t, base, ours, theirs);
            assert forall|x: PathValue| #[trigger] path_values(paths@).contains(x) <==> at(x.path)
                == Some(x) by {}
        }
    }
    if paths.len() == 0 {
        proof {
            assert forall|t: Map<ObjectId, Seq<Entry>>| #[trigger] extends(t1, t)
                && !store.confused() implies forall|p: Seq<char>|
                (#[trigger] conflict_at(t, base, ours, theirs, p)) is None by {
                let at = conflicts_of(t, base, ours, theirs);
                assert forall|p: Seq<char>| (#[trigger] conflict_at(t, base, ours, theirs, p))
                    is None by {
                    if let Some(x) = conflict_at(t, base, ours, theirs, p) {
                        assert(at(x.path) == Some(x));
                        assert(path_values(paths@).contains(x));
                    }
                }
            }
        }
        let o = MergeOutcome::Tree(tree);
        proof {
            assert forall|t: Map<ObjectId, Seq<Entry>>| #[trigger] extends(t1, t)
                && !store.confused() implies nothing_lost(o, t, base, ours, theirs) by {
                lemma_nothing_lost(o, t, base, ours, theirs);
            }
        }
        return Ok(o);
    }
    let mut bases: Vec<ObjectId> = Vec::new();
    if let Some(b) = base {
        bases.push(b);
    }
    assert(bases@ =~= base_list(base));
    let c = Conflict { bases, ours, theirs, paths, causal: Vec::new() };
    assert(c@.causal =~= Seq::<ObjectId>::empty());
    let o = MergeOutcome::Conflict(c);
    proof {
        assert forall|t: Map<ObjectId, Seq<Entry>>| #[trigger] extends(t1, t)
            && !store.confused() implies nothing_lost(o, t, base, ours, theirs) by {
            lemma_nothing_lost(o, t, base, ours, theirs);
        }
    }
    Ok(o)
}

/// The conflicts of the renames and of the merge together are all conflicts,
/// each once.
proof fn lemma_all_conflicts(
    first: Seq<ConflictPath>,
    all: Seq<ConflictPath>,
    t: Map<ObjectId, Seq<Entry>>,
    base: Option<ObjectId>,
    ours: ObjectId,
    theirs: ObjectId,
    looks: bool,
)
    requires
        looks == (base is Some && unsettled(base, ours, theirs)),
        looks ==> lists_clashes(path_values(first), rename_clashes(t, base->0, ours, theirs)),
        !looks ==> first.len() == 0,
        appended(first, all),
        reports(news(first, all), ""@, t, base, ours, theirs),
    ensures
        paths_differ(path_values(all)),
        forall|x: PathValue| #[trigger]
            path_values(all).contains(x) <==> conflicts_of(t, base, ours, theirs)(x.path) == Some(
                x,
            ),
{
    reveal(reports);
    reveal_strlit("");
    let v = path_values(first);
    let w = news(first, all);
    let s = path_values(all);
    let at = conflicts_of(t, base, ours, theirs);
    assert(s =~= v + w) by {
        assert forall|i: int| 0 <= i < all.len() implies s[i] == (v + w)[i] by {
            if i < first.len() {
                assert(all.take(first.len() as int)[i] == first[i]);
            }
        }
    }
    assert forall|x: PathValue| #[trigger] s.contains(x) <==> v.contains(x) || w.contains(x) by {
        if v.contains(x) {
            let i = choose|i: int| 0 <= i < v.len() && v[i] == x;
            assert(s[i] == x);
        }
        if w.contains(x) {
            let i = choose|i: int| 0 <= i < w.len() && w[i] == x;
            assert(s[v.len() + i] == x);
        }
        if s.contains(x) {
            let i = choose|i: int| 0 <= i < s.len() && s[i] == x;
            if i < v.len() {
                assert(v[i] == x);
            } else {
                assert(w[i - v.len()] == x);
            }
        }
    }
    assert forall|x: PathValue| #[trigger] v.contains(x) <==> rename_conflict_at(
        t,
        base,
        ours,
        theirs,
        x.path,
    ) == Some(x) by {
        if looks {
            assert(v.contains(x) <==> rename_clashes(t, base->0, ours, theirs)(x.path) == Some(x));
        }
    }
    assert forall|x: PathValue| #[trigger] w.contains(x) <==> clash(
        t,
        base,
        ours,
        theirs,
        x.path,
    ) == Some(clash_of(x)) by {
        assert(from_dir(""@, x.path) == x.path);
    }
    assert forall|p: Seq<char>| (#[trigger] rename_conflict_at(t, base, ours, theirs, p))
        is Some implies clash(t, base, ours, theirs, p) is None by {
        lemma_both_deleted(t, base->0, ours, theirs, p);
    }
    assert forall|x: PathValue| #[trigger] s.contains(x) <==> at(x.path) == Some(x) by {
        let r = rename_conflict_at(t, base, ours, theirs, x.path);
        assert(v.contains(x) <==> r == Some(x));
        assert(w.contains(x) <==> clash(t, base, ours, theirs, x.path) == Some(clash_of(x)));
        if r is Some {
            assert(r->0.path == x.path);
        }
    }
    assert forall|i: int, j: int| 0 <= i < j < s.len() implies (#[trigger] s[i]).path != (
    #[trigger] s[j]).path by {
        if j < v.len() {
            assert(text_before(v[i].path, v[j].path));
            lemma_lex_irreflexive(encode_utf8(v[i].path));
        } else if i >= v.len() {
            assert(w[i - v.len()].path != w[j - v.len()].path);
        } else {
            assert(v.contains(v[i]));
            assert(w.contains(w[j - v.len()]));
            assert(s[i] == v[i]);
            assert(s[j] == w[j - v.len()]);
        }
    }
}

/// Merging a tree with itself gives the tree, without conflicts.
pub proof fn lemma_merge_same(
    trees: Map<ObjectId, Seq<Entry>>,
    base: Option<ObjectId>,
    x: ObjectId,
    n: nat,
    p: Seq<char>,
)
    ensures
        merged_tree(trees, base, x, x, n) == x,
        conflict_at(trees, base, x, x, p) is None,
{
}

/// Where one side is the base, the merge is the other side, without conflicts.
pub proof fn lemma_merge_unmoved(
    trees: Map<ObjectId, Seq<Entry>>,
    base: ObjectId,
    x: ObjectId,
    n: nat,
    p: Seq<char>,
)
    ensures
        merged_tree(trees, Some(base), base, x, n) == x,
        merged_tree(trees, Some(base), x, base, n) == x,
        conflict_at(trees, Some(base), base, x, p) is None,
        conflict_at(trees, Some(base), x, base, p) is None,
{
}

/// A name that theirs has as the base has it becomes what ours has: its
/// change, its addition, its removal or nothing new. The same holds with the
/// sides exchanged.
pub proof fn lemma_one_sided_change(
    trees: Map<ObjectId, Seq<Entry>>,
    base: Option<ObjectId>,
    ours: ObjectId,
    theirs: ObjectId,
    name: Seq<char>,
    n: nat,
)
    requires
        ({
            let (pa, pb, pg) = three(trees, base, ours, theirs, name);
            pb == pg
        }),
    ensures
        merged_at(trees, base, ours, theirs, n)(name) == entry_named(trees[ours], name),
        merged_at(trees, base, theirs, ours, n)(name) == entry_named(trees[ours], name),
        name_clash(
            entry_named(trees[ours], name),
            entry_named(trees[theirs], name),
            entry_named(trees[theirs], name),
        ) is None,
{
    let (pa, pb, pg) = three(trees, base, ours, theirs, name);
    if pa is Some && pb is Some && same(pa->0, pb->0) {
        lemma_named_once(trees[ours], name);
        lemma_named_once(trees[theirs], name);
    }
}

proof fn lemma_named_once(es: Seq<Entry>, name: Seq<char>)
    ensures
        entry_named(es, name) matches Some(e) ==> e.name == name,
{
}

/// A conflict with its sides exchanged.
pub open spec fn exchanged(c: Option<Clash>) -> Option<Clash> {
    match c {
        Some(c) => Some(Clash { a: c.b, b: c.a, base: c.base }),
        None => None,
    }
}

/// Exchanging the sides of a merge exchanges the sides of its conflicts, and
/// nothing else: no conflict comes or goes.
pub proof fn lemma_clash_symmetric(
    trees: Map<ObjectId, Seq<Entry>>,
    base: Option<ObjectId>,
    ours: ObjectId,
    theirs: ObjectId,
    q: Seq<char>,
)
    ensures
        clash(trees, base, theirs, ours, q) == exchanged(clash(trees, base, ours, theirs, q)),
    decreases q.len(),
{
    lemma_slash_bounds(q);
    if unsettled(base, ours, theirs) {
        let (pa, pb, pg) = three(trees, base, ours, theirs, head_name(q));
        if nested(q) {
            if let Some((b, o, t)) = descend(pa, pb, pg) {
                assert(descend(pb, pa, pg) == Some((b, t, o)));
                lemma_clash_symmetric(trees, b, o, t, after_first(q));
            } else {
                assert(descend(pb, pa, pg) is None);
            }
        }
    }
}

/// Exchanging the sides of a merge keeps the paths of all conflicts, those of
/// renames among them.
pub proof fn lemma_conflicts_symmetric(
    trees: Map<ObjectId, Seq<Entry>>,
    base: Option<ObjectId>,
    ours: ObjectId,
    theirs: ObjectId,
    p: Seq<char>,
)
    ensures
        conflict_at(trees, base, theirs, ours, p) == (match conflict_at(
            trees,
            base,
            ours,
            theirs,
            p,
        ) {
            Some(v) => Some(PathValue { path: v.path, a: v.b, b: v.a, base: v.base }),
            None => None,
        }),
{
    lemma_clash_symmetric(trees, base, ours, theirs, p);
    if let Some(b) = base {
        if unsettled(base, ours, theirs) && deleted_at(trees, b, ours, p) is Some && deleted_at(
            trees,
            b,
            theirs,
            p,
        ) is Some {
            lemma_both_deleted(trees, b, ours, theirs, p);
        }
    }
}

/// Where both sides have changed a directory, both have it with the same mode. In trees
/// without executable directories this always holds.
pub open spec fn same_modes(
    trees: Map<ObjectId, Seq<Entry>>,
    base: Option<ObjectId>,
    ours: ObjectId,
    theirs: ObjectId,
    n: nat,
) -> bool
    decreases n,
{
    unsettled(base, ours, theirs) ==> forall|name: Seq<char>|
        {
            let (pa, pb, pg) = #[trigger] three(trees, base, ours, theirs, name);
            match descend(pa, pb, pg) {
                Some((b, o, t)) => pa->0.executable == pb->0.executable && (n > 0 ==> same_modes(
                    trees,
                    b,
                    o,
                    t,
                    (n - 1) as nat,
                )),
                None => true,
            }
        }
}

/// A merge without conflicts does not depend on which side is which.
pub proof fn lemma_merge_symmetric(
    trees: Map<ObjectId, Seq<Entry>>,
    base: Option<ObjectId>,
    ours: ObjectId,
    theirs: ObjectId,
    n: nat,
)
    requires
        merge_read(trees, base, ours, theirs, n),
        same_modes(trees, base, ours, theirs, n),
        forall|p: Seq<char>| (#[trigger] clash(trees, base, ours, theirs, p)) is None,
    ensures
        merged_tree(trees, base, ours, theirs, n) == merged_tree(trees, base, theirs, ours, n),
    decreases n,
{
    reveal_with_fuel(merge_read, 1);
    if unsettled(base, ours, theirs) {
        let f = merged_at(trees, base, ours, theirs, n);
        let g = merged_at(trees, base, theirs, ours, n);
        assert forall|name: Seq<char>| #[trigger] f(name) == g(name) by {
            let (pa, pb, pg) = three(trees, base, ours, theirs, name);
            lemma_looked_up(trees, ours, name);
            lemma_looked_up(trees, theirs, name);
            if base is Some {
                lemma_looked_up(trees, base->0, name);
            }
            if pa is Some && pb is Some {
                lemma_slash_bounds(name);
                assert(head_name(name) == name);
                assert(clash(trees, base, ours, theirs, name) == name_clash(pa, pb, pg));
                if let Some((b, o, t)) = descend(pa, pb, pg) {
                    assert(descend(pb, pa, pg) == Some((b, t, o)));
                    assert forall|q: Seq<char>| (#[trigger] clash(trees, b, o, t, q)) is None by {
                        lemma_below_parts(name, q);
                        let p = below(name, q);
                        assert(head_name(p) == name);
                        assert(clash(trees, base, ours, theirs, p) == clash(trees, b, o, t, q));
                    }
                    lemma_merge_symmetric(trees, b, o, t, (n - 1) as nat);
                }
            }
        }
        assert(f =~= g);
    }
}

proof fn lemma_looked_up(trees: Map<ObjectId, Seq<Entry>>, id: ObjectId, name: Seq<char>)
    requires
        stored_tree(trees, id),
    ensures
        entry_named(trees[id], name) matches Some(e) ==> e.name == name && !name.contains('/'),
{
    let es = trees[id];
    if entry_named(es, name) is Some {
        let i = choose|i: int| 0 <= i < es.len() && (#[trigger] es[i]).name == name;
        assert(valid_name(es[i].name));
        assert(trees[id][i].name == name);
    }
}

/// Two outcomes are one, with the sides exchanged: the same tree, or conflicts at the same
/// paths in the same order with the two sides of each exchanged.
pub open spec fn outcomes_exchanged(a: MergeOutcome, b: MergeOutcome) -> bool {
    match (a, b) {
        (MergeOutcome::Tree(x), MergeOutcome::Tree(y)) => x == y,
        (MergeOutcome::Conflict(c), MergeOutcome::Conflict(d)) => {
            &&& d@.bases == c@.bases
            &&& d@.ours == c@.theirs
            &&& d@.theirs == c@.ours
            &&& d@.causal == c@.causal
            &&& d@.paths == Seq::new(c@.paths.len(), |i: int| turned(c@.paths[i]))
        },
        _ => false,
    }
}

/// A conflict with its sides exchanged.
pub open spec fn turned(v: PathValue) -> PathValue {
    PathValue { path: v.path, a: v.b, b: v.a, base: v.base }
}

/// A merge of two trees and a later one, on the same store, of the same trees with the
/// sides exchanged come to the same: one tree, or the same conflicts with their sides
/// exchanged.
pub proof fn lemma_three_way_symmetric(
    first: MergeOutcome,
    second: MergeOutcome,
    trees: Map<ObjectId, Seq<Entry>>,
    later: Map<ObjectId, Seq<Entry>>,
    base: Option<ObjectId>,
    ours: ObjectId,
    theirs: ObjectId,
)
    requires
        extends(trees, later),
        forall|t: Map<ObjectId, Seq<Entry>>| #[trigger]
            extends(trees, t) ==> outcome_of(first, t, base, ours, theirs) && merge_read(
                t,
                base,
                ours,
                theirs,
                MAX_NESTING as nat,
            ),
        outcome_of(second, later, base, theirs, ours),
        same_modes(later, base, ours, theirs, MAX_NESTING as nat),
    ensures
        outcomes_exchanged(first, second),
{
    let there = conflicts_of(later, base, ours, theirs);
    let back = conflicts_of(later, base, theirs, ours);
    assert(outcome_of(first, later, base, ours, theirs));
    assert forall|p: Seq<char>| #[trigger] back(p) == (match there(p) {
        Some(v) => Some(turned(v)),
        None => None,
    }) by {
        lemma_conflicts_symmetric(later, base, ours, theirs, p);
    }
    match (first, second) {
        (MergeOutcome::Tree(x), MergeOutcome::Tree(y)) => {
            assert forall|p: Seq<char>| (#[trigger] clash(later, base, ours, theirs, p)) is None by {
                assert(conflict_at(later, base, ours, theirs, p) is None);
            }
            lemma_merge_symmetric(later, base, ours, theirs, MAX_NESTING as nat);
        },
        (MergeOutcome::Tree(x), MergeOutcome::Conflict(d)) => {
            let v = d@.paths[0];
            assert(d@.paths.contains(v));
            assert(back(v.path) == Some(v));
            assert(conflict_at(later, base, ours, theirs, v.path) is None);
            assert(there(v.path) is None);
        },
        (MergeOutcome::Conflict(c), MergeOutcome::Tree(y)) => {
            let v = c@.paths[0];
            assert(c@.paths.contains(v));
            assert(there(v.path) == Some(v));
            assert(conflict_at(later, base, theirs, ours, v.path) is None);
            assert(back(v.path) is None);
        },
        (MergeOutcome::Conflict(c), MergeOutcome::Conflict(d)) => {
            let turn = Seq::new(c@.paths.len(), |i: int| turned(c@.paths[i]));
            assert(lists_clashes(turn, back)) by {
                assert forall|x: PathValue| #[trigger] turn.contains(x) <==> back(x.path) == Some(
                    x,
                ) by {
                    if turn.contains(x) {
                        let i = choose|i: int| 0 <= i < turn.len() && turn[i] == x;
                        assert(c@.paths.contains(c@.paths[i]));
                        assert(there(x.path) == Some(c@.paths[i]));
                    }
                    if back(x.path) == Some(x) {
                        let v = there(x.path)->0;
                        assert(turned(v) == x);
                        assert(c@.paths.contains(v));
                        let i = choose|i: int| 0 <= i < c@.paths.len() && c@.paths[i] == v;
                        assert(turn[i] == x);
                    }
                }
            }
            lemma_clashes_unique(d@.paths, turn, back);
        },
    }
}

/// A merge with a side that is the other side, or the base, comes to the other.
pub proof fn lemma_three_way_settled(
    o: MergeOutcome,
    trees: Map<ObjectId, Seq<Entry>>,
    base: Option<ObjectId>,
    ours: ObjectId,
    theirs: ObjectId,
)
    requires
        outcome_of(o, trees, base, ours, theirs),
        !unsettled(base, ours, theirs),
    ensures
        o == MergeOutcome::Tree(
            if ours == theirs || base == Some(theirs) {
                ours
            } else {
                theirs
            },
        ),
{
    if let MergeOutcome::Conflict(c) = o {
        let v = c@.paths[0];
        assert(c@.paths.contains(v));
        assert(conflicts_of(trees, base, ours, theirs)(v.path) == Some(v));
        assert(clash(trees, base, ours, theirs, v.path) is None);
    }
}

/// A list of conflicts is determined by what it lists.
proof fn lemma_clashes_unique(
    a: Seq<PathValue>,
    b: Seq<PathValue>,
    at: spec_fn(Seq<char>) -> Option<PathValue>,
)
    requires
        lists_clashes(a, at),
        lists_clashes(b, at),
    ensures
        a == b,
{
    lemma_paths_unique(a, b);
}

proof fn lemma_paths_unique(a: Seq<PathValue>, b: Seq<PathValue>)
    requires
        forall|i: int, j: int|
            0 <= i < j < a.len() ==> text_before((#[trigger] a[i]).path, (#[trigger] a[j]).path),
        forall|i: int, j: int|
            0 <= i < j < b.len() ==> text_before((#[trigger] b[i]).path, (#[trigger] b[j]).path),
        forall|x: PathValue| #[trigger] a.contains(x) <==> b.contains(x),
    ensures
        a == b,
    decreases a.len(),
{
    if a.len() == 0 {
        if b.len() > 0 {
            assert(b.contains(b[0]));
            assert(a.contains(b[0]));
        }
        assert(a =~= b);
    } else {
        let x = a.last();
        assert(a.contains(x));
        let y = if b.len() > 0 {
            b.last()
        } else {
            x
        };
        assert(b.contains(x));
        assert(b.contains(y));
        assert(a.contains(y));
        let i = choose|i: int| 0 <= i < a.len() && a[i] == y;
        let j = choose|j: int| 0 <= j < b.len() && b[j] == x;
        if i < a.len() - 1 && j < b.len() - 1 {
            assert(text_before(a[i].path, a[a.len() - 1].path));
            assert(text_before(b[j].path, b[b.len() - 1].path));
            lemma_lex_antisymmetric(encode_utf8(x.path), encode_utf8(y.path));
        }
        assert(x == y);
        let a1 = a.drop_last();
        let b1 = b.drop_last();
        assert forall|v: PathValue| #[trigger] a1.contains(v) <==> b1.contains(v) by {
            lemma_before_last(a, v);
            lemma_before_last(b, v);
            assert(a.contains(v) <==> b.contains(v));
        }
        assert forall|p: int, q: int| 0 <= p < q < a1.len() implies text_before(
            (#[trigger] a1[p]).path,
            (#[trigger] a1[q]).path,
        ) by {
            assert(text_before(a[p].path, a[q].path));
        }
        assert forall|p: int, q: int| 0 <= p < q < b1.len() implies text_before(
            (#[trigger] b1[p]).path,
            (#[trigger] b1[q]).path,
        ) by {
            assert(text_before(b[p].path, b[q].path));
        }
        lemma_paths_unique(a1, b1);
        assert(a =~= a1.push(x));
        assert(b =~= b1.push(y));
    }
}

/// What stands before the last of a list whose paths increase.
proof fn lemma_before_last(a: Seq<PathValue>, v: PathValue)
    requires
        a.len() > 0,
        forall|i: int, j: int|
            0 <= i < j < a.len() ==> text_before((#[trigger] a[i]).path, (#[trigger] a[j]).path),
    ensures
        a.drop_last().contains(v) <==> a.contains(v) && v != a.last(),
{
    let a1 = a.drop_last();
    if a1.contains(v) {
        let i = choose|i: int| 0 <= i < a1.len() && a1[i] == v;
        assert(a[i] == v);
        assert(text_before(a[i].path, a[a.len() - 1].path));
        lemma_lex_irreflexive(encode_utf8(v.path));
    }
    if a.contains(v) && v != a.last() {
        let i = choose|i: int| 0 <= i < a.len() && a[i] == v;
        assert(a1[i] == v);
    }
}

/// What a tree, if there is one, has at a path.
pub open spec fn held_at(
    trees: Map<ObjectId, Seq<Entry>>,
    id: Option<ObjectId>,
    p: Seq<char>,
) -> Option<Entry> {
    match id {
        Some(id) => entry_at(trees, trees[id], p),
        None => None,
    }
}

/// A directory stands there.
pub open spec fn is_dir(e: Option<Entry>) -> bool {
    e matches Some(x) && x.kind == EntryKind::Tree
}

/// The two sides and the base all differ, and not only as two directories that can be
/// merged below.
pub open spec fn disputed(a: Option<Entry>, b: Option<Entry>, g: Option<Entry>) -> bool {
    a != b && a != g && b != g && !(is_dir(a) && is_dir(b))
}

/// At a path a merge without conflicts has what the one side has where the other left it as
/// it was in the base, and what both have where they agree. Where all three differ there are
/// directories on both sides, and the merge has one too.
pub open spec fn merges_at(
    trees: Map<ObjectId, Seq<Entry>>,
    base: Option<ObjectId>,
    ours: ObjectId,
    theirs: ObjectId,
    merged: ObjectId,
    p: Seq<char>,
) -> bool {
    let a = held_at(trees, Some(ours), p);
    let b = held_at(trees, Some(theirs), p);
    let g = held_at(trees, base, p);
    let m = held_at(trees, Some(merged), p);
    &&& a == g ==> m == b
    &&& b == g ==> m == a
    &&& a == b ==> m == a
    &&& a != b && a != g && b != g ==> is_dir(a) && is_dir(b) && is_dir(m) && m->0.executable
        == a->0.executable
}

/// One path is the other, or that of a directory above it.
pub open spec fn at_or_above(d: Seq<char>, p: Seq<char>) -> bool {
    d == p || exists|rest: Seq<char>| p == #[trigger] below(d, rest)
}

/// At a path a conflict tells what the two sides and the base have there, and is either
/// disputed or of something that the base has and both sides lack. What is disputed is told
/// there or above.
pub open spec fn told_at(
    paths: Seq<PathValue>,
    trees: Map<ObjectId, Seq<Entry>>,
    base: Option<ObjectId>,
    ours: ObjectId,
    theirs: ObjectId,
    p: Seq<char>,
) -> bool {
    let a = held_at(trees, Some(ours), p);
    let b = held_at(trees, Some(theirs), p);
    let g = held_at(trees, base, p);
    &&& forall|v: PathValue| #[trigger]
        paths.contains(v) && v.path == p ==> {
            &&& v.a == id_of(a)
            &&& v.b == id_of(b)
            &&& v.base == id_of(g)
            &&& disputed(a, b, g) || (a is None && b is None && g is Some)
        }
    &&& disputed(a, b, g) ==> exists|v: PathValue| #[trigger]
        paths.contains(v) && at_or_above(v.path, p)
}

/// A merge loses nothing of a side without a conflict: where it makes a tree, this has at
/// every path what follows from the three trees; where it does not, every dispute is told.
#[verifier::opaque]
pub open spec fn nothing_lost(
    o: MergeOutcome,
    trees: Map<ObjectId, Seq<Entry>>,
    base: Option<ObjectId>,
    ours: ObjectId,
    theirs: ObjectId,
) -> bool {
    match o {
        MergeOutcome::Tree(m) => forall|p: Seq<char>| #[trigger]
            merges_at(trees, base, ours, theirs, m, p),
        MergeOutcome::Conflict(c) => c@.paths.len() > 0 && forall|p: Seq<char>| #[trigger]
            told_at(c@.paths, trees, base, ours, theirs, p),
    }
}

/// At every path the merged tree has what follows from the three trees, or a conflict is told
/// there or above; and what is told is what the three trees have at its path.
#[verifier::opaque]
pub open spec fn merged_or_told(
    v: Seq<PathValue>,
    prefix: Seq<char>,
    trees: Map<ObjectId, Seq<Entry>>,
    base: Option<ObjectId>,
    ours: ObjectId,
    theirs: ObjectId,
    merged: ObjectId,
) -> bool {
    &&& forall|p: Seq<char>| #[trigger]
        merges_at(trees, base, ours, theirs, merged, p) || exists|x: PathValue| #[trigger]
            v.contains(x) && lies_in(prefix, x.path) && at_or_above(from_dir(prefix, x.path), p)
    &&& forall|x: PathValue| #[trigger]
        v.contains(x) ==> {
            let p = from_dir(prefix, x.path);
            let a = held_at(trees, Some(ours), p);
            let b = held_at(trees, Some(theirs), p);
            let g = held_at(trees, base, p);
            &&& x.path == join(prefix, p)
            &&& x.a == id_of(a)
            &&& x.b == id_of(b)
            &&& x.base == id_of(g)
            &&& disputed(a, b, g)
        }
}

/// A merge of two trees makes of every path what follows from the three trees, or tells a
/// conflict.
pub proof fn lemma_merged_or_told(
    v: Seq<PathValue>,
    prefix: Seq<char>,
    trees: Map<ObjectId, Seq<Entry>>,
    base: Option<ObjectId>,
    ours: ObjectId,
    theirs: ObjectId,
    n: nat,
)
    requires
        reports(v, prefix, trees, base, ours, theirs),
        merge_read(trees, base, ours, theirs, n),
        merge_stored(trees, base, ours, theirs, n),
    ensures
        merged_or_told(
            v,
            prefix,
            trees,
            base,
            ours,
            theirs,
            merged_tree(trees, base, ours, theirs, n),
        ),
{
    reveal(merged_or_told);
    reveal(reports);
    let merged = merged_tree(trees, base, ours, theirs, n);
    assert forall|p: Seq<char>| #[trigger]
        merges_at(trees, base, ours, theirs, merged, p) || exists|x: PathValue| #[trigger]
            v.contains(x) && lies_in(prefix, x.path) && at_or_above(from_dir(prefix, x.path), p) by {
        if exists|q: Seq<char>|
            at_or_above(q, p) && (#[trigger] clash(trees, base, ours, theirs, q)) is Some {
            let q = choose|q: Seq<char>|
                at_or_above(q, p) && (#[trigger] clash(trees, base, ours, theirs, q)) is Some;
            let c = clash(trees, base, ours, theirs, q)->0;
            let x = PathValue { path: join(prefix, q), a: c.a, b: c.b, base: c.base };
            lemma_join(prefix, q);
            assert(clash_of(x) == c);
            assert(v.contains(x));
        } else {
            lemma_merges_at(trees, base, ours, theirs, n, p);
        }
    }
    assert forall|x: PathValue| #[trigger] v.contains(x) implies {
        let p = from_dir(prefix, x.path);
        let a = held_at(trees, Some(ours), p);
        let b = held_at(trees, Some(theirs), p);
        let g = held_at(trees, base, p);
        &&& x.path == join(prefix, p)
        &&& x.a == id_of(a)
        &&& x.b == id_of(b)
        &&& x.base == id_of(g)
        &&& disputed(a, b, g)
    } by {
        lemma_clash_tells(trees, base, ours, theirs, from_dir(prefix, x.path));
        lemma_from_dir(prefix, x.path);
    }
}

/// The names that are looked up are those of the entries found.
proof fn lemma_three_names(
    trees: Map<ObjectId, Seq<Entry>>,
    base: Option<ObjectId>,
    ours: ObjectId,
    theirs: ObjectId,
    name: Seq<char>,
)
    ensures
        ({
            let (pa, pb, pg) = three(trees, base, ours, theirs, name);
            &&& pa matches Some(x) ==> x.name == name
            &&& pb matches Some(x) ==> x.name == name
            &&& pg matches Some(x) ==> x.name == name
        }),
{
    lemma_named_once(trees[ours], name);
    lemma_named_once(trees[theirs], name);
    if base is Some {
        lemma_named_once(trees[base->0], name);
    }
}

/// What the three trees have at a path below a name.
proof fn lemma_held_below(trees: Map<ObjectId, Seq<Entry>>, id: Option<ObjectId>, p: Seq<char>)
    requires
        nested(p),
    ensures
        held_at(trees, id, p) == (match held_at(trees, id, first_part(p)) {
            Some(e) => if e.kind == EntryKind::Tree {
                held_at(trees, Some(e.id), after_first(p))
            } else {
                None
            },
            None => None,
        }),
        id is Some ==> held_at(trees, id, first_part(p)) == entry_named(
            trees[id->0],
            first_part(p),
        ),
{
    lemma_slash_bounds(p);
    lemma_below_split(p);
    lemma_slash_bounds(first_part(p));
}

/// The entry of a name in entries that a function of the names gives.
pub proof fn lemma_made_named(es: Seq<Entry>, at: spec_fn(Seq<char>) -> Option<Entry>, name: Seq<char>)
    requires
        made_of(es, at),
        at(name) matches Some(e) ==> e.name == name,
    ensures
        entry_named(es, name) == at(name),
{
    if let Some(e) = at(name) {
        assert(es.contains(e));
        lemma_entry_named(es, e);
    } else if entry_named(es, name) is Some {
        let i = choose|i: int| 0 <= i < es.len() && (#[trigger] es[i]).name == name;
        assert(es.contains(es[i]));
    }
}

/// A merge has at every path without a conflict there or above what follows from the three
/// trees.
proof fn lemma_merges_at(
    trees: Map<ObjectId, Seq<Entry>>,
    base: Option<ObjectId>,
    ours: ObjectId,
    theirs: ObjectId,
    n: nat,
    p: Seq<char>,
)
    requires
        merge_read(trees, base, ours, theirs, n),
        merge_stored(trees, base, ours, theirs, n),
        forall|q: Seq<char>|
            at_or_above(q, p) ==> (#[trigger] clash(trees, base, ours, theirs, q)) is None,
    ensures
        merges_at(trees, base, ours, theirs, merged_tree(trees, base, ours, theirs, n), p),
    decreases p.len(),
{
    lemma_slash_bounds(p);
    if unsettled(base, ours, theirs) {
        reveal_with_fuel(merge_read, 1);
        reveal_with_fuel(merge_stored, 1);
        let name = head_name(p);
        let (pa, pb, pg) = three(trees, base, ours, theirs, name);
        let m = merged_tree(trees, base, ours, theirs, n);
        let at = merged_at(trees, base, ours, theirs, n);
        lemma_three_names(trees, base, ours, theirs, name);
        assert(at(name) == merged_entry(trees, pa, pb, pg, n));
        assert(trees[m] == merged_entries(trees, base, ours, theirs, n));
        lemma_made_named(trees[m], at, name);
        if nested(p) {
            lemma_below_split(p);
            assert(p == below(name, after_first(p)));
        }
        assert(at_or_above(name, p));
        lemma_slash_bounds(name);
        assert(head_name(name) == name);
        assert(clash(trees, base, ours, theirs, name) == name_clash(pa, pb, pg));
        if nested(p) {
            lemma_held_below(trees, Some(ours), p);
            lemma_held_below(trees, Some(theirs), p);
            lemma_held_below(trees, base, p);
            lemma_held_below(trees, Some(m), p);
            if let Some((b, o, t)) = descend(pa, pb, pg) {
                assert forall|q: Seq<char>| at_or_above(q, after_first(p)) implies (
                #[trigger] clash(trees, b, o, t, q)) is None by {
                    lemma_below_parts(name, q);
                    let r = below(name, q);
                    assert(head_name(r) == name);
                    assert(at_or_above(r, p)) by {
                        if q != after_first(p) {
                            let rest = choose|rest: Seq<char>|
                                after_first(p) == #[trigger] below(q, rest);
                            assert(p =~= below(r, rest));
                        }
                    }
                    assert(clash(trees, base, ours, theirs, r) == clash(trees, b, o, t, q));
                }
                lemma_merges_at(trees, b, o, t, (n - 1) as nat, after_first(p));
                assert(held_at(trees, base, p) == held_at(trees, b, after_first(p)));
            }
        }
    }
}

/// A conflict of the merge tells what stands at its path, and is disputed.
proof fn lemma_clash_tells(
    trees: Map<ObjectId, Seq<Entry>>,
    base: Option<ObjectId>,
    ours: ObjectId,
    theirs: ObjectId,
    p: Seq<char>,
)
    requires
        clash(trees, base, ours, theirs, p) is Some,
    ensures
        ({
            let c = clash(trees, base, ours, theirs, p)->0;
            let a = held_at(trees, Some(ours), p);
            let b = held_at(trees, Some(theirs), p);
            let g = held_at(trees, base, p);
            c.a == id_of(a) && c.b == id_of(b) && c.base == id_of(g) && disputed(a, b, g)
        }),
    decreases p.len(),
{
    lemma_slash_bounds(p);
    let name = head_name(p);
    let (pa, pb, pg) = three(trees, base, ours, theirs, name);
    lemma_three_names(trees, base, ours, theirs, name);
    if nested(p) {
        lemma_held_below(trees, Some(ours), p);
        lemma_held_below(trees, Some(theirs), p);
        lemma_held_below(trees, base, p);
        let (b, o, t) = descend(pa, pb, pg)->0;
        lemma_clash_tells(trees, b, o, t, after_first(p));
        assert(held_at(trees, base, p) == held_at(trees, b, after_first(p)));
    }
}

/// What is disputed is a conflict of the merge, there or above.
proof fn lemma_dispute_told(
    trees: Map<ObjectId, Seq<Entry>>,
    base: Option<ObjectId>,
    ours: ObjectId,
    theirs: ObjectId,
    p: Seq<char>,
) -> (d: Seq<char>)
    requires
        disputed(
            held_at(trees, Some(ours), p),
            held_at(trees, Some(theirs), p),
            held_at(trees, base, p),
        ),
    ensures
        clash(trees, base, ours, theirs, d) is Some,
        at_or_above(d, p),
    decreases p.len(),
{
    lemma_slash_bounds(p);
    let name = head_name(p);
    let (pa, pb, pg) = three(trees, base, ours, theirs, name);
    lemma_three_names(trees, base, ours, theirs, name);
    assert(unsettled(base, ours, theirs));
    if nested(p) {
        lemma_below_split(p);
        lemma_slash_bounds(name);
        assert(clash(trees, base, ours, theirs, name) == name_clash(pa, pb, pg));
        lemma_held_below(trees, Some(ours), p);
        lemma_held_below(trees, Some(theirs), p);
        lemma_held_below(trees, base, p);
        if let Some((b, o, t)) = descend(pa, pb, pg) {
            let q = after_first(p);
            assert(held_at(trees, base, p) == held_at(trees, b, q));
            let d = lemma_dispute_told(trees, b, o, t, q);
            let whole = below(name, d);
            lemma_below_parts(name, d);
            assert(clash(trees, base, ours, theirs, whole) == clash(trees, b, o, t, d));
            if d == q {
                assert(whole == p);
            } else {
                let rest = choose|rest: Seq<char>| q == #[trigger] below(d, rest);
                assert(p =~= below(whole, rest));
            }
            whole
        } else {
            assert(p == below(name, after_first(p)));
            name
        }
    } else {
        p
    }
}

/// A merge loses nothing of a side without a conflict.
pub proof fn lemma_nothing_lost(
    o: MergeOutcome,
    trees: Map<ObjectId, Seq<Entry>>,
    base: Option<ObjectId>,
    ours: ObjectId,
    theirs: ObjectId,
)
    requires
        outcome_of(o, trees, base, ours, theirs),
        merge_read(trees, base, ours, theirs, MAX_NESTING as nat),
        merge_stored(trees, base, ours, theirs, MAX_NESTING as nat),
    ensures
        nothing_lost(o, trees, base, ours, theirs),
{
    reveal(nothing_lost);
    match o {
        MergeOutcome::Tree(m) => {
            assert forall|q: Seq<char>| (#[trigger] clash(trees, base, ours, theirs, q)) is None by {
                assert(conflict_at(trees, base, ours, theirs, q) is None);
            }
            assert forall|p: Seq<char>| #[trigger] merges_at(trees, base, ours, theirs, m, p) by {
                lemma_merges_at(trees, base, ours, theirs, MAX_NESTING as nat, p);
            }
        },
        MergeOutcome::Conflict(c) => {
            let at = conflicts_of(trees, base, ours, theirs);
            assert forall|p: Seq<char>| #[trigger]
                told_at(c@.paths, trees, base, ours, theirs, p) by {
                let a = held_at(trees, Some(ours), p);
                let b = held_at(trees, Some(theirs), p);
                let g = held_at(trees, base, p);
                assert forall|v: PathValue| #[trigger]
                    c@.paths.contains(v) && v.path == p implies v.a == id_of(a) && v.b == id_of(b)
                    && v.base == id_of(g) && (disputed(a, b, g) || (a is None && b is None
                    && g is Some)) by {
                    assert(at(p) == Some(v));
                    if rename_conflict_at(trees, base, ours, theirs, p) is Some {
                        lemma_deleted_held(trees, base->0, ours, p);
                        lemma_deleted_held(trees, base->0, theirs, p);
                    } else {
                        lemma_clash_tells(trees, base, ours, theirs, p);
                    }
                }
                if disputed(a, b, g) {
                    let d = lemma_dispute_told(trees, base, ours, theirs, p);
                    let v = conflict_at(trees, base, ours, theirs, d)->0;
                    assert(v.path == d);
                    assert(at(d) == Some(v));
                    assert(c@.paths.contains(v));
                }
            }
        },
    }
}

/// What the base has at a path and a side lacks.
proof fn lemma_deleted_held(
    trees: Map<ObjectId, Seq<Entry>>,
    base: ObjectId,
    side: ObjectId,
    p: Seq<char>,
)
    requires
        deleted_at(trees, base, side, p) is Some,
    ensures
        held_at(trees, Some(base), p) == deleted_at(trees, base, side, p),
        held_at(trees, Some(side), p) is None,
    decreases p.len(),
{
    lemma_slash_bounds(p);
    if nested(p) {
        lemma_held_below(trees, Some(base), p);
        lemma_held_below(trees, Some(side), p);
        let x = entry_named(trees[base], first_part(p))->0;
        let y = entry_named(trees[side], first_part(p))->0;
        lemma_deleted_held(trees, x.id, y.id, after_first(p));
    }
}

} // verus!
