//! Copy-on-write edits of trees.
use crate::bytes::{
    lemma_lex_antisymmetric, lemma_lex_irreflexive, lemma_lex_total, lemma_lex_transitive,
};
use crate::hash::blake3_digest;
use crate::object::{tree_bytes, tree_encodable, unencodable, MAX_TREE_ENTRIES};
use crate::paths::{
    after_first, below, find_slash, first_part, lemma_below_parts, lemma_below_split,
    lemma_slash_bounds, nested, skip_slashes, split_chars, split_slashes, texts,
    without_leading_slashes,
};
use crate::scan::{told, Fault};
use crate::text::{chars_of, decimal, decimal_text, lemma_utf8_injective, text_before, text_eq};
use crate::text::{text_lt, text_of};
use crate::textmap::{increasing, lemma_increasing_differ, TextMap};
use crate::tree::{
    canonical, entry_values, lemma_increasing_distinct, name_fault, names_fault, names_increasing,
    valid_name, validate_name, Entry, Tree, TreeEntry,
};
use crate::types::{object_id, EntryKind, Error, ObjectId};
use vstd::prelude::*;
use vstd::slice::slice_subrange;
use vstd::utf8::encode_utf8;

verus! {

/// What is staged at a path: a blob and its mode, or its removal.
pub type Op = Option<(ObjectId, bool)>;

/// Staged edits by path.
pub type Overlay = TextMap<Op>;

/// Staged edits as a map.
pub open spec fn ops(ov: Overlay) -> Map<Seq<char>, Op> {
    Map::new(|k: Seq<char>| ov.has(k), |k: Seq<char>| ov.at(k))
}

/// The id of the tree with the given entries.
pub open spec fn tree_id(es: Seq<Entry>) -> ObjectId {
    object_id(blake3_digest(tree_bytes(es)))
}

/// A place that holds trees by their ids.
pub trait TreeStore {
    /// The trees that have been stored.
    spec fn trees(&self) -> Map<ObjectId, Seq<Entry>>;

    /// What the store holds in memory agrees with what has been stored.
    spec fn sane(&self) -> bool;

    /// A tree was put whose id was that of other bytes. From then on a read may give
    /// either.
    spec fn confused(&self) -> bool;

    /// Something, a tree or not, is stored under an id.
    spec fn holds(&self, id: ObjectId) -> bool;

    /// Every stored tree can be read, and every tree that has an encoding can
    /// be stored.
    spec fn steady(&self) -> bool;

    /// A read of an id under which no tree is stored may be refused like this.
    spec fn refusal(&self, id: ObjectId, e: Error) -> bool;

    /// The tree of the given id, as it was stored. Reading changes nothing
    /// that is stored.
    fn get_tree(&mut self, id: ObjectId) -> (r: Result<Tree, Error>)
        requires
            old(self).sane(),
        ensures
            final(self).sane(),
            final(self).trees() == old(self).trees(),
            final(self).steady() == old(self).steady(),
            final(self).confused() == old(self).confused(),
            forall|other: ObjectId| #[trigger] final(self).holds(other) == old(self).holds(other),
            r matches Ok(t) ==> canonical(t@) && t@.len() <= MAX_TREE_ENTRIES,
            !old(self).confused() ==> (r matches Ok(t) ==> old(self).trees().dom().contains(id)
                && old(self).trees()[id] == t@),
            old(self).steady() && old(self).trees().dom().contains(id) ==> r is Ok,
            r matches Err(e) ==> old(self).refusal(id, e) && (!old(self).holds(id)
                ==> e is NotFound),
            forall|other: ObjectId, e: Error| #[trigger]
                final(self).refusal(other, e) == old(self).refusal(other, e),
    ;

    /// Store a tree under its id. A store that was given a tree whose entries are out of
    /// order may hand it out as it was put. What is stored already stays as it is, and
    /// nothing else is added. A canonical tree can be read back from now on,
    /// unless something else is stored under its id.
    fn put_tree(&mut self, tree: &Tree) -> (r: Result<ObjectId, Error>)
        requires
            old(self).sane(),
        ensures
            r is Err || names_increasing(tree@) ==> final(self).sane(),
            extends(old(self).trees(), final(self).trees()),
            old(self).steady() ==> final(self).steady(),
            old(self).confused() ==> final(self).confused(),
            final(self).confused() ==> old(self).confused() || (old(self).holds(tree_id(tree@))
                && !has_tree(old(self).trees(), tree@)),
            forall|other: ObjectId| #[trigger]
                final(self).holds(other) ==> old(self).holds(other) || other == tree_id(tree@),
            forall|other: ObjectId|
                old(self).holds(other) && #[trigger] final(self).trees().dom().contains(other)
                    ==> old(self).trees().dom().contains(other),
            forall|other: ObjectId| #[trigger]
                final(self).trees().dom().contains(other) ==> final(self).holds(other),
            r matches Ok(id) ==> tree_encodable(tree@) && id == tree_id(tree@) && (canonical(tree@)
                && (old(self).holds(id) ==> has_tree(old(self).trees(), tree@)) ==> has_tree(
                final(self).trees(),
                tree@,
            )),
            r is Ok && canonical(tree@) && !final(self).confused() ==> has_tree(
                final(self).trees(),
                tree@,
            ),
            old(self).steady() && tree_encodable(tree@) ==> r is Ok,
            !tree_encodable(tree@) ==> (r matches Err(e) && told(e, unencodable(tree@))),
            names_increasing(tree@) ==> forall|other: ObjectId, e: Error|
                !final(self).trees().dom().contains(other) && #[trigger] final(self).refusal(
                    other,
                    e,
                ) ==> old(self).refusal(other, e),
    ;
}

/// What `after` refuses to read, `before` refused alike.
pub open spec fn recedes<S: TreeStore>(before: S, after: S) -> bool {
    forall|id: ObjectId, e: Error|
        !after.trees().dom().contains(id) && #[trigger] after.refusal(id, e) ==> before.refusal(
            id,
            e,
        )
}

/// A tree has to be read that is not stored, and that is refused.
pub open spec fn lacking<S: TreeStore>(store: S, id: ObjectId, e: Error) -> bool {
    !store.trees().dom().contains(id) && store.refusal(id, e)
}

pub proof fn lemma_recedes_trans<S: TreeStore>(a: S, b: S, c: S)
    requires
        recedes(a, b),
        recedes(b, c),
        extends(b.trees(), c.trees()),
    ensures
        recedes(a, c),
{
    assert forall|id: ObjectId, e: Error|
        !c.trees().dom().contains(id) && #[trigger] c.refusal(id, e) implies a.refusal(id, e) by {
        if b.trees().dom().contains(id) {
            assert(c.trees().dom().contains(id));
        }
        assert(b.refusal(id, e));
    }
}

/// What is lacking later was lacking before.
pub proof fn lemma_lacking_before<S: TreeStore>(before: S, after: S, id: ObjectId, e: Error)
    requires
        lacking(after, id, e),
        recedes(before, after),
        extends(before.trees(), after.trees()),
    ensures
        lacking(before, id, e),
{
    if before.trees().dom().contains(id) {
        assert(after.trees().dom().contains(id));
    }
}

/// A tree stands under its id.
pub open spec fn has_tree(trees: Map<ObjectId, Seq<Entry>>, es: Seq<Entry>) -> bool {
    trees.dom().contains(tree_id(es)) && trees[tree_id(es)] == es
}

/// `b` holds all that `a` holds.
pub open spec fn extends(a: Map<ObjectId, Seq<Entry>>, b: Map<ObjectId, Seq<Entry>>) -> bool {
    forall|id: ObjectId| #[trigger]
        a.dom().contains(id) ==> b.dom().contains(id) && b[id] == a[id]
}

/// A name that an edit of this directory concerns directly.
pub open spec fn is_file(ov: Map<Seq<char>, Op>, name: Seq<char>) -> bool {
    ov.dom().contains(name) && name.len() > 0 && !name.contains('/')
}

/// A name below which there are edits.
pub open spec fn is_group(ov: Map<Seq<char>, Op>, name: Seq<char>) -> bool {
    !name.contains('/') && exists|rest: Seq<char>| ov.dom().contains(#[trigger] below(name, rest))
}

/// The edits below a name.
pub open spec fn group(ov: Map<Seq<char>, Op>, name: Seq<char>) -> Map<Seq<char>, Op> {
    Map::new(
        |rest: Seq<char>| ov.dom().contains(below(name, rest)),
        |rest: Seq<char>| ov[below(name, rest)],
    )
}

/// The entry of a name.
pub open spec fn entry_named(es: Seq<Entry>, name: Seq<char>) -> Option<Entry> {
    if exists|i: int| 0 <= i < es.len() && (#[trigger] es[i]).name == name {
        Some(es[choose|i: int| 0 <= i < es.len() && (#[trigger] es[i]).name == name])
    } else {
        None
    }
}

/// The directory that edits below a name start from: the tree that stands
/// there, unless an edit replaces the name itself.
pub open spec fn child_base(
    base: Seq<Entry>,
    ov: Map<Seq<char>, Op>,
    name: Seq<char>,
) -> Option<ObjectId> {
    if is_file(ov, name) {
        None
    } else {
        match entry_named(base, name) {
            Some(e) => if e.kind == EntryKind::Tree {
                Some(e.id)
            } else {
                None
            },
            None => None,
        }
    }
}

/// The entries of an optional tree.
pub open spec fn entries_of(
    trees: Map<ObjectId, Seq<Entry>>,
    id: Option<ObjectId>,
) -> Seq<Entry> {
    match id {
        Some(id) => trees[id],
        None => Seq::<Entry>::empty(),
    }
}

/// What the edits make of a name: nothing where they leave it alone, else its
/// new entry or its removal. Edits below a name win over an edit of the name;
/// a directory that they leave empty goes.
pub open spec fn edit_at(
    trees: Map<ObjectId, Seq<Entry>>,
    base: Seq<Entry>,
    ov: Map<Seq<char>, Op>,
    n: nat,
    name: Seq<char>,
) -> Option<Option<Entry>>
    decreases n, 0int,
{
    if n > 0 && is_group(ov, name) {
        let made = level(
            trees,
            entries_of(trees, child_base(base, ov, name)),
            group(ov, name),
            (n - 1) as nat,
        );
        if made.len() == 0 {
            Some(None)
        } else {
            Some(
                Some(Entry { name, kind: EntryKind::Tree, id: tree_id(made), executable: false }),
            )
        }
    } else if is_file(ov, name) {
        match ov[name] {
            Some((id, x)) => Some(
                Some(Entry { name, kind: EntryKind::Blob, id, executable: x }),
            ),
            None => Some(None),
        }
    } else {
        None
    }
}

/// `es` is `base` with the edits applied.
pub open spec fn overlaid(
    es: Seq<Entry>,
    base: Seq<Entry>,
    edit: spec_fn(Seq<char>) -> Option<Option<Entry>>,
) -> bool {
    &&& names_increasing(es)
    &&& forall|e: Entry| #[trigger]
        es.contains(e) <==> match edit(e.name) {
            Some(x) => x == Some(e),
            None => base.contains(e),
        }
}

/// The entries of a directory with all edits of it, and below it, applied. No
/// path of the edits is longer than `n`.
pub open spec fn level(
    trees: Map<ObjectId, Seq<Entry>>,
    base: Seq<Entry>,
    ov: Map<Seq<char>, Op>,
    n: nat,
) -> Seq<Entry>
    decreases n, 2int,
{
    choose|es: Seq<Entry>| #[trigger] overlaid(es, base, edits_of(trees, base, ov, n))
}

/// What the edits make of every name.
pub open spec fn edits_of(
    trees: Map<ObjectId, Seq<Entry>>,
    base: Seq<Entry>,
    ov: Map<Seq<char>, Op>,
    n: nat,
) -> spec_fn(Seq<char>) -> Option<Option<Entry>>
    decreases n, 1int,
{
    |name: Seq<char>| edit_at(trees, base, ov, n, name)
}

/// The edits have been applied here and in every directory that they lead
/// through.
#[verifier::opaque]
pub open spec fn folded(
    trees: Map<ObjectId, Seq<Entry>>,
    base: Option<ObjectId>,
    ov: Map<Seq<char>, Op>,
    n: nat,
) -> bool
    decreases n,
{
    let b = entries_of(trees, base);
    &&& overlaid(level(trees, b, ov, n), b, edits_of(trees, b, ov, n))
    &&& forall|name: Seq<char>| #[trigger]
        is_group(ov, name) ==> n > 0 && folded(
            trees,
            child_base(b, ov, name),
            group(ov, name),
            (n - 1) as nat,
        )
}

/// Every directory that the edits lead through is there, and every directory
/// that they make can be encoded and stands in `t` under its id.
#[verifier::opaque]
pub open spec fn fits(
    have: Map<ObjectId, Seq<Entry>>,
    t: Map<ObjectId, Seq<Entry>>,
    base: Option<ObjectId>,
    ov: Map<Seq<char>, Op>,
    n: nat,
) -> bool
    decreases n,
{
    let b = entries_of(t, base);
    let es = level(t, b, ov, n);
    &&& base matches Some(id) ==> have.dom().contains(id)
    &&& tree_encodable(es)
    &&& has_tree(t, es)
    &&& forall|name: Seq<char>| #[trigger]
        is_group(ov, name) ==> n > 0 && fits(
            have,
            t,
            child_base(b, ov, name),
            group(ov, name),
            (n - 1) as nat,
        )
}

/// Every directory that the edits make and that can be encoded stands in `t` under its
/// id.
#[verifier::opaque]
pub open spec fn sheltered(
    t: Map<ObjectId, Seq<Entry>>,
    base: Option<ObjectId>,
    ov: Map<Seq<char>, Op>,
    n: nat,
) -> bool
    decreases n,
{
    let b = entries_of(t, base);
    let es = level(t, b, ov, n);
    &&& tree_encodable(es) ==> has_tree(t, es)
    &&& forall|name: Seq<char>| #[trigger]
        is_group(ov, name) ==> n > 0 && sheltered(
            t,
            child_base(b, ov, name),
            group(ov, name),
            (n - 1) as nat,
        )
}

/// The directory of a name in a directory.
pub open spec fn subdir(dir: Seq<char>, name: Seq<char>) -> Seq<char> {
    if dir.len() == 0 {
        name
    } else {
        dir + "/"@ + name
    }
}

/// Why a fold is refused: at a directory that the edits lead through the tree is lacking,
/// or what they make of it is over-full or holds a name that no entry can have.
#[verifier::opaque]
pub open spec fn fold_refused<S: TreeStore>(
    store: S,
    t: Map<ObjectId, Seq<Entry>>,
    dir: Seq<char>,
    base: Option<ObjectId>,
    ov: Map<Seq<char>, Op>,
    n: nat,
    e: Error,
) -> bool
    decreases n,
{
    let b = entries_of(t, base);
    let es = level(t, b, ov, n);
    ||| base matches Some(id) && lacking(store, id, e)
    ||| !tree_encodable(es) && told(e, fold_fault(dir, es))
    ||| n > 0 && exists|name: Seq<char>| #[trigger]
        is_group(ov, name) && fold_refused(
            store,
            t,
            subdir(dir, name),
            child_base(b, ov, name),
            group(ov, name),
            (n - 1) as nat,
            e,
        )
}

proof fn lemma_fold_refused_here<S: TreeStore>(
    store: S,
    t: Map<ObjectId, Seq<Entry>>,
    dir: Seq<char>,
    base: Option<ObjectId>,
    ov: Map<Seq<char>, Op>,
    n: nat,
    e: Error,
)
    requires
        ({
            let es = level(t, entries_of(t, base), ov, n);
            ||| base matches Some(id) && lacking(store, id, e)
            ||| !tree_encodable(es) && told(e, fold_fault(dir, es))
        }),
    ensures
        fold_refused(store, t, dir, base, ov, n, e),
{
    reveal_with_fuel(fold_refused, 1);
}

proof fn lemma_fold_refused_below<S: TreeStore>(
    before: S,
    after: S,
    t: Map<ObjectId, Seq<Entry>>,
    dir: Seq<char>,
    base: Option<ObjectId>,
    ov: Map<Seq<char>, Op>,
    n: nat,
    e: Error,
    name: Seq<char>,
)
    requires
        n > 0,
        is_group(ov, name),
        recedes(before, after),
        extends(before.trees(), after.trees()),
        fold_refused(
            after,
            t,
            subdir(dir, name),
            child_base(entries_of(t, base), ov, name),
            group(ov, name),
            (n - 1) as nat,
            e,
        ),
    ensures
        fold_refused(before, t, dir, base, ov, n, e),
{
    lemma_fold_refused_before(
        before,
        after,
        t,
        subdir(dir, name),
        child_base(entries_of(t, base), ov, name),
        group(ov, name),
        (n - 1) as nat,
        e,
    );
    reveal_with_fuel(fold_refused, 1);
}

proof fn lemma_fold_refused_before<S: TreeStore>(
    before: S,
    after: S,
    t: Map<ObjectId, Seq<Entry>>,
    dir: Seq<char>,
    base: Option<ObjectId>,
    ov: Map<Seq<char>, Op>,
    n: nat,
    e: Error,
)
    requires
        recedes(before, after),
        extends(before.trees(), after.trees()),
        fold_refused(after, t, dir, base, ov, n, e),
    ensures
        fold_refused(before, t, dir, base, ov, n, e),
    decreases n,
{
    reveal_with_fuel(fold_refused, 1);
    let b = entries_of(t, base);
    if base matches Some(id) && lacking(after, id, e) {
        lemma_lacking_before(before, after, base->0, e);
    } else if !(!tree_encodable(level(t, b, ov, n)) && told(
        e,
        fold_fault(dir, level(t, b, ov, n)),
    )) {
        let name = choose|name: Seq<char>| #[trigger]
            is_group(ov, name) && fold_refused(
                after,
                t,
                subdir(dir, name),
                child_base(b, ov, name),
                group(ov, name),
                (n - 1) as nat,
                e,
            );
        lemma_fold_refused_before(
            before,
            after,
            t,
            subdir(dir, name),
            child_base(b, ov, name),
            group(ov, name),
            (n - 1) as nat,
            e,
        );
    }
}

proof fn lemma_sheltered_below(
    t: Map<ObjectId, Seq<Entry>>,
    base: Option<ObjectId>,
    ov: Map<Seq<char>, Op>,
    n: nat,
    name: Seq<char>,
)
    requires
        sheltered(t, base, ov, n),
        is_group(ov, name),
    ensures
        n > 0,
        sheltered(t, child_base(entries_of(t, base), ov, name), group(ov, name), (n - 1) as nat),
{
    reveal_with_fuel(sheltered, 1);
}

proof fn lemma_sheltered_here(
    t: Map<ObjectId, Seq<Entry>>,
    base: Option<ObjectId>,
    ov: Map<Seq<char>, Op>,
    n: nat,
)
    requires
        sheltered(t, base, ov, n),
    ensures
        tree_encodable(level(t, entries_of(t, base), ov, n)) ==> has_tree(
            t,
            level(t, entries_of(t, base), ov, n),
        ),
{
    reveal_with_fuel(sheltered, 1);
}

/// Edits that fit are not refused.
pub proof fn lemma_fits_accepted<S: TreeStore>(
    store: S,
    t: Map<ObjectId, Seq<Entry>>,
    dir: Seq<char>,
    base: Option<ObjectId>,
    ov: Map<Seq<char>, Op>,
    n: nat,
)
    requires
        fits(store.trees(), t, base, ov, n),
    ensures
        sheltered(t, base, ov, n),
        forall|e: Error| !#[trigger] fold_refused(store, t, dir, base, ov, n, e),
    decreases n,
{
    let b = entries_of(t, base);
    lemma_fits_here(store.trees(), t, base, ov, n);
    assert forall|name: Seq<char>| #[trigger] is_group(ov, name) implies n > 0 && sheltered(
        t,
        child_base(b, ov, name),
        group(ov, name),
        (n - 1) as nat,
    ) && forall|e: Error|
        !#[trigger] fold_refused(
            store,
            t,
            subdir(dir, name),
            child_base(b, ov, name),
            group(ov, name),
            (n - 1) as nat,
            e,
        ) by {
        lemma_fits_below(store.trees(), store.trees(), t, base, ov, n, name);
        lemma_fits_accepted(
            store,
            t,
            subdir(dir, name),
            child_base(b, ov, name),
            group(ov, name),
            (n - 1) as nat,
        );
    }
    assert forall|e: Error| !#[trigger] fold_refused(store, t, dir, base, ov, n, e) by {
        reveal_with_fuel(fold_refused, 1);
        if fold_refused(store, t, dir, base, ov, n, e) {
            let name = choose|name: Seq<char>| #[trigger]
                is_group(ov, name) && fold_refused(
                    store,
                    t,
                    subdir(dir, name),
                    child_base(b, ov, name),
                    group(ov, name),
                    (n - 1) as nat,
                    e,
                );
            assert(is_group(ov, name));
            assert(!fold_refused(
                store,
                t,
                subdir(dir, name),
                child_base(b, ov, name),
                group(ov, name),
                (n - 1) as nat,
                e,
            ));
        }
    }
    reveal_with_fuel(sheltered, 1);
}

/// The trees of a store are among those of `t`, and no other object has, or had when it
/// was put, the id of one of `t`.
pub open spec fn agrees<S: TreeStore>(store: S, t: Map<ObjectId, Seq<Entry>>) -> bool {
    &&& !store.confused()
    &&& extends(store.trees(), t)
    &&& forall|id: ObjectId|
        t.dom().contains(id) && #[trigger] store.holds(id) ==> store.trees().dom().contains(id)
}

/// What is folded here is folded below each name.
pub proof fn lemma_folded_below(
    trees: Map<ObjectId, Seq<Entry>>,
    base: Option<ObjectId>,
    ov: Map<Seq<char>, Op>,
    n: nat,
    name: Seq<char>,
)
    requires
        folded(trees, base, ov, n),
        is_group(ov, name),
    ensures
        n > 0,
        overlaid(
            level(trees, entries_of(trees, base), ov, n),
            entries_of(trees, base),
            edits_of(trees, entries_of(trees, base), ov, n),
        ),
        folded(
            trees,
            child_base(entries_of(trees, base), ov, name),
            group(ov, name),
            (n - 1) as nat,
        ),
{
    reveal_with_fuel(folded, 1);
}

/// What fits, fits here.
pub proof fn lemma_fits_here(
    have: Map<ObjectId, Seq<Entry>>,
    t: Map<ObjectId, Seq<Entry>>,
    base: Option<ObjectId>,
    ov: Map<Seq<char>, Op>,
    n: nat,
)
    requires
        fits(have, t, base, ov, n),
    ensures
        base matches Some(id) ==> have.dom().contains(id),
        tree_encodable(level(t, entries_of(t, base), ov, n)),
        has_tree(t, level(t, entries_of(t, base), ov, n)),
{
    reveal_with_fuel(fits, 1);
}

/// What fits, fits below each name, and more trees do no harm.
pub proof fn lemma_fits_below(
    have: Map<ObjectId, Seq<Entry>>,
    more: Map<ObjectId, Seq<Entry>>,
    t: Map<ObjectId, Seq<Entry>>,
    base: Option<ObjectId>,
    ov: Map<Seq<char>, Op>,
    n: nat,
    name: Seq<char>,
)
    requires
        extends(have, more),
        fits(have, t, base, ov, n),
        is_group(ov, name),
    ensures
        n > 0,
        fits(
            more,
            t,
            child_base(entries_of(t, base), ov, name),
            group(ov, name),
            (n - 1) as nat,
        ),
{
    reveal_with_fuel(fits, 1);
    lemma_fits_more(
        have,
        more,
        t,
        child_base(entries_of(t, base), ov, name),
        group(ov, name),
        (n - 1) as nat,
    );
}

/// More trees do no harm.
proof fn lemma_fits_more(
    have: Map<ObjectId, Seq<Entry>>,
    more: Map<ObjectId, Seq<Entry>>,
    t: Map<ObjectId, Seq<Entry>>,
    base: Option<ObjectId>,
    ov: Map<Seq<char>, Op>,
    n: nat,
)
    requires
        extends(have, more),
        fits(have, t, base, ov, n),
    ensures
        fits(more, t, base, ov, n),
    decreases n,
{
    reveal_with_fuel(fits, 1);
    let b = entries_of(t, base);
    assert forall|name: Seq<char>| #[trigger] is_group(ov, name) implies n > 0 && fits(
        more,
        t,
        child_base(b, ov, name),
        group(ov, name),
        (n - 1) as nat,
    ) by {
        lemma_fits_more(
            have,
            more,
            t,
            child_base(b, ov, name),
            group(ov, name),
            (n - 1) as nat,
        );
    }
}

/// A store that a tree of `t` was put into still agrees with `t`.
pub proof fn lemma_agrees_put<S: TreeStore>(
    before: S,
    after: S,
    t: Map<ObjectId, Seq<Entry>>,
    es: Seq<Entry>,
)
    requires
        agrees(before, t),
        has_tree(t, es),
        extends(before.trees(), after.trees()),
        forall|other: ObjectId| #[trigger]
            after.holds(other) ==> before.holds(other) || other == tree_id(es),
        forall|other: ObjectId| #[trigger]
            after.trees().dom().contains(other) ==> after.holds(other),
        forall|other: ObjectId|
            before.holds(other) && #[trigger] after.trees().dom().contains(other)
                ==> before.trees().dom().contains(other),
        after.holds(tree_id(es)) ==> has_tree(after.trees(), es),
        after.confused() ==> before.confused() || (before.holds(tree_id(es)) && !has_tree(
            before.trees(),
            es,
        )),
    ensures
        agrees(after, t),
{
    assert forall|id: ObjectId| #[trigger] after.trees().dom().contains(id) implies t.dom().contains(
        id,
    ) && t[id] == after.trees()[id] by {
        if before.holds(id) {
            assert(before.trees().dom().contains(id));
        }
    }
    assert forall|id: ObjectId| t.dom().contains(id) && #[trigger] after.holds(
        id,
    ) implies after.trees().dom().contains(id) by {
        if before.holds(id) {
            assert(before.trees().dom().contains(id));
        }
    }
}

/// No path is longer than `n`.
pub open spec fn paths_within(ov: Map<Seq<char>, Op>, n: nat) -> bool {
    forall|k: Seq<char>| #[trigger] ov.dom().contains(k) ==> k.len() <= n
}

/// Entries in increasing order are determined by which they are.
pub proof fn lemma_entries_unique(a: Seq<Entry>, b: Seq<Entry>)
    requires
        names_increasing(a),
        names_increasing(b),
        forall|e: Entry| #[trigger] a.contains(e) <==> b.contains(e),
    ensures
        a == b,
    decreases a.len(),
{
    if a.len() == 0 {
        if b.len() > 0 {
            assert(b.contains(b[0]));
            assert(a.contains(b[0]));
        }
        assert(a =~= b);
    } else {
        let x = a[a.len() - 1];
        assert(a.contains(x));
        assert(b.contains(x));
        let y = b[b.len() - 1];
        assert(b.contains(y));
        assert(a.contains(y));
        let i = choose|i: int| 0 <= i < a.len() && a[i] == y;
        let j = choose|j: int| 0 <= j < b.len() && b[j] == x;
        if i < a.len() - 1 && j < b.len() - 1 {
            assert(text_before(a[i].name, x.name));
            assert(text_before(b[j].name, y.name));
            lemma_lex_antisymmetric(encode_utf8(x.name), encode_utf8(y.name));
        }
        assert(x == y);
        let a1 = a.drop_last();
        let b1 = b.drop_last();
        assert forall|p: int, q: int| 0 <= p < q < a1.len() implies text_before(
            (#[trigger] a1[p]).name,
            (#[trigger] a1[q]).name,
        ) by {
            assert(text_before(a[p].name, a[q].name));
        }
        assert forall|p: int, q: int| 0 <= p < q < b1.len() implies text_before(
            (#[trigger] b1[p]).name,
            (#[trigger] b1[q]).name,
        ) by {
            assert(text_before(b[p].name, b[q].name));
        }
        lemma_increasing_distinct(a);
        lemma_increasing_distinct(b);
        assert forall|e: Entry| #[trigger] a1.contains(e) <==> b1.contains(e) by {
            if a1.contains(e) {
                let p = choose|p: int| 0 <= p < a1.len() && a1[p] == e;
                assert(a[p] == e);
                assert(a[p].name != a[a.len() - 1].name);
                assert(a.contains(e));
                let q = choose|q: int| 0 <= q < b.len() && b[q] == e;
                assert(b1[q] == e);
            }
            if b1.contains(e) {
                let p = choose|p: int| 0 <= p < b1.len() && b1[p] == e;
                assert(b[p] == e);
                assert(b[p].name != b[b.len() - 1].name);
                assert(b.contains(e));
                assert(a.contains(e));
                let q = choose|q: int| 0 <= q < a.len() && a[q] == e;
                assert(a1[q] == e);
            }
        }
        lemma_entries_unique(a1, b1);
        assert(a =~= a1.push(x));
        assert(b =~= b1.push(y));
    }
}

/// Applying edits gives one result.
pub proof fn lemma_overlaid_unique(
    a: Seq<Entry>,
    b: Seq<Entry>,
    base: Seq<Entry>,
    edit: spec_fn(Seq<char>) -> Option<Option<Entry>>,
)
    requires
        overlaid(a, base, edit),
        overlaid(b, base, edit),
    ensures
        a == b,
{
    assert forall|e: Entry| #[trigger] a.contains(e) <==> b.contains(e) by {}
    lemma_entries_unique(a, b);
}

/// The entry of a name among increasing entries.
pub proof fn lemma_entry_named(es: Seq<Entry>, e: Entry)
    requires
        names_increasing(es),
        es.contains(e),
    ensures
        entry_named(es, e.name) == Some(e),
{
    let i = choose|i: int| 0 <= i < es.len() && es[i] == e;
    assert(es[i].name == e.name);
    let j = choose|j: int| 0 <= j < es.len() && (#[trigger] es[j]).name == e.name;
    lemma_increasing_distinct(es);
    if i < j {
        assert(es[i].name != es[j].name);
    } else if j < i {
        assert(es[j].name != es[i].name);
    }
}

/// The entry of a name, as looked up.
pub fn find_entry(tree: &Tree, name: &str) -> (r: Option<TreeEntry>)
    requires
        names_increasing(tree@),
    ensures
        match r {
            Some(e) => entry_named(tree@, name@) == Some(e@),
            None => entry_named(tree@, name@) is None,
        },
{
    match tree.get(name) {
        Some(e) => {
            proof {
                let i = choose|i: int| 0 <= i < tree.entries@.len() && tree.entries@[i] == *e;
                assert(tree@[i] == e@);
                assert(tree@.contains(e@));
                lemma_entry_named(tree@, e@);
            }
            Some(e.copy())
        },
        None => None,
    }
}

/// An edit of a tree by name.
pub type Edits = TextMap<Option<TreeEntry>>;

/// What edits make of a name.
pub open spec fn edit_value(edits: Edits, name: Seq<char>) -> Option<Option<Entry>> {
    if edits.has(name) {
        match edits.at(name) {
            Some(e) => Some(Some(e@)),
            None => Some(None),
        }
    } else {
        None
    }
}

/// What edits make of every name.
pub open spec fn edit_map(edits: Edits) -> spec_fn(Seq<char>) -> Option<Option<Entry>> {
    |name: Seq<char>| edit_value(edits, name)
}

/// Every new entry stands under its own name.
pub open spec fn edits_named(edits: Edits) -> bool {
    forall|k: Seq<char>| #[trigger]
        edits.has(k) ==> (edits.at(k) matches Some(e) ==> e.name@ == k)
}

/// The entry that is `k`-th among the first `j` edits.
spec fn edited(edits: Edits, j: int, e: Entry) -> bool {
    exists|k: int|
        0 <= k < j && (#[trigger] edits.value_list()[k] matches Some(x) && x@ == e)
}

/// The entry is among the first `i` of the base, and no edit concerns it.
spec fn kept(base: Seq<Entry>, i: int, edits: Edits, e: Entry) -> bool {
    base.take(i).contains(e) && !edits.has(e.name)
}

/// Merge sorted entries with sorted sparse edits, in one pass over both.
pub fn merge_sorted_entries(base: &Vec<TreeEntry>, edits: &Edits) -> (r: Vec<TreeEntry>)
    requires
        names_increasing(entry_values(base@)),
        edits_named(*edits),
    ensures
        overlaid(entry_values(r@), entry_values(base@), edit_map(*edits)),
{
    let mut out: Vec<TreeEntry> = Vec::new();
    let mut i: usize = 0;
    let mut j: usize = 0;
    let count = edits.len();
    let ghost b = entry_values(base@);
    let ghost ks = edits.key_list();
    proof {
        assert(b.take(0) =~= Seq::<Entry>::empty());
        assert forall|e: Entry| #[trigger] entry_values(out@).contains(e) <==> kept(
            b,
            0,
            *edits,
            e,
        ) || edited(*edits, 0, e) by {}
    }
    while i < base.len() || j < count
        invariant
            i <= base@.len(),
            j <= count,
            count == ks.len(),
            b == entry_values(base@),
            ks == edits.key_list(),
            names_increasing(b),
            edits.ordered(),
            edits_named(*edits),
            names_increasing(entry_values(out@)),
            forall|k: int|
                0 <= k < out@.len() && i < b.len() ==> text_before(
                    (#[trigger] entry_values(out@)[k]).name,
                    b[i as int].name,
                ),
            forall|k: int|
                0 <= k < out@.len() && j < ks.len() ==> text_before(
                    (#[trigger] entry_values(out@)[k]).name,
                    ks[j as int],
                ),
            i > 0 && j < ks.len() ==> text_before(b[i - 1].name, ks[j as int]),
            j > 0 && i < b.len() ==> text_before(ks[j - 1], b[i as int].name),
            forall|e: Entry| #[trigger]
                entry_values(out@).contains(e) <==> kept(b, i as int, *edits, e) || edited(
                    *edits,
                    j as int,
                    e,
                ),
        decreases base@.len() - i + count - j,
    {
        let ghost done = entry_values(out@);
        let take_base: bool = if i == base.len() {
            false
        } else if j == count {
            true
        } else {
            text_lt(base[i].name.as_str(), edits.key(j).as_str())
        };
        if take_base {
            let e = base[i].copy();
            let ghost v = e@;
            proof {
                assert(v == b[i as int]);
                lemma_key_absent(ks, j as int, v.name);
            }
            out.push(e);
            proof {
                assert(entry_values(out@) =~= done.push(v));
                lemma_push_increasing(done, v);
                assert forall|x: Entry| #[trigger]
                    entry_values(out@).contains(x) <==> kept(b, i + 1, *edits, x) || edited(
                        *edits,
                        j as int,
                        x,
                    ) by {
                    lemma_contains_push(done, v, x);
                    lemma_kept_step(b, i as int, *edits, x);
                    assert(done.contains(x) <==> kept(b, i as int, *edits, x) || edited(
                        *edits,
                        j as int,
                        x,
                    ));
                }
                assert forall|k: int|
                    0 <= k < out@.len() && i + 1 < b.len() implies text_before(
                    (#[trigger] entry_values(out@)[k]).name,
                    b[i + 1].name,
                ) by {
                    assert(text_before(b[i as int].name, b[i + 1].name));
                    if k < done.len() {
                        assert(entry_values(out@)[k] == done[k]);
                        lemma_lex_transitive(
                            encode_utf8(done[k].name),
                            encode_utf8(b[i as int].name),
                            encode_utf8(b[i + 1].name),
                        );
                    }
                }
                assert forall|k: int|
                    0 <= k < out@.len() && j < ks.len() implies text_before(
                    (#[trigger] entry_values(out@)[k]).name,
                    ks[j as int],
                ) by {
                    if k < done.len() {
                        assert(entry_values(out@)[k] == done[k]);
                    }
                }
                if j > 0 && i + 1 < b.len() {
                    assert(text_before(b[i as int].name, b[i + 1].name));
                    lemma_lex_transitive(
                        encode_utf8(ks[j - 1]),
                        encode_utf8(b[i as int].name),
                        encode_utf8(b[i + 1].name),
                    );
                }
            }
            i += 1;
        } else {
            let name = edits.key(j);
            let same: bool = i < base.len() && text_eq(base[i].name.as_str(), name.as_str());
            let ghost i0 = i as int;
            proof {
                assert(name@ == ks[j as int]);
                if i < b.len() && !same {
                    lemma_lex_total(encode_utf8(b[i as int].name), encode_utf8(name@));
                    if encode_utf8(b[i as int].name) == encode_utf8(name@) {
                        lemma_utf8_injective(b[i as int].name, name@);
                    }
                    assert(text_before(name@, b[i as int].name));
                }
            }
            if same {
                i += 1;
            }
            proof {
                assert forall|x: Entry| #[trigger] kept(b, i as int, *edits, x) <==> kept(
                    b,
                    i0,
                    *edits,
                    x,
                ) by {
                    if same {
                        lemma_kept_step(b, i0, *edits, x);
                        assert(b[i0].name == name@);
                    }
                }
                if i < b.len() && i as int == i0 + 1 {
                    assert(text_before(b[i0].name, b[i as int].name));
                }
                assert(i < b.len() ==> text_before(name@, b[i as int].name));
            }
            let edit = edits.value(j);
            if let Some(e) = edit {
                let e = e.copy();
                let ghost v = e@;
                proof {
                    assert(edits.at(name@) is Some);
                    assert(v.name == name@);
                }
                out.push(e);
                proof {
                    assert(entry_values(out@) =~= done.push(v));
                    lemma_push_increasing(done, v);
                    assert forall|k: int| 0 <= k < out@.len() implies text_before(
                        (#[trigger] entry_values(out@)[k]).name,
                        name@,
                    ) || entry_values(out@)[k].name == name@ by {
                        if k < done.len() {
                            assert(entry_values(out@)[k] == done[k]);
                        }
                    }
                }
            }
            proof {
                let now = entry_values(out@);
                assert forall|x: Entry| #[trigger]
                    now.contains(x) <==> kept(b, i as int, *edits, x) || edited(
                        *edits,
                        j + 1,
                        x,
                    ) by {
                    assert(kept(b, i as int, *edits, x) <==> kept(b, i0, *edits, x));
                    assert(done.contains(x) <==> kept(b, i0, *edits, x) || edited(
                        *edits,
                        j as int,
                        x,
                    ));
                    lemma_edited_step(*edits, j as int, x);
                    if let Some(e) = edit {
                        lemma_contains_push(done, e@, x);
                    }
                }
                assert forall|k: int| 0 <= k < now.len() implies text_before(
                    (#[trigger] now[k]).name,
                    name@,
                ) || now[k].name == name@ by {
                    if k < done.len() {
                        assert(now[k] == done[k]);
                    }
                }
                assert forall|k: int| 0 <= k < now.len() && i < b.len() implies text_before(
                    (#[trigger] now[k]).name,
                    b[i as int].name,
                ) by {
                    if now[k].name != name@ {
                        lemma_lex_transitive(
                            encode_utf8(now[k].name),
                            encode_utf8(name@),
                            encode_utf8(b[i as int].name),
                        );
                    }
                }
                assert forall|k: int| 0 <= k < now.len() && j + 1 < ks.len() implies text_before(
                    (#[trigger] now[k]).name,
                    ks[j + 1],
                ) by {
                    assert(text_before(ks[j as int], ks[j + 1]));
                    if now[k].name != name@ {
                        lemma_lex_transitive(
                            encode_utf8(now[k].name),
                            encode_utf8(name@),
                            encode_utf8(ks[j + 1]),
                        );
                    }
                }
                if i > 0 && j + 1 < ks.len() {
                    assert(text_before(ks[j as int], ks[j + 1]));
                    if b[i - 1].name != name@ {
                        lemma_lex_transitive(
                            encode_utf8(b[i - 1].name),
                            encode_utf8(name@),
                            encode_utf8(ks[j + 1]),
                        );
                    }
                }
            }
            j += 1;
        }
    }
    proof {
        let r = entry_values(out@);
        let edit = edit_map(*edits);
        assert(b.take(i as int) =~= b);
        assert forall|e: Entry| #[trigger] r.contains(e) <==> match edit(e.name) {
            Some(x) => x == Some(e),
            None => b.contains(e),
        } by {
            lemma_edited_all(*edits, e);
        }
    }
    out
}

/// A value that comes after all others keeps the names increasing.
proof fn lemma_push_increasing(es: Seq<Entry>, v: Entry)
    requires
        names_increasing(es),
        forall|k: int| 0 <= k < es.len() ==> text_before((#[trigger] es[k]).name, v.name),
    ensures
        names_increasing(es.push(v)),
{
    let all = es.push(v);
    assert forall|i: int, j: int| 0 <= i < j < all.len() implies text_before(
        (#[trigger] all[i]).name,
        (#[trigger] all[j]).name,
    ) by {
        assert(all[i] == es[i]);
    }
}

pub(crate) proof fn lemma_contains_push<T>(s: Seq<T>, v: T, x: T)
    ensures
        s.push(v).contains(x) <==> s.contains(x) || x == v,
{
    if s.contains(x) {
        let i = choose|i: int| 0 <= i < s.len() && s[i] == x;
        assert(s.push(v)[i] == x);
    }
    if x == v {
        assert(s.push(v)[s.len() as int] == x);
    }
    if s.push(v).contains(x) {
        let i = choose|i: int| 0 <= i < s.push(v).len() && s.push(v)[i] == x;
        if i < s.len() {
            assert(s[i] == x);
        }
    }
}

proof fn lemma_kept_step(base: Seq<Entry>, i: int, edits: Edits, e: Entry)
    requires
        0 <= i < base.len(),
    ensures
        kept(base, i + 1, edits, e) <==> kept(base, i, edits, e) || (e == base[i] && !edits.has(
            e.name,
        )),
{
    assert(base.take(i + 1) =~= base.take(i).push(base[i]));
    lemma_contains_push(base.take(i), base[i], e);
}

proof fn lemma_edited_step(edits: Edits, j: int, e: Entry)
    requires
        0 <= j < edits.value_list().len(),
    ensures
        edited(edits, j + 1, e) <==> edited(edits, j, e) || (edits.value_list()[j] matches Some(x)
            && x@ == e),
{
    if edited(edits, j + 1, e) {
        let k = choose|k: int|
            0 <= k < j + 1 && (#[trigger] edits.value_list()[k] matches Some(x) && x@ == e);
        if k < j {
            assert(edited(edits, j, e));
        }
    }
    if edited(edits, j, e) {
        let k = choose|k: int|
            0 <= k < j && (#[trigger] edits.value_list()[k] matches Some(x) && x@ == e);
        assert(edited(edits, j + 1, e));
    }
    if edits.value_list()[j] matches Some(x) && x@ == e {
        assert(edited(edits, j + 1, e));
    }
}

/// The new entries are those that the edits give under their names.
proof fn lemma_edited_all(edits: Edits, e: Entry)
    requires
        edits.ordered(),
        edits_named(edits),
    ensures
        edited(edits, edits.key_list().len() as int, e) <==> edit_value(edits, e.name) == Some(
            Some(e),
        ),
{
    let n = edits.key_list().len() as int;
    if edited(edits, n, e) {
        let k = choose|k: int|
            0 <= k < n && (#[trigger] edits.value_list()[k] matches Some(x) && x@ == e);
        edits.lemma_at(k);
    }
    if edit_value(edits, e.name) == Some(Some(e)) {
        let k = choose|k: int| 0 <= k < n && edits.key_list()[k] == e.name;
        edits.lemma_at(k);
        assert(edits.value_list()[k] is Some);
    }
}

/// A text before the keys from `j` on, and after those before `j`, is no key.
proof fn lemma_key_absent(ks: Seq<Seq<char>>, j: int, k: Seq<char>)
    requires
        increasing(ks),
        0 <= j <= ks.len(),
        j > 0 ==> text_before(ks[j - 1], k),
        j < ks.len() ==> text_before(k, ks[j]),
    ensures
        !ks.contains(k),
{
    lemma_lex_irreflexive(encode_utf8(k));
    if ks.contains(k) {
        let i = choose|i: int| 0 <= i < ks.len() && ks[i] == k;
        if i < j {
            if i < j - 1 {
                assert(text_before(ks[i], ks[j - 1]));
                lemma_lex_transitive(encode_utf8(k), encode_utf8(ks[j - 1]), encode_utf8(k));
            }
        } else if i > j {
            assert(text_before(ks[j], ks[i]));
            lemma_lex_transitive(encode_utf8(k), encode_utf8(ks[j]), encode_utf8(k));
        }
    }
}

/// How a directory with too many entries is refused.
pub open spec fn overfull(dir: Seq<char>, n: nat) -> Seq<char> {
    "checkin would give "@ + (if dir.len() == 0 {
        "/"@
    } else {
        dir
    }) + " "@ + decimal(n) + " entries, more than the "@ + decimal(MAX_TREE_ENTRIES as nat)
        + " a tree may hold; split it into subdirectories"@
}

/// How a directory that cannot be encoded is refused.
pub open spec fn fold_fault(dir: Seq<char>, es: Seq<Entry>) -> Fault {
    if es.len() > MAX_TREE_ENTRIES {
        Fault::Invalid(overfull(dir, es.len()))
    } else {
        names_fault(es)
    }
}

/// The tree that edits make of a directory. The refusal of one that they
/// over-fill names the directory: this is the last place that knows which one
/// the staged writes landed in.
pub fn fold_edits(dir: &str, base: &Tree, edits: &Edits) -> (r: Result<Tree, Error>)
    requires
        names_increasing(base@),
        edits_named(*edits),
    ensures
        exists|es: Seq<Entry>| #[trigger]
            overlaid(es, base@, edit_map(*edits)) && match r {
                Ok(t) => t@ == es && canonical(es) && es.len() <= MAX_TREE_ENTRIES,
                Err(e) => !tree_encodable(es) && told(e, fold_fault(dir@, es)),
            },
{
    let entries = merge_sorted_entries(&base.entries, edits);
    let ghost es = entry_values(entries@);
    assert(overlaid(es, base@, edit_map(*edits)));
    if entries.len() as u64 > MAX_TREE_ENTRIES {
        let mut msg = "checkin would give ".to_string();
        if dir.is_empty() {
            msg.append("/");
        } else {
            msg.append(dir);
        }
        msg.append(" ");
        msg.append(decimal_text(entries.len() as u64).as_str());
        msg.append(" entries, more than the ");
        msg.append(decimal_text(MAX_TREE_ENTRIES).as_str());
        msg.append(" a tree may hold; split it into subdirectories");
        return Err(Error::Invalid(msg));
    }
    let r = Tree::from_canonical(entries);
    r
}

/// The edits below each name of a directory.
spec fn groups_match(groups: TextMap<Overlay>, m: Map<Seq<char>, Op>) -> bool {
    &&& forall|n: Seq<char>| #[trigger] groups.has(n) <==> is_group(m, n)
    &&& forall|n: Seq<char>, r: Seq<char>|
        groups.has(n) ==> (#[trigger] groups.at(n).has(r) <==> m.dom().contains(below(n, r)))
    &&& forall|n: Seq<char>, r: Seq<char>|
        groups.has(n) && groups.at(n).has(r) ==> #[trigger] groups.at(n).at(r) == m[below(n, r)]
}

/// The first `i` edits.
spec fn first_ops(ov: Overlay, i: int) -> Map<Seq<char>, Op> {
    Map::new(|k: Seq<char>| ov.key_list().take(i).contains(k), |k: Seq<char>| ov.at(k))
}

/// Tell the edits of a directory itself from those below it.
fn sort_out(ov: &Overlay) -> (r: (TextMap<Op>, TextMap<Overlay>))
    ensures
        forall|k: Seq<char>| #[trigger] r.0.has(k) <==> is_file(ops(*ov), k),
        forall|k: Seq<char>| r.0.has(k) ==> #[trigger] r.0.at(k) == ops(*ov)[k],
        forall|n: Seq<char>| #[trigger] r.1.has(n) <==> is_group(ops(*ov), n),
        forall|n: Seq<char>|
            r.1.has(n) ==> ops(#[trigger] r.1.at(n)) == group(ops(*ov), n),
{
    let mut files: TextMap<Op> = TextMap::new();
    let mut groups: TextMap<Overlay> = TextMap::new();
    let count = ov.len();
    let ghost ks = ov.key_list();
    let mut i: usize = 0;
    assert(ks.take(0) =~= Seq::<Seq<char>>::empty());
    while i < count
        invariant
            i <= count,
            count == ks.len(),
            ks == ov.key_list(),
            ov.ordered(),
            forall|k: Seq<char>| #[trigger] files.has(k) <==> is_file(first_ops(*ov, i as int), k),
            forall|k: Seq<char>|
                files.has(k) ==> #[trigger] files.at(k) == first_ops(*ov, i as int)[k],
            groups_match(groups, first_ops(*ov, i as int)),
        decreases count - i,
    {
        let ghost m = first_ops(*ov, i as int);
        let ghost m1 = first_ops(*ov, i + 1);
        let path = ov.key(i);
        let op = *ov.value(i);
        let cs = chars_of(path.as_str());
        let at = find_slash(&cs, 0);
        let ghost k = ks[i as int];
        proof {
            assert(cs@.skip(0) =~= cs@);
            lemma_slash_bounds(k);
            assert(ks.take(i + 1) =~= ks.take(i as int).push(k));
            assert forall|x: Seq<char>| #[trigger] m1.dom().contains(x) <==> m.dom().contains(x)
                || x == k by {
                lemma_contains_push(ks.take(i as int), k, x);
            }
            if m.dom().contains(k) {
                let p = choose|p: int| 0 <= p < i && ks.take(i as int)[p] == k;
                lemma_increasing_differ(ks, p, i as int);
            }
            assert(m1.dom().contains(k));
            assert(m1[k] == op);
        }
        if at < cs.len() {
            let first = text_of(slice_subrange(cs.as_slice(), 0, at));
            let rest = text_of(slice_subrange(cs.as_slice(), at + 1, cs.len()));
            let ghost f = first@;
            let ghost t = rest@;
            let ghost before = groups;
            proof {
                assert(f =~= first_part(k));
                assert(t =~= after_first(k));
                lemma_below_split(k);
                lemma_group_step(m, m1, k, f, t);
            }
            let found = groups.remove(first.as_str());
            let mut sub = match found {
                Some(sub) => sub,
                None => TextMap::new(),
            };
            let ghost sub0 = sub;
            proof {
                assert forall|r: Seq<char>| #[trigger] sub0.has(r) <==> m.dom().contains(
                    below(f, r),
                ) by {
                    if before.has(f) {
                        assert(before.at(f).has(r) <==> m.dom().contains(below(f, r)));
                    } else {
                        assert(!is_group(m, f));
                    }
                }
            }
            let ignored = sub.insert(rest, op);
            let ghost sub1 = sub;
            let ignored2 = groups.insert(first, sub);
            proof {
                assert forall|n: Seq<char>| #[trigger] groups.has(n) <==> is_group(m1, n) by {
                    assert(before.has(n) <==> is_group(m, n));
                }
                assert forall|n: Seq<char>, r: Seq<char>| groups.has(n) implies (
                #[trigger] groups.at(n).has(r) <==> m1.dom().contains(below(n, r))) by {
                    lemma_below_same(f, t, n, r);
                    assert(is_group(m1, n));
                    if n == f {
                        assert(groups.at(n) == sub1);
                        assert(sub1.has(r) <==> sub0.has(r) || r == t);
                    } else {
                        assert(before.has(n));
                        assert(before.at(n).has(r) <==> m.dom().contains(below(n, r)));
                    }
                }
                assert forall|n: Seq<char>, r: Seq<char>|
                    groups.has(n) && groups.at(n).has(r) implies #[trigger] groups.at(n).at(r)
                    == m1[below(n, r)] by {
                    lemma_below_same(f, t, n, r);
                    assert(is_group(m1, n));
                    if n == f {
                        if r != t {
                            assert(sub0.has(r));
                            assert(sub1.at(r) == sub0.at(r));
                            assert(before.has(f));
                            assert(before.at(f).at(r) == m[below(f, r)]);
                        }
                    } else {
                        assert(before.has(n));
                        assert(before.at(n).has(r));
                        assert(before.at(n).at(r) == m[below(n, r)]);
                    }
                }
                assert(k.contains('/'));
                assert forall|x: Seq<char>| #[trigger] files.has(x) <==> is_file(m1, x) by {}
            }
        } else {
            proof {
                assert(!nested(k));
                assert forall|n: Seq<char>| is_group(m1, n) <==> #[trigger] is_group(m, n) by {
                    assert forall|r: Seq<char>| !n.contains('/') implies #[trigger] below(n, r)
                        != k by {
                        lemma_below_parts(n, r);
                    }
                    if is_group(m1, n) {
                        let r = choose|r: Seq<char>| m1.dom().contains(#[trigger] below(n, r));
                        assert(m.dom().contains(below(n, r)));
                    }
                    if is_group(m, n) {
                        let r = choose|r: Seq<char>| m.dom().contains(#[trigger] below(n, r));
                        assert(m1.dom().contains(below(n, r)));
                    }
                }
                assert(groups_match(groups, m1)) by {
                    assert forall|n: Seq<char>, r: Seq<char>| groups.has(n) implies (
                    #[trigger] groups.at(n).has(r) <==> m1.dom().contains(below(n, r))) by {
                        assert(is_group(m, n));
                        lemma_below_parts(n, r);
                        assert(groups.at(n).has(r) <==> m.dom().contains(below(n, r)));
                    }
                    assert forall|n: Seq<char>, r: Seq<char>|
                        groups.has(n) && groups.at(n).has(r) implies #[trigger] groups.at(n).at(r)
                        == m1[below(n, r)] by {
                        assert(is_group(m, n));
                        assert(groups.at(n).at(r) == m[below(n, r)]);
                    }
                }
            }
            if cs.len() > 0 {
                let ignored = files.insert(path.clone(), op);
            }
        }
        i += 1;
    }
    proof {
        assert(ks.take(i as int) =~= ks);
        assert(first_ops(*ov, i as int) =~= ops(*ov));
        assert forall|n: Seq<char>| groups.has(n) implies ops(#[trigger] groups.at(n)) == group(
            ops(*ov),
            n,
        ) by {
            let g = groups.at(n);
            assert forall|r: Seq<char>| #[trigger] ops(g).dom().contains(r) <==> group(
                ops(*ov),
                n,
            ).dom().contains(r) by {
                assert(g.has(r) <==> ops(*ov).dom().contains(below(n, r)));
            }
            assert forall|r: Seq<char>| #[trigger] ops(g).dom().contains(r) implies ops(g)[r]
                == group(ops(*ov), n)[r] by {
                assert(g.at(r) == ops(*ov)[below(n, r)]);
            }
            assert(ops(g) =~= group(ops(*ov), n));
        }
    }
    (files, groups)
}

/// Paths below names without slashes are the same only where the names and
/// what follows are.
proof fn lemma_below_same(f: Seq<char>, t: Seq<char>, n: Seq<char>, r: Seq<char>)
    ensures
        !f.contains('/') && !n.contains('/') && below(n, r) == below(f, t) ==> n == f && r == t,
{
    if !f.contains('/') && !n.contains('/') {
        lemma_below_parts(f, t);
        lemma_below_parts(n, r);
    }
}

/// One more nested path adds its first part to the groups.
proof fn lemma_group_step(
    m: Map<Seq<char>, Op>,
    m1: Map<Seq<char>, Op>,
    k: Seq<char>,
    f: Seq<char>,
    t: Seq<char>,
)
    requires
        k == below(f, t),
        !f.contains('/'),
        forall|x: Seq<char>| #[trigger] m1.dom().contains(x) <==> m.dom().contains(x) || x == k,
    ensures
        forall|n: Seq<char>| #[trigger] is_group(m1, n) <==> is_group(m, n) || n == f,
{
    assert forall|n: Seq<char>| #[trigger] is_group(m1, n) <==> is_group(m, n) || n == f by {
        if is_group(m1, n) && n != f {
            let r = choose|r: Seq<char>| m1.dom().contains(#[trigger] below(n, r));
            lemma_below_same(f, t, n, r);
            assert(m.dom().contains(below(n, r)));
        }
        if is_group(m, n) {
            let r = choose|r: Seq<char>| m.dom().contains(#[trigger] below(n, r));
            assert(m1.dom().contains(below(n, r)));
        }
        if n == f {
            assert(m1.dom().contains(below(f, t)));
        }
    }
}

/// The longest of some paths.
pub open spec fn longest(ks: Seq<Seq<char>>) -> nat
    decreases ks.len(),
{
    if ks.len() == 0 {
        0
    } else {
        let n = longest(ks.drop_last());
        if ks.last().len() > n {
            ks.last().len()
        } else {
            n
        }
    }
}

proof fn lemma_longest(ks: Seq<Seq<char>>, i: int)
    requires
        0 <= i < ks.len(),
    ensures
        ks[i].len() <= longest(ks),
    decreases ks.len(),
{
    if i < ks.len() - 1 {
        lemma_longest(ks.drop_last(), i);
    }
}

/// The entry that edits below `name` make of it.
fn group_edit(name: &String, id: ObjectId, child: &Tree) -> (r: Option<TreeEntry>)
    ensures
        match r {
            Some(e) => child@.len() > 0 && e@ == (Entry {
                name: name@,
                kind: EntryKind::Tree,
                id,
                executable: false,
            }),
            None => child@.len() == 0,
        },
{
    if child.is_empty() {
        None
    } else {
        Some(TreeEntry { name: name.clone(), kind: EntryKind::Tree, id, executable: false })
    }
}

/// The edits that the direct changes of a directory amount to.
fn file_edits(files: &TextMap<Op>) -> (r: Edits)
    ensures
        edits_named(r),
        forall|k: Seq<char>| #[trigger] r.has(k) <==> files.has(k),
        forall|k: Seq<char>|
            files.has(k) ==> #[trigger] edit_value(r, k) == Some(
                match files.at(k) {
                    Some((id, x)) => Some(
                        Entry { name: k, kind: EntryKind::Blob, id, executable: x },
                    ),
                    None => None,
                },
            ),
{
    let mut edits: Edits = TextMap::new();
    let count = files.len();
    let ghost ks = files.key_list();
    let mut i: usize = 0;
    while i < count
        invariant
            i <= count,
            count == ks.len(),
            ks == files.key_list(),
            files.ordered(),
            edits_named(edits),
            forall|k: Seq<char>| #[trigger] edits.has(k) <==> ks.take(i as int).contains(k),
            forall|j: int|
                0 <= j < i ==> #[trigger] edit_value(edits, ks[j]) == Some(
                    match files.at(ks[j]) {
                        Some((id, x)) => Some(
                            Entry { name: ks[j], kind: EntryKind::Blob, id, executable: x },
                        ),
                        None => None,
                    },
                ),
        decreases count - i,
    {
        let name = files.key(i);
        let edit = match *files.value(i) {
            Some((id, executable)) => Some(
                TreeEntry { name: name.clone(), kind: EntryKind::Blob, id, executable },
            ),
            None => None,
        };
        let ghost before = edits;
        let ignored = edits.insert(name.clone(), edit);
        proof {
            let k = ks[i as int];
            assert(ks.take(i + 1) =~= ks.take(i as int).push(k));
            assert forall|x: Seq<char>| #[trigger] edits.has(x) <==> ks.take(i + 1).contains(x) by {
                lemma_contains_push(ks.take(i as int), k, x);
                assert(before.has(x) <==> ks.take(i as int).contains(x));
            }
            assert forall|j: int| 0 <= j < i + 1 implies #[trigger] edit_value(edits, ks[j])
                == Some(
                match files.at(ks[j]) {
                    Some((id, x)) => Some(
                        Entry { name: ks[j], kind: EntryKind::Blob, id, executable: x },
                    ),
                    None => None,
                },
            ) by {
                if j < i {
                    lemma_increasing_differ(ks, j, i as int);
                    assert(ks.take(i as int)[j] == ks[j]);
                    assert(before.has(ks[j]));
                    assert(edit_value(before, ks[j]) is Some);
                    assert(edits.at(ks[j]) == before.at(ks[j]));
                }
            }
            assert forall|x: Seq<char>| #[trigger] edits.has(x) implies (
            edits.at(x) matches Some(e) ==> e.name@ == x) by {
                if x != k {
                    assert(before.has(x));
                }
            }
        }
        i += 1;
    }
    proof {
        assert(ks.take(i as int) =~= ks);
        assert forall|k: Seq<char>| files.has(k) implies #[trigger] edit_value(edits, k) == Some(
            match files.at(k) {
                Some((id, x)) => Some(
                    Entry { name: k, kind: EntryKind::Blob, id, executable: x },
                ),
                None => None,
            },
        ) by {
            let j = choose|j: int| 0 <= j < ks.len() && ks[j] == k;
            assert(edit_value(edits, ks[j]) is Some);
        }
    }
    edits
}

/// What the edits below a name make of it.
fn apply_group<S: TreeStore>(
    base_tree: &Tree,
    files: &TextMap<Op>,
    name: &String,
    sub: &Overlay,
    dir: &str,
    store: &mut S,
    Ghost(ov): Ghost<Map<Seq<char>, Op>>,
    Ghost(n): Ghost<nat>,
) -> (r: Result<Option<TreeEntry>, Error>)
    requires
        old(store).sane(),
        names_increasing(base_tree@),
        paths_within(ov, n),
        is_group(ov, name@),
        ops(*sub) == group(ov, name@),
        files.has(name@) <==> is_file(ov, name@),
    ensures
        final(store).sane(),
        extends(old(store).trees(), final(store).trees()),
        old(store).steady() ==> final(store).steady(),
        recedes(*old(store), *final(store)),
        forall|t: Map<ObjectId, Seq<Entry>>| #[trigger]
            sheltered(
                t,
                child_base(base_tree@, ov, name@),
                group(ov, name@),
                (n - 1) as nat,
            ) && agrees(*old(store), t) && old(store).steady() ==> match r {
                Ok(_) => agrees(*final(store), t),
                Err(e) => fold_refused(
                    *old(store),
                    t,
                    subdir(dir@, name@),
                    child_base(base_tree@, ov, name@),
                    group(ov, name@),
                    (n - 1) as nat,
                    e,
                ),
            },
        old(store).confused() ==> final(store).confused(),
        r matches Ok(e) ==> {
            &&& e matches Some(x) ==> x.name@ == name@
            &&& n > 0
            &&& !final(store).confused() ==> forall|trees: Map<ObjectId, Seq<Entry>>| #[trigger]
                extends(final(store).trees(), trees) ==> edit_at(
                    trees,
                    base_tree@,
                    ov,
                    n,
                    name@,
                ) == Some(
                    match e {
                        Some(x) => Some(x@),
                        None => None,
                    },
                ) && folded(
                    trees,
                    child_base(base_tree@, ov, name@),
                    group(ov, name@),
                    (n - 1) as nat,
                ) && fits(
                    trees,
                    trees,
                    child_base(base_tree@, ov, name@),
                    group(ov, name@),
                    (n - 1) as nat,
                )
        },
    decreases n, 0int,
{
    let ghost k = name@;
    let is_edited = files.contains(name.as_str());
    let child = if is_edited {
        None
    } else {
        match base_tree.get(name.as_str()) {
            Some(e) => if e.kind == EntryKind::Tree {
                Some(e.id)
            } else {
                None
            },
            None => None,
        }
    };
    proof {
        lemma_child_base(*base_tree, ov, k, child, is_edited);
        assert(is_group(ov, k));
        let r = choose|r: Seq<char>| ov.dom().contains(#[trigger] below(k, r));
        assert(below(k, r).len() <= n);
        assert forall|x: Seq<char>| #[trigger] ops(*sub).dom().contains(x) implies x.len()
            <= (n - 1) as nat by {
            assert(group(ov, k).dom().contains(x));
            assert(ov.dom().contains(below(k, x)));
        }
    }
    let child_dir = if dir.is_empty() {
        name.clone()
    } else {
        let mut d = dir.to_string();
        d.append("/");
        d.append(name.as_str());
        d
    };
    assert(child_dir@ =~= subdir(dir@, name@));
    let child_id = apply_level(child, child_dir.as_str(), sub, store, Ghost((n - 1) as nat))?;
    let child_tree = store.get_tree(child_id)?;
    proof {
        assert forall|trees: Map<ObjectId, Seq<Entry>>| #[trigger]
            extends(store.trees(), trees) && !store.confused() implies child_tree@ == level(
            trees,
            entries_of(trees, child_base(base_tree@, ov, k)),
            group(ov, k),
            (n - 1) as nat,
        ) by {
            lemma_fits_here(
                trees,
                trees,
                child_base(base_tree@, ov, k),
                group(ov, k),
                (n - 1) as nat,
            );
            assert(trees[child_id] == child_tree@);
        }
    }
    Ok(group_edit(name, child_id, &child_tree))
}

/// Apply the edits of one directory and of those below it.
fn apply_level<S: TreeStore>(
    base: Option<ObjectId>,
    dir: &str,
    overlay: &Overlay,
    store: &mut S,
    Ghost(n): Ghost<nat>,
) -> (r: Result<ObjectId, Error>)
    requires
        paths_within(ops(*overlay), n),
        old(store).sane(),
    ensures
        final(store).sane(),
        extends(old(store).trees(), final(store).trees()),
        old(store).steady() ==> final(store).steady(),
        recedes(*old(store), *final(store)),
        forall|t: Map<ObjectId, Seq<Entry>>| #[trigger]
            sheltered(t, base, ops(*overlay), n) && agrees(*old(store), t)
                && old(store).steady() ==> match r {
                Ok(_) => agrees(*final(store), t) && has_tree(
                    final(store).trees(),
                    level(t, entries_of(t, base), ops(*overlay), n),
                ),
                Err(e) => fold_refused(*old(store), t, dir@, base, ops(*overlay), n, e),
            },
        old(store).confused() ==> final(store).confused(),
        !final(store).confused() ==> (r matches Ok(id) ==> {
            &&& base matches Some(b) ==> old(store).trees().dom().contains(b)
            &&& forall|trees: Map<ObjectId, Seq<Entry>>| #[trigger]
                extends(final(store).trees(), trees) ==> {
                    let es = level(trees, entries_of(trees, base), ops(*overlay), n);
                    &&& id == tree_id(es)
                    &&& canonical(es)
                    &&& es.len() <= MAX_TREE_ENTRIES
                    &&& folded(trees, base, ops(*overlay), n)
                    &&& fits(trees, trees, base, ops(*overlay), n)
                }
        }),
    decreases n, 1int,
{
    let base_tree = match base {
        Some(id) => match store.get_tree(id) {
            Ok(t) => t,
            Err(e) => {
                proof {
                    if old(store).steady() {
                        assert forall|t: Map<ObjectId, Seq<Entry>>| #[trigger]
                            sheltered(t, base, ops(*overlay), n) implies fold_refused(
                            *old(store),
                            t,
                            dir@,
                            base,
                            ops(*overlay),
                            n,
                            e,
                        ) by {
                            assert(lacking(*old(store), id, e));
                            lemma_fold_refused_here(
                                *old(store),
                                t,
                                dir@,
                                base,
                                ops(*overlay),
                                n,
                                e,
                            );
                        }
                    }
                }
                return Err(e);
            },
        },
        None => {
            let t = Tree { entries: Vec::new() };
            assert(t@ =~= Seq::<Entry>::empty());
            t
        },
    };
    let ghost b = base_tree@;
    let ghost ov = ops(*overlay);
    let ghost start = store.trees();
    let (files, groups) = sort_out(overlay);
    let mut edits = file_edits(&files);
    let count = groups.len();
    let ghost ks = groups.key_list();
    let mut i: usize = 0;
    proof {
        assert(ks.take(0) =~= Seq::<Seq<char>>::empty());
        assert forall|name: Seq<char>| is_file(ov, name) && #[trigger] groups.has(
            name,
        ) == false implies edit_value(edits, name) == edit_at(start, b, ov, n, name) by {
            assert(files.has(name));
            assert(!is_group(ov, name));
        }
    }
    while i < count
        invariant
            i <= count,
            count == ks.len(),
            ks == groups.key_list(),
            groups.ordered(),
            names_increasing(b),
            b == base_tree@,
            paths_within(ov, n),
            ov == ops(*overlay),
            store.sane(),
            start == old(store).trees(),
            extends(start, store.trees()),
            old(store).steady() ==> store.steady(),
            old(store).confused() ==> store.confused(),
            !old(store).confused() ==> (base matches Some(id) ==> start.dom().contains(id)
                && start[id] == b),
            base is None ==> b.len() == 0,
            recedes(*old(store), *store),
            forall|t: Map<ObjectId, Seq<Entry>>| #[trigger]
                sheltered(t, base, ov, n) && agrees(*old(store), t) && old(store).steady()
                    ==> agrees(*store, t),
            forall|k: Seq<char>| #[trigger] files.has(k) <==> is_file(ov, k),
            forall|k: Seq<char>| #[trigger] groups.has(k) <==> is_group(ov, k),
            forall|k: Seq<char>|
                groups.has(k) ==> ops(#[trigger] groups.at(k)) == group(ov, k),
            edits_named(edits),
            forall|k: Seq<char>| #[trigger]
                edits.has(k) <==> is_file(ov, k) || ks.take(i as int).contains(k),
            forall|k: Seq<char>|
                is_file(ov, k) && !ks.contains(k) ==> #[trigger] edit_value(edits, k) == Some(
                    match ov[k] {
                        Some((id, x)) => Some(
                            Entry { name: k, kind: EntryKind::Blob, id, executable: x },
                        ),
                        None => None,
                    },
                ),
            forall|trees: Map<ObjectId, Seq<Entry>>, j: int|
                #![trigger extends(store.trees(), trees), ks[j]]
                !store.confused() && extends(store.trees(), trees) && 0 <= j < i ==> edit_value(edits, ks[j]) == edit_at(
                    trees,
                    b,
                    ov,
                    n,
                    ks[j],
                ) && n > 0 && folded(
                    trees,
                    child_base(b, ov, ks[j]),
                    group(ov, ks[j]),
                    (n - 1) as nat,
                ) && fits(
                    trees,
                    trees,
                    child_base(b, ov, ks[j]),
                    group(ov, ks[j]),
                    (n - 1) as nat,
                ),
        decreases count - i,
    {
        let name = groups.key(i);
        let sub = groups.value(i);
        let ghost k = ks[i as int];
        let ghost t0 = store.trees();
        let ghost prior = *store;
        proof {
            assert forall|t: Map<ObjectId, Seq<Entry>>| #[trigger]
                sheltered(t, base, ov, n) && agrees(*old(store), t)
                    && old(store).steady() implies entries_of(t, base) == b && sheltered(
                t,
                child_base(b, ov, k),
                group(ov, k),
                (n - 1) as nat,
            ) by {
                assert(agrees(*store, t));
                lemma_extends_trans(start, t0, t);
                assert(entries_of(t, base) =~= b);
                lemma_sheltered_below(t, base, ov, n, k);
            }
        }
        let outcome = apply_group(
            &base_tree,
            &files,
            name,
            sub,
            dir,
            store,
            Ghost(ov),
            Ghost(n),
        );
        proof {
            lemma_extends_trans(start, t0, store.trees());
            lemma_recedes_trans(*old(store), prior, *store);
        }
        let edit = match outcome {
            Ok(edit) => edit,
            Err(e) => {
                proof {
                    assert forall|t: Map<ObjectId, Seq<Entry>>| #[trigger]
                        sheltered(t, base, ov, n) && agrees(*old(store), t)
                            && old(store).steady() implies fold_refused(
                        *old(store),
                        t,
                        dir@,
                        base,
                        ov,
                        n,
                        e,
                    ) by {
                        lemma_sheltered_below(t, base, ov, n, k);
                        lemma_fold_refused_below(
                            *old(store),
                            prior,
                            t,
                            dir@,
                            base,
                            ov,
                            n,
                            e,
                            k,
                        );
                    }
                }
                return Err(e);
            },
        };
        let ghost t1 = store.trees();
        let ghost before = edits;
        let ghost edit_v = edit;
        let ignored = edits.insert(name.clone(), edit);
        proof {
            assert(ks.take(i + 1) =~= ks.take(i as int).push(k));
            assert forall|x: Seq<char>| #[trigger] edits.has(x) <==> is_file(ov, x) || ks.take(
                i + 1,
            ).contains(x) by {
                lemma_contains_push(ks.take(i as int), k, x);
                assert(before.has(x) <==> is_file(ov, x) || ks.take(i as int).contains(x));
            }
            assert forall|x: Seq<char>| #[trigger] edits.has(x) implies (
            edits.at(x) matches Some(e) ==> e.name@ == x) by {
                if x != k {
                    assert(before.has(x));
                }
            }
            assert(ks.contains(k));
            assert forall|x: Seq<char>|
                is_file(ov, x) && !ks.contains(x) implies #[trigger] edit_value(edits, x) == Some(
                match ov[x] {
                    Some((id, ex)) => Some(
                        Entry { name: x, kind: EntryKind::Blob, id, executable: ex },
                    ),
                    None => None,
                },
            ) by {
                assert(before.has(x));
                assert(edit_value(before, x) is Some);
                assert(edits.at(x) == before.at(x));
            }
            assert forall|trees: Map<ObjectId, Seq<Entry>>, j: int|
                #![trigger extends(store.trees(), trees), ks[j]]
                !store.confused() && extends(store.trees(), trees) && 0 <= j < i + 1 implies edit_value(edits, ks[j])
                == edit_at(trees, b, ov, n, ks[j]) && n > 0 && folded(
                trees,
                child_base(b, ov, ks[j]),
                group(ov, ks[j]),
                (n - 1) as nat,
            ) && fits(
                trees,
                trees,
                child_base(b, ov, ks[j]),
                group(ov, ks[j]),
                (n - 1) as nat,
            ) by {
                lemma_extends_trans(t0, t1, trees);
                if j < i {
                    lemma_increasing_differ(ks, j, i as int);
                    assert(ks.take(i as int)[j] == ks[j]);
                    assert(before.has(ks[j]));
                    assert(edits.at(ks[j]) == before.at(ks[j]));
                    assert(edit_value(before, ks[j]) == edit_at(trees, b, ov, n, ks[j]));
                } else {
                    assert(extends(t1, trees));
                    assert(edits.at(k) == edit_v);
                    assert(edits.has(k));
                }
            }
            lemma_extends_trans(start, t0, t1);
        }
        i += 1;
    }
    let ghost t2 = store.trees();
    proof {
        assert forall|trees: Map<ObjectId, Seq<Entry>>, es: Seq<Entry>|
            #![trigger extends(t2, trees), overlaid(es, b, edit_map(edits))]
            !store.confused() && extends(t2, trees) && overlaid(
                es,
                b,
                edit_map(edits),
            ) implies level(
            trees,
            entries_of(trees, base),
            ov,
            n,
        ) == es && folded(trees, base, ov, n) && (tree_encodable(es) && has_tree(trees, es)
            ==> fits(trees, trees, base, ov, n)) by {
            lemma_extends_trans(start, t2, trees);
            assert(entries_of(trees, base) =~= b);
            let want = edits_of(trees, b, ov, n);
            assert(ks.take(count as int) =~= ks);
            assert forall|name: Seq<char>| #[trigger] edit_map(edits)(name) == want(name) by {
                assert(groups.has(name) <==> is_group(ov, name));
                if ks.contains(name) {
                    let j = choose|j: int| 0 <= j < ks.len() && ks[j] == name;
                    assert(extends(t2, trees));
                    assert(edit_value(edits, ks[j]) == edit_at(trees, b, ov, n, ks[j]));
                } else {
                    assert(!is_group(ov, name));
                    if is_file(ov, name) {
                        assert(edit_value(edits, name) is Some);
                    } else {
                        assert(!edits.has(name));
                    }
                }
            }
            assert(edit_map(edits) =~= want);
            let got = level(trees, b, ov, n);
            assert(overlaid(es, b, want));
            assert(overlaid(got, b, want));
            lemma_overlaid_unique(got, es, b, want);
            assert forall|name: Seq<char>| #[trigger] is_group(ov, name) implies n > 0 && folded(
                trees,
                child_base(b, ov, name),
                group(ov, name),
                (n - 1) as nat,
            ) && fits(
                trees,
                trees,
                child_base(b, ov, name),
                group(ov, name),
                (n - 1) as nat,
            ) by {
                assert(groups.has(name));
                let j = choose|j: int| 0 <= j < ks.len() && ks[j] == name;
                assert(extends(t2, trees));
                assert(edit_value(edits, ks[j]) == edit_at(trees, b, ov, n, ks[j]));
            }
            reveal_with_fuel(folded, 1);
            reveal_with_fuel(fits, 1);
        }
    }
    proof {
        assert forall|t: Map<ObjectId, Seq<Entry>>| #[trigger]
            sheltered(t, base, ov, n) && agrees(*old(store), t)
                && old(store).steady() implies extends(t2, t) by {
            assert(agrees(*store, t));
        }
    }
    let tree = match fold_edits(dir, &base_tree, &edits) {
        Ok(tree) => tree,
        Err(e) => {
            proof {
                let es = choose|es: Seq<Entry>| #[trigger]
                    overlaid(es, b, edit_map(edits)) && !tree_encodable(es) && told(
                        e,
                        fold_fault(dir@, es),
                    );
                assert forall|t: Map<ObjectId, Seq<Entry>>| #[trigger]
                    sheltered(t, base, ov, n) && agrees(*old(store), t)
                        && old(store).steady() implies fold_refused(
                    *old(store),
                    t,
                    dir@,
                    base,
                    ov,
                    n,
                    e,
                ) by {
                    assert(extends(t2, t));
                    assert(level(t, entries_of(t, base), ov, n) == es);
                    lemma_fold_refused_here(*old(store), t, dir@, base, ov, n, e);
                }
            }
            return Err(e);
        },
    };
    let ghost prior = *store;
    let r = store.put_tree(&tree);
    proof {
        let t3 = store.trees();
        lemma_extends_trans(start, t2, t3);
        assert forall|trees: Map<ObjectId, Seq<Entry>>| #[trigger] extends(t3, trees) implies extends(
            t2,
            trees,
        ) by {
            lemma_extends_trans(t2, t3, trees);
        }
        lemma_recedes_trans(*old(store), prior, *store);
        assert forall|t: Map<ObjectId, Seq<Entry>>| #[trigger]
            sheltered(t, base, ov, n) && agrees(*old(store), t)
                && old(store).steady() implies agrees(*store, t) && has_tree(
            t3,
            level(t, entries_of(t, base), ov, n),
        ) by {
            assert(extends(t2, t));
            assert(overlaid(tree@, b, edit_map(edits)));
            lemma_sheltered_here(t, base, ov, n);
            lemma_agrees_put(prior, *store, t, tree@);
        }
    }
    r
}

proof fn lemma_extends_trans(
    a: Map<ObjectId, Seq<Entry>>,
    b: Map<ObjectId, Seq<Entry>>,
    c: Map<ObjectId, Seq<Entry>>,
)
    requires
        extends(a, b),
        extends(b, c),
    ensures
        extends(a, c),
{
    assert forall|id: ObjectId| #[trigger] a.dom().contains(id) implies c.dom().contains(id) && c[id]
        == a[id] by {
        assert(b.dom().contains(id));
    }
}

/// The tree that edits below a name start from, as looked up.
proof fn lemma_child_base(
    base: Tree,
    ov: Map<Seq<char>, Op>,
    name: Seq<char>,
    child: Option<ObjectId>,
    is_edited: bool,
)
    requires
        names_increasing(base@),
        is_edited == is_file(ov, name),
        is_edited ==> child is None,
        !is_edited ==> (exists|e: TreeEntry| #[trigger]
            base.entries@.contains(e) && e.name@ == name && child == (if e.kind
                == EntryKind::Tree {
                Some(e.id)
            } else {
                None
            })) || (child is None && forall|i: int|
            0 <= i < base@.len() ==> (#[trigger] base@[i]).name != name),
    ensures
        child == child_base(base@, ov, name),
{
    if !is_edited {
        if exists|e: TreeEntry| #[trigger]
            base.entries@.contains(e) && e.name@ == name && child == (if e.kind
                == EntryKind::Tree {
                Some(e.id)
            } else {
                None
            }) {
            let e = choose|e: TreeEntry| #[trigger]
                base.entries@.contains(e) && e.name@ == name && child == (if e.kind
                    == EntryKind::Tree {
                    Some(e.id)
                } else {
                    None
                });
            let i = choose|i: int| 0 <= i < base.entries@.len() && base.entries@[i] == e;
            assert(base@[i] == e@);
            assert(base@.contains(e@));
            lemma_entry_named(base@, e@);
        } else {
            assert(entry_named(base@, name) is None);
        }
    }
}

/// Edits whose directories were there before, and that fit among the trees that were
/// made, fit with the trees that were there before.
proof fn lemma_fits_found(
    have: Map<ObjectId, Seq<Entry>>,
    t: Map<ObjectId, Seq<Entry>>,
    made: Map<ObjectId, Seq<Entry>>,
    base: Option<ObjectId>,
    ov: Map<Seq<char>, Op>,
    n: nat,
)
    requires
        fits(have, t, base, ov, n),
        fits(made, made, base, ov, n),
        extends(have, made),
        extends(made, t),
    ensures
        fits(have, made, base, ov, n),
    decreases n,
{
    lemma_fits_here(have, t, base, ov, n);
    lemma_fits_here(made, made, base, ov, n);
    let b = entries_of(made, base);
    assert(b == entries_of(t, base));
    assert forall|name: Seq<char>| #[trigger] is_group(ov, name) implies n > 0 && fits(
        have,
        made,
        child_base(b, ov, name),
        group(ov, name),
        (n - 1) as nat,
    ) by {
        lemma_fits_below(have, have, t, base, ov, n, name);
        lemma_fits_below(made, made, made, base, ov, n, name);
        lemma_fits_found(
            have,
            t,
            made,
            child_base(b, ov, name),
            group(ov, name),
            (n - 1) as nat,
        );
    }
    reveal_with_fuel(fits, 1);
}

/// The id of a tree with staged edits applied.
pub open spec fn overlay_root(
    trees: Map<ObjectId, Seq<Entry>>,
    base: Option<ObjectId>,
    ov: Overlay,
) -> ObjectId {
    tree_id(level(trees, entries_of(trees, base), ops(ov), longest(ov.key_list())))
}

/// Copy-on-write fold of staged edits onto a base tree. A steady store owes
/// success where every directory on the way is stored, every directory that is
/// made can be encoded, and no id of one is taken by something else.
pub fn apply_overlay<S: TreeStore>(
    base: Option<ObjectId>,
    overlay: &Overlay,
    store: &mut S,
) -> (r: Result<ObjectId, Error>)
    requires
        old(store).sane(),
    ensures
        final(store).sane(),
        extends(old(store).trees(), final(store).trees()),
        old(store).steady() ==> final(store).steady(),
        forall|t: Map<ObjectId, Seq<Entry>>| #[trigger]
            fits(old(store).trees(), t, base, ops(*overlay), longest(overlay.key_list()))
                && agrees(*old(store), t) && old(store).steady() ==> r is Ok && agrees(
                *final(store),
                t,
            ) && has_tree(
                final(store).trees(),
                level(t, entries_of(t, base), ops(*overlay), longest(overlay.key_list())),
            ) && fits(
                old(store).trees(),
                final(store).trees(),
                base,
                ops(*overlay),
                longest(overlay.key_list()),
            ),
        forall|t: Map<ObjectId, Seq<Entry>>| #[trigger]
            sheltered(t, base, ops(*overlay), longest(overlay.key_list())) && agrees(
                *old(store),
                t,
            ) && old(store).steady() ==> (r matches Err(e) ==> fold_refused(
                *old(store),
                t,
                Seq::<char>::empty(),
                base,
                ops(*overlay),
                longest(overlay.key_list()),
                e,
            )),
        old(store).confused() ==> final(store).confused(),
        !final(store).confused() ==> (r matches Ok(id) ==> {
            let trees = final(store).trees();
            let before = entries_of(trees, base);
            let n = longest(overlay.key_list());
            &&& id == overlay_root(trees, base, *overlay)
            &&& tree_encodable(level(trees, before, ops(*overlay), n))
            &&& folded(trees, base, ops(*overlay), n)
            &&& fits(trees, trees, base, ops(*overlay), n)
            &&& base matches Some(b) ==> old(store).trees().dom().contains(b)
        }),
{
    let count = overlay.len();
    let ghost n = longest(overlay.key_list());
    proof {
        assert forall|k: Seq<char>| #[trigger] ops(*overlay).dom().contains(k) implies k.len()
            <= n by {
            let i = choose|i: int|
                0 <= i < overlay.key_list().len() && overlay.key_list()[i] == k;
            lemma_longest(overlay.key_list(), i);
        }
    }
    proof {
        reveal_strlit("");
        assert(""@ =~= Seq::<char>::empty());
        assert forall|t: Map<ObjectId, Seq<Entry>>| #[trigger]
            fits(old(store).trees(), t, base, ops(*overlay), n) implies sheltered(
            t,
            base,
            ops(*overlay),
            n,
        ) && forall|e: Error|
            !#[trigger] fold_refused(*old(store), t, ""@, base, ops(*overlay), n, e) by {
            lemma_fits_accepted(*old(store), t, ""@, base, ops(*overlay), n);
        }
    }
    let r = apply_level(base, "", overlay, store, Ghost(n));
    proof {
        let made = store.trees();
        assert(extends(made, made));
        assert forall|t: Map<ObjectId, Seq<Entry>>| #[trigger]
            fits(old(store).trees(), t, base, ops(*overlay), n) && agrees(*old(store), t)
                && old(store).steady() implies fits(
            old(store).trees(),
            made,
            base,
            ops(*overlay),
            n,
        ) by {
            lemma_fits_found(old(store).trees(), t, made, base, ops(*overlay), n);
        }
    }
    r
}

/// The part at `i` is the first that can name no entry.
pub open spec fn bad_part(ps: Seq<Seq<char>>, i: int) -> bool {
    &&& 0 <= i < ps.len()
    &&& !valid_name(ps[i])
    &&& forall|j: int| 0 <= j < i ==> valid_name(#[trigger] ps[j])
}

/// How a path that cannot be walked is refused: by its first part that can name no entry.
pub open spec fn path_fault(path: Seq<char>) -> Fault {
    let ps = split_slashes(without_leading_slashes(path));
    let i = choose|i: int| #[trigger] bad_part(ps, i);
    Fault::Invalid(name_fault(ps[i]))
}

proof fn lemma_bad_part(ps: Seq<Seq<char>>, i: int)
    requires
        bad_part(ps, i),
    ensures
        forall|k: int| #[trigger] bad_part(ps, k) ==> k == i,
{
    assert forall|k: int| #[trigger] bad_part(ps, k) implies k == i by {
        if k < i {
            assert(valid_name(ps[k]));
        } else if i < k {
            assert(valid_name(ps[i]));
        }
    }
}

/// A path as the names of a walk from the root.
pub fn split_path(path: &str) -> (r: Result<Vec<String>, Error>)
    ensures
        ({
            let rest = without_leading_slashes(path@);
            match r {
                Ok(parts) => if rest.len() == 0 {
                    parts@.len() == 0
                } else {
                    texts(parts@) == split_slashes(rest) && forall|i: int|
                        0 <= i < parts@.len() ==> valid_name(#[trigger] texts(parts@)[i])
                },
                Err(e) => told(e, path_fault(path@)) && rest.len() > 0 && exists|i: int|
                    0 <= i < split_slashes(rest).len() && !valid_name(
                        #[trigger] split_slashes(rest)[i],
                    ),
            }
        }),
{
    let cs = chars_of(path);
    let start = skip_slashes(&cs);
    if start == cs.len() {
        return Ok(Vec::new());
    }
    let parts = split_chars(&cs, start);
    let mut i: usize = 0;
    while i < parts.len()
        invariant
            i <= parts@.len(),
            start < cs@.len(),
            cs@ == path@,
            cs@.skip(start as int) == without_leading_slashes(path@),
            texts(parts@) == split_slashes(without_leading_slashes(path@)),
            forall|j: int| 0 <= j < i ==> valid_name(#[trigger] texts(parts@)[j]),
        decreases parts@.len() - i,
    {
        let checked = validate_name(parts[i].as_str());
        if let Err(e) = checked {
            assert(!valid_name(texts(parts@)[i as int]));
            proof {
                lemma_bad_part(texts(parts@), i as int);
            }
            return Err(e);
        }
        assert(texts(parts@)[i as int] == parts@[i as int]@);
        i += 1;
    }
    Ok(parts)
}

/// Without edits a directory stays as it is.
pub proof fn lemma_no_edits(trees: Map<ObjectId, Seq<Entry>>, base: Seq<Entry>, n: nat)
    requires
        names_increasing(base),
    ensures
        level(trees, base, Map::<Seq<char>, Op>::empty(), n) == base,
{
    let ov = Map::<Seq<char>, Op>::empty();
    let edit = edits_of(trees, base, ov, n);
    assert forall|name: Seq<char>| (#[trigger] edit(name)) is None by {
        assert(!is_group(ov, name));
    }
    assert(overlaid(base, base, edit));
    lemma_overlaid_unique(level(trees, base, ov, n), base, base, edit);
}

/// The entry at a path below a directory with the given entries.
pub open spec fn entry_at(
    trees: Map<ObjectId, Seq<Entry>>,
    es: Seq<Entry>,
    path: Seq<char>,
) -> Option<Entry>
    decreases path.len(),
{
    proof {
        lemma_slash_bounds(path);
    }
    if !nested(path) {
        entry_named(es, path)
    } else {
        match entry_named(es, first_part(path)) {
            Some(e) => if e.kind == EntryKind::Tree {
                entry_at(trees, trees[e.id], after_first(path))
            } else {
                None
            },
            None => None,
        }
    }
}

/// Nothing is staged below a path.
pub open spec fn none_below(ov: Map<Seq<char>, Op>, path: Seq<char>) -> bool {
    forall|rest: Seq<char>| !ov.dom().contains(#[trigger] below(path, rest))
}

/// No directory that a path leads through is itself staged.
pub open spec fn none_above(ov: Map<Seq<char>, Op>, path: Seq<char>) -> bool {
    forall|dir: Seq<char>, rest: Seq<char>|
        #[trigger] below(dir, rest) == path ==> !ov.dom().contains(dir)
}

/// The last name of a path.
pub open spec fn last_name(path: Seq<char>) -> Seq<char>
    decreases path.len(),
{
    proof {
        lemma_slash_bounds(path);
    }
    if nested(path) {
        last_name(after_first(path))
    } else {
        path
    }
}

/// The entry of a name once edits have been applied.
pub proof fn lemma_overlaid_named(
    es: Seq<Entry>,
    base: Seq<Entry>,
    edit: spec_fn(Seq<char>) -> Option<Option<Entry>>,
    name: Seq<char>,
)
    requires
        overlaid(es, base, edit),
        edit(name) matches Some(Some(e)) ==> e.name == name,
    ensures
        entry_named(es, name) == (match edit(name) {
            Some(x) => x,
            None => entry_named(base, name),
        }),
{
    match edit(name) {
        Some(Some(e)) => {
            assert(es.contains(e));
            lemma_entry_named(es, e);
        },
        Some(None) => {
            if entry_named(es, name) is Some {
                let i = choose|i: int| 0 <= i < es.len() && (#[trigger] es[i]).name == name;
                assert(es.contains(es[i]));
            }
        },
        None => {
            if let Some(e) = entry_named(base, name) {
                let i = choose|i: int| 0 <= i < base.len() && (#[trigger] base[i]).name == name;
                assert(base.contains(e));
                assert(es.contains(e));
                lemma_entry_named(es, e);
            } else if entry_named(es, name) is Some {
                let i = choose|i: int| 0 <= i < es.len() && (#[trigger] es[i]).name == name;
                assert(es.contains(es[i]));
                assert(base.contains(es[i]));
                let j = choose|j: int| 0 <= j < base.len() && base[j] == es[i];
                assert(base[j].name == name);
            }
        },
    }
}

/// What is read after edits have been applied: at a staged path the staged
/// blob, or nothing where a removal was staged; elsewhere what was there
/// before. This is of a path with nothing staged below it and, unless it is
/// staged itself, nothing staged above it.
pub proof fn lemma_overlay_read(
    have: Map<ObjectId, Seq<Entry>>,
    trees: Map<ObjectId, Seq<Entry>>,
    base: Option<ObjectId>,
    ov: Map<Seq<char>, Op>,
    n: nat,
    path: Seq<char>,
)
    requires
        folded(trees, base, ov, n),
        fits(have, trees, base, ov, n),
        last_name(path).len() > 0,
        none_below(ov, path),
        ov.dom().contains(path) || none_above(ov, path),
    ensures
        ({
            let b = entries_of(trees, base);
            entry_at(trees, level(trees, b, ov, n), path) == (if ov.dom().contains(path) {
                match ov[path] {
                    Some((id, executable)) => Some(
                        Entry { name: last_name(path), kind: EntryKind::Blob, id, executable },
                    ),
                    None => None,
                }
            } else {
                entry_at(trees, b, path)
            })
        }),
    decreases path.len(),
{
    let b = entries_of(trees, base);
    let es = level(trees, b, ov, n);
    let edit = edits_of(trees, b, ov, n);
    reveal_with_fuel(folded, 1);
    reveal_with_fuel(fits, 1);
    lemma_slash_bounds(path);
    if !nested(path) {
        assert(!is_group(ov, path));
        assert(edit(path) == edit_at(trees, b, ov, n, path));
        lemma_overlaid_named(es, b, edit, path);
    } else {
        lemma_below_split(path);
        let name = first_part(path);
        let rest = after_first(path);
        assert(below(name, rest) == path);
        assert(edit(name) == edit_at(trees, b, ov, n, name));
        lemma_overlaid_named(es, b, edit, name);
        if is_group(ov, name) {
            let from = child_base(b, ov, name);
            let sub = group(ov, name);
            let made = level(trees, entries_of(trees, from), sub, (n - 1) as nat);
            assert forall|x: Seq<char>| !sub.dom().contains(#[trigger] below(rest, x)) by {
                assert(below(name, below(rest, x)) =~= below(path, x));
            }
            if !ov.dom().contains(path) {
                assert forall|dir: Seq<char>, x: Seq<char>|
                    #[trigger] below(dir, x) == rest implies !sub.dom().contains(dir) by {
                    assert(below(below(name, dir), x) =~= path);
                }
            }
            lemma_overlay_read(have, trees, from, sub, (n - 1) as nat, rest);
            assert(has_tree(trees, made)) by {
                assert(fits(have, trees, from, sub, (n - 1) as nat));
                lemma_fits_here(have, trees, from, sub, (n - 1) as nat);
            }
        } else {
            if ov.dom().contains(path) {
                assert(is_group(ov, name));
            }
        }
    }
}

/// A path without empty parts.
pub open spec fn plain_path(path: Seq<char>) -> bool
    decreases path.len(),
{
    proof {
        lemma_slash_bounds(path);
    }
    first_part(path).len() > 0 && (nested(path) ==> plain_path(after_first(path)))
}

/// The entries of a directory that edits lead through, once they have been applied.
pub open spec fn made_at(
    trees: Map<ObjectId, Seq<Entry>>,
    base: Seq<Entry>,
    ov: Map<Seq<char>, Op>,
    n: nat,
    path: Seq<char>,
) -> Seq<Entry>
    decreases path.len(),
{
    proof {
        lemma_slash_bounds(path);
    }
    let name = first_part(path);
    let below = entries_of(trees, child_base(base, ov, name));
    if nested(path) {
        made_at(trees, below, group(ov, name), (n - 1) as nat, after_first(path))
    } else {
        level(trees, below, group(ov, name), (n - 1) as nat)
    }
}

/// What is read, after edits have been applied, at a directory that they lead through:
/// the directory that they make of it, or nothing where they leave it empty.
pub proof fn lemma_overlay_read_dir(
    have: Map<ObjectId, Seq<Entry>>,
    trees: Map<ObjectId, Seq<Entry>>,
    base: Option<ObjectId>,
    ov: Map<Seq<char>, Op>,
    n: nat,
    path: Seq<char>,
)
    requires
        folded(trees, base, ov, n),
        fits(have, trees, base, ov, n),
        !none_below(ov, path),
    ensures
        ({
            let b = entries_of(trees, base);
            let made = made_at(trees, b, ov, n, path);
            entry_at(trees, level(trees, b, ov, n), path) == (if made.len() == 0 {
                None
            } else {
                Some(
                    Entry {
                        name: last_name(path),
                        kind: EntryKind::Tree,
                        id: tree_id(made),
                        executable: false,
                    },
                )
            })
        }),
    decreases path.len(),
{
    let b = entries_of(trees, base);
    let es = level(trees, b, ov, n);
    let edit = edits_of(trees, b, ov, n);
    lemma_slash_bounds(path);
    let name = first_part(path);
    let key = choose|rest: Seq<char>| ov.dom().contains(#[trigger] below(path, rest));
    if nested(path) {
        let rest = after_first(path);
        lemma_below_split(path);
        assert(below(name, below(rest, key)) =~= below(path, key));
        assert(is_group(ov, name));
        assert(group(ov, name).dom().contains(below(rest, key)));
    } else {
        assert(name =~= path);
        assert(is_group(ov, name));
    }
    lemma_folded_below(trees, base, ov, n, name);
    lemma_fits_below(have, have, trees, base, ov, n, name);
    let from = child_base(b, ov, name);
    let sub = group(ov, name);
    lemma_fits_here(have, trees, from, sub, (n - 1) as nat);
    assert(edit(name) == edit_at(trees, b, ov, n, name));
    lemma_overlaid_named(es, b, edit, name);
    if nested(path) {
        lemma_overlay_read_dir(have, trees, from, sub, (n - 1) as nat, after_first(path));
    }
}

/// What is read, after edits have been applied, below a path that is staged: nothing,
/// where nothing is staged there or further down.
pub proof fn lemma_overlay_read_under(
    have: Map<ObjectId, Seq<Entry>>,
    trees: Map<ObjectId, Seq<Entry>>,
    base: Option<ObjectId>,
    ov: Map<Seq<char>, Op>,
    n: nat,
    path: Seq<char>,
)
    requires
        folded(trees, base, ov, n),
        fits(have, trees, base, ov, n),
        plain_path(path),
        none_below(ov, path),
        !none_above(ov, path),
        !ov.dom().contains(path),
    ensures
        entry_at(trees, level(trees, entries_of(trees, base), ov, n), path) is None,
    decreases path.len(),
{
    let b = entries_of(trees, base);
    let es = level(trees, b, ov, n);
    let edit = edits_of(trees, b, ov, n);
    let (dir, tail) = choose|dir: Seq<char>, tail: Seq<char>|
        #[trigger] below(dir, tail) == path && ov.dom().contains(dir);
    lemma_slash_bounds(path);
    assert(path[dir.len() as int] == '/');
    assert(path.contains('/'));
    lemma_below_split(path);
    let name = first_part(path);
    let rest = after_first(path);
    lemma_slash_bounds(dir);
    if dir.contains('/') {
        lemma_below_split(dir);
        let d1 = after_first(dir);
        assert(below(first_part(dir), below(d1, tail)) =~= path);
        lemma_below_parts(first_part(dir), below(d1, tail));
        assert(name == first_part(dir) && rest == below(d1, tail));
        assert(ov.dom().contains(below(name, d1)));
        assert(is_group(ov, name));
        assert(group(ov, name).dom().contains(d1));
        assert(!none_above(group(ov, name), rest)) by {
            assert(below(d1, tail) == rest);
        }
    } else {
        lemma_below_parts(dir, tail);
        assert(name == dir && rest == tail);
        assert(is_file(ov, name));
    }
    reveal_with_fuel(folded, 1);
    assert(edit(name) == edit_at(trees, b, ov, n, name));
    lemma_overlaid_named(es, b, edit, name);
    if is_group(ov, name) {
        lemma_folded_below(trees, base, ov, n, name);
        lemma_fits_below(have, have, trees, base, ov, n, name);
        let from = child_base(b, ov, name);
        let sub = group(ov, name);
        lemma_fits_here(have, trees, from, sub, (n - 1) as nat);
        assert forall|x: Seq<char>| !sub.dom().contains(#[trigger] below(rest, x)) by {
            assert(below(name, below(rest, x)) =~= below(path, x));
        }
        assert(!sub.dom().contains(rest));
        if none_above(sub, rest) {
            lemma_plain_last(rest);
            lemma_overlay_read(have, trees, from, sub, (n - 1) as nat, rest);
            lemma_entry_at_none(trees, rest);
        } else {
            lemma_overlay_read_under(have, trees, from, sub, (n - 1) as nat, rest);
        }
    }
}

proof fn lemma_plain_last(path: Seq<char>)
    requires
        plain_path(path),
    ensures
        last_name(path).len() > 0,
    decreases path.len(),
{
    lemma_slash_bounds(path);
    if nested(path) {
        lemma_plain_last(after_first(path));
    } else {
        assert(first_part(path) =~= path);
    }
}

/// Nothing is found in an empty directory.
proof fn lemma_entry_at_none(trees: Map<ObjectId, Seq<Entry>>, path: Seq<char>)
    ensures
        entry_at(trees, Seq::<Entry>::empty(), path) is None,
{
    assert(entry_named(Seq::<Entry>::empty(), path) is None);
    assert(entry_named(Seq::<Entry>::empty(), first_part(path)) is None);
}

/// Trees that were made of the same entries are the same, and so are their
/// bytes and their ids, whatever the order in which the entries were given.
pub proof fn lemma_order_free(a: Seq<TreeEntry>, b: Seq<TreeEntry>, s: Tree, t: Tree)
    requires
        canonical(s@),
        canonical(t@),
        s.entries@.to_multiset() == a.to_multiset(),
        t.entries@.to_multiset() == b.to_multiset(),
        entry_values(a).to_multiset() == entry_values(b).to_multiset(),
    ensures
        s@ == t@,
        tree_bytes(s@) == tree_bytes(t@),
        tree_id(s@) == tree_id(t@),
{
    assert forall|e: Entry| #[trigger] s@.contains(e) <==> t@.contains(e) by {
        lemma_same_values(s.entries@, a, e);
        lemma_same_values(t.entries@, b, e);
        entry_values(a).to_multiset_ensures();
        entry_values(b).to_multiset_ensures();
        assert(entry_values(a).contains(e) <==> entry_values(a).to_multiset().count(e) > 0);
        assert(entry_values(b).contains(e) <==> entry_values(b).to_multiset().count(e) > 0);
    }
    lemma_entries_unique(s@, t@);
}

/// The same entries have the same values.
proof fn lemma_same_values(a: Seq<TreeEntry>, b: Seq<TreeEntry>, e: Entry)
    requires
        a.to_multiset() == b.to_multiset(),
    ensures
        entry_values(a).contains(e) <==> entry_values(b).contains(e),
{
    a.to_multiset_ensures();
    b.to_multiset_ensures();
    if entry_values(a).contains(e) {
        let i = choose|i: int| 0 <= i < a.len() && entry_values(a)[i] == e;
        assert(a.contains(a[i]));
        assert(a.to_multiset().count(a[i]) > 0);
        assert(b.contains(a[i]));
        let j = choose|j: int| 0 <= j < b.len() && b[j] == a[i];
        assert(entry_values(b)[j] == e);
    }
    if entry_values(b).contains(e) {
        let i = choose|i: int| 0 <= i < b.len() && entry_values(b)[i] == e;
        assert(b.contains(b[i]));
        assert(b.to_multiset().count(b[i]) > 0);
        assert(a.contains(b[i]));
        let j = choose|j: int| 0 <= j < a.len() && a[j] == b[i];
        assert(entry_values(a)[j] == e);
    }
}

/// The file at a path below a directory with the given entries.
pub open spec fn file_at(
    trees: Map<ObjectId, Seq<Entry>>,
    es: Seq<Entry>,
    path: Seq<char>,
) -> Option<(ObjectId, bool)> {
    match entry_at(trees, es, path) {
        Some(e) => if e.kind == EntryKind::Blob {
            Some((e.id, e.executable))
        } else {
            None
        },
        None => None,
    }
}

/// The files after edits have been applied of which none lies below another: at a staged
/// path what is staged, which is nothing for a removal; nothing below a staged path or at
/// a directory that leads to one; elsewhere the file that was there before.
pub proof fn lemma_overlay_files(
    have: Map<ObjectId, Seq<Entry>>,
    trees: Map<ObjectId, Seq<Entry>>,
    base: Option<ObjectId>,
    ov: Map<Seq<char>, Op>,
    n: nat,
    path: Seq<char>,
)
    requires
        folded(trees, base, ov, n),
        fits(have, trees, base, ov, n),
        forall|k: Seq<char>| #[trigger] ov.dom().contains(k) ==> none_above(ov, k),
        plain_path(path),
    ensures
        ({
            let b = entries_of(trees, base);
            file_at(trees, level(trees, b, ov, n), path) == (if ov.dom().contains(path) {
                ov[path]
            } else if none_below(ov, path) && none_above(ov, path) {
                file_at(trees, b, path)
            } else {
                None
            })
        }),
{
    lemma_plain_last(path);
    if !none_below(ov, path) {
        lemma_overlay_read_dir(have, trees, base, ov, n, path);
        let rest = choose|rest: Seq<char>| ov.dom().contains(#[trigger] below(path, rest));
        assert(none_above(ov, below(path, rest)));
        assert(!ov.dom().contains(path));
    } else if ov.dom().contains(path) || none_above(ov, path) {
        lemma_overlay_read(have, trees, base, ov, n, path);
    } else {
        lemma_overlay_read_under(have, trees, base, ov, n, path);
    }
}

} // verus!
