//! Mounts of a session, and paths resolved through staged edits and trees.
use crate::merge::{at_or_above, lemma_made_named, made_of};
use crate::objectstore::ObjectStore;
use crate::overlay::{
    child_base, edit_at, edits_of, entries_of, entry_at, entry_named, find_entry, fits, folded, group,
    is_group, last_name, lemma_contains_push, lemma_entry_named, lemma_fits_below, lemma_fits_here,
    lemma_folded_below, lemma_overlaid_named, lemma_overlay_read, level, none_below, ops,
    path_fault, plain_path, split_path, tree_id, Op, Overlay,
};
use crate::paths::{
    after_first, below, find_slash, first_part, lemma_below_parts, lemma_below_split,
    lemma_slash_bounds, lemma_split_nonempty, nested, skip_slashes, split_slashes, starts_with,
    texts, without_leading_slashes,
};
use crate::renames::{join, join_path};
use crate::rows::{MountRow, OverlayRow};
use crate::scan::{told, Fault};
use crate::store::{lemma_the_tree, tree_refused, trees_of, Store};
use crate::text::{byte_len, chars_of, text_before, text_eq, text_of};
use crate::textmap::TextMap;
use crate::tree::{
    canonical, entry_values, last_named, names_increasing, valid_name, Entry, Tree, TreeEntry,
};
use crate::types::{
    hex_value, id_fault, lemma_id_len, lemma_object_id, object_id, trimmed, EntryKind, Error, ObjectId,
};
use vstd::prelude::*;
use vstd::slice::slice_subrange;
use vstd::utf8::encode_utf8;

verus! {

/// Whether a mount may be written through.
#[derive(Clone, Copy, Debug, PartialEq, Eq, Structural)]
pub enum Mode {
    Ro,
    Rw,
}

impl Mode {
    /// The mode that a text names.
    pub open spec fn named(s: Seq<char>) -> Option<Mode> {
        if s == "ro"@ {
            Some(Mode::Ro)
        } else if s == "rw"@ {
            Some(Mode::Rw)
        } else {
            None
        }
    }

    pub fn parse(s: &str) -> (r: Result<Self, Error>)
        ensures
            match r {
                Ok(m) => Mode::named(s@) == Some(m),
                Err(e) => Mode::named(s@) is None && (e matches Error::Invalid(msg) && msg@
                    == "mode "@ + s@),
            },
    {
        if text_eq(s, "ro") {
            Ok(Mode::Ro)
        } else if text_eq(s, "rw") {
            Ok(Mode::Rw)
        } else {
            let mut msg = "mode ".to_string();
            msg.append(s);
            Err(Error::Invalid(msg))
        }
    }

    pub fn as_str(self) -> (r: &'static str)
        ensures
            Mode::named(r@) == Some(self),
    {
        proof {
            reveal_strlit("ro");
            reveal_strlit("rw");
        }
        match self {
            Mode::Ro => "ro",
            Mode::Rw => {
                assert("rw"@[1] != "ro"@[1]);
                "rw"
            },
        }
    }
}

/// A tree at a path of a session.
#[derive(Clone, Debug)]
pub struct Mount {
    pub path: String,
    pub spec: String,
    pub mode: Mode,
}

impl Mount {
    /// The mount of a row. A mode that is none is taken as read-only.
    pub fn from_row(r: MountRow) -> (m: Mount)
        ensures
            m.path == r.path,
            m.spec == r.spec,
            m.mode == (match Mode::named(r.mode@) {
                Some(mode) => mode,
                None => Mode::Ro,
            }),
    {
        let mode = match Mode::parse(r.mode.as_str()) {
            Ok(mode) => mode,
            Err(_) => Mode::Ro,
        };
        Mount { path: r.path, spec: r.spec, mode }
    }
}

/// A path without the slashes that end it, but for the first.
pub open spec fn without_trailing(p: Seq<char>) -> Seq<char>
    decreases p.len(),
{
    if p.len() > 1 && p.last() == '/' {
        without_trailing(p.drop_last())
    } else {
        p
    }
}

/// A path as an absolute one.
pub open spec fn absolute(path: Seq<char>) -> Seq<char> {
    if path.len() == 0 {
        "/"@
    } else if path[0] == '/' {
        without_trailing(path)
    } else {
        without_trailing("/"@ + path)
    }
}

/// Every part of an absolute path can be the name of an entry.
pub open spec fn walkable(p: Seq<char>) -> bool {
    let rest = without_leading_slashes(p);
    rest.len() == 0 || forall|i: int|
        0 <= i < split_slashes(rest).len() ==> valid_name(#[trigger] split_slashes(rest)[i])
}

/// The path is absolute once it has been made so, and can be walked.
pub open spec fn normal(path: Seq<char>) -> Option<Seq<char>> {
    if absolute(path) == "/"@ || walkable(absolute(path)) {
        Some(absolute(path))
    } else {
        None
    }
}

proof fn lemma_trailing_step(p: Seq<char>)
    requires
        p.len() > 1,
        p.last() == '/',
    ensures
        without_trailing(p) == without_trailing(p.drop_last()),
{
}

pub fn normalize_abs(path: &str) -> (r: Result<String, Error>)
    ensures
        match r {
            Ok(p) => normal(path@) == Some(p@),
            Err(e) => normal(path@) is None && told(e, path_fault(absolute(path@))),
        },
{
    if path.is_empty() {
        return Ok("/".to_string());
    }
    let given = chars_of(path);
    let mut cs: Vec<char> = Vec::new();
    if given[0] != '/' {
        cs.push('/');
    }
    let mut i: usize = 0;
    let ghost start = cs@;
    while i < given.len()
        invariant
            i <= given@.len(),
            cs@ == start + given@.take(i as int),
        decreases given@.len() - i,
    {
        cs.push(given[i]);
        assert(cs@ =~= start + given@.take(i + 1));
        i += 1;
    }
    proof {
        reveal_strlit("/");
        assert(given@.take(i as int) =~= given@);
        if path@[0] == '/' {
            assert(cs@ =~= path@);
        } else {
            assert(cs@ =~= "/"@ + path@);
        }
    }
    let ghost whole = cs@;
    while cs.len() > 1 && cs[cs.len() - 1] == '/'
        invariant
            cs@.len() > 0,
            without_trailing(cs@) == without_trailing(whole),
        decreases cs@.len(),
    {
        proof {
            lemma_trailing_step(cs@);
        }
        let last = cs.pop();
    }
    assert(cs@ == absolute(path@));
    let p = text_of(cs.as_slice());
    if text_eq(p.as_str(), "/") {
        return Ok(p);
    }
    match split_path(p.as_str()) {
        Ok(_) => Ok(p),
        Err(e) => Err(e),
    }
}

/// A mount at `mp` covers a path.
pub open spec fn covers(mp: Seq<char>, p: Seq<char>) -> bool {
    mp == p || mp == "/"@ || (mp + "/"@).is_prefix_of(p)
}

/// The mount covers the path at least as closely as every other, and more
/// closely than those that come later.
pub open spec fn closest(mounts: Seq<Mount>, p: Seq<char>, i: int) -> bool {
    &&& 0 <= i < mounts.len()
    &&& covers(absolute(mounts[i].path@), p)
    &&& forall|j: int|
        0 <= j < mounts.len() && covers(absolute((#[trigger] mounts[j]).path@), p) ==> {
            let mine = encode_utf8(absolute(mounts[i].path@)).len();
            let other = encode_utf8(absolute(mounts[j].path@)).len();
            other < mine || (other == mine && j <= i)
        }
}

/// Some mount has a path that cannot be walked.
pub open spec fn some_bad(mounts: Seq<Mount>) -> bool {
    exists|j: int| 0 <= j < mounts.len() && normal((#[trigger] mounts[j]).path@) is None
}

/// The mount at `i` is the first with a path that cannot be walked.
pub open spec fn bad_mount(mounts: Seq<Mount>, i: int) -> bool {
    &&& 0 <= i < mounts.len()
    &&& normal(mounts[i].path@) is None
    &&& forall|j: int| 0 <= j < i ==> normal((#[trigger] mounts[j]).path@) is Some
}

/// How a path is refused that cannot be walked, or that is looked for among mounts of
/// which one has such a path.
pub open spec fn mounts_fault(mounts: Seq<Mount>, abs: Seq<char>) -> Fault {
    if normal(abs) is None {
        path_fault(absolute(abs))
    } else {
        let i = choose|i: int| #[trigger] bad_mount(mounts, i);
        path_fault(absolute(mounts[i].path@))
    }
}

proof fn lemma_bad_mount(mounts: Seq<Mount>, i: int)
    requires
        bad_mount(mounts, i),
    ensures
        forall|k: int| #[trigger] bad_mount(mounts, k) ==> k == i,
{
    assert forall|k: int| #[trigger] bad_mount(mounts, k) implies k == i by {
        if k < i {
            assert(normal(mounts[k].path@) is Some);
        } else if i < k {
            assert(normal(mounts[i].path@) is Some);
        }
    }
}

fn covers_path(mp: &str, p: &str) -> (r: bool)
    ensures
        r == covers(mp@, p@),
{
    if text_eq(mp, p) || text_eq(mp, "/") {
        return true;
    }
    let mut dir = mp.to_string();
    dir.append("/");
    starts_with(p, dir.as_str())
}

/// The mount that covers a path most closely; of equals the last.
pub fn longest_mount<'a>(mounts: &'a [Mount], abs: &str) -> (r: Result<&'a Mount, Error>)
    ensures
        match r {
            Ok(m) => {
                &&& normal(abs@) is Some
                &&& !some_bad(mounts@)
                &&& exists|i: int| #[trigger]
                    closest(mounts@, absolute(abs@), i) && *m == mounts@[i]
            },
            Err(Error::NotFound(msg)) => {
                &&& normal(abs@) is Some
                &&& !some_bad(mounts@)
                &&& forall|j: int|
                    0 <= j < mounts@.len() ==> !covers(
                        absolute((#[trigger] mounts@[j]).path@),
                        absolute(abs@),
                    )
                &&& msg@ == "no mount for "@ + absolute(abs@)
            },
            Err(e) => (normal(abs@) is None || some_bad(mounts@)) && told(
                e,
                mounts_fault(mounts@, abs@),
            ),
        },
{
    let p = match normalize_abs(abs) {
        Ok(p) => p,
        Err(e) => return Err(e),
    };
    let mut best: Option<usize> = None;
    let mut best_len: usize = 0;
    let mut i: usize = 0;
    while i < mounts.len()
        invariant
            i <= mounts@.len(),
            normal(abs@) == Some(p@),
            p@ == absolute(abs@),
            forall|j: int| 0 <= j < i ==> normal((#[trigger] mounts@[j]).path@) is Some,
            match best {
                Some(b) => {
                    &&& b < i
                    &&& covers(absolute(mounts@[b as int].path@), p@)
                    &&& best_len == encode_utf8(absolute(mounts@[b as int].path@)).len()
                    &&& forall|j: int|
                        0 <= j < i && covers(absolute((#[trigger] mounts@[j]).path@), p@) ==> {
                            let other = encode_utf8(absolute(mounts@[j].path@)).len();
                            other < best_len || (other == best_len && j <= b)
                        }
                },
                None => best_len == 0 && forall|j: int|
                    0 <= j < i ==> !covers(absolute((#[trigger] mounts@[j]).path@), p@),
            },
        decreases mounts@.len() - i,
    {
        let mp = match normalize_abs(mounts[i].path.as_str()) {
            Ok(mp) => mp,
            Err(e) => {
                assert(normal(mounts@[i as int].path@) is None);
                proof {
                    lemma_bad_mount(mounts@, i as int);
                }
                return Err(e);
            },
        };
        if covers_path(mp.as_str(), p.as_str()) {
            let n = byte_len(mp.as_str());
            if n >= best_len {
                best_len = n;
                best = Some(i);
            }
        }
        i += 1;
    }
    match best {
        Some(b) => {
            assert(closest(mounts@, absolute(abs@), b as int));
            Ok(&mounts[b])
        },
        None => {
            let mut msg = "no mount for ".to_string();
            msg.append(p.as_str());
            Err(Error::NotFound(msg))
        },
    }
}

/// A path as seen from a mount that covers it.
pub open spec fn relative(mp: Seq<char>, p: Seq<char>) -> Option<Seq<char>> {
    if mp == "/"@ {
        Some(without_leading_slashes(p))
    } else if p == mp {
        Some(Seq::<char>::empty())
    } else if (mp + "/"@).is_prefix_of(p) {
        Some(p.skip((mp + "/"@).len() as int))
    } else {
        None
    }
}

pub fn rel_of(mount_path: &str, abs: &str) -> (r: Result<String, Error>)
    ensures
        match (normal(mount_path@), normal(abs@)) {
            (Some(mp), Some(p)) => match relative(mp, p) {
                Some(rel) => r matches Ok(s) && s@ == rel,
                None => r matches Err(Error::Invalid(msg)) && msg@ == p + " not under "@ + mp,
            },
            (None, _) => r matches Err(e) && told(e, path_fault(absolute(mount_path@))),
            (_, None) => r matches Err(e) && told(e, path_fault(absolute(abs@))),
        },
{
    let mp = match normalize_abs(mount_path) {
        Ok(mp) => mp,
        Err(e) => return Err(e),
    };
    let p = match normalize_abs(abs) {
        Ok(p) => p,
        Err(e) => return Err(e),
    };
    let cs = chars_of(p.as_str());
    if text_eq(mp.as_str(), "/") {
        let start = skip_slashes(&cs);
        let rest = text_of(slice_subrange(cs.as_slice(), start, cs.len()));
        assert(rest@ =~= cs@.skip(start as int));
        return Ok(rest);
    }
    if text_eq(p.as_str(), mp.as_str()) {
        let r = String::new();
        assert(r@ =~= Seq::<char>::empty());
        return Ok(r);
    }
    let mut dir = mp.clone();
    dir.append("/");
    if starts_with(p.as_str(), dir.as_str()) {
        let n = chars_of(dir.as_str()).len();
        let rest = text_of(slice_subrange(cs.as_slice(), n, cs.len()));
        assert(rest@ =~= p@.skip(n as int));
        return Ok(rest);
    }
    let mut msg = p.clone();
    msg.append(" not under ");
    msg.append(mp.as_str());
    Err(Error::Invalid(msg))
}

/// What a row stages.
pub open spec fn staged(r: OverlayRow) -> Op {
    match r.blob_oid {
        Some(id) => Some((id, r.executable)),
        None => None,
    }
}

/// What the last row of a path stages.
pub open spec fn last_staged(rows: Seq<OverlayRow>, path: Seq<char>) -> Option<Op>
    decreases rows.len(),
{
    if rows.len() == 0 {
        None
    } else if rows.last().path@ == path {
        Some(staged(rows.last()))
    } else {
        last_staged(rows.drop_last(), path)
    }
}

/// The map holds what the rows stage.
pub open spec fn stages(m: Overlay, rows: Seq<OverlayRow>) -> bool {
    &&& forall|k: Seq<char>| #[trigger] m.has(k) <==> last_staged(rows, k) is Some
    &&& forall|k: Seq<char>| m.has(k) ==> Some(#[trigger] m.at(k)) == last_staged(rows, k)
}

/// Staged edits by their paths; of two rows of one path the later counts.
pub fn overlay_map(rows: &[OverlayRow]) -> (m: Overlay)
    ensures
        m.ordered(),
        stages(m, rows@),
{
    let mut m: Overlay = TextMap::new();
    let mut i: usize = 0;
    assert(rows@.take(0) =~= Seq::<OverlayRow>::empty());
    while i < rows.len()
        invariant
            i <= rows@.len(),
            stages(m, rows@.take(i as int)),
        decreases rows@.len() - i,
    {
        let r = &rows[i];
        let op: Op = match r.blob_oid {
            Some(id) => Some((id, r.executable)),
            None => None,
        };
        let ghost before = m;
        m.insert(r.path.clone(), op);
        proof {
            let now = rows@.take(i + 1);
            assert(now.drop_last() =~= rows@.take(i as int));
            assert(now.last() == *r);
            assert forall|k: Seq<char>| #[trigger] m.has(k) <==> last_staged(now, k) is Some by {
                assert(m.has(k) <==> before.has(k) || k == r.path@);
            }
            assert forall|k: Seq<char>| m.has(k) implies Some(#[trigger] m.at(k)) == last_staged(
                now,
                k,
            ) by {
                if k != r.path@ {
                    assert(before.has(k));
                    assert(m.at(k) == before.at(k));
                }
            }
        }
        i += 1;
    }
    assert(rows@.take(i as int) =~= rows@);
    let n = m.len();
    m
}

/// What a path stands for.
#[derive(Clone, Copy, Debug)]
pub enum Resolved {
    Tree(ObjectId),
    Blob { id: ObjectId, executable: bool },
}

/// What becomes of a walk along a path.
pub enum Walk {
    /// It ends here.
    Found(Resolved),
    /// Nothing stands at this path, or nothing that can be walked through.
    Missing(Seq<char>),
    /// A staged file stands in the middle of the path.
    ThroughFile,
    /// A tree on the way is not stored.
    Unread(ObjectId),
}

/// Walk the parts of a path from a directory. A staged edit of a place comes
/// before what the tree holds there.
pub open spec fn walk(
    trees: Map<ObjectId, Seq<Entry>>,
    ov: Map<Seq<char>, Op>,
    cur: ObjectId,
    so_far: Seq<char>,
    parts: Seq<Seq<char>>,
) -> Walk
    decreases parts.len(),
{
    if parts.len() == 0 {
        Walk::Found(Resolved::Tree(cur))
    } else {
        let last = parts.len() == 1;
        let here = join(so_far, parts[0]);
        if ov.dom().contains(here) {
            match ov[here] {
                None => Walk::Missing(here),
                Some((id, executable)) => if last {
                    Walk::Found(Resolved::Blob { id, executable })
                } else {
                    Walk::ThroughFile
                },
            }
        } else if !trees.dom().contains(cur) {
            Walk::Unread(cur)
        } else {
            match entry_named(trees[cur], parts[0]) {
                None => Walk::Missing(here),
                Some(e) => if last {
                    match e.kind {
                        EntryKind::Blob => Walk::Found(
                            Resolved::Blob { id: e.id, executable: e.executable },
                        ),
                        EntryKind::Tree => Walk::Found(Resolved::Tree(e.id)),
                    }
                } else if e.kind == EntryKind::Tree {
                    walk(trees, ov, e.id, here, parts.drop_first())
                } else {
                    Walk::Missing(here)
                },
            }
        }
    }
}

/// A walk has this result; where a tree has to be read that the store fails
/// to read, it has no result.
pub open spec fn walked(
    objects: Map<ObjectId, Seq<u8>>,
    w: Walk,
    r: Result<Resolved, Error>,
    steady: bool,
) -> bool {
    match w {
        Walk::Found(x) => match r {
            Ok(y) => x == y,
            Err(_) => !steady,
        },
        Walk::Missing(p) => match r {
            Ok(_) => false,
            Err(e) => !steady || (e matches Error::NotFound(msg) && msg@ == p),
        },
        Walk::ThroughFile => match r {
            Ok(_) => false,
            Err(e) => !steady || told(e, Fault::Invalid("overlay file in middle of path"@)),
        },
        Walk::Unread(id) => match r {
            Ok(_) => false,
            Err(e) => steady ==> tree_refused(objects, steady, id, e),
        },
    }
}

/// What rows stage, by the paths.
pub open spec fn staged_map(rows: Seq<OverlayRow>) -> Map<Seq<char>, Op> {
    Map::new(|k: Seq<char>| last_staged(rows, k) is Some, |k: Seq<char>| last_staged(rows, k)->0)
}

proof fn lemma_staged_map(m: Overlay, rows: Seq<OverlayRow>)
    requires
        stages(m, rows),
    ensures
        ops(m) == staged_map(rows),
{
    assert forall|k: Seq<char>| #[trigger] ops(m).dom().contains(k) <==> staged_map(
        rows,
    ).dom().contains(k) by {
        assert(m.has(k) <==> last_staged(rows, k) is Some);
    }
    assert forall|k: Seq<char>| #[trigger] ops(m).dom().contains(k) implies ops(m)[k] == staged_map(
        rows,
    )[k] by {
        assert(m.has(k));
        assert(Some(m.at(k)) == last_staged(rows, k));
    }
    assert(ops(m) =~= staged_map(rows));
}

/// What a path stands for below a mount: a staged edit of the whole path comes
/// first, then the walk along it.
pub open spec fn resolution(
    trees: Map<ObjectId, Seq<Entry>>,
    ov: Map<Seq<char>, Op>,
    root: ObjectId,
    rel: Seq<char>,
) -> Walk {
    if rel.len() == 0 {
        Walk::Found(Resolved::Tree(root))
    } else if ov.dom().contains(rel) {
        match ov[rel] {
            Some((id, executable)) => Walk::Found(Resolved::Blob { id, executable }),
            None => Walk::Missing(rel),
        }
    } else if without_leading_slashes(rel).len() == 0 {
        Walk::Found(Resolved::Tree(root))
    } else {
        walk(
            trees,
            ov,
            root,
            Seq::<char>::empty(),
            split_slashes(without_leading_slashes(rel)),
        )
    }
}

/// Walk the parts of a path.
fn walk_parts<O: ObjectStore>(
    store: &mut Store<O>,
    ov: &Overlay,
    root: ObjectId,
    parts: &Vec<String>,
) -> (r: Result<Resolved, Error>)
    requires
        old(store).settled(),
    ensures
        final(store).blobs == old(store).blobs,
        final(store).settled(),
        final(store).collided@ == old(store).collided@,
        !old(store).collided@ ==> walked(
            old(store).blobs.objects(),
            walk(
                trees_of(old(store).blobs.objects()),
                ops(*ov),
                root,
                Seq::<char>::empty(),
                texts(parts@),
            ),
            r,
            old(store).blobs.steady(),
        ),
{
    let ghost trees = trees_of(store.blobs.objects());
    let ghost m = ops(*ov);
    let ghost all = texts(parts@);
    let ghost whole = walk(trees, m, root, Seq::<char>::empty(), all);
    let ghost known = !store.collided@;
    let mut cur = root;
    let mut so_far = String::new();
    let mut i: usize = 0;
    proof {
        assert(so_far@ =~= Seq::<char>::empty());
        assert(all.skip(0) =~= all);
    }
    while i < parts.len()
        invariant
            i <= parts@.len(),
            all == texts(parts@),
            m == ops(*ov),
            trees == trees_of(old(store).blobs.objects()),
            store.blobs == old(store).blobs,
            store.settled(),
            whole == walk(trees, m, root, Seq::<char>::empty(), all),
            known == !old(store).collided@,
            store.collided@ == old(store).collided@,
            known ==> whole == walk(trees, m, cur, so_far@, all.skip(i as int)),
        decreases parts@.len() - i,
    {
        let part = parts[i].as_str();
        let last = i + 1 == parts.len();
        let here = join_path(so_far.as_str(), part);
        proof {
            let left = all.skip(i as int);
            assert(left[0] == part@);
            assert(left.drop_first() =~= all.skip(i + 1));
        }
        if let Some(op) = ov.get(here.as_str()) {
            assert(m.dom().contains(here@));
            match op {
                None => return Err(Error::NotFound(here)),
                Some(pair) => {
                    if last {
                        return Ok(Resolved::Blob { id: pair.0, executable: pair.1 });
                    }
                    return Err(Error::Invalid("overlay file in middle of path".to_string()));
                },
            }
        }
        let tree = store.get_tree(cur)?;
        proof {
            lemma_the_tree(tree@);
        }
        let e = match find_entry(&tree, part) {
            Some(e) => e,
            None => return Err(Error::NotFound(here)),
        };
        if last {
            match e.kind {
                EntryKind::Blob => return Ok(
                    Resolved::Blob { id: e.id, executable: e.executable },
                ),
                EntryKind::Tree => return Ok(Resolved::Tree(e.id)),
            }
        }
        if e.kind != EntryKind::Tree {
            return Err(Error::NotFound(here));
        }
        cur = e.id;
        so_far = here;
        i += 1;
    }
    Ok(Resolved::Tree(cur))
}

/// Resolve a path through the mounts, the staged edits and the tree of the
/// mount that covers it, given that tree.
pub fn resolve<O: ObjectStore>(
    store: &mut Store<O>,
    mounts: &[Mount],
    overlay: &[OverlayRow],
    root_oid: ObjectId,
    abs: &str,
) -> (r: Result<Resolved, Error>)
    requires
        old(store).settled(),
    ensures
        final(store).blobs == old(store).blobs,
        final(store).settled(),
        final(store).collided@ == old(store).collided@,
        normal(abs@) is None || some_bad(mounts@) ==> (r matches Err(e) && told(
            e,
            mounts_fault(mounts@, abs@),
        )),
        normal(abs@) is Some && !some_bad(mounts@) && (forall|i: int|
            !(#[trigger] closest(mounts@, absolute(abs@), i))) ==> (r matches Err(
            Error::NotFound(msg),
        ) && msg@ == "no mount for "@ + absolute(abs@)),
        forall|i: int|
            normal(abs@) is Some && !some_bad(mounts@) && #[trigger] closest(
                mounts@,
                absolute(abs@),
                i,
            ) ==> match relative(absolute(mounts@[i].path@), absolute(abs@)) {
                Some(rel) => if !walkable(rel) && !staged_map(overlay@).dom().contains(rel) {
                    r matches Err(e) && told(e, path_fault(rel))
                } else {
                    !old(store).collided@ || rel.len() == 0 || staged_map(overlay@).dom().contains(
                        rel,
                    ) ==> walked(
                        old(store).blobs.objects(),
                        resolution(
                            trees_of(old(store).blobs.objects()),
                            staged_map(overlay@),
                            root_oid,
                            rel,
                        ),
                        r,
                        old(store).blobs.steady(),
                    )
                },
                None => false,
            },
        forall|i: int|
            normal(abs@) is Some && !some_bad(mounts@) && #[trigger] closest(
                mounts@,
                absolute(abs@),
                i,
            ) && !old(store).collided@ ==> (relative(
                absolute(mounts@[i].path@),
                absolute(abs@),
            ) matches Some(rel) && ((rel.len() > 0 ==> rel[0] != '/') && (walkable(rel)
                || staged_map(overlay@).dom().contains(rel)) ==> resolves(
                trees_of(old(store).blobs.objects()),
                staged_map(overlay@),
                root_oid,
                rel,
                r,
                old(store).blobs.steady(),
            ))),
{
    let m = match longest_mount(mounts, abs) {
        Ok(m) => m,
        Err(e) => {
            proof {
                if normal(abs@) is Some && !some_bad(mounts@) {
                    assert forall|i: int| !(#[trigger] closest(mounts@, absolute(abs@), i)) by {}
                }
            }
            return Err(e);
        },
    };
    let ghost p = absolute(abs@);
    let ghost at = choose|i: int| #[trigger] closest(mounts@, p, i) && *m == mounts@[i];
    proof {
        assert(normal(mounts@[at].path@) is Some);
        lemma_closest_once(mounts@, p, at);
        lemma_covered(absolute(mounts@[at].path@), p);
    }
    let rel = rel_of(m.path.as_str(), abs)?;
    let ov = overlay_map(overlay);
    proof {
        lemma_staged_map(ov, overlay@);
        reveal(resolves);
    }
    if !rel.as_str().is_empty() {
        if let Some(op) = ov.get(rel.as_str()) {
            assert(ops(ov).dom().contains(rel@));
            match op {
                Some(pair) => return Ok(Resolved::Blob { id: pair.0, executable: pair.1 }),
                None => return Err(Error::NotFound(rel)),
            }
        }
    } else {
        return Ok(Resolved::Tree(root_oid));
    }
    let parts = split_path(rel.as_str())?;
    proof {
        if parts@.len() == 0 {
            assert(texts(parts@) =~= Seq::<Seq<char>>::empty());
            if without_leading_slashes(rel@).len() != 0 {
                lemma_split_nonempty(without_leading_slashes(rel@));
            }
        }
    }
    let r = walk_parts(store, &ov, root_oid, &parts);
    proof {
        if !store.collided@ && rel@[0] != '/' {
            lemma_resolves(
                store.blobs.objects(),
                staged_map(overlay@),
                root_oid,
                rel@,
                r,
                store.blobs.steady(),
            );
        }
    }
    r
}

/// Only one mount is the closest.
proof fn lemma_closest_once(mounts: Seq<Mount>, p: Seq<char>, at: int)
    requires
        closest(mounts, p, at),
    ensures
        forall|i: int| #[trigger] closest(mounts, p, i) ==> i == at,
{
    assert forall|i: int| #[trigger] closest(mounts, p, i) implies i == at by {
    }
}

/// What a mount covers can be seen from it.
proof fn lemma_covered(mp: Seq<char>, p: Seq<char>)
    requires
        covers(mp, p),
    ensures
        relative(mp, p) is Some,
{
}

/// Where the parts of a path lead to, by the trees alone.
pub ghost enum DirWalk {
    Found(ObjectId),
    Missing(Seq<char>),
    NotTree,
    Unread(ObjectId),
}

/// The directory that the parts of a path lead to.
pub open spec fn dir_at(
    trees: Map<ObjectId, Seq<Entry>>,
    cur: ObjectId,
    parts: Seq<Seq<char>>,
) -> DirWalk
    decreases parts.len(),
{
    if !trees.dom().contains(cur) {
        DirWalk::Unread(cur)
    } else if parts.len() == 0 {
        DirWalk::Found(cur)
    } else {
        match entry_named(trees[cur], parts[0]) {
            Some(e) => if e.kind == EntryKind::Tree {
                dir_at(trees, e.id, parts.drop_first())
            } else {
                DirWalk::NotTree
            },
            None => DirWalk::Missing(parts[0]),
        }
    }
}

/// A read of the directory gave a tree, or failed as the walk did.
pub open spec fn dir_read(
    objects: Map<ObjectId, Seq<u8>>,
    w: DirWalk,
    r: Result<Seq<Entry>, Error>,
    steady: bool,
) -> bool {
    match w {
        DirWalk::Found(dir) => match r {
            Ok(es) => es == trees_of(objects)[dir],
            Err(_) => !steady,
        },
        DirWalk::Missing(p) => match r {
            Ok(_) => false,
            Err(e) => !steady || (e matches Error::NotFound(msg) && msg@ == p),
        },
        DirWalk::NotTree => match r {
            Ok(_) => false,
            Err(e) => !steady || told(e, Fault::Invalid("ls on blob"@)),
        },
        DirWalk::Unread(id) => match r {
            Ok(_) => false,
            Err(e) => steady ==> tree_refused(objects, steady, id, e),
        },
    }
}

/// What is directly at a name of a directory: what is staged there, else what
/// the tree has.
pub open spec fn direct(
    base: Seq<Entry>,
    ov: Map<Seq<char>, Op>,
    prefix: Seq<char>,
    name: Seq<char>,
) -> Option<Entry> {
    if !name.contains('/') && ov.dom().contains(prefix + name) {
        match ov[prefix + name] {
            Some((id, executable)) => Some(
                Entry { name, kind: EntryKind::Blob, id, executable },
            ),
            None => None,
        }
    } else {
        entry_named(base, name)
    }
}

/// Something is staged below a name of a directory.
pub open spec fn staged_below(
    ov: Map<Seq<char>, Op>,
    prefix: Seq<char>,
    name: Seq<char>,
) -> bool {
    !name.contains('/') && exists|rest: Seq<char>|
        ov.dom().contains(prefix + #[trigger] below(name, rest))
}

/// A directory that is staged only: it has no object yet.
pub open spec fn placeholder(name: Seq<char>) -> Entry {
    Entry {
        name,
        kind: EntryKind::Tree,
        id: object_id(Seq::new(32, |i: int| 0u8)),
        executable: false,
    }
}

/// What a listing shows of a name: what is directly there, else a directory
/// where something is staged below it.
pub open spec fn shown(
    base: Seq<Entry>,
    ov: Map<Seq<char>, Op>,
    prefix: Seq<char>,
    name: Seq<char>,
) -> Option<Entry> {
    match direct(base, ov, prefix, name) {
        Some(e) => Some(e),
        None => if staged_below(ov, prefix, name) {
            Some(placeholder(name))
        } else {
            None
        },
    }
}

/// What a listing shows.
pub open spec fn listing(
    base: Seq<Entry>,
    ov: Map<Seq<char>, Op>,
    prefix: Seq<char>,
) -> spec_fn(Seq<char>) -> Option<Entry> {
    |name: Seq<char>| shown(base, ov, prefix, name)
}

/// The parts of a path to list.
pub open spec fn list_parts(rel: Seq<char>) -> Seq<Seq<char>> {
    if without_leading_slashes(rel).len() == 0 {
        Seq::<Seq<char>>::empty()
    } else {
        split_slashes(without_leading_slashes(rel))
    }
}

/// What the paths below a path start with.
pub open spec fn list_prefix(rel: Seq<char>) -> Seq<char> {
    if rel.len() == 0 {
        rel
    } else {
        rel + "/"@
    }
}

/// The entries that a read gave.
pub open spec fn entries_read(r: Result<Tree, Error>) -> Result<Seq<Entry>, Error> {
    match r {
        Ok(t) => Ok(t@),
        Err(e) => Err(e),
    }
}

/// Walk to a directory and read it.
fn walk_dir<O: ObjectStore>(store: &mut Store<O>, root: ObjectId, parts: &Vec<String>) -> (r: Result<
    Tree,
    Error,
>)
    requires
        old(store).settled(),
    ensures
        final(store).blobs == old(store).blobs,
        final(store).settled(),
        final(store).collided@ == old(store).collided@,
        r matches Ok(t) ==> canonical(t@),
        !old(store).collided@ ==> dir_read(
            old(store).blobs.objects(),
            dir_at(trees_of(old(store).blobs.objects()), root, texts(parts@)),
            entries_read(r),
            old(store).blobs.steady(),
        ),
{
    let ghost trees = trees_of(store.blobs.objects());
    let ghost all = texts(parts@);
    let mut cur = root;
    let mut i: usize = 0;
    assert(all.skip(0) =~= all);
    while i < parts.len()
        invariant
            i <= parts@.len(),
            all == texts(parts@),
            trees == trees_of(old(store).blobs.objects()),
            store.blobs == old(store).blobs,
            store.settled(),
            store.collided@ == old(store).collided@,
            !old(store).collided@ ==> dir_at(trees, root, all) == dir_at(
                trees,
                cur,
                all.skip(i as int),
            ),
        decreases parts@.len() - i,
    {
        let part = parts[i].as_str();
        proof {
            let left = all.skip(i as int);
            assert(left[0] == part@);
            assert(left.drop_first() =~= all.skip(i + 1));
        }
        let tree = store.get_tree(cur)?;
        proof {
            lemma_the_tree(tree@);
        }
        let e = match find_entry(&tree, part) {
            Some(e) => e,
            None => return Err(Error::NotFound(part.to_string())),
        };
        if e.kind != EntryKind::Tree {
            return Err(Error::Invalid("ls on blob".to_string()));
        }
        cur = e.id;
        i += 1;
    }
    assert(all.skip(i as int) =~= Seq::<Seq<char>>::empty());
    let tree = store.get_tree(cur)?;
    proof {
        lemma_the_tree(tree@);
    }
    Ok(tree)
}

proof fn lemma_last_is_named(es: Seq<Entry>, name: Seq<char>)
    requires
        names_increasing(es),
    ensures
        last_named(es, name) == entry_named(es, name),
    decreases es.len(),
{
    if es.len() > 0 {
        let d = es.drop_last();
        assert forall|p: int, q: int| 0 <= p < q < d.len() implies text_before(
            (#[trigger] d[p]).name,
            (#[trigger] d[q]).name,
        ) by {
            assert(text_before(es[p].name, es[q].name));
        }
        lemma_last_is_named(d, name);
        if es.last().name == name {
            assert(es.contains(es.last()));
            lemma_entry_named(es, es.last());
        } else if entry_named(d, name) is Some {
            let i = choose|i: int| 0 <= i < d.len() && (#[trigger] d[i]).name == name;
            assert(es[i] == d[i]);
            assert(es.contains(es[i]));
            lemma_entry_named(es, es[i]);
            assert(d.contains(d[i]));
            lemma_entry_named(d, d[i]);
        } else if entry_named(es, name) is Some {
            let i = choose|i: int| 0 <= i < es.len() && (#[trigger] es[i]).name == name;
            assert(d[i] == es[i]);
        }
    }
}

/// The map of a listing in the making: what is at a name.
spec fn held_at(m: TextMap<TreeEntry>, name: Seq<char>) -> Option<Entry> {
    if m.has(name) {
        Some(m.at(name)@)
    } else {
        None
    }
}

/// The paths among the first keys.
spec fn first_keys(ov: Overlay, i: int) -> Map<Seq<char>, Op> {
    ops(ov).restrict(Set::new(|k: Seq<char>| ov.key_list().take(i).contains(k)))
}

/// What a staged path is below the directory, and whether it lies deeper.
fn below_prefix(path: &String, prefix: &str) -> (r: Option<(String, bool)>)
    ensures
        match r {
            Some((name, deeper)) => {
                &&& prefix@.is_prefix_of(path@)
                &&& if deeper {
                    nested(path@.skip(prefix@.len() as int)) && name@ == first_part(
                        path@.skip(prefix@.len() as int),
                    )
                } else {
                    !nested(path@.skip(prefix@.len() as int)) && name@ == path@.skip(
                        prefix@.len() as int,
                    )
                }
            },
            None => !prefix@.is_prefix_of(path@),
        },
{
    if !starts_with(path.as_str(), prefix) {
        return None;
    }
    let cs = chars_of(path.as_str());
    let n = chars_of(prefix).len();
    let at = find_slash(&cs, n);
    let name = text_of(slice_subrange(cs.as_slice(), n, at));
    proof {
        let rest = path@.skip(n as int);
        assert(cs@.skip(n as int) == rest);
        assert(name@ =~= rest.take(at - n));
        if at == cs@.len() {
            assert(rest.take(at - n) =~= rest);
        }
    }
    Some((name, at < cs.len()))
}

/// The first pass of a listing: what is staged directly in the directory.
fn list_direct(base: &Tree, ov: &Overlay, prefix: &str) -> (m: TextMap<TreeEntry>)
    requires
        canonical(base@),
    ensures
        forall|name: Seq<char>| #[trigger]
            held_at(m, name) == direct(base@, ops(*ov), prefix@, name),
{
    let mut m = base.as_map();
    let count = ov.len();
    let ghost ks = ov.key_list();
    let ghost all = ops(*ov);
    let mut i: usize = 0;
    proof {
        assert(ks.take(0) =~= Seq::<Seq<char>>::empty());
        assert forall|name: Seq<char>| #[trigger] held_at(m, name) == direct(
            base@,
            first_keys(*ov, 0),
            prefix@,
            name,
        ) by {
            lemma_last_is_named(base@, name);
            assert(!first_keys(*ov, 0).dom().contains(prefix@ + name));
            if m.has(name) {
                assert(Some(m.at(name)@) == last_named(base@, name));
            }
        }
    }
    while i < count
        invariant
            i <= count,
            count == ks.len(),
            ks == ov.key_list(),
            all == ops(*ov),
            ov.ordered(),
            canonical(base@),
            forall|name: Seq<char>| #[trigger]
                held_at(m, name) == direct(base@, first_keys(*ov, i as int), prefix@, name),
        decreases count - i,
    {
        let path = ov.key(i);
        let op = ov.value(i);
        let ghost k = ks[i as int];
        let ghost before = m;
        proof {
            assert(ks.take(i + 1) =~= ks.take(i as int).push(k));
            assert(all.dom().contains(k));
            assert(all[k] == *op);
            assert forall|x: Seq<char>| #[trigger]
                first_keys(*ov, i + 1).dom().contains(x) <==> first_keys(
                    *ov,
                    i as int,
                ).dom().contains(x) || x == k by {
                lemma_contains_push(ks.take(i as int), k, x);
            }
        }
        match below_prefix(path, prefix) {
            Some(pair) => {
                if !pair.1 {
                    let name = pair.0;
                    let ghost n = name@;
                    proof {
                        let rest = k.skip(prefix@.len() as int);
                        lemma_slash_bounds(rest);
                        assert(prefix@ + n =~= k);
                    }
                    match op {
                        Some(blob) => {
                            let e = TreeEntry {
                                name: name.clone(),
                                kind: EntryKind::Blob,
                                id: blob.0,
                                executable: blob.1,
                            };
                            m.insert(name, e);
                        },
                        None => {
                            m.remove(name.as_str());
                        },
                    }
                    proof {
                        assert forall|x: Seq<char>| #[trigger] held_at(m, x) == direct(
                            base@,
                            first_keys(*ov, i + 1),
                            prefix@,
                            x,
                        ) by {
                            assert(held_at(before, x) == direct(
                                base@,
                                first_keys(*ov, i as int),
                                prefix@,
                                x,
                            ));
                            if x == n {
                                assert(prefix@ + x == k);
                            } else {
                                assert(prefix@ + x != k) by {
                                    if prefix@ + x == k {
                                        assert((prefix@ + x).skip(prefix@.len() as int) =~= x);
                                    }
                                }
                                if before.has(x) {
                                    assert(m.has(x));
                                    assert(m.at(x) == before.at(x));
                                } else {
                                    assert(!m.has(x));
                                }
                            }
                        }
                    }
                } else {
                    proof {
                        lemma_not_direct(base@, *ov, prefix@, i as int, k, m);
                    }
                }
            },
            None => {
                proof {
                    lemma_not_direct(base@, *ov, prefix@, i as int, k, m);
                }
            },
        }
        i += 1;
    }
    proof {
        assert(ks.take(i as int) =~= ks);
        assert(first_keys(*ov, i as int) =~= all) by {
            assert forall|x: Seq<char>| #[trigger] all.dom().contains(x) implies first_keys(
                *ov,
                i as int,
            ).dom().contains(x) by {}
        }
    }
    m
}

/// A staged path that is not directly in the directory changes nothing of what
/// is directly there.
proof fn lemma_not_direct(
    base: Seq<Entry>,
    ov: Overlay,
    prefix: Seq<char>,
    i: int,
    k: Seq<char>,
    m: TextMap<TreeEntry>,
)
    requires
        0 <= i < ov.key_list().len(),
        k == ov.key_list()[i],
        !prefix.is_prefix_of(k) || nested(k.skip(prefix.len() as int)),
        forall|x: Seq<char>| #[trigger]
            first_keys(ov, i + 1).dom().contains(x) <==> first_keys(ov, i).dom().contains(x) || x
                == k,
        forall|name: Seq<char>| #[trigger]
            held_at(m, name) == direct(base, first_keys(ov, i), prefix, name),
    ensures
        forall|name: Seq<char>| #[trigger]
            held_at(m, name) == direct(base, first_keys(ov, i + 1), prefix, name),
{
    assert forall|name: Seq<char>| #[trigger] held_at(m, name) == direct(
        base,
        first_keys(ov, i + 1),
        prefix,
        name,
    ) by {
        assert(held_at(m, name) == direct(base, first_keys(ov, i), prefix, name));
        if prefix + name == k {
            assert(prefix.is_prefix_of(k));
            assert((prefix + name).skip(prefix.len() as int) =~= name);
            lemma_slash_bounds(name);
        }
    }
}

/// List a directory with the staged edits in it.
pub fn ls<O: ObjectStore>(
    store: &mut Store<O>,
    overlay: &[OverlayRow],
    tree_oid: ObjectId,
    rel: &str,
) -> (r: Result<Vec<TreeEntry>, Error>)
    requires
        old(store).settled(),
    ensures
        final(store).blobs == old(store).blobs,
        final(store).settled(),
        final(store).collided@ == old(store).collided@,
        !walkable(rel@) ==> (r matches Err(e) && told(e, path_fault(rel@))),
        !old(store).collided@ && (rel@.len() > 0 ==> rel@[0] != '/') ==> (r matches Ok(v) ==> lists_dir(
            entry_values(v@),
            trees_of(old(store).blobs.objects()),
            staged_map(overlay@),
            tree_oid,
            rel@,
        )),
        walkable(rel@) && !old(store).collided@ ==> {
            let trees = trees_of(old(store).blobs.objects());
            let steady = old(store).blobs.steady();
            match dir_at(trees, tree_oid, list_parts(rel@)) {
                DirWalk::Found(dir) => match r {
                    Ok(v) => made_of(
                        entry_values(v@),
                        listing(trees[dir], staged_map(overlay@), list_prefix(rel@)),
                    ),
                    Err(_) => !steady,
                },
                DirWalk::Missing(p) => match r {
                    Ok(_) => false,
                    Err(e) => !steady || (e matches Error::NotFound(msg) && msg@ == p),
                },
                DirWalk::NotTree => match r {
                    Ok(_) => false,
                    Err(e) => !steady || told(e, Fault::Invalid("ls on blob"@)),
                },
                DirWalk::Unread(id) => match r {
                    Ok(_) => false,
                    Err(e) => steady ==> tree_refused(
                        old(store).blobs.objects(),
                        steady,
                        id,
                        e,
                    ),
                },
            }
        },
{
    let ghost trees = trees_of(store.blobs.objects());
    let ov = overlay_map(overlay);
    proof {
        lemma_staged_map(ov, overlay@);
    }
    let parts = split_path(rel)?;
    proof {
        assert(texts(parts@) =~= list_parts(rel@)) by {
            if without_leading_slashes(rel@).len() == 0 {
                assert(parts@.len() == 0);
            }
        }
    }
    let base = walk_dir(store, tree_oid, &parts)?;
    let prefix = if rel.is_empty() {
        String::new()
    } else {
        let mut p = rel.to_string();
        p.append("/");
        p
    };
    assert(prefix@ =~= list_prefix(rel@));
    let mut m = list_direct(&base, &ov, prefix.as_str());
    let ghost d = m;
    let ghost all = ops(ov);
    let count = ov.len();
    let ghost ks = ov.key_list();
    let mut i: usize = 0;
    proof {
        assert(ks.take(0) =~= Seq::<Seq<char>>::empty());
    }
    while i < count
        invariant
            i <= count,
            count == ks.len(),
            ks == ov.key_list(),
            ov.ordered(),
            all == ops(ov),
            forall|name: Seq<char>| #[trigger]
                held_at(d, name) == direct(base@, all, prefix@, name),
            forall|name: Seq<char>| #[trigger]
                held_at(m, name) == (match held_at(d, name) {
                    Some(e) => Some(e),
                    None => if deeper_among(ks.take(i as int), prefix@, name) {
                        Some(placeholder(name))
                    } else {
                        None
                    },
                }),
        decreases count - i,
    {
        let path = ov.key(i);
        let ghost k = ks[i as int];
        let ghost before = m;
        proof {
            assert(ks.take(i + 1) =~= ks.take(i as int).push(k));
            lemma_deeper_push(ks.take(i as int), k, prefix@);
        }
        if let Some(pair) = below_prefix(path, prefix.as_str()) {
            if pair.1 {
                let name = pair.0;
                let ghost n = name@;
                if !m.contains(name.as_str()) {
                    let zero = ObjectId::zero();
                    proof {
                        lemma_object_id(zero);
                    }
                    let e = TreeEntry {
                        name: name.clone(),
                        kind: EntryKind::Tree,
                        id: zero,
                        executable: false,
                    };
                    m.insert(name, e);
                    proof {
                        assert(held_at(m, n) == Some(placeholder(n)));
                    }
                }
                proof {
                    assert forall|x: Seq<char>| #[trigger] held_at(m, x) == (match held_at(d, x) {
                        Some(e) => Some(e),
                        None => if deeper_among(ks.take(i + 1), prefix@, x) {
                            Some(placeholder(x))
                        } else {
                            None
                        },
                    }) by {
                        assert(held_at(before, x) == (match held_at(d, x) {
                            Some(e) => Some(e),
                            None => if deeper_among(ks.take(i as int), prefix@, x) {
                                Some(placeholder(x))
                            } else {
                                None
                            },
                        }));
                        if x != n {
                            if before.has(x) {
                                assert(m.has(x));
                                assert(m.at(x) == before.at(x));
                            } else {
                                assert(!m.has(x));
                            }
                        }
                    }
                }
            }
        }
        i += 1;
    }
    proof {
        assert(ks.take(i as int) =~= ks);
        assert forall|name: Seq<char>| #[trigger] held_at(m, name) == shown(
            base@,
            all,
            prefix@,
            name,
        ) by {
            lemma_deeper(ov, prefix@, name);
        }
    }
    let v = map_entries(&m, Ghost(listing(base@, all, prefix@)));
    proof {
        if !store.collided@ && (rel@.len() > 0 ==> rel@[0] != '/') {
            lemma_lists_dir(entry_values(v@), trees, staged_map(overlay@), tree_oid, rel@);
        }
    }
    Ok(v)
}

/// Some of the paths lie deeper than a name of the directory.
spec fn deeper_among(ks: Seq<Seq<char>>, prefix: Seq<char>, name: Seq<char>) -> bool {
    exists|j: int| 0 <= j < ks.len() && lies_deeper(#[trigger] ks[j], prefix, name)
}

spec fn lies_deeper(k: Seq<char>, prefix: Seq<char>, name: Seq<char>) -> bool {
    prefix.is_prefix_of(k) && nested(k.skip(prefix.len() as int)) && first_part(
        k.skip(prefix.len() as int),
    ) == name
}

proof fn lemma_deeper_push(ks: Seq<Seq<char>>, k: Seq<char>, prefix: Seq<char>)
    ensures
        forall|name: Seq<char>| #[trigger]
            deeper_among(ks.push(k), prefix, name) <==> deeper_among(ks, prefix, name)
                || lies_deeper(k, prefix, name),
{
    let all = ks.push(k);
    assert forall|name: Seq<char>| #[trigger] deeper_among(all, prefix, name) <==> deeper_among(
        ks,
        prefix,
        name,
    ) || lies_deeper(k, prefix, name) by {
        if deeper_among(ks, prefix, name) {
            let j = choose|j: int|
                0 <= j < ks.len() && lies_deeper(#[trigger] ks[j], prefix, name);
            assert(all[j] == ks[j]);
        }
        if lies_deeper(k, prefix, name) {
            assert(all[ks.len() as int] == k);
        }
        if deeper_among(all, prefix, name) {
            let j = choose|j: int|
                0 <= j < all.len() && lies_deeper(#[trigger] all[j], prefix, name);
            if j < ks.len() {
                assert(ks[j] == all[j]);
            }
        }
    }
}

/// A path lies deeper than a name exactly where something is staged below it.
proof fn lemma_deeper(ov: Overlay, prefix: Seq<char>, name: Seq<char>)
    ensures
        deeper_among(ov.key_list(), prefix, name) <==> staged_below(ops(ov), prefix, name),
{
    let ks = ov.key_list();
    if deeper_among(ks, prefix, name) {
        let j = choose|j: int| 0 <= j < ks.len() && lies_deeper(#[trigger] ks[j], prefix, name);
        let rest = ks[j].skip(prefix.len() as int);
        lemma_below_split(rest);
        assert(prefix + below(name, after_first(rest)) =~= ks[j]);
        assert(ov.has(ks[j]));
        assert(ops(ov).dom().contains(prefix + below(name, after_first(rest))));
    }
    if staged_below(ops(ov), prefix, name) {
        let rest = choose|rest: Seq<char>|
            ops(ov).dom().contains(prefix + #[trigger] below(name, rest));
        let k = prefix + below(name, rest);
        assert(ov.has(k));
        let j = choose|j: int| 0 <= j < ks.len() && ks[j] == k;
        assert(k.skip(prefix.len() as int) =~= below(name, rest));
        lemma_below_parts(name, rest);
        assert(prefix.is_prefix_of(k));
        assert(lies_deeper(ks[j], prefix, name));
    }
}

/// The entries of a map, by increasing names.
fn map_entries(
    m: &TextMap<TreeEntry>,
    Ghost(at): Ghost<spec_fn(Seq<char>) -> Option<Entry>>,
) -> (v: Vec<TreeEntry>)
    requires
        forall|name: Seq<char>| #[trigger] held_at(*m, name) == at(name),
        forall|name: Seq<char>| (#[trigger] at(name)) matches Some(e) ==> e.name == name,
    ensures
        made_of(entry_values(v@), at),
{
    let count = m.len();
    let ghost ks = m.key_list();
    let mut v: Vec<TreeEntry> = Vec::new();
    let mut i: usize = 0;
    while i < count
        invariant
            i <= count,
            count == ks.len(),
            ks == m.key_list(),
            m.ordered(),
            v@.len() == i,
            forall|name: Seq<char>| #[trigger] held_at(*m, name) == at(name),
            forall|name: Seq<char>| (#[trigger] at(name)) matches Some(e) ==> e.name == name,
            forall|j: int|
                0 <= j < i ==> #[trigger] entry_values(v@)[j] == m.at(ks[j])@
                    && entry_values(v@)[j].name == ks[j],
        decreases count - i,
    {
        let e = m.value(i);
        let ghost before = entry_values(v@);
        proof {
            m.lemma_at(i as int);
            assert(held_at(*m, ks[i as int]) == at(ks[i as int]));
            assert(at(ks[i as int]) is Some);
        }
        v.push(e.copy());
        proof {
            assert(entry_values(v@) =~= before.push(e@));
        }
        i += 1;
    }
    proof {
        let es = entry_values(v@);
        assert forall|p: int, q: int| 0 <= p < q < es.len() implies text_before(
            (#[trigger] es[p]).name,
            (#[trigger] es[q]).name,
        ) by {
            assert(text_before(ks[p], ks[q]));
        }
        assert forall|e: Entry| #[trigger] es.contains(e) <==> at(e.name) == Some(e) by {
            if es.contains(e) {
                let j = choose|j: int| 0 <= j < es.len() && es[j] == e;
                m.lemma_at(j);
                assert(held_at(*m, ks[j]) == at(ks[j]));
            }
            if at(e.name) == Some(e) {
                assert(held_at(*m, e.name) == at(e.name));
                let j = choose|j: int| 0 <= j < ks.len() && ks[j] == e.name;
                assert(es[j] == e);
            }
        }
    }
    v
}

/// What a mount shows: a ref, or an object.
#[derive(Clone, Debug)]
pub enum Spec {
    Ref(String),
    Oid(ObjectId),
}

pub fn parse_spec(spec: &str) -> (r: Result<Spec, Error>)
    ensures
        if "ref:"@.is_prefix_of(spec@) {
            r matches Ok(Spec::Ref(s)) && s@ == spec@.skip(4)
        } else if "oid:"@.is_prefix_of(spec@) {
            match hex_value(encode_utf8(trimmed(spec@.skip(4)))) {
                Some(raw) => if raw.len() == 32 {
                    r matches Ok(Spec::Oid(id)) && id@ == raw
                } else {
                    r matches Err(e) && told(e, Fault::Invalid(id_fault(spec@.skip(4))))
                },
                None => r matches Err(e) && told(e, Fault::Invalid(id_fault(spec@.skip(4)))),
            }
        } else {
            r matches Ok(Spec::Ref(s)) && s@ == spec@
        },
{
    proof {
        reveal_strlit("ref:");
        reveal_strlit("oid:");
    }
    if starts_with(spec, "ref:") {
        let cs = chars_of(spec);
        let rest = text_of(slice_subrange(cs.as_slice(), 4, cs.len()));
        assert(rest@ =~= spec@.skip(4));
        return Ok(Spec::Ref(rest));
    }
    if starts_with(spec, "oid:") {
        let cs = chars_of(spec);
        let rest = text_of(slice_subrange(cs.as_slice(), 4, cs.len()));
        assert(rest@ =~= spec@.skip(4));
        let id = ObjectId::from_hex(rest.as_str())?;
        proof {
            lemma_id_len(id);
        }
        return Ok(Spec::Oid(id));
    }
    Ok(Spec::Ref(spec.to_string()))
}

/// The name of the kind of an entry.
pub fn dirent_kind(e: &TreeEntry) -> (r: &'static str)
    ensures
        r@ == (match e.kind {
            EntryKind::Blob => "blob"@,
            EntryKind::Tree => "tree"@,
        }),
{
    match e.kind {
        EntryKind::Blob => "blob",
        EntryKind::Tree => "tree",
    }
}

/// One step of a walk with nothing staged, through a directory.
proof fn lemma_walk_on(
    trees: Map<ObjectId, Seq<Entry>>,
    cur: ObjectId,
    so_far: Seq<char>,
    path: Seq<char>,
    e: Entry,
)
    requires
        nested(path),
        trees.dom().contains(cur),
        entry_named(trees[cur], first_part(path)) == Some(e),
        e.kind == EntryKind::Tree,
    ensures
        walk(trees, Map::<Seq<char>, Op>::empty(), cur, so_far, split_slashes(path)) == walk(
            trees,
            Map::<Seq<char>, Op>::empty(),
            e.id,
            join(so_far, first_part(path)),
            split_slashes(after_first(path)),
        ),
{
    let parts = split_slashes(path);
    lemma_split_nonempty(after_first(path));
    assert(parts[0] == first_part(path));
    assert(parts.drop_first() =~= split_slashes(after_first(path)));
}

/// The last step of a walk with nothing staged, to a blob.
proof fn lemma_walk_last(
    trees: Map<ObjectId, Seq<Entry>>,
    cur: ObjectId,
    so_far: Seq<char>,
    path: Seq<char>,
    e: Entry,
)
    requires
        !nested(path),
        trees.dom().contains(cur),
        entry_named(trees[cur], path) == Some(e),
        e.kind == EntryKind::Blob,
    ensures
        walk(trees, Map::<Seq<char>, Op>::empty(), cur, so_far, split_slashes(path))
            == Walk::Found(Resolved::Blob { id: e.id, executable: e.executable }),
{
    let parts = split_slashes(path);
    assert(parts.len() == 1 && parts[0] == path);
}

/// A walk to a staged file finds it once the edits have been applied.
proof fn lemma_walk_applied(
    have: Map<ObjectId, Seq<Entry>>,
    trees: Map<ObjectId, Seq<Entry>>,
    base: Option<ObjectId>,
    ov: Map<Seq<char>, Op>,
    n: nat,
    so_far: Seq<char>,
    path: Seq<char>,
)
    requires
        folded(trees, base, ov, n),
        fits(have, trees, base, ov, n),
        last_name(path).len() > 0,
        none_below(ov, path),
        ov.dom().contains(path),
        ov[path] is Some,
    ensures
        ({
            let (id, executable) = ov[path]->0;
            walk(
                trees,
                Map::<Seq<char>, Op>::empty(),
                tree_id(level(trees, entries_of(trees, base), ov, n)),
                so_far,
                split_slashes(path),
            ) == Walk::Found(Resolved::Blob { id, executable })
        }),
    decreases path.len(),
{
    let b = entries_of(trees, base);
    let es = level(trees, b, ov, n);
    lemma_overlay_read(have, trees, base, ov, n, path);
    lemma_fits_here(have, trees, base, ov, n);
    lemma_slash_bounds(path);
    if nested(path) {
        lemma_below_split(path);
        let name = first_part(path);
        let rest = after_first(path);
        assert(is_group(ov, name)) by {
            assert(ov.dom().contains(below(name, rest)));
        }
        lemma_fits_below(have, have, trees, base, ov, n, name);
        lemma_folded_below(trees, base, ov, n, name);
        let from = child_base(b, ov, name);
        let sub = group(ov, name);
        assert forall|x: Seq<char>| !sub.dom().contains(#[trigger] below(rest, x)) by {
            assert(below(name, below(rest, x)) =~= below(path, x));
        }
        lemma_overlaid_named(es, b, edits_of(trees, b, ov, n), name);
        assert(edits_of(trees, b, ov, n)(name) == edit_at(trees, b, ov, n, name));
        lemma_walk_on(trees, tree_id(es), so_far, path, entry_named(es, name)->0);
        lemma_walk_applied(have, trees, from, sub, (n - 1) as nat, join(so_far, name), rest);
    } else {
        lemma_walk_last(trees, tree_id(es), so_far, path, entry_named(es, path)->0);
    }
}

/// A staged file resolves to the same blob before its edits are applied and,
/// with nothing staged, after.
pub proof fn lemma_applied_resolves(
    have: Map<ObjectId, Seq<Entry>>,
    trees: Map<ObjectId, Seq<Entry>>,
    base: Option<ObjectId>,
    ov: Map<Seq<char>, Op>,
    n: nat,
    root: ObjectId,
    rel: Seq<char>,
)
    requires
        folded(trees, base, ov, n),
        fits(have, trees, base, ov, n),
        rel.len() > 0 && rel[0] != '/',
        last_name(rel).len() > 0,
        none_below(ov, rel),
        ov.dom().contains(rel),
        ov[rel] is Some,
    ensures
        ({
            let applied = tree_id(level(trees, entries_of(trees, base), ov, n));
            let (id, executable) = ov[rel]->0;
            &&& resolution(trees, ov, root, rel) == Walk::Found(Resolved::Blob { id, executable })
            &&& resolution(trees, Map::empty(), applied, rel) == resolution(trees, ov, root, rel)
        }),
{
    lemma_walk_applied(have, trees, base, ov, n, Seq::empty(), rel);
}

/// Every tree that a path leads through from a directory is stored.
pub open spec fn on_path(trees: Map<ObjectId, Seq<Entry>>, id: ObjectId, p: Seq<char>) -> bool
    decreases p.len(),
{
    proof {
        lemma_slash_bounds(p);
    }
    trees.dom().contains(id) && (nested(p) ==> match entry_named(trees[id], first_part(p)) {
        Some(e) => e.kind == EntryKind::Tree ==> on_path(trees, e.id, after_first(p)),
        None => true,
    })
}

/// What an entry stands for.
pub open spec fn stands_for(e: Entry) -> Resolved {
    if e.kind == EntryKind::Tree {
        Resolved::Tree(e.id)
    } else {
        Resolved::Blob { id: e.id, executable: e.executable }
    }
}

/// Nothing is staged at a path or at a directory above it.
pub open spec fn untouched(ov: Map<Seq<char>, Op>, p: Seq<char>) -> bool {
    forall|d: Seq<char>| #[trigger] at_or_above(d, p) ==> !ov.dom().contains(d)
}

/// What a path below a mount resolves to: nothing of it, the tree of the mount; a staged path,
/// what is staged there; one with nothing staged there or above, the entry that the trees have
/// at it, a directory as the tree that it is. All others resolve to nothing.
#[verifier::opaque]
pub open spec fn resolves(
    trees: Map<ObjectId, Seq<Entry>>,
    ov: Map<Seq<char>, Op>,
    root: ObjectId,
    rel: Seq<char>,
    r: Result<Resolved, Error>,
    steady: bool,
) -> bool {
    if rel.len() == 0 {
        r == Ok::<Resolved, Error>(Resolved::Tree(root))
    } else if ov.dom().contains(rel) {
        match ov[rel] {
            Some((id, executable)) => r == Ok::<Resolved, Error>(Resolved::Blob { id, executable }),
            None => r matches Err(Error::NotFound(_)),
        }
    } else if untouched(ov, rel) {
        &&& r matches Ok(x) ==> on_path(trees, root, rel) && (entry_at(
            trees,
            trees[root],
            rel,
        ) matches Some(e) && x == stands_for(e))
        &&& steady && on_path(trees, root, rel) && entry_at(trees, trees[root], rel) is Some
            ==> r is Ok
    } else {
        r is Err
    }
}

proof fn lemma_join_on(so_far: Seq<char>, name: Seq<char>, d: Seq<char>)
    requires
        name.len() > 0,
    ensures
        join(join(so_far, name), d) == join(so_far, below(name, d)),
{
    assert(join(join(so_far, name), d) =~= join(so_far, below(name, d)));
}

/// A path lies at or above another also once both are seen from above.
proof fn lemma_above_on(name: Seq<char>, d: Seq<char>, q: Seq<char>)
    requires
        at_or_above(d, q),
    ensures
        at_or_above(below(name, d), below(name, q)),
{
    if d != q {
        let rest = choose|rest: Seq<char>| q == #[trigger] below(d, rest);
        assert(below(name, q) =~= below(below(name, d), rest));
    }
}

/// A walk along a path with nothing staged at it or above it.
proof fn lemma_walk_untouched(
    trees: Map<ObjectId, Seq<Entry>>,
    ov: Map<Seq<char>, Op>,
    cur: ObjectId,
    so_far: Seq<char>,
    p: Seq<char>,
)
    requires
        plain_path(p),
        forall|d: Seq<char>| #[trigger]
            at_or_above(d, p) ==> !ov.dom().contains(join(so_far, d)),
    ensures
        ({
            let w = walk(trees, ov, cur, so_far, split_slashes(p));
            &&& w matches Walk::Found(x) ==> on_path(trees, cur, p) && (entry_at(
                trees,
                trees[cur],
                p,
            ) matches Some(e) && x == stands_for(e))
            &&& on_path(trees, cur, p) && entry_at(trees, trees[cur], p) is Some ==> w is Found
        }),
    decreases p.len(),
{
    lemma_slash_bounds(p);
    let parts = split_slashes(p);
    if nested(p) {
        let name = first_part(p);
        let q = after_first(p);
        lemma_below_split(p);
        lemma_split_nonempty(q);
        assert(parts[0] == name);
        assert(parts.drop_first() =~= split_slashes(q));
        assert(p == below(name, q));
        assert(at_or_above(name, p));
        if trees.dom().contains(cur) && entry_named(trees[cur], name) is Some {
            let e = entry_named(trees[cur], name)->0;
            if e.kind == EntryKind::Tree {
                assert forall|d: Seq<char>| #[trigger]
                    at_or_above(d, q) implies !ov.dom().contains(join(join(so_far, name), d)) by {
                    lemma_above_on(name, d, q);
                    lemma_join_on(so_far, name, d);
                }
                lemma_walk_untouched(trees, ov, e.id, join(so_far, name), q);
            }
        }
    } else {
        assert(parts.len() == 1 && parts[0] == p);
        assert(at_or_above(p, p));
    }
}

/// A walk along a path with something staged above it finds nothing.
proof fn lemma_walk_staged(
    trees: Map<ObjectId, Seq<Entry>>,
    ov: Map<Seq<char>, Op>,
    cur: ObjectId,
    so_far: Seq<char>,
    p: Seq<char>,
    d: Seq<char>,
)
    requires
        plain_path(p),
        at_or_above(d, p),
        d != p,
        ov.dom().contains(join(so_far, d)),
    ensures
        !(walk(trees, ov, cur, so_far, split_slashes(p)) is Found),
    decreases p.len(),
{
    lemma_slash_bounds(p);
    let rest = choose|rest: Seq<char>| p == #[trigger] below(d, rest);
    assert(p[d.len() as int] == '/');
    assert(p.contains('/'));
    let name = first_part(p);
    let q = after_first(p);
    lemma_below_split(p);
    lemma_split_nonempty(q);
    let parts = split_slashes(p);
    assert(parts[0] == name);
    assert(parts.drop_first() =~= split_slashes(q));
    if !ov.dom().contains(join(so_far, name)) && trees.dom().contains(cur) && entry_named(
        trees[cur],
        name,
    ) is Some {
        let e = entry_named(trees[cur], name)->0;
        if e.kind == EntryKind::Tree {
            assert(d != name);
            let n = name.len() as int;
            assert(d.len() > n) by {
                if d.len() <= n {
                    if d.len() < n {
                        assert(name[d.len() as int] == '/');
                        assert(name.contains('/'));
                    } else {
                        assert(d =~= name);
                    }
                }
            }
            let d1 = d.skip(n + 1);
            assert(p[n] == '/');
            assert(d[n] == '/');
            assert(below(name, d1) =~= d);
            assert(q =~= below(d1, rest));
            lemma_join_on(so_far, name, d1);
            lemma_walk_staged(trees, ov, e.id, join(so_far, name), q, d1);
        }
    }
}

proof fn lemma_walkable_plain(p: Seq<char>)
    requires
        p.len() > 0,
        forall|i: int| 0 <= i < split_slashes(p).len() ==> valid_name(#[trigger] split_slashes(p)[i]),
    ensures
        plain_path(p),
    decreases p.len(),
{
    lemma_slash_bounds(p);
    let parts = split_slashes(p);
    assert(valid_name(parts[0]));
    if nested(p) {
        let q = after_first(p);
        lemma_split_nonempty(q);
        assert(parts[0] == first_part(p));
        assert(parts.drop_first() =~= split_slashes(q));
        assert forall|i: int| 0 <= i < split_slashes(q).len() implies valid_name(
            #[trigger] split_slashes(q)[i],
        ) by {
            assert(parts[i + 1] == split_slashes(q)[i]);
        }
        if q.len() == 0 {
            assert(split_slashes(q)[0] == q);
        }
        lemma_walkable_plain(q);
    } else {
        assert(parts[0] == p);
        assert(first_part(p) =~= p);
    }
}

/// A path below a mount resolves to what stands there: what is staged, else what the trees
/// have at it, and a directory to itself.
pub proof fn lemma_resolves(
    objects: Map<ObjectId, Seq<u8>>,
    ov: Map<Seq<char>, Op>,
    root: ObjectId,
    rel: Seq<char>,
    r: Result<Resolved, Error>,
    steady: bool,
)
    requires
        rel.len() > 0 ==> rel[0] != '/',
        walkable(rel) || ov.dom().contains(rel),
        walked(objects, resolution(trees_of(objects), ov, root, rel), r, steady),
        steady || (rel.len() > 0 && !ov.dom().contains(rel)),
    ensures
        resolves(trees_of(objects), ov, root, rel, r, steady),
{
    reveal(resolves);
    let trees = trees_of(objects);
    if rel.len() > 0 && !ov.dom().contains(rel) {
        assert(without_leading_slashes(rel) == rel);
        lemma_walkable_plain(rel);
        let none = Seq::<char>::empty();
        assert forall|d: Seq<char>| join(none, d) == d by {}
        if untouched(ov, rel) {
            assert forall|d: Seq<char>| #[trigger] at_or_above(d, rel) implies !ov.dom().contains(
                join(none, d),
            ) by {}
            lemma_walk_untouched(trees, ov, root, none, rel);
        } else {
            let d = choose|d: Seq<char>| #[trigger] at_or_above(d, rel) && ov.dom().contains(d);
            lemma_walk_staged(trees, ov, root, none, rel, d);
        }
    }
}

/// A name that resolution finds in a directory is that of the entry which the directory has:
/// where one path resolves to a tree, and this has an entry, the path of its name below resolves
/// to the entry.
pub proof fn lemma_resolves_below(
    trees: Map<ObjectId, Seq<Entry>>,
    ov: Map<Seq<char>, Op>,
    root: ObjectId,
    rel: Seq<char>,
    name: Seq<char>,
    dir: ObjectId,
    r: Result<Resolved, Error>,
)
    requires
        plain_path(rel),
        valid_name(name),
        resolves(trees, ov, root, rel, Ok(Resolved::Tree(dir)), true),
        trees.dom().contains(dir),
        !ov.dom().contains(below(rel, name)),
        resolves(trees, ov, root, below(rel, name), r, true),
    ensures
        match entry_named(trees[dir], name) {
            Some(e) => r == Ok::<Resolved, Error>(stands_for(e)),
            None => r is Err,
        },
{
    reveal(resolves);
    let p = below(rel, name);
    assert(p.len() > 0);
    lemma_slash_bounds(name);
    assert(rel.len() > 0) by {
        lemma_slash_bounds(rel);
    }
    assert(untouched(ov, p)) by {
        assert forall|d: Seq<char>| #[trigger] at_or_above(d, p) implies !ov.dom().contains(d) by {
            if d != p {
                lemma_above_parent(d, rel, name);
                assert(at_or_above(d, rel));
            }
        }
    }
    lemma_entry_in_dir(trees, root, rel, name);
}

/// What lies above a name in a directory lies at or above the directory.
proof fn lemma_above_parent(d: Seq<char>, rel: Seq<char>, name: Seq<char>)
    requires
        at_or_above(d, below(rel, name)),
        d != below(rel, name),
        !name.contains('/'),
    ensures
        at_or_above(d, rel),
{
    let p = below(rel, name);
    let rest = choose|rest: Seq<char>| p == #[trigger] below(d, rest);
    let n = rel.len() as int;
    let k = d.len() as int;
    assert(p.len() == k + 1 + rest.len());
    assert(p.len() == n + 1 + name.len());
    assert(p[k] == '/');
    assert(p[n] == '/');
    if k > n {
        assert(p[k] == (rel.push('/') + name)[k]);
        assert(name[k - n - 1] == p[k]);
        assert(name.contains('/'));
    } else if k == n {
        assert(d =~= rel) by {
            assert forall|i: int| 0 <= i < n implies d[i] == rel[i] by {
                assert(p[i] == d[i]);
                assert(p[i] == rel[i]);
            }
        }
    } else {
        let tail = rel.skip(k + 1);
        assert(rel =~= below(d, tail)) by {
            assert forall|i: int| 0 <= i < n implies rel[i] == below(d, tail)[i] by {
                assert(p[i] == rel[i]);
                if i < k {
                    assert(p[i] == d[i]);
                }
            }
        }
    }
}

/// The entry of a name in the directory at a path.
proof fn lemma_entry_in_dir(
    trees: Map<ObjectId, Seq<Entry>>,
    cur: ObjectId,
    rel: Seq<char>,
    name: Seq<char>,
)
    requires
        !name.contains('/'),
        on_path(trees, cur, rel),
        entry_at(trees, trees[cur], rel) matches Some(e) && e.kind == EntryKind::Tree
            && trees.dom().contains(e.id),
    ensures
        on_path(trees, cur, below(rel, name)),
        entry_at(trees, trees[cur], below(rel, name)) == entry_named(
            trees[entry_at(trees, trees[cur], rel)->0.id],
            name,
        ),
    decreases rel.len(),
{
    let p = below(rel, name);
    lemma_slash_bounds(rel);
    lemma_slash_bounds(name);
    if nested(rel) {
        let f = first_part(rel);
        let q = after_first(rel);
        lemma_below_split(rel);
        assert(p =~= below(f, below(q, name)));
        lemma_below_parts(f, below(q, name));
        let e = entry_named(trees[cur], f)->0;
        assert(on_path(trees, e.id, q));
        assert(entry_at(trees, trees[cur], rel) == entry_at(trees, trees[e.id], q));
        lemma_entry_in_dir(trees, e.id, q, name);
        assert(entry_at(trees, trees[cur], p) == entry_at(trees, trees[e.id], below(q, name)));
    } else {
        lemma_below_parts(rel, name);
        let e = entry_named(trees[cur], rel)->0;
        assert(entry_at(trees, trees[cur], p) == entry_at(trees, trees[e.id], name));
        assert(on_path(trees, e.id, name));
    }
}

/// What a listing of a directory shows of a name: what is staged there, else the entry that the
/// trees have at the path of the name, else a directory where something is staged below.
#[verifier::opaque]
pub open spec fn lists_dir(
    v: Seq<Entry>,
    trees: Map<ObjectId, Seq<Entry>>,
    ov: Map<Seq<char>, Op>,
    root: ObjectId,
    rel: Seq<char>,
) -> bool {
    &&& names_increasing(v)
    &&& forall|name: Seq<char>|
        name.len() > 0 && !name.contains('/') ==> {
            let p = join(rel, name);
            match #[trigger] entry_named(v, name) {
                Some(e) => if ov.dom().contains(p) && ov[p] is Some {
                    stands_for(e) == (Resolved::Blob { id: (ov[p]->0).0, executable: (ov[p]->0).1 })
                } else if !ov.dom().contains(p) && entry_at(trees, trees[root], p) is Some {
                    Some(e) == entry_at(trees, trees[root], p)
                } else {
                    e.kind == EntryKind::Tree && !none_below(ov, p)
                },
                None => {
                    &&& ov.dom().contains(p) ==> ov[p] is None
                    &&& !ov.dom().contains(p) ==> entry_at(trees, trees[root], p) is None
                    &&& none_below(ov, p)
                },
            }
        }
}

/// The directory that parts lead to is the one that stands at their path.
proof fn lemma_dir_held(trees: Map<ObjectId, Seq<Entry>>, cur: ObjectId, p: Seq<char>)
    requires
        dir_at(trees, cur, split_slashes(p)) is Found,
    ensures
        ({
            let d = dir_at(trees, cur, split_slashes(p))->Found_0;
            &&& trees.dom().contains(d)
            &&& on_path(trees, cur, p)
            &&& entry_at(trees, trees[cur], p) matches Some(e) && e.kind == EntryKind::Tree && e.id == d
        }),
    decreases p.len(),
{
    lemma_slash_bounds(p);
    let parts = split_slashes(p);
    if nested(p) {
        lemma_split_nonempty(after_first(p));
        assert(parts[0] == first_part(p));
        assert(parts.drop_first() =~= split_slashes(after_first(p)));
        let e = entry_named(trees[cur], first_part(p))->0;
        lemma_dir_held(trees, e.id, after_first(p));
    } else {
        assert(parts[0] == p);
        let e = entry_named(trees[cur], p)->0;
        assert(parts.drop_first() =~= Seq::<Seq<char>>::empty());
        assert(dir_at(trees, e.id, parts.drop_first()) is Found);
    }
}

/// A listing shows what stands at the paths of its names.
pub proof fn lemma_lists_dir(
    v: Seq<Entry>,
    trees: Map<ObjectId, Seq<Entry>>,
    ov: Map<Seq<char>, Op>,
    root: ObjectId,
    rel: Seq<char>,
)
    requires
        rel.len() > 0 ==> rel[0] != '/',
        dir_at(trees, root, list_parts(rel)) is Found,
        made_of(
            v,
            listing(
                trees[dir_at(trees, root, list_parts(rel))->Found_0],
                ov,
                list_prefix(rel),
            ),
        ),
    ensures
        lists_dir(v, trees, ov, root, rel),
{
    reveal(lists_dir);
    let dir = dir_at(trees, root, list_parts(rel))->Found_0;
    let at = listing(trees[dir], ov, list_prefix(rel));
    reveal_strlit("/");
    assert(without_leading_slashes(rel) == rel);
    if rel.len() > 0 {
        lemma_dir_held(trees, root, rel);
    }
    assert forall|name: Seq<char>| name.len() > 0 && !name.contains('/') implies {
        let p = join(rel, name);
        match #[trigger] entry_named(v, name) {
            Some(e) => if ov.dom().contains(p) && ov[p] is Some {
                stands_for(e) == (Resolved::Blob { id: (ov[p]->0).0, executable: (ov[p]->0).1 })
            } else if !ov.dom().contains(p) && entry_at(trees, trees[root], p) is Some {
                Some(e) == entry_at(trees, trees[root], p)
            } else {
                e.kind == EntryKind::Tree && !none_below(ov, p)
            },
            None => {
                &&& ov.dom().contains(p) ==> ov[p] is None
                &&& !ov.dom().contains(p) ==> entry_at(trees, trees[root], p) is None
                &&& none_below(ov, p)
            },
        }
    } by {
        let p = join(rel, name);
        lemma_slash_bounds(name);
        assert(list_prefix(rel) + name =~= p);
        if rel.len() > 0 {
            lemma_entry_in_dir(trees, root, rel, name);
        }
        assert(entry_at(trees, trees[root], p) == entry_named(trees[dir], name));
        assert(at(name) == shown(trees[dir], ov, list_prefix(rel), name));
        assert(staged_below(ov, list_prefix(rel), name) <==> !none_below(ov, p)) by {
            if staged_below(ov, list_prefix(rel), name) {
                let rest = choose|rest: Seq<char>|
                    ov.dom().contains(list_prefix(rel) + #[trigger] below(name, rest));
                assert(list_prefix(rel) + below(name, rest) =~= below(p, rest));
            }
            if !none_below(ov, p) {
                let rest = choose|rest: Seq<char>| ov.dom().contains(#[trigger] below(p, rest));
                assert(list_prefix(rel) + below(name, rest) =~= below(p, rest));
            }
        }
        assert(entry_named(v, name) == at(name)) by {
            lemma_named_of(trees[dir], name);
            lemma_made_named(v, at, name);
        }
    }
}

proof fn lemma_named_of(es: Seq<Entry>, name: Seq<char>)
    ensures
        entry_named(es, name) matches Some(e) ==> e.name == name,
{
}

} // verus!
