//! Trees: sorted directories of named entries.
use crate::bytes::{
    lemma_lex_antisymmetric, lemma_lex_irreflexive, lemma_lex_total, lemma_lex_transitive, lex_lt,
};
use crate::order::{is_stable_sort, sorted, stable_sort, Sortable};
use crate::scan::{told, Fault};
use crate::text::{
    byte_len, chars_of, debug_text, lemma_utf8_injective, quoted, text_before, text_eq, text_lt,
};
use crate::textmap::TextMap;
use crate::types::{corrupt, invalid, EntryKind, Error, ObjectId};
use vstd::prelude::*;
use vstd::utf8::encode_utf8;

verus! {

/// A name in a directory and what it stands for.
#[derive(Clone, Debug, PartialEq, Eq)]
pub struct TreeEntry {
    pub name: String,
    pub kind: EntryKind,
    pub id: ObjectId,
    pub executable: bool,
}

/// A tree entry as a value.
pub struct Entry {
    pub name: Seq<char>,
    pub kind: EntryKind,
    pub id: ObjectId,
    pub executable: bool,
}

impl View for TreeEntry {
    type V = Entry;

    open spec fn view(&self) -> Entry {
        Entry { name: self.name@, kind: self.kind, id: self.id, executable: self.executable }
    }
}

impl TreeEntry {
    /// Another entry of the same value.
    pub fn copy(&self) -> (r: TreeEntry)
        ensures
            r@ == self@,
    {
        TreeEntry { name: self.name.clone(), kind: self.kind, id: self.id, executable: self.executable }
    }
}

/// Tree entries as values.
pub open spec fn entry_values(s: Seq<TreeEntry>) -> Seq<Entry> {
    s.map_values(|e: TreeEntry| e@)
}

/// A directory.
#[derive(Clone, Debug, PartialEq, Eq)]
pub struct Tree {
    pub entries: Vec<TreeEntry>,
}

impl View for Tree {
    type V = Seq<Entry>;

    open spec fn view(&self) -> Seq<Entry> {
        entry_values(self.entries@)
    }
}

/// A text that can name a tree entry.
pub open spec fn valid_name(name: Seq<char>) -> bool {
    &&& 1 <= encode_utf8(name).len() <= 255
    &&& name != "."@
    &&& name != ".."@
    &&& !name.contains('/')
    &&& !name.contains('\0')
}

/// Every entry has a valid name.
pub open spec fn names_valid(es: Seq<Entry>) -> bool {
    forall|i: int| 0 <= i < es.len() ==> valid_name((#[trigger] es[i]).name)
}

/// The names come strictly increasing by their bytes.
pub open spec fn names_increasing(es: Seq<Entry>) -> bool {
    forall|i: int, j: int|
        0 <= i < j < es.len() ==> text_before((#[trigger] es[i]).name, (#[trigger] es[j]).name)
}

/// No name occurs twice.
pub open spec fn names_distinct(es: Seq<Entry>) -> bool {
    forall|i: int, j: int|
        0 <= i < j < es.len() ==> (#[trigger] es[i]).name != (#[trigger] es[j]).name
}

/// Entries that a tree may hold.
pub open spec fn canonical(es: Seq<Entry>) -> bool {
    names_valid(es) && names_increasing(es)
}

impl Sortable for TreeEntry {
    open spec fn le(self, other: Self) -> bool {
        !text_before(other.name@, self.name@)
    }

    proof fn le_total(a: Self, b: Self) {
        if text_before(b.name@, a.name@) {
            lemma_lex_antisymmetric(encode_utf8(b.name@), encode_utf8(a.name@));
        }
    }

    proof fn le_transitive(a: Self, b: Self, c: Self) {
        let (x, y, z) = (encode_utf8(a.name@), encode_utf8(b.name@), encode_utf8(c.name@));
        if lex_lt(z, x) {
            lemma_lex_total(x, y);
            lemma_lex_total(y, z);
            if lex_lt(x, y) {
                lemma_lex_transitive(z, x, y);
            }
        }
    }

    fn strictly_before(&self, other: &Self) -> bool {
        text_lt(self.name.as_str(), other.name.as_str())
    }
}

/// How a text that can name no tree entry is refused.
pub open spec fn name_fault(name: Seq<char>) -> Seq<char> {
    if !(1 <= encode_utf8(name).len() <= 255) {
        "tree name length"@
    } else if name == "."@ || name == ".."@ {
        "tree name . or .."@
    } else {
        "illegal tree name "@ + quoted(name)
    }
}

/// The entry at `i` is the first whose name is not valid.
pub open spec fn bad_first(es: Seq<Entry>, i: int) -> bool {
    &&& 0 <= i < es.len()
    &&& !valid_name(es[i].name)
    &&& forall|j: int| 0 <= j < i ==> valid_name((#[trigger] es[j]).name)
}

/// How entries of which one has a name that is not valid are refused: by the first such
/// name.
pub open spec fn names_fault(es: Seq<Entry>) -> Fault {
    let i = choose|i: int| #[trigger] bad_first(es, i);
    Fault::Invalid(name_fault(es[i].name))
}

pub proof fn lemma_first_bad(es: Seq<Entry>, i: int)
    requires
        bad_first(es, i),
    ensures
        names_fault(es) == Fault::Invalid(name_fault(es[i].name)),
{
    let k = choose|k: int| #[trigger] bad_first(es, k);
    if k < i {
        assert(valid_name(es[k].name));
    } else if i < k {
        assert(valid_name(es[i].name));
    }
}

/// What is wrong with entries that were read back.
pub open spec fn listing_fault(es: Seq<Entry>) -> Fault {
    if names_valid(es) {
        Fault::Corrupt("tree entries are not strictly sorted unique"@)
    } else {
        names_fault(es)
    }
}

/// The name at `i` is the one before it.
pub open spec fn repeats(sorted: Seq<TreeEntry>, i: int) -> bool {
    sorted[i - 1].name@ == sorted[i].name@
}

/// The name at `i` of entries in order is the first that repeats the one before it.
pub open spec fn repeats_first(sorted: Seq<TreeEntry>, i: int) -> bool {
    &&& 0 < i < sorted.len()
    &&& repeats(sorted, i)
    &&& forall|k: int| 0 < k < i ==> !#[trigger] repeats(sorted, k)
}

/// Check that a text can name a tree entry.
pub fn validate_name(name: &str) -> (r: Result<(), Error>)
    ensures
        match r {
            Ok(_) => valid_name(name@),
            Err(e) => !valid_name(name@) && told(e, Fault::Invalid(name_fault(name@))),
        },
{
    let n = byte_len(name);
    if n == 0 || n > 255 {
        return Err(invalid("tree name length"));
    }
    if text_eq(name, ".") || text_eq(name, "..") {
        return Err(invalid("tree name . or .."));
    }
    let cs = chars_of(name);
    let mut i: usize = 0;
    while i < cs.len()
        invariant
            i <= cs@.len(),
            cs@ == name@,
            1 <= encode_utf8(name@).len() <= 255,
            name@ != "."@,
            name@ != ".."@,
            forall|j: int| 0 <= j < i ==> name@[j] != '/' && name@[j] != '\0',
        decreases cs@.len() - i,
    {
        if cs[i] == '/' || cs[i] == '\0' {
            let mut msg = "illegal tree name ".to_string();
            msg.append(debug_text(name).as_str());
            proof {
                assert(name@.contains(name@[i as int]));
            }
            return Err(Error::Invalid(msg));
        }
        i += 1;
    }
    Ok(())
}

/// Whether every name is valid; the first refusal otherwise.
fn validate_names(entries: &Vec<TreeEntry>) -> (r: Result<(), Error>)
    ensures
        match r {
            Ok(_) => names_valid(entry_values(entries@)),
            Err(e) => !names_valid(entry_values(entries@)) && told(
                e,
                names_fault(entry_values(entries@)),
            ),
        },
{
    let mut i: usize = 0;
    while i < entries.len()
        invariant
            i <= entries@.len(),
            forall|j: int| 0 <= j < i ==> valid_name((#[trigger] entry_values(entries@)[j]).name),
        decreases entries@.len() - i,
    {
        let r = validate_name(entries[i].name.as_str());
        if let Err(e) = r {
            proof {
                assert(!valid_name(entry_values(entries@)[i as int].name));
                lemma_first_bad(entry_values(entries@), i as int);
            }
            return Err(e);
        }
        assert(entry_values(entries@)[i as int].name == entries@[i as int].name@);
        i += 1;
    }
    Ok(())
}

/// The entry at `i` comes after the one before it.
spec fn steps_up(es: Seq<Entry>, i: int) -> bool {
    text_before(es[i - 1].name, es[i].name)
}

/// Entries in which each comes after the one before it are strictly
/// increasing.
proof fn lemma_neighbours_increase(es: Seq<Entry>)
    requires
        forall|i: int| 0 < i < es.len() ==> #[trigger] steps_up(es, i),
    ensures
        names_increasing(es),
    decreases es.len(),
{
    if es.len() > 0 {
        let init = es.drop_last();
        assert forall|i: int| 0 < i < init.len() implies #[trigger] steps_up(init, i) by {
            assert(steps_up(es, i));
        }
        lemma_neighbours_increase(init);
        assert forall|i: int, j: int| 0 <= i < j < es.len() implies text_before(
            (#[trigger] es[i]).name,
            (#[trigger] es[j]).name,
        ) by {
            assert(init[i] == es[i]);
            if j < es.len() - 1 {
                assert(init[j] == es[j]);
            } else {
                assert(steps_up(es, j));
                if i < j - 1 {
                    assert(init[j - 1] == es[j - 1]);
                    lemma_lex_transitive(
                        encode_utf8(es[i].name),
                        encode_utf8(es[j - 1].name),
                        encode_utf8(es[j].name),
                    );
                }
            }
        }
    }
}

/// Increasing names are distinct.
pub proof fn lemma_increasing_distinct(es: Seq<Entry>)
    requires
        names_increasing(es),
    ensures
        names_distinct(es),
{
    assert forall|i: int, j: int| 0 <= i < j < es.len() implies (#[trigger] es[i]).name != (
    #[trigger] es[j]).name by {
        lemma_lex_irreflexive(encode_utf8(es[i].name));
    }
}

/// A permutation of entries has the same names as often.
proof fn lemma_permuted_names(s: Seq<TreeEntry>, r: Seq<TreeEntry>)
    requires
        s.to_multiset() == r.to_multiset(),
        names_distinct(entry_values(s)),
    ensures
        names_distinct(entry_values(r)),
{
    s.to_multiset_ensures();
    r.to_multiset_ensures();
    let sv = entry_values(s);
    let rv = entry_values(r);
    assert forall|i: int, j: int| 0 <= i < j < rv.len() implies (#[trigger] rv[i]).name != (
    #[trigger] rv[j]).name by {
        if rv[i].name == rv[j].name {
            lemma_repeat_in_permutation(s, r, i, j);
            let (p, q) = choose|p: int, q: int|
                0 <= p < s.len() && 0 <= q < s.len() && p != q && s[p] == r[i] && s[q] == r[j];
            assert(sv[p].name == sv[q].name);
        }
    }
}

/// Two places of a sequence have two places of their own in any permutation.
proof fn lemma_repeat_in_permutation<T>(s: Seq<T>, r: Seq<T>, i: int, j: int)
    requires
        s.to_multiset() == r.to_multiset(),
        0 <= i < r.len(),
        0 <= j < r.len(),
        i != j,
    ensures
        exists|p: int, q: int|
            0 <= p < s.len() && 0 <= q < s.len() && p != q && s[p] == r[i] && s[q] == r[j],
{
    s.to_multiset_ensures();
    r.to_multiset_ensures();
    assert(r.contains(r[i]));
    assert(r.to_multiset().count(r[i]) > 0);
    assert(s.contains(r[i]));
    let p = choose|p: int| 0 <= p < s.len() && s[p] == r[i];
    let s1 = s.remove(p);
    let r1 = r.remove(i);
    vstd::seq_lib::to_multiset_remove(s, p);
    vstd::seq_lib::to_multiset_remove(r, i);
    assert(s1.to_multiset() =~= r1.to_multiset());
    s1.to_multiset_ensures();
    r1.to_multiset_ensures();
    let j1 = if j < i {
        j
    } else {
        j - 1
    };
    assert(r1[j1] == r[j]);
    assert(r1.contains(r[j]));
    assert(r1.to_multiset().count(r[j]) > 0);
    assert(s1.contains(r[j]));
    let q1 = choose|q: int| 0 <= q < s1.len() && s1[q] == r[j];
    let q = if q1 < p {
        q1
    } else {
        q1 + 1
    };
    assert(s[q] == r[j]);
}

/// The last entry of a name.
pub open spec fn last_named(es: Seq<Entry>, name: Seq<char>) -> Option<Entry>
    decreases es.len(),
{
    if es.len() == 0 {
        None
    } else if es.last().name == name {
        Some(es.last())
    } else {
        last_named(es.drop_last(), name)
    }
}

impl Default for Tree {
    fn default() -> (r: Self)
        ensures
            r@ == Seq::<Entry>::empty(),
    {
        let r = Tree { entries: Vec::new() };
        assert(r@ =~= Seq::<Entry>::empty());
        r
    }
}

/// The entries of a tree with their names.
pub fn walk_tree_entries(tree: &Tree) -> (r: Result<Vec<(String, TreeEntry)>, Error>)
    ensures
        r matches Ok(v) && v@.len() == tree@.len() && forall|i: int|
            0 <= i < v@.len() ==> (#[trigger] v@[i]).0@ == tree@[i].name && v@[i].1@ == tree@[i],
{
    let mut out: Vec<(String, TreeEntry)> = Vec::new();
    let mut i: usize = 0;
    while i < tree.entries.len()
        invariant
            i <= tree.entries@.len(),
            out@.len() == i,
            forall|k: int|
                0 <= k < i ==> (#[trigger] out@[k]).0@ == tree@[k].name && out@[k].1@ == tree@[k],
        decreases tree.entries@.len() - i,
    {
        let e = &tree.entries[i];
        out.push((e.name.clone(), e.copy()));
        i += 1;
    }
    Ok(out)
}

/// The first place at which a name repeats the one before it.
fn first_repeat(list: &Vec<TreeEntry>) -> (r: Option<usize>)
    ensures
        match r {
            Some(i) => repeats_first(list@, i as int),
            None => forall|k: int| 0 < k < list@.len() ==> !#[trigger] repeats(list@, k),
        },
{
    let mut i: usize = 1;
    while i < list.len()
        invariant
            1 <= i,
            forall|k: int| 0 < k < i && k < list@.len() ==> !#[trigger] repeats(list@, k),
        decreases list@.len() - i,
    {
        if text_eq(list[i - 1].name.as_str(), list[i].name.as_str()) {
            return Some(i);
        }
        i += 1;
    }
    None
}

impl Tree {
    /// The tree of the given entries, whatever their order.
    pub fn new(entries: Vec<TreeEntry>) -> (r: Result<Self, Error>)
        ensures
            match r {
                Ok(t) => {
                    &&& canonical(t@)
                    &&& t.entries@.to_multiset() == entries@.to_multiset()
                    &&& names_valid(entry_values(entries@))
                    &&& names_distinct(entry_values(entries@))
                },
                Err(e) => if names_valid(entry_values(entries@)) {
                    !names_distinct(entry_values(entries@)) && exists|s: Seq<TreeEntry>, i: int|
                        is_stable_sort(entries@, s) && #[trigger] repeats_first(s, i) && told(
                            e,
                            Fault::Invalid("duplicate tree name "@ + s[i].name@),
                        )
                } else {
                    told(e, names_fault(entry_values(entries@)))
                },
            },
    {
        validate_names(&entries)?;
        let ghost given = entries@;
        let list = stable_sort(entries);
        proof {
            given.to_multiset_ensures();
            list@.to_multiset_ensures();
            assert forall|i: int| 0 <= i < list@.len() implies valid_name(
                (#[trigger] entry_values(list@)[i]).name,
            ) by {
                let e = list@[i];
                assert(list@.contains(e));
                assert(list@.to_multiset().count(e) > 0);
                assert(given.contains(e));
                let k = choose|k: int| 0 <= k < given.len() && given[k] == e;
                assert(entry_values(given)[k] == e@);
            }
        }
        if let Some(i) = first_repeat(&list) {
            let mut msg = "duplicate tree name ".to_string();
            msg.append(list[i].name.as_str());
            proof {
                let v = entry_values(list@);
                assert(v[i - 1].name == v[i as int].name);
                if names_distinct(entry_values(given)) {
                    lemma_permuted_names(given, list@);
                }
                assert(repeats_first(list@, i as int));
            }
            return Err(Error::Invalid(msg));
        }
        proof {
            let v = entry_values(list@);
            assert forall|k: int| 0 < k < v.len() implies #[trigger] steps_up(v, k) by {
                let (a, b) = (list@[k - 1], list@[k]);
                assert(!repeats(list@, k));
                assert(a.le(b));
                lemma_lex_total(encode_utf8(a.name@), encode_utf8(b.name@));
                if encode_utf8(a.name@) == encode_utf8(b.name@) {
                    lemma_utf8_injective(a.name@, b.name@);
                }
            }
            lemma_neighbours_increase(v);
            lemma_increasing_distinct(v);
            lemma_permuted_names(list@, given);
        }
        Ok(Tree { entries: list })
    }

    /// Put the entries in the order of their names.
    pub fn sort(&mut self)
        ensures
            is_stable_sort(old(self).entries@, final(self).entries@),
    {
        let mut entries: Vec<TreeEntry> = Vec::new();
        core::mem::swap(&mut self.entries, &mut entries);
        self.entries = stable_sort(entries);
    }

    /// The tree of entries that are already in order. Used on what was read
    /// back: unsorted or repeated names are damage.
    pub fn from_canonical(entries: Vec<TreeEntry>) -> (r: Result<Self, Error>)
        ensures
            match r {
                Ok(t) => t.entries == entries && canonical(t@),
                Err(e) => !canonical(entry_values(entries@)) && told(
                    e,
                    listing_fault(entry_values(entries@)),
                ),
            },
    {
        validate_names(&entries)?;
        let mut i: usize = 1;
        while i < entries.len()
            invariant
                1 <= i,
                names_valid(entry_values(entries@)),
                forall|k: int|
                    0 < k < i && k < entries@.len() ==> #[trigger] steps_up(
                        entry_values(entries@),
                        k,
                    ),
            decreases entries@.len() - i,
        {
            if !text_lt(entries[i - 1].name.as_str(), entries[i].name.as_str()) {
                proof {
                    let v = entry_values(entries@);
                    assert(!text_before(v[i - 1].name, v[i as int].name));
                }
                return Err(corrupt("tree entries are not strictly sorted unique"));
            }
            i += 1;
        }
        proof {
            lemma_neighbours_increase(entry_values(entries@));
        }
        Ok(Tree { entries })
    }

    /// The entries by their names; of two with one name the later.
    pub fn as_map(&self) -> (r: TextMap<TreeEntry>)
        ensures
            r.ordered(),
            forall|k: Seq<char>| #[trigger] r.has(k) <==> last_named(self@, k) is Some,
            forall|k: Seq<char>|
                r.has(k) ==> Some((#[trigger] r.at(k))@) == last_named(self@, k),
    {
        let mut m: TextMap<TreeEntry> = TextMap::new();
        let mut i: usize = 0;
        assert(self@.take(0) =~= Seq::<Entry>::empty());
        while i < self.entries.len()
            invariant
                i <= self.entries@.len(),
                self@.len() == self.entries@.len(),
                forall|k: Seq<char>| #[trigger]
                    m.has(k) <==> last_named(self@.take(i as int), k) is Some,
                forall|k: Seq<char>|
                    m.has(k) ==> Some((#[trigger] m.at(k))@) == last_named(
                        self@.take(i as int),
                        k,
                    ),
            decreases self.entries@.len() - i,
        {
            let e = self.entries[i].copy();
            let ghost before = m;
            let ghost v = e;
            m.insert(self.entries[i].name.clone(), e);
            proof {
                let now = self@.take(i + 1);
                assert(now.drop_last() =~= self@.take(i as int));
                assert(now.last() == v@);
                assert forall|k: Seq<char>| #[trigger] m.has(k) <==> last_named(now, k) is Some by {
                    assert(m.has(k) <==> before.has(k) || k == v@.name);
                }
                assert forall|k: Seq<char>| m.has(k) implies Some((#[trigger] m.at(k))@)
                    == last_named(now, k) by {
                    if k != v@.name {
                        assert(before.has(k));
                        assert(m.at(k) == before.at(k));
                    }
                }
            }
            i += 1;
        }
        assert(self@.take(i as int) =~= self@);
        let n = m.len();
        m
    }

    /// The entry of the given name. A tree whose entries are out of order may
    /// miss it.
    pub fn get(&self, name: &str) -> (r: Option<&TreeEntry>)
        ensures
            match r {
                Some(e) => self.entries@.contains(*e) && e.name@ == name@,
                None => names_increasing(self@) ==> forall|i: int|
                    0 <= i < self@.len() ==> (#[trigger] self@[i]).name != name@,
            },
    {
        let mut lo: usize = 0;
        let mut hi: usize = self.entries.len();
        while lo < hi
            invariant
                lo <= hi <= self.entries@.len(),
                names_increasing(self@) ==> forall|i: int|
                    0 <= i < lo ==> text_before((#[trigger] self@[i]).name, name@),
                names_increasing(self@) ==> forall|i: int|
                    hi <= i < self@.len() ==> text_before(name@, (#[trigger] self@[i]).name),
            decreases hi - lo,
        {
            let mid: usize = lo + (hi - lo) / 2;
            let e = &self.entries[mid];
            assert(self@[mid as int].name == e.name@);
            if text_lt(e.name.as_str(), name) {
                proof {
                    assert forall|i: int| names_increasing(self@) && 0 <= i < mid + 1 implies text_before(
                        (#[trigger] self@[i]).name,
                        name@,
                    ) by {
                        if i < mid {
                            lemma_lex_transitive(
                                encode_utf8(self@[i].name),
                                encode_utf8(e.name@),
                                encode_utf8(name@),
                            );
                        }
                    }
                }
                lo = mid + 1;
            } else if text_lt(name, e.name.as_str()) {
                proof {
                    assert forall|i: int| names_increasing(self@) && mid <= i < self@.len() implies text_before(
                        name@,
                        (#[trigger] self@[i]).name,
                    ) by {
                        if mid < i {
                            lemma_lex_transitive(
                                encode_utf8(name@),
                                encode_utf8(e.name@),
                                encode_utf8(self@[i].name),
                            );
                        }
                    }
                }
                hi = mid;
            } else {
                proof {
                    lemma_lex_total(encode_utf8(e.name@), encode_utf8(name@));
                    lemma_utf8_injective(e.name@, name@);
                }
                return Some(e);
            }
        }
        proof {
            assert forall|i: int| names_increasing(self@) && 0 <= i < self@.len() implies (
            #[trigger] self@[i]).name != name@ by {
                lemma_lex_irreflexive(encode_utf8(name@));
            }
        }
        None
    }

    pub fn is_empty(&self) -> (r: bool)
        ensures
            r == (self@.len() == 0),
    {
        self.entries.len() == 0
    }
}

} // verus!
