//! What an audit of the catalog promises: the objects that it lists, and what holds of a
//! catalog in which it finds nothing.
use crate::audit::{
    all_findings, all_ref_findings, all_roots, all_seal_findings, all_session_findings,
    all_shape_findings, bare_tag, chain_finder, chain_findings, end_finder, end_findings, flat,
    has_ns, integrity_finder, intro_finder, intro_rooter, intro_roots, known_mounts, known_ns,
    landmark_finder, landmark_findings, landmark_kind, landmark_rooter, landmark_roots, log_end,
    log_oid_finder, log_oids_ok, log_row_ok, mount_facts, mount_finder, ns_facts, ref_keeper,
    seal_fact, seal_keeper, ns_finder, ns_findings, ns_rooter, ns_roots, observation_finder,
    observation_rooter, observation_roots, observed_type, oid_in, orphan_finder, orphan_findings,
    overlay_finder, overlay_rooter, overlay_roots, provided, ref_at, ref_fact, ref_finder,
    ref_findings, ref_oids_ok, ref_rooter, ref_roots, refs_ok, root_values, says_ok, seal_finder,
    seal_findings, seal_landmark_finder, seal_landmark_findings, seal_rooter, seal_roots,
    sealed_roots, session_roots, settled, shape_clean, shape_findings, sorted_from, tag_finder,
    CatalogScan, CatalogShapes, ColumnsRead, Finding, Root, TableShape, ValuesRead,
};
use crate::names::{object_kind, ref_kind, ref_kind_ok};
use crate::order::{is_stable_sort, Sortable};
use crate::rows::{
    CatalogAudit, CatalogMountRow, CatalogNamespaceRow, CatalogObjectExpectation, CatalogObjectRoot,
    SealRow,
};
use crate::schema::Table;
use crate::tables::{
    bytes_in, lines, text_in, IntroRecord, LandmarkRecord, LogRecord, MountRecord, NsRecord,
    ObservationRecord, RefRecord, SealRecord,
};
use crate::text::text_values;
use crate::types::{lemma_id_of, object_id, ObjectType, RefRow};
use vstd::prelude::*;

verus! {

/// A table has the columns that it should have, and no row breaks their constraints.
pub open spec fn tidy(table: Table, shape: TableShape) -> bool {
    &&& shape.columns matches ColumnsRead::Columns(found) && text_values(found@) == table.columns()
    &&& shape.values matches ValuesRead::BadRows(rows) && rows@.len() == 0
}

/// An object is among the roots, where it has to be of a type that is expected.
pub open spec fn rooted(
    roots: Seq<Root>,
    oid: Seq<u8>,
    expected: CatalogObjectExpectation,
) -> bool {
    exists|k: int|
        0 <= k < roots.len() && (#[trigger] roots[k]).oid@ == oid && roots[k].expected == expected
}

/// An object is among the roots.
pub open spec fn kept(roots: Seq<Root>, oid: Seq<u8>) -> bool {
    exists|k: int| 0 <= k < roots.len() && (#[trigger] roots[k]).oid@ == oid
}

/// The object id in an optional column.
pub open spec fn id_bytes(v: Option<Vec<u8>>) -> Option<Seq<u8>> {
    match v {
        Some(b) => if b@.len() == 32 {
            Some(b@)
        } else {
            None
        },
        None => None,
    }
}

/// Every object that the refs, the sessions, their observations and their staged edits, the
/// seals, the landmarks and the introductions of tidy tables name is a root, of the type that
/// it is named as.
#[verifier::opaque]
pub open spec fn roots_listed(scan: CatalogScan, roots: Seq<Root>) -> bool {
    let t = scan.tables;
    let s = scan.shapes;
    &&& tidy(Table::Refs, s.refs) ==> forall|i: int|
        0 <= i < t.refs@.len() && (#[trigger] t.refs@[i]).oid@.len() == 32 ==> ref_rooted(
            roots,
            t.refs@[i],
        )
    &&& tidy(Table::Namespaces, s.namespaces) ==> forall|i: int|
        0 <= i < t.namespaces@.len() ==> (id_bytes((#[trigger] t.namespaces@[i]).pinned_oid) matches
            Some(b) ==> rooted(roots, b, CatalogObjectExpectation::Exact(ObjectType::Commit)))
    &&& tidy(Table::Observations, s.observations) ==> forall|i: int|
        0 <= i < t.observations@.len() ==> observation_rooted(
            roots,
            #[trigger] t.observations@[i],
        )
    &&& tidy(Table::Overlay, s.overlay) ==> forall|i: int|
        0 <= i < t.overlay@.len() ==> (id_bytes((#[trigger] t.overlay@[i]).blob_oid) matches
            Some(b) ==> rooted(roots, b, CatalogObjectExpectation::Exact(ObjectType::Blob)))
    &&& tidy(Table::Seals, s.seals) ==> forall|i: int|
        0 <= i < t.seals@.len() ==> seal_rooted(roots, #[trigger] t.seals@[i])
    &&& tidy(Table::Landmarks, s.landmarks) ==> forall|i: int|
        0 <= i < t.landmarks@.len() && (#[trigger] t.landmarks@[i]).oid@.len() == 32
            ==> landmark_rooted(roots, t.landmarks@[i])
    &&& tidy(Table::ObjectIntro, s.object_intro) ==> forall|i: int|
        0 <= i < t.object_intro@.len() ==> intro_rooted(roots, #[trigger] t.object_intro@[i])
}

/// The target of a ref is a root of the kind of the ref.
pub open spec fn ref_rooted(roots: Seq<Root>, r: RefRecord) -> bool {
    &&& kept(roots, r.oid@)
    &&& forall|ty: ObjectType|
        r.kind@ == #[trigger] ty.name() && (ty == ObjectType::Tree || ty == ObjectType::Commit || ty
            == ObjectType::Conflict || ty == ObjectType::Snapshot) ==> rooted(
            roots,
            r.oid@,
            CatalogObjectExpectation::Exact(ty),
        )
}

/// What a session saw is a root.
pub open spec fn observation_rooted(roots: Seq<Root>, r: ObservationRecord) -> bool {
    forall|ty: ObjectType|
        r.kind@ == #[trigger] ty.name() && (ty == ObjectType::Tree || ty == ObjectType::Blob) ==> (
        id_bytes(r.oid) matches Some(b) ==> rooted(roots, b, CatalogObjectExpectation::Exact(ty)))
}

/// The snapshot, the commit and the tree of a seal that could be decoded are roots.
pub open spec fn seal_rooted(roots: Seq<Root>, r: SealRecord) -> bool {
    r.snap_oid@.len() == 32 && r.commit_oid@.len() == 32 && r.tree_oid@.len() == 32 ==> {
        &&& rooted(roots, r.snap_oid@, CatalogObjectExpectation::Exact(ObjectType::Snapshot))
        &&& rooted(roots, r.commit_oid@, CatalogObjectExpectation::Exact(ObjectType::Commit))
        &&& rooted(roots, r.tree_oid@, CatalogObjectExpectation::Exact(ObjectType::Tree))
    }
}

/// A landmark is a root of its kind.
pub open spec fn landmark_rooted(roots: Seq<Root>, r: LandmarkRecord) -> bool {
    &&& kept(roots, r.oid@)
    &&& forall|ty: ObjectType|
        r.kind@ == #[trigger] ty.name() ==> rooted(
            roots,
            r.oid@,
            CatalogObjectExpectation::Exact(ty),
        )
}

/// What was introduced, and the commit that did, are roots.
pub open spec fn intro_rooted(roots: Seq<Root>, r: IntroRecord) -> bool {
    &&& r.oid@.len() == 32 ==> rooted(roots, r.oid@, CatalogObjectExpectation::TreeEntry)
    &&& r.commit_oid@.len() == 32 ==> rooted(
        roots,
        r.commit_oid@,
        CatalogObjectExpectation::Exact(ObjectType::Commit),
    )
}

/// Some row of the catalog names the object.
#[verifier::opaque]
pub open spec fn named_in(scan: CatalogScan, oid: Seq<u8>) -> bool {
    let t = scan.tables;
    ||| exists|i: int| 0 <= i < t.refs@.len() && (#[trigger] t.refs@[i]).oid@ == oid
    ||| exists|i: int|
        0 <= i < t.namespaces@.len() && bytes_in((#[trigger] t.namespaces@[i]).pinned_oid) == Some(
            oid,
        )
    ||| exists|i: int|
        0 <= i < t.observations@.len() && bytes_in((#[trigger] t.observations@[i]).oid) == Some(oid)
    ||| exists|i: int|
        0 <= i < t.overlay@.len() && bytes_in((#[trigger] t.overlay@[i]).blob_oid) == Some(oid)
    ||| exists|i: int|
        0 <= i < t.seals@.len() && ((#[trigger] t.seals@[i]).snap_oid@ == oid
            || t.seals@[i].commit_oid@ == oid || t.seals@[i].tree_oid@ == oid)
    ||| exists|i: int| 0 <= i < t.landmarks@.len() && (#[trigger] t.landmarks@[i]).oid@ == oid
    ||| exists|i: int|
        0 <= i < t.object_intro@.len() && ((#[trigger] t.object_intro@[i]).oid@ == oid
            || t.object_intro@[i].commit_oid@ == oid)
}

proof fn lemma_flat_has<T>(n: nat, f: spec_fn(int) -> Seq<T>, i: int, x: T)
    requires
        0 <= i < n,
        f(i).contains(x),
    ensures
        flat(n, f).contains(x),
    decreases n,
{
    let before = flat((n - 1) as nat, f);
    let last = f(n - 1);
    if i == n - 1 {
        let k = choose|k: int| 0 <= k < last.len() && last[k] == x;
        assert((before + last)[before.len() + k] == x);
    } else {
        lemma_flat_has((n - 1) as nat, f, i, x);
        let k = choose|k: int| 0 <= k < before.len() && before[k] == x;
        assert((before + last)[k] == x);
    }
}

proof fn lemma_flat_from<T>(n: nat, f: spec_fn(int) -> Seq<T>, x: T) -> (i: int)
    requires
        flat(n, f).contains(x),
    ensures
        0 <= i < n,
        f(i).contains(x),
    decreases n,
{
    if n == 0 {
        0
    } else {
        let before = flat((n - 1) as nat, f);
        let last = f(n - 1);
        let k = choose|k: int| 0 <= k < (before + last).len() && (before + last)[k] == x;
        if k < before.len() {
            assert(before[k] == x);
            lemma_flat_from((n - 1) as nat, f, x)
        } else {
            assert(last[k - before.len()] == x);
            n - 1
        }
    }
}

proof fn lemma_flat_none<T>(n: nat, f: spec_fn(int) -> Seq<T>)
    ensures
        flat(n, f).len() == 0 <==> forall|i: int| 0 <= i < n ==> (#[trigger] f(i)).len() == 0,
    decreases n,
{
    if n > 0 {
        lemma_flat_none((n - 1) as nat, f);
        if flat(n, f).len() == 0 {
            assert forall|i: int| 0 <= i < n implies (#[trigger] f(i)).len() == 0 by {
                if i < n - 1 {
                    assert(flat((n - 1) as nat, f).len() == 0);
                }
            }
        }
    }
}

proof fn lemma_has_join<T>(a: Seq<T>, b: Seq<T>, x: T)
    ensures
        (a + b).contains(x) <==> a.contains(x) || b.contains(x),
{
    let c = a + b;
    if a.contains(x) {
        let k = choose|k: int| 0 <= k < a.len() && a[k] == x;
        assert(c[k] == x);
    }
    if b.contains(x) {
        let k = choose|k: int| 0 <= k < b.len() && b[k] == x;
        assert(c[a.len() + k] == x);
    }
    if c.contains(x) {
        let k = choose|k: int| 0 <= k < c.len() && c[k] == x;
        if k < a.len() {
            assert(a[k] == x);
        } else {
            assert(b[k - a.len()] == x);
        }
    }
}

/// Rows that were sorted have the values that they were sorted from.
proof fn lemma_sorted_has<T: Sortable + View>(values: Seq<T::V>, r: Seq<T>, x: T::V)
    requires
        sorted_from(values, r),
    ensures
        lines(r).contains(x) <==> values.contains(x),
{
    let given = choose|given: Seq<T>| lines(given) == values && #[trigger] is_stable_sort(given, r);
    given.to_multiset_ensures();
    r.to_multiset_ensures();
    if lines(r).contains(x) {
        let k = choose|k: int| 0 <= k < lines(r).len() && lines(r)[k] == x;
        assert(r.contains(r[k]));
        assert(given.to_multiset().count(r[k]) > 0);
        let j = choose|j: int| 0 <= j < given.len() && given[j] == r[k];
        assert(lines(given)[j] == x);
    }
    if values.contains(x) {
        let k = choose|k: int| 0 <= k < values.len() && values[k] == x;
        assert(given.contains(given[k]));
        assert(r.to_multiset().count(given[k]) > 0);
        let j = choose|j: int| 0 <= j < r.len() && r[j] == given[k];
        assert(lines(r)[j] == x);
    }
}

proof fn lemma_tidy(table: Table, shape: TableShape)
    ensures
        tidy(table, shape) <==> shape_clean(table, shape),
        shape_findings(table, shape).len() == 0 <==> tidy(table, shape),
{
    reveal(shape_clean);
    reveal(shape_findings);
}

proof fn lemma_rooted(roots: Seq<Root>, x: Root)
    requires
        roots.contains(x),
    ensures
        rooted(roots, x.oid@, x.expected),
        kept(roots, x.oid@),
{
    let k = choose|k: int| 0 <= k < roots.len() && roots[k] == x;
    assert(roots[k].oid@ == x.oid@);
}

spec fn ref_part(scan: CatalogScan) -> Seq<Root> {
    provided(
        shape_clean(Table::Refs, scan.shapes.refs),
        flat(scan.tables.refs@.len(), ref_rooter(scan.tables.refs@)),
    )
}

spec fn ns_part(scan: CatalogScan) -> Seq<Root> {
    provided(
        shape_clean(Table::Namespaces, scan.shapes.namespaces),
        flat(scan.tables.namespaces@.len(), ns_rooter(scan.tables.namespaces@)),
    )
}

spec fn observation_part(scan: CatalogScan) -> Seq<Root> {
    provided(
        shape_clean(Table::Observations, scan.shapes.observations),
        flat(scan.tables.observations@.len(), observation_rooter(scan.tables.observations@)),
    )
}

spec fn overlay_part(scan: CatalogScan) -> Seq<Root> {
    provided(
        shape_clean(Table::Overlay, scan.shapes.overlay),
        flat(scan.tables.overlay@.len(), overlay_rooter(scan.tables.overlay@)),
    )
}

spec fn seal_part(scan: CatalogScan) -> Seq<Root> {
    provided(
        shape_clean(Table::Seals, scan.shapes.seals),
        flat(scan.tables.seals@.len(), seal_rooter(scan.tables.seals@)),
    )
}

spec fn landmark_part(scan: CatalogScan) -> Seq<Root> {
    provided(
        shape_clean(Table::Landmarks, scan.shapes.landmarks),
        flat(scan.tables.landmarks@.len(), landmark_rooter(scan.tables.landmarks@)),
    )
}

spec fn intro_part(scan: CatalogScan) -> Seq<Root> {
    provided(
        shape_clean(Table::ObjectIntro, scan.shapes.object_intro),
        flat(scan.tables.object_intro@.len(), intro_rooter(scan.tables.object_intro@)),
    )
}

proof fn lemma_parts(scan: CatalogScan, x: Root)
    ensures
        all_roots(scan).contains(x) <==> {
            ||| ref_part(scan).contains(x)
            ||| ns_part(scan).contains(x)
            ||| observation_part(scan).contains(x)
            ||| overlay_part(scan).contains(x)
            ||| seal_part(scan).contains(x)
            ||| landmark_part(scan).contains(x)
            ||| intro_part(scan).contains(x)
        },
{
    let s = session_roots(scan);
    let z = sealed_roots(scan);
    lemma_has_join(ref_part(scan), s, x);
    lemma_has_join(ref_part(scan) + s, z, x);
    lemma_has_join(ns_part(scan), observation_part(scan), x);
    lemma_has_join(ns_part(scan) + observation_part(scan), overlay_part(scan), x);
    lemma_has_join(seal_part(scan), landmark_part(scan), x);
    lemma_has_join(seal_part(scan) + landmark_part(scan), intro_part(scan), x);
}

/// An audit lists every object that the rows of tidy tables name, and no other.
pub proof fn lemma_roots_listed(scan: CatalogScan, r: Seq<CatalogObjectRoot>)
    requires
        sorted_from(all_roots(scan), r),
    ensures
        roots_listed(scan, root_values(r)),
        forall|k: int|
            0 <= k < r.len() ==> named_in(scan, (#[trigger] r[k]).oid@),
{
    let roots = root_values(r);
    let t = scan.tables;
    assert(roots =~= lines(r));
    assert forall|x: Root| #[trigger] roots.contains(x) <==> all_roots(scan).contains(x) by {
        lemma_sorted_has(all_roots(scan), r, x);
    }
    assert forall|x: Root| ref_part(scan).contains(x) || ns_part(scan).contains(x)
        || observation_part(scan).contains(x) || overlay_part(scan).contains(x) || seal_part(
        scan,
    ).contains(x) || landmark_part(scan).contains(x) || intro_part(scan).contains(
        x,
    ) implies #[trigger] roots.contains(x) by {
        lemma_parts(scan, x);
    }
    lemma_all_rooted(scan, roots);
    assert forall|k: int| 0 <= k < r.len() implies named_in(scan, (#[trigger] r[k]).oid@) by {
        assert(roots[k] == r[k]@);
        assert(roots.contains(roots[k]));
        lemma_parts(scan, roots[k]);
        lemma_root_named(scan, roots[k]);
    }
}

proof fn lemma_root_named(scan: CatalogScan, x: Root)
    requires
        ref_part(scan).contains(x) || ns_part(scan).contains(x) || observation_part(scan).contains(
            x,
        ) || overlay_part(scan).contains(x) || seal_part(scan).contains(x) || landmark_part(
            scan,
        ).contains(x) || intro_part(scan).contains(x),
    ensures
        named_in(scan, x.oid@),
{
    reveal(named_in);
    let t = scan.tables;
    if ref_part(scan).contains(x) {
        let i = lemma_flat_from(t.refs@.len(), ref_rooter(t.refs@), x);
        lemma_id_of(t.refs@[i].oid@);
    } else if ns_part(scan).contains(x) {
        let i = lemma_flat_from(t.namespaces@.len(), ns_rooter(t.namespaces@), x);
        lemma_id_of(t.namespaces@[i].pinned_oid->0@);
    } else if observation_part(scan).contains(x) {
        let i = lemma_flat_from(t.observations@.len(), observation_rooter(t.observations@), x);
        lemma_id_of(t.observations@[i].oid->0@);
    } else if overlay_part(scan).contains(x) {
        let i = lemma_flat_from(t.overlay@.len(), overlay_rooter(t.overlay@), x);
        lemma_id_of(t.overlay@[i].blob_oid->0@);
    } else if seal_part(scan).contains(x) {
        let i = lemma_flat_from(t.seals@.len(), seal_rooter(t.seals@), x);
        lemma_id_of(t.seals@[i].snap_oid@);
        lemma_id_of(t.seals@[i].commit_oid@);
        lemma_id_of(t.seals@[i].tree_oid@);
    } else if landmark_part(scan).contains(x) {
        let i = lemma_flat_from(t.landmarks@.len(), landmark_rooter(t.landmarks@), x);
        lemma_id_of(t.landmarks@[i].oid@);
    } else {
        let i = lemma_flat_from(t.object_intro@.len(), intro_rooter(t.object_intro@), x);
        let w = t.object_intro@[i];
        if w.oid@.len() == 32 {
            lemma_id_of(w.oid@);
        }
        if w.commit_oid@.len() == 32 {
            lemma_id_of(w.commit_oid@);
        }
    }
}

proof fn lemma_all_rooted(scan: CatalogScan, roots: Seq<Root>)
    requires
        forall|x: Root|
            ref_part(scan).contains(x) || ns_part(scan).contains(x) || observation_part(
                scan,
            ).contains(x) || overlay_part(scan).contains(x) || seal_part(scan).contains(x)
                || landmark_part(scan).contains(x) || intro_part(scan).contains(x)
                ==> #[trigger] roots.contains(x),
    ensures
        roots_listed(scan, roots),
{
    reveal(roots_listed);
    let t = scan.tables;
    let s = scan.shapes;
    lemma_tidy(Table::Refs, s.refs);
    lemma_tidy(Table::Namespaces, s.namespaces);
    lemma_tidy(Table::Observations, s.observations);
    lemma_tidy(Table::Overlay, s.overlay);
    lemma_tidy(Table::Seals, s.seals);
    lemma_tidy(Table::Landmarks, s.landmarks);
    lemma_tidy(Table::ObjectIntro, s.object_intro);
    if tidy(Table::Refs, s.refs) {
        assert forall|i: int|
            0 <= i < t.refs@.len() && (#[trigger] t.refs@[i]).oid@.len() == 32 implies ref_rooted(
            roots,
            t.refs@[i],
        ) by {
            let x = ref_roots(t.refs@[i])[0];
            lemma_id_of(t.refs@[i].oid@);
            assert(ref_rooter(t.refs@)(i) == seq![x]);
            assert(seq![x][0] == x);
            lemma_flat_has(t.refs@.len(), ref_rooter(t.refs@), i, x);
            assert(ref_part(scan).contains(x));
            lemma_rooted(roots, x);
            lemma_kinds();
        }
    }
    if tidy(Table::Namespaces, s.namespaces) {
        assert forall|i: int| 0 <= i < t.namespaces@.len() implies (id_bytes(
            (#[trigger] t.namespaces@[i]).pinned_oid,
        ) matches Some(b) ==> rooted(
            roots,
            b,
            CatalogObjectExpectation::Exact(ObjectType::Commit),
        )) by {
            if let Some(b) = id_bytes(t.namespaces@[i].pinned_oid) {
                let x = ns_roots(t.namespaces@[i])[0];
                lemma_id_of(b);
                assert(ns_rooter(t.namespaces@)(i) == seq![x]);
                assert(seq![x][0] == x);
                lemma_flat_has(t.namespaces@.len(), ns_rooter(t.namespaces@), i, x);
                assert(ns_part(scan).contains(x));
                lemma_rooted(roots, x);
            }
        }
    }
    if tidy(Table::Observations, s.observations) {
        assert forall|i: int| 0 <= i < t.observations@.len() implies observation_rooted(
            roots,
            #[trigger] t.observations@[i],
        ) by {
            let r = t.observations@[i];
            lemma_kinds();
            assert forall|ty: ObjectType|
                r.kind@ == #[trigger] ty.name() && (ty == ObjectType::Tree || ty
                    == ObjectType::Blob) implies (id_bytes(r.oid) matches Some(b) ==> rooted(
                roots,
                b,
                CatalogObjectExpectation::Exact(ty),
            )) by {
                if let Some(b) = id_bytes(r.oid) {
                    let x = observation_roots(r)[0];
                    lemma_id_of(b);
                    assert(observation_rooter(t.observations@)(i) == seq![x]);
                    assert(seq![x][0] == x);
                    lemma_flat_has(
                        t.observations@.len(),
                        observation_rooter(t.observations@),
                        i,
                        x,
                    );
                    assert(observation_part(scan).contains(x));
                    lemma_rooted(roots, x);
                }
            }
        }
    }
    if tidy(Table::Overlay, s.overlay) {
        assert forall|i: int| 0 <= i < t.overlay@.len() implies (id_bytes(
            (#[trigger] t.overlay@[i]).blob_oid,
        ) matches Some(b) ==> rooted(
            roots,
            b,
            CatalogObjectExpectation::Exact(ObjectType::Blob),
        )) by {
            if let Some(b) = id_bytes(t.overlay@[i].blob_oid) {
                let x = overlay_roots(t.overlay@[i])[0];
                lemma_id_of(b);
                assert(overlay_rooter(t.overlay@)(i) == seq![x]);
                assert(seq![x][0] == x);
                lemma_flat_has(t.overlay@.len(), overlay_rooter(t.overlay@), i, x);
                assert(overlay_part(scan).contains(x));
                lemma_rooted(roots, x);
            }
        }
    }
    lemma_sealed_rooted(scan, roots);
}

proof fn lemma_sealed_rooted(scan: CatalogScan, roots: Seq<Root>)
    requires
        forall|x: Root|
            seal_part(scan).contains(x) || landmark_part(scan).contains(x) || intro_part(
                scan,
            ).contains(x) ==> #[trigger] roots.contains(x),
    ensures
        ({
            let t = scan.tables;
            let s = scan.shapes;
            &&& tidy(Table::Seals, s.seals) ==> forall|i: int|
                0 <= i < t.seals@.len() ==> seal_rooted(roots, #[trigger] t.seals@[i])
            &&& tidy(Table::Landmarks, s.landmarks) ==> forall|i: int|
                0 <= i < t.landmarks@.len() && (#[trigger] t.landmarks@[i]).oid@.len() == 32
                    ==> landmark_rooted(roots, t.landmarks@[i])
            &&& tidy(Table::ObjectIntro, s.object_intro) ==> forall|i: int|
                0 <= i < t.object_intro@.len() ==> intro_rooted(
                    roots,
                    #[trigger] t.object_intro@[i],
                )
        }),
{
    let t = scan.tables;
    let s = scan.shapes;
    lemma_tidy(Table::Seals, s.seals);
    lemma_tidy(Table::Landmarks, s.landmarks);
    lemma_tidy(Table::ObjectIntro, s.object_intro);
    if tidy(Table::Seals, s.seals) {
        assert forall|i: int| 0 <= i < t.seals@.len() implies seal_rooted(
            roots,
            #[trigger] t.seals@[i],
        ) by {
            let r = t.seals@[i];
            if r.snap_oid@.len() == 32 && r.commit_oid@.len() == 32 && r.tree_oid@.len() == 32 {
                let xs = seal_roots(r);
                lemma_id_of(r.snap_oid@);
                lemma_id_of(r.commit_oid@);
                lemma_id_of(r.tree_oid@);
                assert(seal_rooter(t.seals@)(i) == xs);
                assert(xs.contains(xs[0]) && xs.contains(xs[1]) && xs.contains(xs[2]));
                lemma_flat_has(t.seals@.len(), seal_rooter(t.seals@), i, xs[0]);
                lemma_flat_has(t.seals@.len(), seal_rooter(t.seals@), i, xs[1]);
                lemma_flat_has(t.seals@.len(), seal_rooter(t.seals@), i, xs[2]);
                assert(seal_part(scan).contains(xs[0]));
                assert(seal_part(scan).contains(xs[1]));
                assert(seal_part(scan).contains(xs[2]));
                lemma_rooted(roots, xs[0]);
                lemma_rooted(roots, xs[1]);
                lemma_rooted(roots, xs[2]);
            }
        }
    }
    if tidy(Table::Landmarks, s.landmarks) {
        assert forall|i: int|
            0 <= i < t.landmarks@.len() && (#[trigger] t.landmarks@[i]).oid@.len()
                == 32 implies landmark_rooted(roots, t.landmarks@[i]) by {
            let x = landmark_roots(t.landmarks@[i])[0];
            lemma_id_of(t.landmarks@[i].oid@);
            assert(landmark_rooter(t.landmarks@)(i) == seq![x]);
            assert(seq![x][0] == x);
            lemma_flat_has(t.landmarks@.len(), landmark_rooter(t.landmarks@), i, x);
            assert(landmark_part(scan).contains(x));
            lemma_rooted(roots, x);
            lemma_kinds();
        }
    }
    if tidy(Table::ObjectIntro, s.object_intro) {
        assert forall|i: int| 0 <= i < t.object_intro@.len() implies intro_rooted(
            roots,
            #[trigger] t.object_intro@[i],
        ) by {
            let r = t.object_intro@[i];
            let xs = intro_roots(r);
            assert(intro_rooter(t.object_intro@)(i) == xs);
            if r.oid@.len() == 32 {
                lemma_id_of(r.oid@);
                assert(xs.contains(xs[0]));
                lemma_flat_has(t.object_intro@.len(), intro_rooter(t.object_intro@), i, xs[0]);
                assert(intro_part(scan).contains(xs[0]));
                lemma_rooted(roots, xs[0]);
            }
            if r.commit_oid@.len() == 32 {
                lemma_id_of(r.commit_oid@);
                let k = xs.len() - 1;
                assert(xs.contains(xs[k]));
                lemma_flat_has(t.object_intro@.len(), intro_rooter(t.object_intro@), i, xs[k]);
                assert(intro_part(scan).contains(xs[k]));
                lemma_rooted(roots, xs[k]);
            }
        }
    }
}

/// The name of a type names that type.
pub proof fn lemma_kinds()
    ensures
        forall|ty: ObjectType| object_kind(#[trigger] ty.name()) == Some(ty),
        forall|ty: ObjectType|
            (ty == ObjectType::Tree || ty == ObjectType::Commit || ty == ObjectType::Conflict || ty
                == ObjectType::Snapshot) ==> ref_kind(#[trigger] ty.name()) == Some(ty),
        forall|ty: ObjectType|
            (ty == ObjectType::Blob || ty == ObjectType::Tree) ==> observed_type(
                #[trigger] ty.name(),
            ) == Some(ty),
{
    reveal_strlit("blob");
    reveal_strlit("tree");
    reveal_strlit("commit");
    reveal_strlit("conflict");
    reveal_strlit("snapshot");
    reveal_strlit("contribution");
    assert("blob"@.len() == 4 && "tree"@.len() == 4 && "commit"@.len() == 6 && "conflict"@.len()
        == 8 && "snapshot"@.len() == 8 && "contribution"@.len() == 12);
    assert("blob"@[0] != "tree"@[0]);
    assert("conflict"@[0] != "snapshot"@[0]);
}

/// The row of a ref that counts: the last of its name.
pub open spec fn current_ref(refs: Seq<RefRecord>, name: Seq<char>, i: int) -> bool {
    &&& 0 <= i < refs.len()
    &&& refs[i].name@ == name
    &&& forall|j: int| i < j < refs.len() ==> (#[trigger] refs[j]).name@ != name
}

/// The last move of a ref among the first moves of the log.
pub open spec fn last_move(log: Seq<LogRecord>, before: int, name: Seq<char>, i: int) -> bool {
    &&& 0 <= i < before <= log.len()
    &&& log[i].name@ == name
    &&& forall|j: int| i < j < before ==> (#[trigger] log[j]).name@ != name
}

/// The row of a landmark that counts: the last of its object.
pub open spec fn marked(rows: Seq<LandmarkRecord>, oid: Seq<u8>, kind: Seq<char>) -> bool {
    exists|i: int|
        0 <= i < rows.len() && (#[trigger] rows[i]).oid@ == oid && rows[i].kind@ == kind && (
        forall|j: int| i < j < rows.len() ==> (#[trigger] rows[j]).oid@ != oid)
}

/// A column that is absent or holds an object id.
pub open spec fn none_or_id(v: Option<Vec<u8>>) -> bool {
    v matches Some(b) ==> b@.len() == 32
}

/// A ref of a good catalog: its name allows its kind, which is one that a ref can be of, and a tag
/// is a protected and sealed snapshot.
pub open spec fn good_ref(r: RefRecord) -> bool {
    &&& r.oid@.len() == 32
    &&& ref_kind_ok(r.name@, r.kind@)
    &&& r.kind@ == "tree"@ || r.kind@ == "commit"@ || r.kind@ == "conflict"@ || r.kind@
        == "snapshot"@
    &&& "tags/"@.is_prefix_of(r.name@) ==> r.protected != 0 && r.sealed != 0 && r.kind@
        == "snapshot"@
}

/// A move of a ref starts where the move before it ended. The first may start somewhere only
/// where it makes a fork.
pub open spec fn good_move(log: Seq<LogRecord>, i: int) -> bool {
    let r = log[i];
    if exists|j: int| last_move(log, i, r.name@, j) {
        forall|j: int| #[trigger]
            last_move(log, i, r.name@, j) ==> bytes_in(r.old_oid) == Some(log[j].new_oid@)
    } else {
        r.old_oid is None || r.reason@ == "fork"@
    }
}

/// The last move of a ref ended where the ref is.
pub open spec fn good_end(refs: Seq<RefRecord>, log: Seq<LogRecord>, i: int) -> bool {
    current_ref(refs, refs[i].name@, i) ==> exists|j: int| #[trigger]
        last_move(log, log.len() as int, refs[i].name@, j) && log[j].new_oid@ == refs[i].oid@
}

/// What moved is a ref, or was abandoned at last.
pub open spec fn good_name(refs: Seq<RefRecord>, log: Seq<LogRecord>, name: Seq<char>) -> bool {
    ||| exists|j: int| 0 <= j < refs.len() && (#[trigger] refs[j]).name@ == name
    ||| exists|j: int| #[trigger]
        last_move(log, log.len() as int, name, j) && log[j].reason@ == "abandon"@
}

/// A session is pinned to a commit, and what it follows is a commit.
pub open spec fn good_session(refs: Seq<RefRecord>, r: NsRecord) -> bool {
    &&& r.pinned_oid matches Some(b) && b@.len() == 32
    &&& r.live_ref matches Some(live) ==> exists|j: int| #[trigger]
        current_ref(refs, live@, j) && refs[j].kind@ == "commit"@
}

/// A row of a session has its session and its mount.
pub open spec fn good_place(scan: CatalogScan, ns: Seq<char>, mount: Seq<char>) -> bool {
    &&& exists|j: int|
        0 <= j < scan.tables.namespaces@.len() && (#[trigger] scan.tables.namespaces@[j]).id@ == ns
    &&& exists|j: int|
        0 <= j < scan.tables.mounts@.len() && (#[trigger] scan.tables.mounts@[j]).ns_id@ == ns
            && scan.tables.mounts@[j].path@ == mount
}

/// A seal has its tag, a protected and sealed snapshot, and the landmarks of it.
pub open spec fn good_seal(scan: CatalogScan, r: SealRecord) -> bool {
    let refs = scan.tables.refs@;
    &&& r.snap_oid@.len() == 32 && r.commit_oid@.len() == 32 && r.tree_oid@.len() == 32
    &&& exists|j: int| #[trigger]
        current_ref(refs, "tags/"@ + r.tag@, j) && refs[j].oid@ == r.snap_oid@ && refs[j].kind@
            == "snapshot"@ && refs[j].protected != 0 && refs[j].sealed != 0
    &&& marked(scan.tables.landmarks@, r.snap_oid@, "snapshot"@)
    &&& marked(scan.tables.landmarks@, r.commit_oid@, "commit"@)
}

/// A tag has its seal.
pub open spec fn good_tag(scan: CatalogScan, r: RefRecord) -> bool {
    "tags/"@.is_prefix_of(r.name@) ==> exists|j: int|
        0 <= j < scan.tables.seals@.len() && (#[trigger] scan.tables.seals@[j]).tag@ == bare_tag(
            r.name@,
        )
}

/// Every table is tidy.
pub open spec fn all_tidy(s: CatalogShapes) -> bool {
    &&& tidy(Table::SchemaMigrations, s.schema_migrations)
    &&& tidy(Table::Refs, s.refs)
    &&& tidy(Table::Reflog, s.reflog)
    &&& tidy(Table::Namespaces, s.namespaces)
    &&& tidy(Table::Observations, s.observations)
    &&& tidy(Table::Mounts, s.mounts)
    &&& tidy(Table::Overlay, s.overlay)
    &&& tidy(Table::Seals, s.seals)
    &&& tidy(Table::Landmarks, s.landmarks)
    &&& tidy(Table::ObjectIntro, s.object_intro)
    &&& tidy(Table::CapRoot, s.cap_root)
}

/// The refs and their log agree.
pub open spec fn good_refs(scan: CatalogScan) -> bool {
    let refs = scan.tables.refs@;
    let log = scan.tables.reflog@;
    &&& forall|i: int| 0 <= i < refs.len() ==> good_ref(#[trigger] refs[i])
    &&& forall|i: int|
        0 <= i < log.len() ==> (#[trigger] log[i]).new_oid@.len() == 32 && none_or_id(
            log[i].old_oid,
        )
    &&& forall|i: int| 0 <= i < log.len() ==> #[trigger] good_move(log, i)
    &&& forall|i: int| 0 <= i < refs.len() ==> #[trigger] good_end(refs, log, i)
    &&& forall|i: int| 0 <= i < log.len() ==> good_name(refs, log, (#[trigger] log[i]).name@)
}

/// The rows of the sessions agree with the sessions, and these with the refs.
pub open spec fn good_sessions(scan: CatalogScan) -> bool {
    let t = scan.tables;
    &&& forall|i: int|
        0 <= i < t.namespaces@.len() ==> good_session(t.refs@, #[trigger] t.namespaces@[i])
    &&& forall|i: int|
        0 <= i < t.mounts@.len() ==> exists|j: int|
            0 <= j < t.namespaces@.len() && (#[trigger] t.namespaces@[j]).id@ == (
            #[trigger] t.mounts@[i]).ns_id@
    &&& forall|i: int|
        0 <= i < t.observations@.len() ==> good_place(
            scan,
            (#[trigger] t.observations@[i]).ns_id@,
            t.observations@[i].mount@,
        ) && (t.observations@[i].kind@ == "blob"@ || t.observations@[i].kind@ == "tree"@
            ==> none_or_id(t.observations@[i].oid))
    &&& forall|i: int|
        0 <= i < t.overlay@.len() ==> good_place(
            scan,
            (#[trigger] t.overlay@[i]).ns_id@,
            t.overlay@[i].mount@,
        ) && none_or_id(t.overlay@[i].blob_oid)
}

/// The seals, the tags and the landmarks agree, and each landmark is of a type.
pub open spec fn good_seals(scan: CatalogScan) -> bool {
    let t = scan.tables;
    &&& forall|i: int| 0 <= i < t.seals@.len() ==> good_seal(scan, #[trigger] t.seals@[i])
    &&& forall|i: int| 0 <= i < t.refs@.len() ==> good_tag(scan, #[trigger] t.refs@[i])
    &&& forall|i: int|
        0 <= i < t.landmarks@.len() ==> (#[trigger] t.landmarks@[i]).oid@.len() == 32 && (exists|
            ty: ObjectType,
        | #[trigger]
            ty.name() == t.landmarks@[i].kind@)
    &&& forall|i: int|
        0 <= i < t.object_intro@.len() ==> (#[trigger] t.object_intro@[i]).oid@.len() == 32
            && t.object_intro@[i].commit_oid@.len() == 32
}

/// A catalog in which everything is in order.
#[verifier::opaque]
pub open spec fn in_order(scan: CatalogScan) -> bool {
    &&& forall|i: int| 0 <= i < scan.integrity@.len() ==> says_ok((#[trigger] scan.integrity@[i])@)
    &&& all_tidy(scan.shapes)
    &&& scan.versions@ == seq![1i64, 2i64, 3i64]
    &&& good_refs(scan)
    &&& good_sessions(scan)
    &&& good_seals(scan)
}

proof fn lemma_ref_at(refs: Seq<RefRecord>, name: Seq<char>)
    requires
        ref_oids_ok(refs),
    ensures
        match ref_at(refs, name) {
            Some(f) => exists|i: int| #[trigger]
                current_ref(refs, name, i) && ref_fact(refs[i])[0] == f,
            None => forall|i: int| 0 <= i < refs.len() ==> (#[trigger] refs[i]).name@ != name,
        },
    decreases refs.len(),
{
    if refs.len() > 0 {
        let rest = refs.drop_last();
        assert forall|i: int| 0 <= i < rest.len() implies (#[trigger] rest[i]).oid@.len() == 32 by {
            assert(rest[i] == refs[i]);
        }
        lemma_ref_at(rest, name);
        let n = refs.len() - 1;
        assert(refs[n].oid@.len() == 32);
        if refs.last().name@ == name {
            assert(current_ref(refs, name, n));
        } else {
            if let Some(f) = ref_at(rest, name) {
                let i = choose|i: int| #[trigger]
                    current_ref(rest, name, i) && ref_fact(rest[i])[0] == f;
                assert forall|j: int| i < j < refs.len() implies (#[trigger] refs[j]).name@
                    != name by {
                    if j < n {
                        assert(rest[j] == refs[j]);
                    }
                }
                assert(current_ref(refs, name, i));
            } else {
                assert forall|i: int| 0 <= i < refs.len() implies (#[trigger] refs[i]).name@
                    != name by {
                    if i < n {
                        assert(rest[i] == refs[i]);
                    }
                }
            }
        }
    }
}

proof fn lemma_log_end(log: Seq<LogRecord>, before: int, name: Seq<char>)
    requires
        0 <= before <= log.len(),
    ensures
        match log_end(log.take(before), name) {
            Some((oid, reason)) => exists|i: int| #[trigger]
                last_move(log, before, name, i) && oid == object_id(log[i].new_oid@) && reason
                    == log[i].reason@,
            None => forall|i: int| 0 <= i < before ==> (#[trigger] log[i]).name@ != name,
        },
    decreases before,
{
    let part = log.take(before);
    if before > 0 {
        let n = before - 1;
        assert(part.drop_last() =~= log.take(n));
        assert(part.last() == log[n]);
        lemma_log_end(log, n, name);
        if log[n].name@ == name {
            assert(last_move(log, before, name, n));
        } else if let Some((oid, reason)) = log_end(log.take(n), name) {
            let i = choose|i: int| #[trigger]
                last_move(log, n, name, i) && oid == object_id(log[i].new_oid@) && reason
                    == log[i].reason@;
            assert(last_move(log, before, name, i));
        }
    }
}

proof fn lemma_marked(rows: Seq<LandmarkRecord>, oid: Seq<u8>, kind: Seq<char>)
    requires
        oid.len() == 32,
    ensures
        landmark_kind(rows, object_id(oid)) == Some(kind) <==> marked(rows, oid, kind),
        landmark_kind(rows, object_id(oid)) is None ==> forall|i: int|
            0 <= i < rows.len() ==> (#[trigger] rows[i]).oid@ != oid,
    decreases rows.len(),
{
    lemma_id_of(oid);
    if rows.len() > 0 {
        let n = rows.len() - 1;
        let rest = rows.drop_last();
        lemma_marked(rest, oid, kind);
        let last = rows[n];
        if last.oid@.len() == 32 {
            lemma_id_of(last.oid@);
        }
        if last.oid@ == oid {
            assert(oid_in(rows.last().oid@) == Some(object_id(oid)));
            if marked(rows, oid, kind) {
                let i = choose|i: int|
                    0 <= i < rows.len() && (#[trigger] rows[i]).oid@ == oid && rows[i].kind@ == kind
                        && (forall|j: int| i < j < rows.len() ==> (#[trigger] rows[j]).oid@ != oid);
                if i < n {
                    assert(rows[n].oid@ != oid);
                }
            }
            if last.kind@ == kind {
                assert(rows[n].oid@ == oid);
            }
        } else {
            assert(oid_in(rows.last().oid@) != Some(object_id(oid)));
            if marked(rest, oid, kind) {
                let i = choose|i: int|
                    0 <= i < rest.len() && (#[trigger] rest[i]).oid@ == oid && rest[i].kind@ == kind
                        && (forall|j: int| i < j < rest.len() ==> (#[trigger] rest[j]).oid@ != oid);
                assert(rows[i] == rest[i]);
                assert forall|j: int| i < j < rows.len() implies (#[trigger] rows[j]).oid@
                    != oid by {
                    if j < n {
                        assert(rest[j] == rows[j]);
                    }
                }
            }
            if marked(rows, oid, kind) {
                let i = choose|i: int|
                    0 <= i < rows.len() && (#[trigger] rows[i]).oid@ == oid && rows[i].kind@ == kind
                        && (forall|j: int| i < j < rows.len() ==> (#[trigger] rows[j]).oid@ != oid);
                assert(i < n);
                assert(rest[i] == rows[i]);
                assert forall|j: int| i < j < rest.len() implies (#[trigger] rest[j]).oid@
                    != oid by {
                    assert(rest[j] == rows[j]);
                }
            }
            if landmark_kind(rows, object_id(oid)) is None {
                assert forall|i: int| 0 <= i < rows.len() implies (#[trigger] rows[i]).oid@
                    != oid by {
                    if i < n {
                        assert(rest[i] == rows[i]);
                    }
                }
            }
        }
    }
}

proof fn lemma_one_ref(refs: Seq<RefRecord>, name: Seq<char>, i: int, j: int)
    requires
        current_ref(refs, name, i),
        current_ref(refs, name, j),
    ensures
        i == j,
{
    if i < j {
        assert(refs[j].name@ != name);
    }
    if j < i {
        assert(refs[i].name@ != name);
    }
}

proof fn lemma_one_move(log: Seq<LogRecord>, before: int, name: Seq<char>, i: int, j: int)
    requires
        last_move(log, before, name, i),
        last_move(log, before, name, j),
    ensures
        i == j,
{
    if i < j {
        assert(log[j].name@ != name);
    }
    if j < i {
        assert(log[i].name@ != name);
    }
}

proof fn lemma_same_id(a: Seq<u8>, b: Seq<u8>)
    requires
        a.len() == 32,
        b.len() == 32,
    ensures
        object_id(a) == object_id(b) <==> a == b,
{
    lemma_id_of(a);
    lemma_id_of(b);
}

proof fn lemma_good_ref(r: RefRecord)
    ensures
        ref_findings(r).len() == 0 <==> good_ref(r),
{
    reveal_strlit("tree");
    reveal_strlit("commit");
    reveal_strlit("conflict");
    reveal_strlit("snapshot");
}

proof fn lemma_good_move(log: Seq<LogRecord>, i: int)
    requires
        log_oids_ok(log),
        0 <= i < log.len(),
    ensures
        chain_findings(log, i).len() == 0 <==> good_move(log, i),
{
    let r = log[i];
    assert(log_row_ok(log[i]));
    lemma_log_end(log, i, r.name@);
    if let Some((oid, reason)) = log_end(log.take(i), r.name@) {
        let k = choose|k: int| #[trigger]
            last_move(log, i, r.name@, k) && oid == object_id(log[k].new_oid@) && reason
                == log[k].reason@;
        assert(log_row_ok(log[k]));
        if let Some(b) = r.old_oid {
            lemma_same_id(b@, log[k].new_oid@);
        }
        if bytes_in(r.old_oid) == Some(log[k].new_oid@) {
            assert forall|j: int| #[trigger] last_move(log, i, r.name@, j) implies bytes_in(
                r.old_oid,
            ) == Some(log[j].new_oid@) by {
                lemma_one_move(log, i, r.name@, j, k);
            }
        }
    } else {
        assert forall|j: int| !#[trigger] last_move(log, i, r.name@, j) by {}
    }
}

proof fn lemma_good_end(refs: Seq<RefRecord>, log: Seq<LogRecord>, i: int)
    requires
        ref_oids_ok(refs),
        log_oids_ok(log),
        0 <= i < refs.len(),
    ensures
        current_ref(refs, refs[i].name@, i) ==> (end_findings(refs, log, refs[i].name@).len() == 0
            <==> good_end(refs, log, i)),
{
    let name = refs[i].name@;
    if current_ref(refs, name, i) {
        lemma_ref_at(refs, name);
        assert(refs[i].name@ == name);
        let f = ref_at(refs, name)->0;
        let k = choose|k: int| #[trigger] current_ref(refs, name, k) && ref_fact(refs[k])[0] == f;
        lemma_one_ref(refs, name, i, k);
        assert(log.take(log.len() as int) =~= log);
        lemma_log_end(log, log.len() as int, name);
        assert(refs[i].oid@.len() == 32);
        if let Some((oid, reason)) = log_end(log, name) {
            let m = choose|m: int| #[trigger]
                last_move(log, log.len() as int, name, m) && oid == object_id(log[m].new_oid@)
                    && reason == log[m].reason@;
            assert(log_row_ok(log[m]));
            lemma_same_id(log[m].new_oid@, refs[i].oid@);
            if good_end(refs, log, i) {
                let j = choose|j: int| #[trigger]
                    last_move(log, log.len() as int, name, j) && log[j].new_oid@ == refs[i].oid@;
                lemma_one_move(log, log.len() as int, name, j, m);
            }
        }
    }
}

/// A ref has a row that counts.
proof fn lemma_current(refs: Seq<RefRecord>, name: Seq<char>, i: int) -> (k: int)
    requires
        0 <= i < refs.len(),
        refs[i].name@ == name,
    ensures
        current_ref(refs, name, k),
    decreases refs.len() - i,
{
    if forall|j: int| i < j < refs.len() ==> (#[trigger] refs[j]).name@ != name {
        i
    } else {
        let j = choose|j: int| i < j < refs.len() && (#[trigger] refs[j]).name@ == name;
        lemma_current(refs, name, j)
    }
}

proof fn lemma_good_name(refs: Seq<RefRecord>, log: Seq<LogRecord>, name: Seq<char>)
    requires
        ref_oids_ok(refs),
    ensures
        orphan_findings(refs, log, name).len() == 0 <==> good_name(refs, log, name),
{
    lemma_ref_at(refs, name);
    assert(log.take(log.len() as int) =~= log);
    lemma_log_end(log, log.len() as int, name);
    if let Some((oid, reason)) = log_end(log, name) {
        let m = choose|m: int| #[trigger]
            last_move(log, log.len() as int, name, m) && oid == object_id(log[m].new_oid@)
                && reason == log[m].reason@;
        assert forall|j: int| #[trigger] last_move(log, log.len() as int, name, j) implies j
            == m by {
            lemma_one_move(log, log.len() as int, name, j, m);
        }
    }
    if let Some(f) = ref_at(refs, name) {
        let k = choose|k: int| #[trigger] current_ref(refs, name, k) && ref_fact(refs[k])[0] == f;
        assert(refs[k].name@ == name);
    }
}

proof fn lemma_good_refs(scan: CatalogScan)
    requires
        all_tidy(scan.shapes),
    ensures
        all_ref_findings(scan).len() == 0 <==> good_refs(scan),
{
    let refs = scan.tables.refs@;
    let log = scan.tables.reflog@;
    lemma_tidy(Table::Refs, scan.shapes.refs);
    lemma_tidy(Table::Reflog, scan.shapes.reflog);
    lemma_flat_none(refs.len(), ref_finder(refs));
    assert forall|i: int| 0 <= i < refs.len() implies (#[trigger] ref_finder(refs)(i)).len() == 0
        <==> good_ref(refs[i]) by {
        lemma_good_ref(refs[i]);
    }
    lemma_flat_none(log.len(), log_oid_finder(log));
    assert forall|i: int| 0 <= i < log.len() implies (#[trigger] log_oid_finder(log)(i)).len() == 0
        <==> log_row_ok(log[i]) by {}
    let a = flat(refs.len(), ref_finder(refs)).len() == 0;
    if a {
        assert forall|i: int| 0 <= i < refs.len() implies good_ref(#[trigger] refs[i]) by {
            assert(ref_finder(refs)(i).len() == 0);
        }
    }
    let b = flat(log.len(), log_oid_finder(log)).len() == 0;
    if b {
        assert forall|i: int| 0 <= i < log.len() implies log_row_ok(#[trigger] log[i]) by {
            assert(log_oid_finder(log)(i).len() == 0);
        }
    }
    if log_oids_ok(log) {
        assert forall|i: int| 0 <= i < log.len() implies (#[trigger] log_oid_finder(log)(i)).len()
            == 0 by {
            assert(log_row_ok(log[i]));
        }
        assert(b);
    }
    if good_refs(scan) {
        assert(a);
        assert(ref_oids_ok(refs));
        assert forall|i: int| 0 <= i < log.len() implies log_row_ok(#[trigger] log[i]) by {}
    }
    if ref_oids_ok(refs) && log_oids_ok(log) {
        lemma_good_log(refs, log);
    }
}

proof fn lemma_good_log(refs: Seq<RefRecord>, log: Seq<LogRecord>)
    requires
        ref_oids_ok(refs),
        log_oids_ok(log),
    ensures
        flat(log.len(), chain_finder(log)).len() == 0 <==> forall|i: int|
            0 <= i < log.len() ==> #[trigger] good_move(log, i),
        flat(refs.len(), end_finder(refs, log)).len() == 0 <==> forall|i: int|
            0 <= i < refs.len() ==> #[trigger] good_end(refs, log, i),
        flat(log.len(), orphan_finder(refs, log)).len() == 0 <==> forall|i: int|
            0 <= i < log.len() ==> good_name(refs, log, (#[trigger] log[i]).name@),
{
    lemma_flat_none(log.len(), chain_finder(log));
    lemma_flat_none(refs.len(), end_finder(refs, log));
    lemma_flat_none(log.len(), orphan_finder(refs, log));
    assert forall|i: int| 0 <= i < log.len() implies ((#[trigger] chain_finder(log)(i)).len() == 0
        <==> good_move(log, i)) by {
        lemma_good_move(log, i);
    }
    if flat(log.len(), chain_finder(log)).len() == 0 {
        assert forall|i: int| 0 <= i < log.len() implies #[trigger] good_move(log, i) by {
            assert(chain_finder(log)(i).len() == 0);
        }
    }
    assert forall|i: int| 0 <= i < log.len() implies ((#[trigger] orphan_finder(refs, log)(
        i,
    )).len() == 0 <==> good_name(refs, log, log[i].name@)) by {
        lemma_good_name(refs, log, log[i].name@);
    }
    if flat(log.len(), orphan_finder(refs, log)).len() == 0 {
        assert forall|i: int| 0 <= i < log.len() implies good_name(
            refs,
            log,
            (#[trigger] log[i]).name@,
        ) by {
            assert(orphan_finder(refs, log)(i).len() == 0);
        }
    }
    if flat(refs.len(), end_finder(refs, log)).len() == 0 {
        assert forall|i: int| 0 <= i < refs.len() implies #[trigger] good_end(refs, log, i) by {
            assert(end_finder(refs, log)(i).len() == 0);
            lemma_good_end(refs, log, i);
        }
    }
    if forall|i: int| 0 <= i < refs.len() ==> #[trigger] good_end(refs, log, i) {
        assert forall|i: int| 0 <= i < refs.len() implies (#[trigger] end_finder(refs, log)(
            i,
        )).len() == 0 by {
            let k = lemma_current(refs, refs[i].name@, i);
            assert(good_end(refs, log, k));
            lemma_good_end(refs, log, k);
        }
    }
}

proof fn lemma_good_session(refs: Seq<RefRecord>, r: NsRecord)
    requires
        ref_oids_ok(refs),
    ensures
        ns_findings(r, refs, true).len() == 0 <==> good_session(refs, r),
{
    if let Some(live) = r.live_ref {
        lemma_ref_at(refs, live@);
        if let Some(f) = ref_at(refs, live@) {
            let k = choose|k: int| #[trigger]
                current_ref(refs, live@, k) && ref_fact(refs[k])[0] == f;
            assert(refs[k].oid@.len() == 32);
            assert forall|j: int| #[trigger] current_ref(refs, live@, j) implies j == k by {
                lemma_one_ref(refs, live@, j, k);
            }
        } else {
            assert forall|j: int| !#[trigger] current_ref(refs, live@, j) by {}
        }
    }
}

proof fn lemma_good_sessions(scan: CatalogScan)
    requires
        all_tidy(scan.shapes),
        ref_oids_ok(scan.tables.refs@),
    ensures
        all_session_findings(scan).len() == 0 <==> good_sessions(scan),
{
    let t = scan.tables;
    let s = scan.shapes;
    lemma_tidy(Table::Refs, s.refs);
    lemma_tidy(Table::Namespaces, s.namespaces);
    lemma_tidy(Table::Mounts, s.mounts);
    lemma_tidy(Table::Observations, s.observations);
    lemma_tidy(Table::Overlay, s.overlay);
    let ns = known_ns(scan);
    let mounts = known_mounts(scan);
    let f1 = ns_finder(t.namespaces@, t.refs@, refs_ok(scan));
    let f2 = mount_finder(t.mounts@, ns);
    let f3 = observation_finder(t.observations@, ns, mounts);
    let f4 = overlay_finder(t.overlay@, ns, mounts);
    lemma_flat_none(t.namespaces@.len(), f1);
    lemma_flat_none(t.mounts@.len(), f2);
    lemma_flat_none(t.observations@.len(), f3);
    lemma_flat_none(t.overlay@.len(), f4);
    assert forall|i: int| 0 <= i < t.namespaces@.len() implies ((#[trigger] f1(i)).len() == 0
        <==> good_session(t.refs@, t.namespaces@[i])) by {
        lemma_good_session(t.refs@, t.namespaces@[i]);
    }
    assert forall|i: int| 0 <= i < t.mounts@.len() implies ((#[trigger] f2(i)).len() == 0
        <==> has_ns(t.namespaces@, t.mounts@[i].ns_id@)) by {}
    assert forall|i: int| 0 <= i < t.observations@.len() implies ((#[trigger] f3(i)).len() == 0
        <==> (good_place(scan, t.observations@[i].ns_id@, t.observations@[i].mount@) && (
    t.observations@[i].kind@ == "blob"@ || t.observations@[i].kind@ == "tree"@ ==> none_or_id(
        t.observations@[i].oid,
    )))) by {}
    assert forall|i: int| 0 <= i < t.overlay@.len() implies ((#[trigger] f4(i)).len() == 0 <==> (
    good_place(scan, t.overlay@[i].ns_id@, t.overlay@[i].mount@) && none_or_id(
        t.overlay@[i].blob_oid,
    ))) by {}
    if all_session_findings(scan).len() == 0 {
        assert forall|i: int| 0 <= i < t.namespaces@.len() implies good_session(
            t.refs@,
            #[trigger] t.namespaces@[i],
        ) by {
            assert(f1(i).len() == 0);
        }
        assert forall|i: int| 0 <= i < t.mounts@.len() implies exists|j: int|
            0 <= j < t.namespaces@.len() && (#[trigger] t.namespaces@[j]).id@ == (
            #[trigger] t.mounts@[i]).ns_id@ by {
            assert(f2(i).len() == 0);
        }
        assert forall|i: int| 0 <= i < t.observations@.len() implies good_place(
            scan,
            (#[trigger] t.observations@[i]).ns_id@,
            t.observations@[i].mount@,
        ) && (t.observations@[i].kind@ == "blob"@ || t.observations@[i].kind@ == "tree"@
            ==> none_or_id(t.observations@[i].oid)) by {
            assert(f3(i).len() == 0);
        }
        assert forall|i: int| 0 <= i < t.overlay@.len() implies good_place(
            scan,
            (#[trigger] t.overlay@[i]).ns_id@,
            t.overlay@[i].mount@,
        ) && none_or_id(t.overlay@[i].blob_oid) by {
            assert(f4(i).len() == 0);
        }
    }
}

proof fn lemma_good_seal(scan: CatalogScan, r: SealRecord)
    requires
        ref_oids_ok(scan.tables.refs@),
    ensures
        seal_findings(r, scan.tables.refs@, true).len() == 0 && seal_landmark_findings(
            r,
            scan.tables.landmarks@,
        ).len() == 0 <==> good_seal(scan, r),
{
    let refs = scan.tables.refs@;
    let name = "tags/"@ + r.tag@;
    if r.snap_oid@.len() == 32 && r.commit_oid@.len() == 32 && r.tree_oid@.len() == 32 {
        lemma_marked(scan.tables.landmarks@, r.snap_oid@, "snapshot"@);
        lemma_marked(scan.tables.landmarks@, r.commit_oid@, "commit"@);
        lemma_ref_at(refs, name);
        if let Some(f) = ref_at(refs, name) {
            let k = choose|k: int| #[trigger]
                current_ref(refs, name, k) && ref_fact(refs[k])[0] == f;
            assert(refs[k].oid@.len() == 32);
            lemma_same_id(refs[k].oid@, r.snap_oid@);
            assert forall|j: int| #[trigger] current_ref(refs, name, j) implies j == k by {
                lemma_one_ref(refs, name, j, k);
            }
        } else {
            assert forall|j: int| !#[trigger] current_ref(refs, name, j) by {}
        }
    }
}

proof fn lemma_good_mark(r: LandmarkRecord)
    ensures
        landmark_findings(r).len() == 0 <==> r.oid@.len() == 32 && exists|ty: ObjectType|
            #[trigger] ty.name() == r.kind@,
{
    lemma_kinds();
    if let Some(ty) = object_kind(r.kind@) {
        assert(ty.name() == r.kind@);
    }
}

proof fn lemma_good_seals(scan: CatalogScan)
    requires
        all_tidy(scan.shapes),
        ref_oids_ok(scan.tables.refs@),
    ensures
        all_seal_findings(scan).len() == 0 <==> good_seals(scan),
{
    let t = scan.tables;
    let s = scan.shapes;
    lemma_tidy(Table::Refs, s.refs);
    lemma_tidy(Table::Seals, s.seals);
    lemma_tidy(Table::Landmarks, s.landmarks);
    lemma_tidy(Table::ObjectIntro, s.object_intro);
    let f1 = seal_finder(t.seals@, t.refs@, refs_ok(scan));
    let f2 = tag_finder(t.refs@, t.seals@);
    let f3 = landmark_finder(t.landmarks@);
    let f4 = seal_landmark_finder(t.seals@, t.landmarks@);
    let f5 = intro_finder(t.object_intro@);
    lemma_flat_none(t.seals@.len(), f1);
    lemma_flat_none(t.refs@.len(), f2);
    lemma_flat_none(t.landmarks@.len(), f3);
    lemma_flat_none(t.seals@.len(), f4);
    lemma_flat_none(t.object_intro@.len(), f5);
    assert forall|i: int|
        0 <= i < t.seals@.len() implies (((#[trigger] f1(i)).len() == 0 && f4(i).len() == 0)
        <==> good_seal(scan, t.seals@[i])) by {
        lemma_good_seal(scan, t.seals@[i]);
    }
    assert forall|i: int|
        0 <= i < t.seals@.len() implies ((f1(i).len() == 0 && (#[trigger] f4(i)).len() == 0)
        <==> good_seal(scan, t.seals@[i])) by {
        lemma_good_seal(scan, t.seals@[i]);
    }
    assert forall|i: int| 0 <= i < t.refs@.len() implies ((#[trigger] f2(i)).len() == 0
        <==> good_tag(scan, t.refs@[i])) by {}
    assert forall|i: int| 0 <= i < t.landmarks@.len() implies ((#[trigger] f3(i)).len() == 0 <==> (
    t.landmarks@[i].oid@.len() == 32 && exists|ty: ObjectType|
        #[trigger] ty.name() == t.landmarks@[i].kind@)) by {
        lemma_good_mark(t.landmarks@[i]);
    }
    assert forall|i: int| 0 <= i < t.object_intro@.len() implies ((#[trigger] f5(i)).len() == 0
        <==> (t.object_intro@[i].oid@.len() == 32 && t.object_intro@[i].commit_oid@.len() == 32)) by {}
    if all_seal_findings(scan).len() == 0 {
        assert forall|i: int| 0 <= i < t.seals@.len() implies good_seal(
            scan,
            #[trigger] t.seals@[i],
        ) by {
            assert(f1(i).len() == 0 && f4(i).len() == 0);
        }
        assert forall|i: int| 0 <= i < t.refs@.len() implies good_tag(
            scan,
            #[trigger] t.refs@[i],
        ) by {
            assert(f2(i).len() == 0);
        }
        assert forall|i: int| 0 <= i < t.landmarks@.len() implies (
        #[trigger] t.landmarks@[i]).oid@.len() == 32 && (exists|ty: ObjectType|
            #[trigger] ty.name() == t.landmarks@[i].kind@) by {
            assert(f3(i).len() == 0);
        }
        assert forall|i: int| 0 <= i < t.object_intro@.len() implies (
        #[trigger] t.object_intro@[i]).oid@.len() == 32 && t.object_intro@[i].commit_oid@.len()
            == 32 by {
            assert(f5(i).len() == 0);
        }
    }
}

proof fn lemma_all_tidy(s: CatalogShapes)
    ensures
        all_shape_findings(s).len() == 0 <==> all_tidy(s),
{
    lemma_tidy(Table::SchemaMigrations, s.schema_migrations);
    lemma_tidy(Table::Refs, s.refs);
    lemma_tidy(Table::Reflog, s.reflog);
    lemma_tidy(Table::Namespaces, s.namespaces);
    lemma_tidy(Table::Observations, s.observations);
    lemma_tidy(Table::Mounts, s.mounts);
    lemma_tidy(Table::Overlay, s.overlay);
    lemma_tidy(Table::Seals, s.seals);
    lemma_tidy(Table::Landmarks, s.landmarks);
    lemma_tidy(Table::ObjectIntro, s.object_intro);
    lemma_tidy(Table::CapRoot, s.cap_root);
}

/// An audit finds nothing if and only if everything in the catalog is in order.
pub proof fn lemma_in_order(scan: CatalogScan, r: Seq<Finding>)
    requires
        settled(all_findings(scan), r),
    ensures
        r.len() == 0 <==> in_order(scan),
{
    reveal(in_order);
    let all = all_findings(scan);
    if r.len() > 0 {
        assert(r.contains(r[0]));
        assert(all.contains(r[0]));
    }
    if all.len() > 0 {
        assert(all.contains(all[0]));
        assert(r.contains(all[0]));
    }
    assert(r.len() == 0 <==> all.len() == 0);
    lemma_all_tidy(scan.shapes);
    lemma_tidy(Table::SchemaMigrations, scan.shapes.schema_migrations);
    let rows = scan.integrity@;
    lemma_flat_none(rows.len(), integrity_finder(rows));
    assert forall|i: int| 0 <= i < rows.len() implies ((#[trigger] integrity_finder(rows)(i)).len()
        == 0 <==> says_ok(rows[i]@)) by {}
    if all.len() == 0 {
        assert forall|i: int| 0 <= i < rows.len() implies says_ok((#[trigger] rows[i])@) by {
            assert(integrity_finder(rows)(i).len() == 0);
        }
    }
    if all_tidy(scan.shapes) {
        lemma_good_refs(scan);
        if good_refs(scan) {
            lemma_good_sessions(scan);
            lemma_good_seals(scan);
        }
    }
}

/// A ref as an audit hands it on.
pub open spec fn ref_kept(kept: RefRow, r: RefRecord) -> bool {
    &&& kept.name@ == r.name@
    &&& kept.oid@ == r.oid@
    &&& kept.kind@ == r.kind@
    &&& kept.protected == (r.protected != 0)
    &&& kept.sealed == (r.sealed != 0)
}

/// A seal as an audit hands it on.
pub open spec fn seal_kept(kept: SealRow, r: SealRecord) -> bool {
    &&& kept.tag@ == r.tag@
    &&& kept.snap_oid@ == r.snap_oid@
    &&& kept.commit_oid@ == r.commit_oid@
    &&& kept.tree_oid@ == r.tree_oid@
}

/// A session as an audit hands it on.
pub open spec fn session_kept(kept: CatalogNamespaceRow, r: NsRecord) -> bool {
    &&& kept.id@ == r.id@
    &&& id_bytes(r.pinned_oid) == match kept.pinned_oid {
        Some(id) => Some(id@),
        None => None,
    }
    &&& text_in(kept.live_ref) == text_in(r.live_ref)
}

/// A mount as an audit hands it on.
pub open spec fn mount_kept(kept: CatalogMountRow, r: MountRecord) -> bool {
    &&& kept.ns_id@ == r.ns_id@
    &&& kept.path@ == r.path@
    &&& kept.spec@ == r.spec@
    &&& kept.mode@ == r.mode@
}

/// A row is handed on.
pub open spec fn ref_on(kept: Seq<RefRow>, r: RefRecord) -> bool {
    exists|k: int| 0 <= k < kept.len() && ref_kept(#[trigger] kept[k], r)
}

/// What is handed on is a row.
pub open spec fn ref_of(rows: Seq<RefRecord>, kept: RefRow) -> bool {
    exists|i: int| 0 <= i < rows.len() && ref_kept(kept, #[trigger] rows[i])
}

/// A row is handed on.
pub open spec fn seal_on(kept: Seq<SealRow>, r: SealRecord) -> bool {
    exists|k: int| 0 <= k < kept.len() && seal_kept(#[trigger] kept[k], r)
}

/// What is handed on is a row.
pub open spec fn seal_of(rows: Seq<SealRecord>, kept: SealRow) -> bool {
    exists|i: int| 0 <= i < rows.len() && seal_kept(kept, #[trigger] rows[i])
}

/// A row is handed on.
pub open spec fn session_on(kept: Seq<CatalogNamespaceRow>, r: NsRecord) -> bool {
    exists|k: int| 0 <= k < kept.len() && session_kept(#[trigger] kept[k], r)
}

/// What is handed on is a row.
pub open spec fn session_of(rows: Seq<NsRecord>, kept: CatalogNamespaceRow) -> bool {
    exists|i: int| 0 <= i < rows.len() && session_kept(kept, #[trigger] rows[i])
}

/// A row is handed on.
pub open spec fn mount_on(kept: Seq<CatalogMountRow>, r: MountRecord) -> bool {
    exists|k: int| 0 <= k < kept.len() && mount_kept(#[trigger] kept[k], r)
}

/// What is handed on is a row.
pub open spec fn mount_of(rows: Seq<MountRecord>, kept: CatalogMountRow) -> bool {
    exists|i: int| 0 <= i < rows.len() && mount_kept(kept, #[trigger] rows[i])
}

/// Of the tidy tables an audit hands on every ref and seal whose ids could be decoded, every
/// session and every mount, and nothing else.
#[verifier::opaque]
pub open spec fn rows_kept(scan: CatalogScan, r: CatalogAudit) -> bool {
    let t = scan.tables;
    let s = scan.shapes;
    &&& tidy(Table::Refs, s.refs) ==> forall|i: int|
        0 <= i < t.refs@.len() && (#[trigger] t.refs@[i]).oid@.len() == 32 ==> ref_on(
            r.refs@,
            t.refs@[i],
        )
    &&& forall|k: int| 0 <= k < r.refs@.len() ==> ref_of(t.refs@, #[trigger] r.refs@[k])
    &&& r.refs_complete <==> tidy(Table::Refs, s.refs) && forall|i: int|
        0 <= i < t.refs@.len() ==> (#[trigger] t.refs@[i]).oid@.len() == 32
    &&& tidy(Table::Seals, s.seals) ==> forall|i: int|
        0 <= i < t.seals@.len() && (#[trigger] t.seals@[i]).snap_oid@.len() == 32
            && t.seals@[i].commit_oid@.len() == 32 && t.seals@[i].tree_oid@.len() == 32 ==> seal_on(
            r.seals@,
            t.seals@[i],
        )
    &&& forall|k: int| 0 <= k < r.seals@.len() ==> seal_of(t.seals@, #[trigger] r.seals@[k])
    &&& tidy(Table::Namespaces, s.namespaces) ==> forall|i: int|
        0 <= i < t.namespaces@.len() ==> session_on(r.namespaces@, #[trigger] t.namespaces@[i])
    &&& forall|k: int|
        0 <= k < r.namespaces@.len() ==> session_of(t.namespaces@, #[trigger] r.namespaces@[k])
    &&& tidy(Table::Mounts, s.mounts) ==> forall|i: int|
        0 <= i < t.mounts@.len() ==> mount_on(r.mounts@, #[trigger] t.mounts@[i])
    &&& forall|k: int| 0 <= k < r.mounts@.len() ==> mount_of(t.mounts@, #[trigger] r.mounts@[k])
}

/// What an audit hands on of the catalog.
pub open spec fn handed_on(scan: CatalogScan, r: CatalogAudit) -> bool {
    let t = scan.tables;
    let s = scan.shapes;
    &&& sorted_from(
        provided(shape_clean(Table::Refs, s.refs), flat(t.refs@.len(), ref_keeper(t.refs@))),
        r.refs@,
    )
    &&& r.refs_complete == refs_ok(scan)
    &&& sorted_from(
        provided(shape_clean(Table::Seals, s.seals), flat(t.seals@.len(), seal_keeper(t.seals@))),
        r.seals@,
    )
    &&& sorted_from(
        provided(shape_clean(Table::Namespaces, s.namespaces), ns_facts(t.namespaces@)),
        r.namespaces@,
    )
    &&& sorted_from(
        provided(shape_clean(Table::Mounts, s.mounts), mount_facts(t.mounts@)),
        r.mounts@,
    )
}

proof fn lemma_refs_kept(scan: CatalogScan, r: CatalogAudit)
    requires
        handed_on(scan, r),
    ensures
        ({
            let t = scan.tables;
            &&& tidy(Table::Refs, scan.shapes.refs) ==> forall|i: int|
                0 <= i < t.refs@.len() && (#[trigger] t.refs@[i]).oid@.len() == 32 ==> ref_on(r.refs@, t.refs@[i])
            &&& forall|k: int|
                0 <= k < r.refs@.len() ==> ref_of(t.refs@, #[trigger] r.refs@[k])
        }),
{
    let rows = scan.tables.refs@;
    let f = ref_keeper(rows);
    let all = provided(shape_clean(Table::Refs, scan.shapes.refs), flat(rows.len(), f));
    lemma_tidy(Table::Refs, scan.shapes.refs);
    if tidy(Table::Refs, scan.shapes.refs) {
        assert forall|i: int|
            0 <= i < rows.len() && (#[trigger] rows[i]).oid@.len() == 32 implies ref_on(r.refs@, rows[i]) by {
            let x = ref_fact(rows[i])[0];
            assert(f(i) == seq![x]);
            assert(seq![x][0] == x);
            lemma_flat_has(rows.len(), f, i, x);
            lemma_sorted_has(all, r.refs@, x);
            lemma_id_of(rows[i].oid@);
            let k = choose|k: int| 0 <= k < lines(r.refs@).len() && lines(r.refs@)[k] == x;
            assert(r.refs@[k]@ == x);
            assert(ref_kept(r.refs@[k], rows[i]));
        }
    }
    assert forall|k: int| 0 <= k < r.refs@.len() implies ref_of(rows, #[trigger] r.refs@[k]) by {
        let x = r.refs@[k]@;
        assert(lines(r.refs@)[k] == x);
        lemma_sorted_has(all, r.refs@, x);
        let i = lemma_flat_from(rows.len(), f, x);
        lemma_id_of(rows[i].oid@);
        assert(ref_kept(r.refs@[k], rows[i]));
    }
}

proof fn lemma_seals_kept(scan: CatalogScan, r: CatalogAudit)
    requires
        handed_on(scan, r),
    ensures
        ({
            let t = scan.tables;
            &&& tidy(Table::Seals, scan.shapes.seals) ==> forall|i: int|
                0 <= i < t.seals@.len() && (#[trigger] t.seals@[i]).snap_oid@.len() == 32
                    && t.seals@[i].commit_oid@.len() == 32 && t.seals@[i].tree_oid@.len() == 32
                    ==> seal_on(r.seals@, t.seals@[i])
            &&& forall|k: int|
                0 <= k < r.seals@.len() ==> seal_of(t.seals@, #[trigger] r.seals@[k])
        }),
{
    let rows = scan.tables.seals@;
    let f = seal_keeper(rows);
    let all = provided(shape_clean(Table::Seals, scan.shapes.seals), flat(rows.len(), f));
    lemma_tidy(Table::Seals, scan.shapes.seals);
    if tidy(Table::Seals, scan.shapes.seals) {
        assert forall|i: int|
            0 <= i < rows.len() && (#[trigger] rows[i]).snap_oid@.len() == 32
                && rows[i].commit_oid@.len() == 32 && rows[i].tree_oid@.len() == 32 implies seal_on(r.seals@, rows[i]) by {
            let x = seal_fact(rows[i])[0];
            assert(f(i) == seq![x]);
            assert(seq![x][0] == x);
            lemma_flat_has(rows.len(), f, i, x);
            lemma_sorted_has(all, r.seals@, x);
            lemma_id_of(rows[i].snap_oid@);
            lemma_id_of(rows[i].commit_oid@);
            lemma_id_of(rows[i].tree_oid@);
            let k = choose|k: int| 0 <= k < lines(r.seals@).len() && lines(r.seals@)[k] == x;
            assert(r.seals@[k]@ == x);
            assert(seal_kept(r.seals@[k], rows[i]));
        }
    }
    assert forall|k: int| 0 <= k < r.seals@.len() implies seal_of(rows, #[trigger] r.seals@[k]) by {
        let x = r.seals@[k]@;
        assert(lines(r.seals@)[k] == x);
        lemma_sorted_has(all, r.seals@, x);
        let i = lemma_flat_from(rows.len(), f, x);
        lemma_id_of(rows[i].snap_oid@);
        lemma_id_of(rows[i].commit_oid@);
        lemma_id_of(rows[i].tree_oid@);
        assert(seal_kept(r.seals@[k], rows[i]));
    }
}

/// An audit hands on what the catalog holds.
pub proof fn lemma_rows_kept(scan: CatalogScan, r: CatalogAudit)
    requires
        handed_on(scan, r),
    ensures
        rows_kept(scan, r),
{
    reveal(rows_kept);
    let t = scan.tables;
    let s = scan.shapes;
    lemma_refs_kept(scan, r);
    lemma_seals_kept(scan, r);
    lemma_tidy(Table::Refs, s.refs);
    lemma_tidy(Table::Namespaces, s.namespaces);
    lemma_tidy(Table::Mounts, s.mounts);
    let ns = provided(shape_clean(Table::Namespaces, s.namespaces), ns_facts(t.namespaces@));
    let mounts = provided(shape_clean(Table::Mounts, s.mounts), mount_facts(t.mounts@));
    assert forall|i: int| 0 <= i < t.namespaces@.len() && id_bytes(
        (#[trigger] t.namespaces@[i]).pinned_oid,
    ) is Some implies object_id(t.namespaces@[i].pinned_oid->0@)@
        == t.namespaces@[i].pinned_oid->0@ by {
        lemma_id_of(t.namespaces@[i].pinned_oid->0@);
    }
    if tidy(Table::Namespaces, s.namespaces) {
        assert forall|i: int| 0 <= i < t.namespaces@.len() implies session_on(r.namespaces@, #[trigger] t.namespaces@[i]) by {
            let x = ns_facts(t.namespaces@)[i];
            lemma_sorted_has(ns, r.namespaces@, x);
            let k = choose|k: int|
                0 <= k < lines(r.namespaces@).len() && lines(r.namespaces@)[k] == x;
            assert(r.namespaces@[k]@ == x);
            assert(session_kept(r.namespaces@[k], t.namespaces@[i]));
        }
    }
    assert forall|k: int| 0 <= k < r.namespaces@.len() implies session_of(t.namespaces@, #[trigger] r.namespaces@[k]) by {
        let x = r.namespaces@[k]@;
        assert(lines(r.namespaces@)[k] == x);
        lemma_sorted_has(ns, r.namespaces@, x);
        let i = choose|i: int| 0 <= i < ns.len() && ns[i] == x;
        assert(session_kept(r.namespaces@[k], t.namespaces@[i]));
    }
    if tidy(Table::Mounts, s.mounts) {
        assert forall|i: int| 0 <= i < t.mounts@.len() implies mount_on(r.mounts@, #[trigger] t.mounts@[i]) by {
            let x = mount_facts(t.mounts@)[i];
            lemma_sorted_has(mounts, r.mounts@, x);
            let k = choose|k: int| 0 <= k < lines(r.mounts@).len() && lines(r.mounts@)[k] == x;
            assert(r.mounts@[k]@ == x);
            assert(mount_kept(r.mounts@[k], t.mounts@[i]));
        }
    }
    assert forall|k: int| 0 <= k < r.mounts@.len() implies mount_of(t.mounts@, #[trigger] r.mounts@[k]) by {
        let x = r.mounts@[k]@;
        assert(lines(r.mounts@)[k] == x);
        lemma_sorted_has(mounts, r.mounts@, x);
        let i = choose|i: int| 0 <= i < mounts.len() && mounts[i] == x;
        assert(mount_kept(r.mounts@[k], t.mounts@[i]));
    }
}

} // verus!
