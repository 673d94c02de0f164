//! The audit of the catalog: every relation that makes its rows trustworthy. It
//! only detects, and never repairs a row.
use crate::audited::{
    in_order, lemma_in_order, lemma_roots_listed, lemma_rows_kept, named_in, roots_listed, rows_kept,
};
use crate::idmap::{ids_differ, lemma_insert, IdMap};
use crate::names::{
    bad_ref, catalog_object_type, catalog_ref_type, object_kind, oid_from_blob, ref_kind,
    ref_kind_ok, validate_ref_kind,
};
use crate::order::{is_stable_sort, sorted, stable_sort, Sortable};
use crate::paths::starts_with;
use crate::rows::{
    CatalogAudit, CatalogFinding, CatalogMountRow, CatalogNamespaceRow, CatalogObjectExpectation,
    CatalogObjectRoot, SealRow,
};
use crate::schema::{quoted_list, quoted_list_text, same_texts, Table};
use crate::tables::{
    lines, text_in, IntroRecord, LandmarkRecord, LogRecord, MountRecord, NsRecord,
    ObservationRecord, OverlayRecord, RefRecord, SealRecord, Tables,
};
use crate::text::{
    bracketed, bracketed_text, cat2, cat3, cat4, cat5, cat6, chars_of, debug_text, integer,
    integer_text, lemma_text_le, quoted, text_before, text_eq, text_le, text_lt, text_of,
    text_values,
};
use crate::textmap::TextMap;
use crate::types::{hex_encode, hex_of, lemma_object_id, object_id, ObjectId, ObjectType, RefRow};
use vstd::prelude::*;
use vstd::slice::slice_subrange;

verus! {

/// What reading the columns of a table gave.
#[derive(Debug)]
pub enum ColumnsRead {
    Columns(Vec<String>),
    CannotInspect(String),
    CannotRead(String),
    CannotDecode(String),
}

/// A row whose values break the constraints of its table.
#[derive(Debug)]
pub enum BadRow {
    Row(i64),
    Unreadable(String),
}

/// What a scan for rows with wrong values gave.
#[derive(Debug)]
pub enum ValuesRead {
    BadRows(Vec<BadRow>),
    CannotValidate(String),
    CannotScan(String),
}

/// What was seen of the shape of a table. The values count only where the columns
/// are as they should be.
#[derive(Debug)]
pub struct TableShape {
    pub columns: ColumnsRead,
    pub values: ValuesRead,
}

/// The shapes of all tables.
#[derive(Debug)]
pub struct CatalogShapes {
    pub schema_migrations: TableShape,
    pub refs: TableShape,
    pub reflog: TableShape,
    pub namespaces: TableShape,
    pub observations: TableShape,
    pub mounts: TableShape,
    pub overlay: TableShape,
    pub seals: TableShape,
    pub landmarks: TableShape,
    pub object_intro: TableShape,
    pub cap_root: TableShape,
}

/// All that an audit looks at, read in one transaction. The rows of a table count
/// only where its shape is clean.
#[derive(Debug)]
pub struct CatalogScan {
    pub integrity: Vec<String>,
    pub shapes: CatalogShapes,
    pub versions: Vec<i64>,
    pub tables: Tables,
}

pub ghost struct Finding {
    pub code: Seq<char>,
    pub resource: Seq<char>,
    pub detail: Seq<char>,
}

pub ghost struct Root {
    pub oid: ObjectId,
    pub expected: CatalogObjectExpectation,
    pub resource: Seq<char>,
}

impl View for CatalogFinding {
    type V = Finding;

    open spec fn view(&self) -> Finding {
        Finding { code: self.code@, resource: self.resource@, detail: self.detail@ }
    }
}

impl View for CatalogObjectRoot {
    type V = Root;

    open spec fn view(&self) -> Root {
        Root { oid: self.oid, expected: self.expected, resource: self.resource@ }
    }
}

/// The values of some findings.
pub open spec fn finding_values(v: Seq<CatalogFinding>) -> Seq<Finding> {
    Seq::new(v.len(), |i: int| v[i]@)
}

/// The values of some roots.
pub open spec fn root_values(v: Seq<CatalogObjectRoot>) -> Seq<Root> {
    Seq::new(v.len(), |i: int| v[i]@)
}

pub open spec fn finding(code: Seq<char>, resource: Seq<char>, detail: Seq<char>) -> Finding {
    Finding { code, resource, detail }
}

/// A finding, where there is a reason for it.
pub open spec fn when(b: bool, f: Finding) -> Seq<Finding> {
    if b {
        seq![f]
    } else {
        Seq::empty()
    }
}

/// What the first `n` of some sequences hold, one after the other.
pub open spec fn flat<T>(n: nat, f: spec_fn(int) -> Seq<T>) -> Seq<T>
    decreases n,
{
    if n == 0 {
        Seq::empty()
    } else {
        flat((n - 1) as nat, f) + f(n - 1)
    }
}

proof fn lemma_flat_next<T>(start: Seq<T>, n: nat, f: spec_fn(int) -> Seq<T>)
    ensures
        start + flat(n, f) + f(n as int) == start + flat(n + 1, f),
{
    assert(start + flat(n, f) + f(n as int) =~= start + flat(n + 1, f));
}

fn note(out: &mut Vec<CatalogFinding>, code: &str, resource: &str, detail: &str)
    ensures
        finding_values(final(out)@) == finding_values(old(out)@).push(
            finding(code@, resource@, detail@),
        ),
{
    out.push(
        CatalogFinding {
            code: code.to_string(),
            resource: resource.to_string(),
            detail: detail.to_string(),
        },
    );
    assert(finding_values(out@) =~= finding_values(old(out)@).push(
        finding(code@, resource@, detail@),
    ));
}

/// Note a finding where there is a reason for it.
fn note_when(out: &mut Vec<CatalogFinding>, b: bool, code: &str, resource: &str, detail: &str)
    ensures
        finding_values(final(out)@) == finding_values(old(out)@) + when(
            b,
            finding(code@, resource@, detail@),
        ),
{
    if b {
        note(out, code, resource, detail);
    }
    assert(finding_values(out@) =~= finding_values(old(out)@) + when(
        b,
        finding(code@, resource@, detail@),
    ));
}

fn add_root(
    out: &mut Vec<CatalogObjectRoot>,
    oid: ObjectId,
    expected: CatalogObjectExpectation,
    resource: String,
)
    ensures
        root_values(final(out)@) == root_values(old(out)@) + seq![
            Root { oid, expected, resource: resource@ },
        ],
{
    out.push(CatalogObjectRoot { oid, expected, resource });
    assert(root_values(out@) =~= root_values(old(out)@) + seq![
        Root { oid, expected, resource: resource@ },
    ]);
}

/// The object id in a column, where it holds one.
pub open spec fn oid_in(bytes: Seq<u8>) -> Option<ObjectId> {
    if bytes.len() == 32 {
        Some(object_id(bytes))
    } else {
        None
    }
}

/// What is found of a column that should hold an object id.
pub open spec fn oid_findings(
    bytes: Seq<u8>,
    resource: Seq<char>,
    field: Seq<char>,
) -> Seq<Finding> {
    when(
        bytes.len() != 32,
        finding(
            "CATALOG_OID"@,
            resource,
            field + " is not a 32-byte object ID: corrupt: oid blob length"@,
        ),
    )
}

fn check_oid(
    out: &mut Vec<CatalogFinding>,
    bytes: &Vec<u8>,
    resource: &str,
    field: &str,
) -> (r: Option<ObjectId>)
    ensures
        r == oid_in(bytes@),
        finding_values(final(out)@) == finding_values(old(out)@) + oid_findings(
            bytes@,
            resource@,
            field@,
        ),
{
    let detail = cat2(field, " is not a 32-byte object ID: corrupt: oid blob length");
    match oid_from_blob(bytes.as_slice()) {
        Ok(oid) => {
            proof {
                lemma_object_id(oid);
            }
            note_when(out, false, "CATALOG_OID", resource, detail.as_str());
            Some(oid)
        },
        Err(_) => {
            note_when(out, true, "CATALOG_OID", resource, detail.as_str());
            None
        },
    }
}

/// The codes of findings on the shape of a table and on its values.
pub open spec fn shape_code(table: Table) -> Seq<char> {
    if table == Table::SchemaMigrations {
        "SCHEMA_LEDGER"@
    } else {
        "CATALOG_SCHEMA"@
    }
}

pub open spec fn value_code(table: Table) -> Seq<char> {
    if table == Table::SchemaMigrations {
        "SCHEMA_LEDGER"@
    } else {
        "CATALOG_VALUE"@
    }
}

pub open spec fn table_resource(table: Table) -> Seq<char> {
    "catalog:"@ + table.label()
}

pub open spec fn bad_row_finding(table: Table, row: BadRow) -> Finding {
    match row {
        BadRow::Row(id) => finding(
            value_code(table),
            table_resource(table) + ":row:"@ + integer(id as int),
            "row violates ForgeFS storage-class or value constraints"@,
        ),
        BadRow::Unreadable(e) => finding(
            value_code(table),
            table_resource(table),
            "cannot decode invalid row identity: "@ + e@,
        ),
    }
}

pub open spec fn bad_row_findings(table: Table, rows: Seq<BadRow>) -> Seq<Finding> {
    Seq::new(rows.len(), |i: int| bad_row_finding(table, rows[i]))
}

/// The table has its columns, and no row breaks their constraints.
#[verifier::opaque]
pub open spec fn shape_clean(table: Table, shape: TableShape) -> bool {
    &&& shape.columns matches ColumnsRead::Columns(found)
    &&& text_values(found@) == table.columns()
    &&& shape.values matches ValuesRead::BadRows(rows)
    &&& rows@.len() == 0
}

/// What is found of the shape of a table.
#[verifier::opaque]
pub open spec fn shape_findings(table: Table, shape: TableShape) -> Seq<Finding> {
    let at = table_resource(table);
    let code = shape_code(table);
    match shape.columns {
        ColumnsRead::CannotInspect(e) => seq![
            finding(code, at, "cannot inspect table shape: "@ + e@),
        ],
        ColumnsRead::CannotRead(e) => seq![finding(code, at, "cannot read table shape: "@ + e@)],
        ColumnsRead::CannotDecode(e) => seq![
            finding(code, at, "cannot decode table shape: "@ + e@),
        ],
        ColumnsRead::Columns(found) => if text_values(found@) != table.columns() {
            seq![
                finding(
                    code,
                    at,
                    "expected columns "@ + quoted_list(table.columns()) + ", found "@
                        + quoted_list(text_values(found@)),
                ),
            ]
        } else {
            match shape.values {
                ValuesRead::CannotValidate(e) => seq![
                    finding(code, at, "cannot validate table values: "@ + e@),
                ],
                ValuesRead::CannotScan(e) => seq![
                    finding(code, at, "cannot scan table values: "@ + e@),
                ],
                ValuesRead::BadRows(rows) => bad_row_findings(table, rows@),
            }
        },
    }
}

fn note_bad_rows(out: &mut Vec<CatalogFinding>, table: Table, rows: &Vec<BadRow>)
    ensures
        finding_values(final(out)@) == finding_values(old(out)@) + bad_row_findings(table, rows@),
{
    let ghost start = finding_values(out@);
    let at = cat2("catalog:", table.name());
    let code = if table == Table::SchemaMigrations {
        "SCHEMA_LEDGER"
    } else {
        "CATALOG_VALUE"
    };
    let mut i: usize = 0;
    assert(bad_row_findings(table, rows@).take(0) =~= Seq::<Finding>::empty());
    while i < rows.len()
        invariant
            i <= rows@.len(),
            at@ == table_resource(table),
            code@ == value_code(table),
            finding_values(out@) == start + bad_row_findings(table, rows@).take(i as int),
        decreases rows@.len() - i,
    {
        match &rows[i] {
            BadRow::Row(id) => {
                let resource = cat3(at.as_str(), ":row:", integer_text(*id).as_str());
                note(
                    out,
                    code,
                    resource.as_str(),
                    "row violates ForgeFS storage-class or value constraints",
                );
            },
            BadRow::Unreadable(e) => {
                let detail = cat2("cannot decode invalid row identity: ", e.as_str());
                note(out, code, at.as_str(), detail.as_str());
            },
        }
        assert(finding_values(out@) =~= start + bad_row_findings(table, rows@).take(i + 1));
        i += 1;
    }
    assert(bad_row_findings(table, rows@).take(i as int) =~= bad_row_findings(table, rows@));
}

/// Check that a table still has the columns and the storage classes that its rows
/// are decoded by, before any of them is.
pub fn audit_table_shape(
    out: &mut Vec<CatalogFinding>,
    table: Table,
    shape: &TableShape,
) -> (clean: bool)
    ensures
        clean == shape_clean(table, *shape),
        finding_values(final(out)@) == finding_values(old(out)@) + shape_findings(table, *shape),
{
    proof {
        reveal(shape_clean);
        reveal(shape_findings);
    }
    let at = cat2("catalog:", table.name());
    let code = if table == Table::SchemaMigrations {
        "SCHEMA_LEDGER"
    } else {
        "CATALOG_SCHEMA"
    };
    match &shape.columns {
        ColumnsRead::CannotInspect(e) => {
            let detail = cat2("cannot inspect table shape: ", e.as_str());
            note_when(out, true, code, at.as_str(), detail.as_str());
            false
        },
        ColumnsRead::CannotRead(e) => {
            let detail = cat2("cannot read table shape: ", e.as_str());
            note_when(out, true, code, at.as_str(), detail.as_str());
            false
        },
        ColumnsRead::CannotDecode(e) => {
            let detail = cat2("cannot decode table shape: ", e.as_str());
            note_when(out, true, code, at.as_str(), detail.as_str());
            false
        },
        ColumnsRead::Columns(found) => {
            let expected = table.column_list();
            if !same_texts(found, &expected) {
                let detail = cat4(
                    "expected columns ",
                    quoted_list_text(&expected).as_str(),
                    ", found ",
                    quoted_list_text(found).as_str(),
                );
                note_when(out, true, code, at.as_str(), detail.as_str());
                return false;
            }
            match &shape.values {
                ValuesRead::CannotValidate(e) => {
                    let detail = cat2("cannot validate table values: ", e.as_str());
                    note_when(out, true, code, at.as_str(), detail.as_str());
                    false
                },
                ValuesRead::CannotScan(e) => {
                    let detail = cat2("cannot scan table values: ", e.as_str());
                    note_when(out, true, code, at.as_str(), detail.as_str());
                    false
                },
                ValuesRead::BadRows(rows) => {
                    note_bad_rows(out, table, rows);
                    rows.len() == 0
                },
            }
        },
    }
}

/// The answer of a database that found nothing wrong with itself.
pub open spec fn says_ok(s: Seq<char>) -> bool {
    s.len() == 2 && (s[0] == 'o' || s[0] == 'O') && (s[1] == 'k' || s[1] == 'K')
}

pub open spec fn integrity_finder(rows: Seq<String>) -> spec_fn(int) -> Seq<Finding> {
    |i: int|
        when(
            !says_ok(rows[i]@),
            finding("CATALOG_INTEGRITY"@, "catalog:meta.sqlite"@, rows[i]@),
        )
}

/// What the database found wrong with itself.
pub open spec fn integrity_findings(rows: Seq<String>) -> Seq<Finding> {
    flat(rows.len(), integrity_finder(rows))
}

fn audit_integrity(out: &mut Vec<CatalogFinding>, rows: &Vec<String>)
    ensures
        finding_values(final(out)@) == finding_values(old(out)@) + integrity_findings(rows@),
{
    let ghost start = finding_values(out@);
    let ghost f = integrity_finder(rows@);
    let mut i: usize = 0;
    assert(start + flat(0, f) =~= start);
    while i < rows.len()
        invariant
            i <= rows@.len(),
            f == integrity_finder(rows@),
            finding_values(out@) == start + flat(i as nat, f),
        decreases rows@.len() - i,
    {
        let cs = chars_of(rows[i].as_str());
        let ok = cs.len() == 2 && (cs[0] == 'o' || cs[0] == 'O') && (cs[1] == 'k' || cs[1] == 'K');
        note_when(out, !ok, "CATALOG_INTEGRITY", "catalog:meta.sqlite", rows[i].as_str());
        proof {
            lemma_flat_next(start, i as nat, f);
        }
        i += 1;
    }
}

/// The numerals of some integers.
pub open spec fn numerals(v: Seq<i64>) -> Seq<Seq<char>> {
    Seq::new(v.len(), |i: int| integer(v[i] as int))
}

/// What is found of the ledger of versions: it has to hold every version up to the
/// current one, and no other.
pub open spec fn version_findings(versions: Seq<i64>) -> Seq<Finding> {
    when(
        versions != seq![1i64, 2i64, 3i64],
        finding(
            "SCHEMA_LEDGER"@,
            "catalog:schema_migrations"@,
            "expected contiguous supported versions [1, 2, 3], found "@ + bracketed(
                numerals(versions),
            ),
        ),
    )
}

fn audit_versions(out: &mut Vec<CatalogFinding>, versions: &Vec<i64>)
    ensures
        finding_values(final(out)@) == finding_values(old(out)@) + version_findings(versions@),
{
    let mut texts: Vec<String> = Vec::new();
    let mut i: usize = 0;
    while i < versions.len()
        invariant
            i <= versions@.len(),
            texts@.len() == i,
            forall|j: int| 0 <= j < i ==> (#[trigger] texts@[j])@ == integer(versions@[j] as int),
        decreases versions@.len() - i,
    {
        texts.push(integer_text(versions[i]));
        i += 1;
    }
    assert(text_values(texts@) =~= numerals(versions@));
    let good = versions.len() == 3 && versions[0] == 1 && versions[1] == 2 && versions[2] == 3;
    proof {
        if good {
            assert(versions@ =~= seq![1i64, 2i64, 3i64]);
        } else if versions@ == seq![1i64, 2i64, 3i64] {
            assert(versions@[0] == 1 && versions@[1] == 2 && versions@[2] == 3);
        }
    }
    let detail = cat2(
        "expected contiguous supported versions [1, 2, 3], found ",
        bracketed_text(&texts).as_str(),
    );
    note_when(out, !good, "SCHEMA_LEDGER", "catalog:schema_migrations", detail.as_str());
}

pub open spec fn ref_resource(name: Seq<char>) -> Seq<char> {
    "catalog:ref:"@ + name
}

/// What is found of a ref by itself.
pub open spec fn ref_findings(r: RefRecord) -> Seq<Finding> {
    let at = ref_resource(r.name@);
    when(
        !ref_kind_ok(r.name@, r.kind@),
        finding("REF_KIND"@, at, "invalid: "@ + bad_ref(r.name@, r.kind@)),
    ) + when(
        ref_kind(r.kind@) is None,
        finding("REF_KIND"@, at, "unknown ref kind "@ + r.kind@),
    ) + when(
        "tags/"@.is_prefix_of(r.name@) && (r.protected == 0 || r.sealed == 0 || r.kind@
            != "snapshot"@),
        finding("TAG_FLAGS"@, at, "tag refs must be protected+sealed snapshots"@),
    ) + oid_findings(r.oid@, at, "oid"@)
}

/// The type that the target of a ref has to have.
pub open spec fn ref_expectation(kind: Seq<char>) -> CatalogObjectExpectation {
    match ref_kind(kind) {
        Some(t) => CatalogObjectExpectation::Exact(t),
        None => CatalogObjectExpectation::Any,
    }
}

pub open spec fn ref_roots(r: RefRecord) -> Seq<Root> {
    match oid_in(r.oid@) {
        Some(oid) => seq![
            Root { oid, expected: ref_expectation(r.kind@), resource: "ref:"@ + r.name@ },
        ],
        None => Seq::empty(),
    }
}

/// A ref that could be decoded.
pub ghost struct RefFact {
    pub name: Seq<char>,
    pub oid: ObjectId,
    pub kind: Seq<char>,
    pub protected: bool,
    pub sealed: bool,
}

impl View for RefRow {
    type V = RefFact;

    open spec fn view(&self) -> RefFact {
        RefFact {
            name: self.name@,
            oid: self.oid,
            kind: self.kind@,
            protected: self.protected,
            sealed: self.sealed,
        }
    }
}

/// The values of some refs.
pub open spec fn ref_facts(v: Seq<RefRow>) -> Seq<RefFact> {
    Seq::new(v.len(), |i: int| v[i]@)
}

pub open spec fn ref_fact(r: RefRecord) -> Seq<RefFact> {
    match oid_in(r.oid@) {
        Some(oid) => seq![
            RefFact {
                name: r.name@,
                oid,
                kind: r.kind@,
                protected: r.protected != 0,
                sealed: r.sealed != 0,
            },
        ],
        None => Seq::empty(),
    }
}

pub open spec fn ref_finder(rows: Seq<RefRecord>) -> spec_fn(int) -> Seq<Finding> {
    |i: int| ref_findings(rows[i])
}

pub open spec fn ref_rooter(rows: Seq<RefRecord>) -> spec_fn(int) -> Seq<Root> {
    |i: int| ref_roots(rows[i])
}

pub open spec fn ref_keeper(rows: Seq<RefRecord>) -> spec_fn(int) -> Seq<RefFact> {
    |i: int| ref_fact(rows[i])
}

/// Every row holds an object id.
pub open spec fn ref_oids_ok(rows: Seq<RefRecord>) -> bool {
    forall|i: int| 0 <= i < rows.len() ==> (#[trigger] rows[i]).oid@.len() == 32
}

/// The ref of a name: the last row that has it and could be decoded.
pub open spec fn ref_at(rows: Seq<RefRecord>, name: Seq<char>) -> Option<RefFact>
    decreases rows.len(),
{
    if rows.len() == 0 {
        None
    } else if rows.last().name@ == name && rows.last().oid@.len() == 32 {
        Some(ref_fact(rows.last())[0])
    } else {
        ref_at(rows.drop_last(), name)
    }
}

/// A map from names to refs holds what rows say.
pub open spec fn maps_refs(m: TextMap<RefRow>, rows: Seq<RefRecord>) -> bool {
    forall|name: Seq<char>| #[trigger]
        ref_at(rows, name) == (if m.has(name) {
            Some(m.at(name)@)
        } else {
            None
        })
}

fn audit_ref(
    findings: &mut Vec<CatalogFinding>,
    roots: &mut Vec<CatalogObjectRoot>,
    r: &RefRecord,
) -> (kept: Option<ObjectId>)
    ensures
        kept == oid_in(r.oid@),
        finding_values(final(findings)@) == finding_values(old(findings)@) + ref_findings(*r),
        root_values(final(roots)@) == root_values(old(roots)@) + ref_roots(*r),
{
    let ghost start = finding_values(findings@);
    let name = r.name.as_str();
    let kind = r.kind.as_str();
    let at = cat2("catalog:ref:", name);
    match validate_ref_kind(name, kind) {
        Ok(_) => note_when(findings, false, "REF_KIND", at.as_str(), ""),
        Err(e) => {
            let detail = e.message();
            note_when(findings, true, "REF_KIND", at.as_str(), detail.as_str());
        },
    }
    let ghost one = finding_values(findings@);
    assert(one == start + when(
        !ref_kind_ok(r.name@, r.kind@),
        finding("REF_KIND"@, at@, "invalid: "@ + bad_ref(r.name@, r.kind@)),
    ));
    let known = catalog_ref_type(kind);
    let unknown = cat2("unknown ref kind ", kind);
    note_when(findings, known.is_none(), "REF_KIND", at.as_str(), unknown.as_str());
    let bad_tag = starts_with(name, "tags/") && (r.protected == 0 || r.sealed == 0 || !text_eq(
        kind,
        "snapshot",
    ));
    note_when(
        findings,
        bad_tag,
        "TAG_FLAGS",
        at.as_str(),
        "tag refs must be protected+sealed snapshots",
    );
    let oid = check_oid(findings, &r.oid, at.as_str(), "oid");
    assert(finding_values(findings@) =~= start + ref_findings(*r));
    match oid {
        Some(id) => {
            let expected = match known {
                Some(t) => CatalogObjectExpectation::Exact(t),
                None => CatalogObjectExpectation::Any,
            };
            add_root(roots, id, expected, cat2("ref:", name));
        },
        None => {
            assert(root_values(roots@) + ref_roots(*r) =~= root_values(roots@));
        },
    }
    oid
}

/// The refs that an audit could decode, in their order and by their names, and
/// whether these are all.
struct RefsSeen {
    list: Vec<RefRow>,
    by_name: TextMap<RefRow>,
    complete: bool,
}

fn copy_ref(r: &RefRecord, oid: ObjectId) -> (c: RefRow)
    requires
        oid_in(r.oid@) == Some(oid),
    ensures
        seq![c@] == ref_fact(*r),
{
    let c = RefRow {
        name: r.name.clone(),
        oid,
        kind: r.kind.clone(),
        protected: r.protected != 0,
        sealed: r.sealed != 0,
    };
    assert(seq![c@] =~= ref_fact(*r));
    c
}

fn audit_refs(
    findings: &mut Vec<CatalogFinding>,
    roots: &mut Vec<CatalogObjectRoot>,
    rows: &Vec<RefRecord>,
) -> (seen: RefsSeen)
    ensures
        finding_values(final(findings)@) == finding_values(old(findings)@) + flat(
            rows@.len(),
            ref_finder(rows@),
        ),
        root_values(final(roots)@) == root_values(old(roots)@) + flat(
            rows@.len(),
            ref_rooter(rows@),
        ),
        ref_facts(seen.list@) == flat(rows@.len(), ref_keeper(rows@)),
        maps_refs(seen.by_name, rows@),
        seen.complete == ref_oids_ok(rows@),
{
    let ghost f0 = finding_values(findings@);
    let ghost r0 = root_values(roots@);
    let ghost f = ref_finder(rows@);
    let ghost g = ref_rooter(rows@);
    let ghost h = ref_keeper(rows@);
    let mut list: Vec<RefRow> = Vec::new();
    let mut by_name: TextMap<RefRow> = TextMap::new();
    let mut complete = true;
    let mut i: usize = 0;
    proof {
        assert(f0 + flat(0, f) =~= f0);
        assert(r0 + flat(0, g) =~= r0);
        assert(ref_facts(list@) =~= flat(0, h));
        assert(rows@.take(0) =~= Seq::empty());
    }
    while i < rows.len()
        invariant
            i <= rows@.len(),
            f == ref_finder(rows@),
            g == ref_rooter(rows@),
            h == ref_keeper(rows@),
            finding_values(findings@) == f0 + flat(i as nat, f),
            root_values(roots@) == r0 + flat(i as nat, g),
            ref_facts(list@) == flat(i as nat, h),
            maps_refs(by_name, rows@.take(i as int)),
            complete == ref_oids_ok(rows@.take(i as int)),
        decreases rows@.len() - i,
    {
        let r = &rows[i];
        let ghost before = ref_facts(list@);
        let ghost m0 = by_name;
        let ghost here = rows@.take(i as int);
        let ghost next = rows@.take(i + 1);
        proof {
            assert(next.drop_last() =~= here);
            assert(next.last() == *r);
        }
        let kept = audit_ref(findings, roots, r);
        proof {
            lemma_flat_next(f0, i as nat, f);
            lemma_flat_next(r0, i as nat, g);
        }
        match kept {
            Some(oid) => {
                list.push(copy_ref(r, oid));
                let row = copy_ref(r, oid);
                by_name.insert(r.name.clone(), row);
                proof {
                    assert(ref_facts(list@) =~= before + ref_fact(*r));
                    assert forall|name: Seq<char>| #[trigger] ref_at(next, name) == (
                    if by_name.has(name) {
                        Some(by_name.at(name)@)
                    } else {
                        None
                    }) by {
                        assert(ref_at(here, name) == (if m0.has(name) {
                            Some(m0.at(name)@)
                        } else {
                            None
                        }));
                        if name == r.name@ {
                            assert(seq![by_name.at(name)@][0] == ref_fact(*r)[0]);
                        }
                    }
                    if complete {
                        assert forall|j: int| 0 <= j < next.len() implies (
                        #[trigger] next[j]).oid@.len() == 32 by {
                            if j < i {
                                assert(next[j] == here[j]);
                            }
                        }
                    } else {
                        let j = choose|j: int|
                            0 <= j < here.len() && (#[trigger] here[j]).oid@.len() != 32;
                        assert(next[j] == here[j]);
                    }
                }
            },
            None => {
                complete = false;
                proof {
                    assert(ref_facts(list@) =~= before + ref_fact(*r));
                    assert(next[i as int].oid@.len() != 32);
                    assert forall|name: Seq<char>| #[trigger] ref_at(next, name) == (
                    if by_name.has(name) {
                        Some(by_name.at(name)@)
                    } else {
                        None
                    }) by {
                        assert(ref_at(here, name) == ref_at(next, name));
                    }
                }
            },
        }
        i += 1;
    }
    proof {
        assert(rows@.take(i as int) =~= rows@);
    }
    RefsSeen { list, by_name, complete }
}

pub open spec fn log_resource(r: LogRecord) -> Seq<char> {
    "catalog:reflog:"@ + r.name@ + ":"@ + integer(r.id as int)
}

/// What is found of an optional column of an object id.
pub open spec fn optional_oid_findings(
    v: Option<Vec<u8>>,
    resource: Seq<char>,
    field: Seq<char>,
) -> Seq<Finding> {
    match v {
        Some(b) => oid_findings(b@, resource, field),
        None => Seq::empty(),
    }
}

/// The object id in an optional column.
pub open spec fn optional_oid(v: Option<Vec<u8>>) -> Option<ObjectId> {
    match v {
        Some(b) => oid_in(b@),
        None => None,
    }
}

fn check_optional_oid(
    out: &mut Vec<CatalogFinding>,
    v: &Option<Vec<u8>>,
    resource: &str,
    field: &str,
) -> (r: Option<ObjectId>)
    ensures
        r == optional_oid(*v),
        finding_values(final(out)@) == finding_values(old(out)@) + optional_oid_findings(
            *v,
            resource@,
            field@,
        ),
{
    match v {
        Some(b) => check_oid(out, b, resource, field),
        None => {
            assert(finding_values(out@) =~= finding_values(out@) + Seq::<Finding>::empty());
            None
        },
    }
}

/// What is found of the object ids in a row of the log.
pub open spec fn log_oid_findings(r: LogRecord) -> Seq<Finding> {
    optional_oid_findings(r.old_oid, log_resource(r), "old_oid"@) + oid_findings(
        r.new_oid@,
        log_resource(r),
        "new_oid"@,
    )
}

pub open spec fn log_oid_finder(log: Seq<LogRecord>) -> spec_fn(int) -> Seq<Finding> {
    |i: int| log_oid_findings(log[i])
}

/// A row of the log holds object ids where it has to.
pub open spec fn log_row_ok(r: LogRecord) -> bool {
    r.new_oid@.len() == 32 && (r.old_oid matches Some(b) ==> b@.len() == 32)
}

pub open spec fn log_oids_ok(log: Seq<LogRecord>) -> bool {
    forall|i: int| 0 <= i < log.len() ==> log_row_ok(#[trigger] log[i])
}

/// The last entry of a name in the log: the object and the reason.
pub open spec fn log_end(log: Seq<LogRecord>, name: Seq<char>) -> Option<(ObjectId, Seq<char>)>
    decreases log.len(),
{
    if log.len() == 0 {
        None
    } else if log.last().name@ == name {
        Some((object_id(log.last().new_oid@), log.last().reason@))
    } else {
        log_end(log.drop_last(), name)
    }
}

/// An optional object id as a report shows it.
pub open spec fn shown_oid(oid: Option<ObjectId>) -> Seq<char> {
    match oid {
        Some(id) => "Some("@ + quoted(hex_of(id@)) + ")"@,
        None => "None"@,
    }
}

/// An entry of the log has to start from where the one before it of the same name
/// ended; the first one starts from nothing, unless it makes a fork.
pub open spec fn chain_findings(log: Seq<LogRecord>, i: int) -> Seq<Finding> {
    let r = log[i];
    let old = optional_oid(r.old_oid);
    match log_end(log.take(i), r.name@) {
        Some((previous, _)) => when(
            old != Some(previous),
            finding(
                "REFLOG_CHAIN"@,
                log_resource(r),
                "old_oid "@ + shown_oid(old) + " does not equal previous new_oid "@ + hex_of(
                    previous@,
                ),
            ),
        ),
        None => when(
            old is Some && r.reason@ != "fork"@,
            finding(
                "REFLOG_CHAIN"@,
                log_resource(r),
                "first reflog row may have old_oid only when it creates a fork"@,
            ),
        ),
    }
}

pub open spec fn chain_finder(log: Seq<LogRecord>) -> spec_fn(int) -> Seq<Finding> {
    |i: int| chain_findings(log, i)
}

/// The log of a ref has to end where the ref is.
pub open spec fn end_findings(
    refs: Seq<RefRecord>,
    log: Seq<LogRecord>,
    name: Seq<char>,
) -> Seq<Finding> {
    match ref_at(refs, name) {
        Some(r) => match log_end(log, name) {
            None => seq![
                finding("REFLOG_MISSING"@, ref_resource(name), "current ref has no reflog entry"@),
            ],
            Some((oid, _)) => when(
                oid != r.oid,
                finding(
                    "REFLOG_TERMINAL"@,
                    ref_resource(name),
                    "current ref is "@ + hex_of(r.oid@) + ", terminal reflog new_oid is "@ + hex_of(
                        oid@,
                    ),
                ),
            ),
        },
        None => Seq::empty(),
    }
}

pub open spec fn end_finder(refs: Seq<RefRecord>, log: Seq<LogRecord>) -> spec_fn(int) -> Seq<
    Finding,
> {
    |i: int| end_findings(refs, log, refs[i].name@)
}

/// A name in the log without a ref was abandoned: that is the one way in which a
/// log outlives its ref.
pub open spec fn orphan_findings(
    refs: Seq<RefRecord>,
    log: Seq<LogRecord>,
    name: Seq<char>,
) -> Seq<Finding> {
    when(
        ref_at(refs, name) is None && !(log_end(log, name) matches Some((_, reason)) && reason
            == "abandon"@),
        finding("REFLOG_ORPHAN"@, "catalog:reflog:"@ + name, "reflog name has no current ref"@),
    )
}

pub open spec fn orphan_finder(refs: Seq<RefRecord>, log: Seq<LogRecord>) -> spec_fn(int) -> Seq<
    Finding,
> {
    |i: int| orphan_findings(refs, log, log[i].name@)
}

/// What is found of the log, beside the refs. Its chains are followed only where
/// all its object ids could be decoded.
pub open spec fn log_findings(refs: Seq<RefRecord>, log: Seq<LogRecord>) -> Seq<Finding> {
    flat(log.len(), log_oid_finder(log)) + if log_oids_ok(log) {
        flat(log.len(), chain_finder(log)) + flat(refs.len(), end_finder(refs, log)) + flat(
            log.len(),
            orphan_finder(refs, log),
        )
    } else {
        Seq::empty()
    }
}

/// The last entry of a name.
struct LogEnd {
    oid: ObjectId,
    reason: String,
}

spec fn maps_ends(m: TextMap<LogEnd>, log: Seq<LogRecord>) -> bool {
    forall|name: Seq<char>| #[trigger]
        log_end(log, name) == (if m.has(name) {
            Some((m.at(name).oid, m.at(name).reason@))
        } else {
            None
        })
}

fn log_resource_text(r: &LogRecord) -> (t: String)
    ensures
        t@ == log_resource(*r),
{
    cat4("catalog:reflog:", r.name.as_str(), ":", integer_text(r.id).as_str())
}

fn audit_log_oids(out: &mut Vec<CatalogFinding>, log: &Vec<LogRecord>) -> (ok: bool)
    ensures
        ok == log_oids_ok(log@),
        finding_values(final(out)@) == finding_values(old(out)@) + flat(
            log@.len(),
            log_oid_finder(log@),
        ),
{
    let ghost start = finding_values(out@);
    let ghost f = log_oid_finder(log@);
    let mut ok = true;
    let mut i: usize = 0;
    assert(start + flat(0, f) =~= start);
    while i < log.len()
        invariant
            i <= log@.len(),
            f == log_oid_finder(log@),
            finding_values(out@) == start + flat(i as nat, f),
            ok == forall|j: int| 0 <= j < i ==> log_row_ok(#[trigger] log@[j]),
        decreases log@.len() - i,
    {
        let r = &log[i];
        let ghost here = finding_values(out@);
        let at = log_resource_text(r);
        let before = check_optional_oid(out, &r.old_oid, at.as_str(), "old_oid");
        let after = check_oid(out, &r.new_oid, at.as_str(), "new_oid");
        proof {
            assert(finding_values(out@) =~= here + log_oid_findings(*r));
            lemma_flat_next(start, i as nat, f);
        }
        let bad_old = r.old_oid.is_some() && before.is_none();
        if bad_old || after.is_none() {
            ok = false;
            assert(!log_row_ok(log@[i as int]));
        } else {
            assert(log_row_ok(log@[i as int]));
        }
        i += 1;
    }
    ok
}

fn shown_oid_text(oid: Option<ObjectId>) -> (t: String)
    ensures
        t@ == shown_oid(oid),
{
    match oid {
        Some(id) => {
            let hex = id.hex();
            cat3("Some(", debug_text(hex.as_str()).as_str(), ")")
        },
        None => "None".to_string(),
    }
}

fn optional_id(v: &Option<Vec<u8>>) -> (r: Option<ObjectId>)
    ensures
        r == optional_oid(*v),
{
    match v {
        Some(b) => match oid_from_blob(b.as_slice()) {
            Ok(id) => {
                proof {
                    lemma_object_id(id);
                }
                Some(id)
            },
            Err(_) => None,
        },
        None => None,
    }
}

fn same_id(a: Option<ObjectId>, b: ObjectId) -> (r: bool)
    ensures
        r == (a == Some(b)),
{
    match a {
        Some(x) => x.same(&b),
        None => false,
    }
}

fn audit_chains(out: &mut Vec<CatalogFinding>, log: &Vec<LogRecord>) -> (ends: TextMap<LogEnd>)
    requires
        log_oids_ok(log@),
    ensures
        maps_ends(ends, log@),
        finding_values(final(out)@) == finding_values(old(out)@) + flat(
            log@.len(),
            chain_finder(log@),
        ),
{
    let ghost start = finding_values(out@);
    let ghost f = chain_finder(log@);
    let mut ends: TextMap<LogEnd> = TextMap::new();
    let mut i: usize = 0;
    proof {
        assert(start + flat(0, f) =~= start);
        assert(log@.take(0) =~= Seq::empty());
    }
    while i < log.len()
        invariant
            i <= log@.len(),
            log_oids_ok(log@),
            f == chain_finder(log@),
            maps_ends(ends, log@.take(i as int)),
            finding_values(out@) == start + flat(i as nat, f),
        decreases log@.len() - i,
    {
        let r = &log[i];
        let ghost here = log@.take(i as int);
        let ghost next = log@.take(i + 1);
        let ghost m0 = ends;
        assert(log_row_ok(log@[i as int]));
        let at = log_resource_text(r);
        let old_oid = optional_id(&r.old_oid);
        assert(log_end(here, r.name@) == (if ends.has(r.name@) {
            Some((ends.at(r.name@).oid, ends.at(r.name@).reason@))
        } else {
            None
        }));
        match ends.get(r.name.as_str()) {
            Some(end) => {
                let detail = cat4(
                    "old_oid ",
                    shown_oid_text(old_oid).as_str(),
                    " does not equal previous new_oid ",
                    end.oid.hex().as_str(),
                );
                let apart = !same_id(old_oid, end.oid);
                note_when(out, apart, "REFLOG_CHAIN", at.as_str(), detail.as_str());
            },
            None => {
                let wrong = old_oid.is_some() && !text_eq(r.reason.as_str(), "fork");
                note_when(
                    out,
                    wrong,
                    "REFLOG_CHAIN",
                    at.as_str(),
                    "first reflog row may have old_oid only when it creates a fork",
                );
            },
        }
        proof {
            lemma_flat_next(start, i as nat, f);
        }
        let oid = ObjectId::from_slice(r.new_oid.as_slice());
        ends.insert(r.name.clone(), LogEnd { oid, reason: r.reason.clone() });
        proof {
            lemma_object_id(oid);
            assert(next.drop_last() =~= here);
            assert(next.last() == *r);
            assert forall|name: Seq<char>| #[trigger] log_end(next, name) == (if ends.has(name) {
                Some((ends.at(name).oid, ends.at(name).reason@))
            } else {
                None
            }) by {
                assert(log_end(here, name) == (if m0.has(name) {
                    Some((m0.at(name).oid, m0.at(name).reason@))
                } else {
                    None
                }));
            }
        }
        i += 1;
    }
    assert(log@.take(i as int) =~= log@);
    ends
}

fn audit_ends(
    out: &mut Vec<CatalogFinding>,
    refs: &Vec<RefRecord>,
    by_name: &TextMap<RefRow>,
    ends: &TextMap<LogEnd>,
    Ghost(log): Ghost<Seq<LogRecord>>,
)
    requires
        maps_refs(*by_name, refs@),
        maps_ends(*ends, log),
    ensures
        finding_values(final(out)@) == finding_values(old(out)@) + flat(
            refs@.len(),
            end_finder(refs@, log),
        ),
{
    let ghost start = finding_values(out@);
    let ghost f = end_finder(refs@, log);
    let mut i: usize = 0;
    assert(start + flat(0, f) =~= start);
    while i < refs.len()
        invariant
            i <= refs@.len(),
            f == end_finder(refs@, log),
            maps_refs(*by_name, refs@),
            maps_ends(*ends, log),
            finding_values(out@) == start + flat(i as nat, f),
        decreases refs@.len() - i,
    {
        let name = refs[i].name.as_str();
        let ghost here = finding_values(out@);
        let at = cat2("catalog:ref:", name);
        proof {
        }
        if let Some(r) = by_name.get(name) {
            match ends.get(name) {
                None => {
                    note_when(
                        out,
                        true,
                        "REFLOG_MISSING",
                        at.as_str(),
                        "current ref has no reflog entry",
                    );
                },
                Some(end) => {
                    let detail = cat4(
                        "current ref is ",
                        r.oid.hex().as_str(),
                        ", terminal reflog new_oid is ",
                        end.oid.hex().as_str(),
                    );
                    let apart = !end.oid.same(&r.oid);
                    note_when(out, apart, "REFLOG_TERMINAL", at.as_str(), detail.as_str());
                },
            }
        }
        proof {
            assert(finding_values(out@) =~= here + end_findings(refs@, log, name@));
            lemma_flat_next(start, i as nat, f);
        }
        i += 1;
    }
}

fn audit_orphans(
    out: &mut Vec<CatalogFinding>,
    log: &Vec<LogRecord>,
    by_name: &TextMap<RefRow>,
    ends: &TextMap<LogEnd>,
    Ghost(refs): Ghost<Seq<RefRecord>>,
)
    requires
        maps_refs(*by_name, refs),
        maps_ends(*ends, log@),
    ensures
        finding_values(final(out)@) == finding_values(old(out)@) + flat(
            log@.len(),
            orphan_finder(refs, log@),
        ),
{
    let ghost start = finding_values(out@);
    let ghost f = orphan_finder(refs, log@);
    let mut i: usize = 0;
    assert(start + flat(0, f) =~= start);
    while i < log.len()
        invariant
            i <= log@.len(),
            f == orphan_finder(refs, log@),
            maps_refs(*by_name, refs),
            maps_ends(*ends, log@),
            finding_values(out@) == start + flat(i as nat, f),
        decreases log@.len() - i,
    {
        let name = log[i].name.as_str();
        proof {
        }
        let retired = match ends.get(name) {
            Some(end) => text_eq(end.reason.as_str(), "abandon"),
            None => false,
        };
        let at = cat2("catalog:reflog:", name);
        let orphan = !by_name.contains(name) && !retired;
        note_when(out, orphan, "REFLOG_ORPHAN", at.as_str(), "reflog name has no current ref");
        proof {
            lemma_flat_next(start, i as nat, f);
        }
        i += 1;
    }
}

fn audit_log(
    out: &mut Vec<CatalogFinding>,
    refs: &Vec<RefRecord>,
    by_name: &TextMap<RefRow>,
    log: &Vec<LogRecord>,
)
    requires
        maps_refs(*by_name, refs@),
    ensures
        finding_values(final(out)@) == finding_values(old(out)@) + log_findings(refs@, log@),
{
    let ghost start = finding_values(out@);
    if audit_log_oids(out, log) {
        let ends = audit_chains(out, log);
        audit_ends(out, refs, by_name, &ends, Ghost(log@));
        audit_orphans(out, log, by_name, &ends, Ghost(refs@));
    }
    assert(finding_values(out@) =~= start + log_findings(refs@, log@));
}

pub open spec fn ns_resource(id: Seq<char>) -> Seq<char> {
    "catalog:namespace:"@ + id
}

/// What is found of the ref that a session follows.
pub open spec fn live_findings(r: NsRecord, refs: Seq<RefRecord>) -> Seq<Finding> {
    let at = ns_resource(r.id@);
    match r.live_ref {
        Some(live) => match ref_at(refs, live@) {
            Some(f) => when(
                f.kind != "commit"@,
                finding(
                    "NS_LIVE_TYPE"@,
                    at,
                    "live ref "@ + live@ + " is "@ + f.kind + ", expected commit"@,
                ),
            ),
            None => seq![finding("NS_LIVE_REF"@, at, "missing live ref "@ + live@)],
        },
        None => Seq::empty(),
    }
}

/// What is found of a session. The ref that it follows is looked up only where all
/// refs could be decoded.
pub open spec fn ns_findings(r: NsRecord, refs: Seq<RefRecord>, refs_ok: bool) -> Seq<Finding> {
    let at = ns_resource(r.id@);
    (match r.pinned_oid {
        Some(b) => oid_findings(b@, at, "pinned_oid"@),
        None => seq![finding("NS_PIN"@, at, "namespace has no pinned commit"@)],
    }) + if refs_ok {
        live_findings(r, refs)
    } else {
        Seq::empty()
    }
}

pub open spec fn ns_roots(r: NsRecord) -> Seq<Root> {
    match optional_oid(r.pinned_oid) {
        Some(oid) => seq![
            Root {
                oid,
                expected: CatalogObjectExpectation::Exact(ObjectType::Commit),
                resource: "namespace:"@ + r.id@ + ":pin"@,
            },
        ],
        None => Seq::empty(),
    }
}

/// A session, as an audit hands it on.
pub ghost struct NsFact {
    pub id: Seq<char>,
    pub pinned_oid: Option<ObjectId>,
    pub live_ref: Option<Seq<char>>,
}

impl View for CatalogNamespaceRow {
    type V = NsFact;

    open spec fn view(&self) -> NsFact {
        NsFact { id: self.id@, pinned_oid: self.pinned_oid, live_ref: text_in(self.live_ref) }
    }
}

pub open spec fn ns_fact(r: NsRecord) -> NsFact {
    NsFact { id: r.id@, pinned_oid: optional_oid(r.pinned_oid), live_ref: text_in(r.live_ref) }
}

/// The sessions of the rows, one for one.
pub open spec fn ns_facts(rows: Seq<NsRecord>) -> Seq<NsFact> {
    Seq::new(rows.len(), |i: int| ns_fact(rows[i]))
}

pub open spec fn ns_finder(
    rows: Seq<NsRecord>,
    refs: Seq<RefRecord>,
    refs_ok: bool,
) -> spec_fn(int) -> Seq<Finding> {
    |i: int| ns_findings(rows[i], refs, refs_ok)
}

pub open spec fn ns_rooter(rows: Seq<NsRecord>) -> spec_fn(int) -> Seq<Root> {
    |i: int| ns_roots(rows[i])
}

/// There is a session of this name.
pub open spec fn has_ns(rows: Seq<NsRecord>, id: Seq<char>) -> bool {
    exists|i: int| 0 <= i < rows.len() && (#[trigger] rows[i]).id@ == id
}

spec fn holds_ids(m: TextMap<bool>, rows: Seq<NsRecord>) -> bool {
    forall|id: Seq<char>| #[trigger] m.has(id) <==> has_ns(rows, id)
}

fn audit_ns(
    findings: &mut Vec<CatalogFinding>,
    roots: &mut Vec<CatalogObjectRoot>,
    r: &NsRecord,
    by_name: &TextMap<RefRow>,
    refs_ok: bool,
    Ghost(refs): Ghost<Seq<RefRecord>>,
) -> (row: CatalogNamespaceRow)
    requires
        refs_ok ==> maps_refs(*by_name, refs),
    ensures
        row@ == ns_fact(*r),
        finding_values(final(findings)@) == finding_values(old(findings)@) + ns_findings(
            *r,
            refs,
            refs_ok,
        ),
        root_values(final(roots)@) == root_values(old(roots)@) + ns_roots(*r),
{
    let ghost start = finding_values(findings@);
    let ghost r0 = root_values(roots@);
    let at = cat2("catalog:namespace:", r.id.as_str());
    let pinned = check_optional_oid(findings, &r.pinned_oid, at.as_str(), "pinned_oid");
    note_when(
        findings,
        r.pinned_oid.is_none(),
        "NS_PIN",
        at.as_str(),
        "namespace has no pinned commit",
    );
    match pinned {
        Some(oid) => {
            add_root(
                roots,
                oid,
                CatalogObjectExpectation::Exact(ObjectType::Commit),
                cat3("namespace:", r.id.as_str(), ":pin"),
            );
        },
        None => {
            assert(root_values(roots@) =~= r0 + ns_roots(*r));
        },
    }
    let ghost pin = finding_values(findings@);
    proof {
        assert(pin =~= start + (match r.pinned_oid {
            Some(b) => oid_findings(b@, at@, "pinned_oid"@),
            None => seq![finding("NS_PIN"@, at@, "namespace has no pinned commit"@)],
        }));
    }
    if refs_ok {
        if let Some(live) = &r.live_ref {
            match by_name.get(live.as_str()) {
                Some(f) => {
                    let detail = cat5(
                        "live ref ",
                        live.as_str(),
                        " is ",
                        f.kind.as_str(),
                        ", expected commit",
                    );
                    let wrong = !text_eq(f.kind.as_str(), "commit");
                    note_when(findings, wrong, "NS_LIVE_TYPE", at.as_str(), detail.as_str());
                },
                None => {
                    let detail = cat2("missing live ref ", live.as_str());
                    note_when(findings, true, "NS_LIVE_REF", at.as_str(), detail.as_str());
                },
            }
        }
    }
    assert(finding_values(findings@) =~= start + ns_findings(*r, refs, refs_ok));
    CatalogNamespaceRow {
        id: r.id.clone(),
        pinned_oid: pinned,
        live_ref: match &r.live_ref {
            Some(s) => Some(s.clone()),
            None => None,
        },
    }
}

fn audit_namespaces(
    findings: &mut Vec<CatalogFinding>,
    roots: &mut Vec<CatalogObjectRoot>,
    rows: &Vec<NsRecord>,
    by_name: &TextMap<RefRow>,
    refs_ok: bool,
    Ghost(refs): Ghost<Seq<RefRecord>>,
) -> (r: (Vec<CatalogNamespaceRow>, TextMap<bool>))
    requires
        refs_ok ==> maps_refs(*by_name, refs),
    ensures
        lines(r.0@) == ns_facts(rows@),
        holds_ids(r.1, rows@),
        finding_values(final(findings)@) == finding_values(old(findings)@) + flat(
            rows@.len(),
            ns_finder(rows@, refs, refs_ok),
        ),
        root_values(final(roots)@) == root_values(old(roots)@) + flat(
            rows@.len(),
            ns_rooter(rows@),
        ),
{
    let ghost f0 = finding_values(findings@);
    let ghost r0 = root_values(roots@);
    let ghost f = ns_finder(rows@, refs, refs_ok);
    let ghost g = ns_rooter(rows@);
    let mut list: Vec<CatalogNamespaceRow> = Vec::new();
    let mut ids: TextMap<bool> = TextMap::new();
    let mut i: usize = 0;
    proof {
        assert(f0 + flat(0, f) =~= f0);
        assert(r0 + flat(0, g) =~= r0);
    }
    while i < rows.len()
        invariant
            i <= rows@.len(),
            f == ns_finder(rows@, refs, refs_ok),
            g == ns_rooter(rows@),
            refs_ok ==> maps_refs(*by_name, refs),
            finding_values(findings@) == f0 + flat(i as nat, f),
            root_values(roots@) == r0 + flat(i as nat, g),
            list@.len() == i,
            forall|j: int| 0 <= j < i ==> (#[trigger] list@[j])@ == ns_fact(rows@[j]),
            holds_ids(ids, rows@.take(i as int)),
        decreases rows@.len() - i,
    {
        let r = &rows[i];
        let ghost ids0 = ids;
        let row = audit_ns(findings, roots, r, by_name, refs_ok, Ghost(refs));
        proof {
            lemma_flat_next(f0, i as nat, f);
            lemma_flat_next(r0, i as nat, g);
        }
        list.push(row);
        ids.insert(r.id.clone(), true);
        proof {
            let here = rows@.take(i as int);
            let next = rows@.take(i + 1);
            assert forall|id: Seq<char>| #[trigger] ids.has(id) <==> has_ns(next, id) by {
                if has_ns(here, id) {
                    let j = choose|j: int| 0 <= j < here.len() && (#[trigger] here[j]).id@ == id;
                    assert(next[j] == here[j]);
                }
                if id == r.id@ {
                    assert(next[i as int].id@ == id);
                }
                if has_ns(next, id) && id != r.id@ {
                    let j = choose|j: int| 0 <= j < next.len() && (#[trigger] next[j]).id@ == id;
                    assert(here[j] == next[j]);
                }
                assert(ids0.has(id) <==> has_ns(here, id));
            }
        }
        i += 1;
    }
    proof {
        assert(rows@.take(i as int) =~= rows@);
        assert(lines(list@) =~= ns_facts(rows@));
    }
    (list, ids)
}

/// There is a mount of a session at a path.
pub open spec fn has_mount(rows: Seq<MountRecord>, ns: Seq<char>, path: Seq<char>) -> bool {
    exists|i: int|
        0 <= i < rows.len() && (#[trigger] rows[i]).ns_id@ == ns && rows[i].path@ == path
}

spec fn holds_mounts(m: TextMap<TextMap<bool>>, rows: Seq<MountRecord>) -> bool {
    forall|ns: Seq<char>, path: Seq<char>| #[trigger]
        has_mount(rows, ns, path) <==> (m.has(ns) && m.at(ns).has(path))
}

/// A mount may only be of a session that is there, where the sessions are known.
pub open spec fn mount_findings(r: MountRecord, namespaces: Option<Seq<NsRecord>>) -> Seq<Finding> {
    when(
        namespaces matches Some(rows) && !has_ns(rows, r.ns_id@),
        finding(
            "MOUNT_NAMESPACE"@,
            "catalog:mount:"@ + r.ns_id@ + ":"@ + r.path@,
            "mount refers to a missing namespace"@,
        ),
    )
}

pub open spec fn mount_finder(
    rows: Seq<MountRecord>,
    namespaces: Option<Seq<NsRecord>>,
) -> spec_fn(int) -> Seq<Finding> {
    |i: int| mount_findings(rows[i], namespaces)
}

/// A mount, as an audit hands it on.
pub ghost struct MountFact {
    pub ns_id: Seq<char>,
    pub path: Seq<char>,
    pub spec: Seq<char>,
    pub mode: Seq<char>,
}

pub open spec fn mount_fact(r: MountRecord) -> MountFact {
    MountFact { ns_id: r.ns_id@, path: r.path@, spec: r.spec@, mode: r.mode@ }
}

/// The mounts of the rows, one for one.
pub open spec fn mount_facts(rows: Seq<MountRecord>) -> Seq<MountFact> {
    Seq::new(rows.len(), |i: int| mount_fact(rows[i]))
}

impl View for CatalogMountRow {
    type V = MountFact;

    open spec fn view(&self) -> MountFact {
        MountFact {
            ns_id: self.ns_id@,
            path: self.path@,
            spec: self.spec@,
            mode: self.mode@,
        }
    }
}

/// What is known of the sessions and of their mounts, each where its table is
/// clean.
struct Places {
    ns_clean: bool,
    ids: TextMap<bool>,
    mounts_clean: bool,
    keys: TextMap<TextMap<bool>>,
}

spec fn knows(
    p: Places,
    namespaces: Option<Seq<NsRecord>>,
    mounts: Option<Seq<MountRecord>>,
) -> bool {
    &&& p.ns_clean == (namespaces is Some)
    &&& p.mounts_clean == (mounts is Some)
    &&& namespaces matches Some(rows) ==> holds_ids(p.ids, rows)
    &&& mounts matches Some(rows) ==> holds_mounts(p.keys, rows)
}

fn add_mount(m: &mut TextMap<TextMap<bool>>, r: &MountRecord, Ghost(rows): Ghost<Seq<MountRecord>>)
    requires
        holds_mounts(*old(m), rows),
    ensures
        holds_mounts(*final(m), rows.push(*r)),
{
    let ghost m0 = *m;
    let mut inner = match m.remove(r.ns_id.as_str()) {
        Some(inner) => inner,
        None => TextMap::new(),
    };
    let ghost i0 = inner;
    inner.insert(r.path.clone(), true);
    m.insert(r.ns_id.clone(), inner);
    proof {
        let next = rows.push(*r);
        assert forall|ns: Seq<char>, path: Seq<char>| #[trigger] has_mount(next, ns, path) <==> (
        m.has(ns) && m.at(ns).has(path)) by {
            assert(has_mount(rows, ns, path) <==> (m0.has(ns) && m0.at(ns).has(path)));
            if has_mount(rows, ns, path) {
                let j = choose|j: int|
                    0 <= j < rows.len() && (#[trigger] rows[j]).ns_id@ == ns && rows[j].path@
                        == path;
                assert(next[j] == rows[j]);
            }
            if ns == r.ns_id@ && path == r.path@ {
                assert(next[rows.len() as int] == *r);
            }
            if has_mount(next, ns, path) && !(ns == r.ns_id@ && path == r.path@) {
                let j = choose|j: int|
                    0 <= j < next.len() && (#[trigger] next[j]).ns_id@ == ns && next[j].path@
                        == path;
                assert(rows[j] == next[j]);
            }
            if ns == r.ns_id@ {
                assert(m.at(ns).has(path) <==> i0.has(path) || path == r.path@);
            } else if m0.has(ns) {
                assert(m.at(ns) == m0.at(ns));
            }
        }
    }
}

fn audit_mounts(
    findings: &mut Vec<CatalogFinding>,
    rows: &Vec<MountRecord>,
    ns_clean: bool,
    ids: &TextMap<bool>,
    Ghost(namespaces): Ghost<Option<Seq<NsRecord>>>,
) -> (r: (Vec<CatalogMountRow>, TextMap<TextMap<bool>>))
    requires
        ns_clean == (namespaces is Some),
        namespaces matches Some(ns_rows) ==> holds_ids(*ids, ns_rows),
    ensures
        lines(r.0@) == mount_facts(rows@),
        holds_mounts(r.1, rows@),
        finding_values(final(findings)@) == finding_values(old(findings)@) + flat(
            rows@.len(),
            mount_finder(rows@, namespaces),
        ),
{
    let ghost f0 = finding_values(findings@);
    let ghost f = mount_finder(rows@, namespaces);
    let mut list: Vec<CatalogMountRow> = Vec::new();
    let mut keys: TextMap<TextMap<bool>> = TextMap::new();
    let mut i: usize = 0;
    proof {
        assert(f0 + flat(0, f) =~= f0);
    }
    while i < rows.len()
        invariant
            i <= rows@.len(),
            f == mount_finder(rows@, namespaces),
            ns_clean == (namespaces is Some),
            namespaces matches Some(ns_rows) ==> holds_ids(*ids, ns_rows),
            finding_values(findings@) == f0 + flat(i as nat, f),
            list@.len() == i,
            forall|j: int| 0 <= j < i ==> (#[trigger] list@[j])@ == mount_fact(rows@[j]),
            holds_mounts(keys, rows@.take(i as int)),
        decreases rows@.len() - i,
    {
        let r = &rows[i];
        let at = cat4("catalog:mount:", r.ns_id.as_str(), ":", r.path.as_str());
        let missing = ns_clean && !ids.contains(r.ns_id.as_str());
        note_when(
            findings,
            missing,
            "MOUNT_NAMESPACE",
            at.as_str(),
            "mount refers to a missing namespace",
        );
        proof {
            lemma_flat_next(f0, i as nat, f);
            assert(rows@.take(i + 1) =~= rows@.take(i as int).push(*r));
        }
        add_mount(&mut keys, r, Ghost(rows@.take(i as int)));
        list.push(
            CatalogMountRow {
                ns_id: r.ns_id.clone(),
                path: r.path.clone(),
                spec: r.spec.clone(),
                mode: r.mode.clone(),
            },
        );
        i += 1;
    }
    proof {
        assert(rows@.take(i as int) =~= rows@);
        assert(lines(list@) =~= mount_facts(rows@));
    }
    (list, keys)
}

/// A row of a session has to be of a session that is there, and then at one of its
/// mounts, each as far as it is known.
pub open spec fn place_findings(
    what: Seq<char>,
    lost_ns: Seq<char>,
    lost_mount: Seq<char>,
    at: Seq<char>,
    ns: Seq<char>,
    mount: Seq<char>,
    namespaces: Option<Seq<NsRecord>>,
    mounts: Option<Seq<MountRecord>>,
) -> Seq<Finding> {
    if namespaces matches Some(rows) && !has_ns(rows, ns) {
        seq![finding(lost_ns, at, what + " refers to a missing namespace"@)]
    } else {
        when(
            mounts matches Some(rows) && !has_mount(rows, ns, mount),
            finding(lost_mount, at, what + " refers to a missing mount"@),
        )
    }
}

fn audit_place(
    out: &mut Vec<CatalogFinding>,
    what: &str,
    lost_ns: &str,
    lost_mount: &str,
    at: &str,
    ns: &str,
    mount: &str,
    places: &Places,
    Ghost(namespaces): Ghost<Option<Seq<NsRecord>>>,
    Ghost(mounts): Ghost<Option<Seq<MountRecord>>>,
)
    requires
        knows(*places, namespaces, mounts),
    ensures
        finding_values(final(out)@) == finding_values(old(out)@) + place_findings(
            what@,
            lost_ns@,
            lost_mount@,
            at@,
            ns@,
            mount@,
            namespaces,
            mounts,
        ),
{
    if places.ns_clean && !places.ids.contains(ns) {
        let detail = cat2(what, " refers to a missing namespace");
        note_when(out, true, lost_ns, at, detail.as_str());
    } else {
        proof {
            if let Some(rows) = mounts {
            }
        }
        let there = match places.keys.get(ns) {
            Some(inner) => inner.contains(mount),
            None => false,
        };
        let detail = cat2(what, " refers to a missing mount");
        note_when(out, places.mounts_clean && !there, lost_mount, at, detail.as_str());
    }
}

pub open spec fn observation_resource(r: ObservationRecord) -> Seq<char> {
    "catalog:observation:"@ + r.ns_id@ + ":"@ + r.mount@ + ":"@ + r.path@
}

/// The type of the object that an observation names. One of nothing names none.
pub open spec fn observed_type(kind: Seq<char>) -> Option<ObjectType> {
    if kind == "blob"@ {
        Some(ObjectType::Blob)
    } else if kind == "tree"@ {
        Some(ObjectType::Tree)
    } else {
        None
    }
}

pub open spec fn observation_findings(
    r: ObservationRecord,
    namespaces: Option<Seq<NsRecord>>,
    mounts: Option<Seq<MountRecord>>,
) -> Seq<Finding> {
    place_findings(
        "observation"@,
        "OBSERVATION_NAMESPACE"@,
        "OBSERVATION_MOUNT"@,
        observation_resource(r),
        r.ns_id@,
        r.mount@,
        namespaces,
        mounts,
    ) + if observed_type(r.kind@) is Some {
        optional_oid_findings(r.oid, observation_resource(r), "oid"@)
    } else {
        Seq::empty()
    }
}

pub open spec fn observation_roots(r: ObservationRecord) -> Seq<Root> {
    match (observed_type(r.kind@), optional_oid(r.oid)) {
        (Some(t), Some(oid)) => seq![
            Root {
                oid,
                expected: CatalogObjectExpectation::Exact(t),
                resource: "namespace:"@ + r.ns_id@ + ":observation:"@ + r.mount@ + ":"@ + r.path@,
            },
        ],
        _ => Seq::empty(),
    }
}

pub open spec fn observation_finder(
    rows: Seq<ObservationRecord>,
    namespaces: Option<Seq<NsRecord>>,
    mounts: Option<Seq<MountRecord>>,
) -> spec_fn(int) -> Seq<Finding> {
    |i: int| observation_findings(rows[i], namespaces, mounts)
}

pub open spec fn observation_rooter(rows: Seq<ObservationRecord>) -> spec_fn(int) -> Seq<Root> {
    |i: int| observation_roots(rows[i])
}

fn audit_observation(
    findings: &mut Vec<CatalogFinding>,
    roots: &mut Vec<CatalogObjectRoot>,
    r: &ObservationRecord,
    places: &Places,
    Ghost(namespaces): Ghost<Option<Seq<NsRecord>>>,
    Ghost(mounts): Ghost<Option<Seq<MountRecord>>>,
)
    requires
        knows(*places, namespaces, mounts),
    ensures
        finding_values(final(findings)@) == finding_values(old(findings)@) + observation_findings(
            *r,
            namespaces,
            mounts,
        ),
        root_values(final(roots)@) == root_values(old(roots)@) + observation_roots(*r),
{
    let ghost f0 = finding_values(findings@);
    let ghost r0 = root_values(roots@);
    let at = cat6(
        "catalog:observation:",
        r.ns_id.as_str(),
        ":",
        r.mount.as_str(),
        ":",
        r.path.as_str(),
    );
    audit_place(
        findings,
        "observation",
        "OBSERVATION_NAMESPACE",
        "OBSERVATION_MOUNT",
        at.as_str(),
        r.ns_id.as_str(),
        r.mount.as_str(),
        places,
        Ghost(namespaces),
        Ghost(mounts),
    );
    let kind = r.kind.as_str();
    let expected = if text_eq(kind, "blob") {
        Some(ObjectType::Blob)
    } else if text_eq(kind, "tree") {
        Some(ObjectType::Tree)
    } else {
        None
    };
    if let Some(t) = expected {
        let oid = check_optional_oid(findings, &r.oid, at.as_str(), "oid");
        if let Some(id) = oid {
            add_root(
                roots,
                id,
                CatalogObjectExpectation::Exact(t),
                cat6(
                    "namespace:",
                    r.ns_id.as_str(),
                    ":observation:",
                    r.mount.as_str(),
                    ":",
                    r.path.as_str(),
                ),
            );
        }
    }
    proof {
        assert(finding_values(findings@) =~= f0 + observation_findings(*r, namespaces, mounts));
        assert(root_values(roots@) =~= r0 + observation_roots(*r));
    }
}

fn audit_observations(
    findings: &mut Vec<CatalogFinding>,
    roots: &mut Vec<CatalogObjectRoot>,
    rows: &Vec<ObservationRecord>,
    places: &Places,
    Ghost(namespaces): Ghost<Option<Seq<NsRecord>>>,
    Ghost(mounts): Ghost<Option<Seq<MountRecord>>>,
)
    requires
        knows(*places, namespaces, mounts),
    ensures
        finding_values(final(findings)@) == finding_values(old(findings)@) + flat(
            rows@.len(),
            observation_finder(rows@, namespaces, mounts),
        ),
        root_values(final(roots)@) == root_values(old(roots)@) + flat(
            rows@.len(),
            observation_rooter(rows@),
        ),
{
    let ghost f0 = finding_values(findings@);
    let ghost r0 = root_values(roots@);
    let ghost f = observation_finder(rows@, namespaces, mounts);
    let ghost g = observation_rooter(rows@);
    let mut i: usize = 0;
    proof {
        assert(f0 + flat(0, f) =~= f0);
        assert(r0 + flat(0, g) =~= r0);
    }
    while i < rows.len()
        invariant
            i <= rows@.len(),
            f == observation_finder(rows@, namespaces, mounts),
            g == observation_rooter(rows@),
            knows(*places, namespaces, mounts),
            finding_values(findings@) == f0 + flat(i as nat, f),
            root_values(roots@) == r0 + flat(i as nat, g),
        decreases rows@.len() - i,
    {
        audit_observation(
            findings,
            roots,
            &rows[i],
            places,
            Ghost(namespaces),
            Ghost(mounts),
        );
        proof {
            lemma_flat_next(f0, i as nat, f);
            lemma_flat_next(r0, i as nat, g);
        }
        i += 1;
    }
}

pub open spec fn overlay_resource(r: OverlayRecord) -> Seq<char> {
    "catalog:overlay:"@ + r.ns_id@ + ":"@ + r.mount@ + ":"@ + r.path@
}

pub open spec fn overlay_findings(
    r: OverlayRecord,
    namespaces: Option<Seq<NsRecord>>,
    mounts: Option<Seq<MountRecord>>,
) -> Seq<Finding> {
    place_findings(
        "overlay"@,
        "OVERLAY_NAMESPACE"@,
        "OVERLAY_MOUNT"@,
        overlay_resource(r),
        r.ns_id@,
        r.mount@,
        namespaces,
        mounts,
    ) + optional_oid_findings(r.blob_oid, overlay_resource(r), "blob_oid"@)
}

pub open spec fn overlay_roots(r: OverlayRecord) -> Seq<Root> {
    match optional_oid(r.blob_oid) {
        Some(oid) => seq![
            Root {
                oid,
                expected: CatalogObjectExpectation::Exact(ObjectType::Blob),
                resource: "namespace:"@ + r.ns_id@ + ":mount:"@ + r.mount@ + ":overlay:"@ + r.path@,
            },
        ],
        None => Seq::empty(),
    }
}

pub open spec fn overlay_finder(
    rows: Seq<OverlayRecord>,
    namespaces: Option<Seq<NsRecord>>,
    mounts: Option<Seq<MountRecord>>,
) -> spec_fn(int) -> Seq<Finding> {
    |i: int| overlay_findings(rows[i], namespaces, mounts)
}

pub open spec fn overlay_rooter(rows: Seq<OverlayRecord>) -> spec_fn(int) -> Seq<Root> {
    |i: int| overlay_roots(rows[i])
}

fn audit_staged(
    findings: &mut Vec<CatalogFinding>,
    roots: &mut Vec<CatalogObjectRoot>,
    r: &OverlayRecord,
    places: &Places,
    Ghost(namespaces): Ghost<Option<Seq<NsRecord>>>,
    Ghost(mounts): Ghost<Option<Seq<MountRecord>>>,
)
    requires
        knows(*places, namespaces, mounts),
    ensures
        finding_values(final(findings)@) == finding_values(old(findings)@) + overlay_findings(
            *r,
            namespaces,
            mounts,
        ),
        root_values(final(roots)@) == root_values(old(roots)@) + overlay_roots(*r),
{
    let ghost f0 = finding_values(findings@);
    let ghost r0 = root_values(roots@);
    let at = cat6(
        "catalog:overlay:",
        r.ns_id.as_str(),
        ":",
        r.mount.as_str(),
        ":",
        r.path.as_str(),
    );
    audit_place(
        findings,
        "overlay",
        "OVERLAY_NAMESPACE",
        "OVERLAY_MOUNT",
        at.as_str(),
        r.ns_id.as_str(),
        r.mount.as_str(),
        places,
        Ghost(namespaces),
        Ghost(mounts),
    );
    let oid = check_optional_oid(findings, &r.blob_oid, at.as_str(), "blob_oid");
    if let Some(id) = oid {
        add_root(
            roots,
            id,
            CatalogObjectExpectation::Exact(ObjectType::Blob),
            cat6(
                "namespace:",
                r.ns_id.as_str(),
                ":mount:",
                r.mount.as_str(),
                ":overlay:",
                r.path.as_str(),
            ),
        );
    }
    proof {
        assert(finding_values(findings@) =~= f0 + overlay_findings(*r, namespaces, mounts));
        assert(root_values(roots@) =~= r0 + overlay_roots(*r));
    }
}

fn audit_overlay(
    findings: &mut Vec<CatalogFinding>,
    roots: &mut Vec<CatalogObjectRoot>,
    rows: &Vec<OverlayRecord>,
    places: &Places,
    Ghost(namespaces): Ghost<Option<Seq<NsRecord>>>,
    Ghost(mounts): Ghost<Option<Seq<MountRecord>>>,
)
    requires
        knows(*places, namespaces, mounts),
    ensures
        finding_values(final(findings)@) == finding_values(old(findings)@) + flat(
            rows@.len(),
            overlay_finder(rows@, namespaces, mounts),
        ),
        root_values(final(roots)@) == root_values(old(roots)@) + flat(
            rows@.len(),
            overlay_rooter(rows@),
        ),
{
    let ghost f0 = finding_values(findings@);
    let ghost r0 = root_values(roots@);
    let ghost f = overlay_finder(rows@, namespaces, mounts);
    let ghost g = overlay_rooter(rows@);
    let mut i: usize = 0;
    proof {
        assert(f0 + flat(0, f) =~= f0);
        assert(r0 + flat(0, g) =~= r0);
    }
    while i < rows.len()
        invariant
            i <= rows@.len(),
            f == overlay_finder(rows@, namespaces, mounts),
            g == overlay_rooter(rows@),
            knows(*places, namespaces, mounts),
            finding_values(findings@) == f0 + flat(i as nat, f),
            root_values(roots@) == r0 + flat(i as nat, g),
        decreases rows@.len() - i,
    {
        audit_staged(findings, roots, &rows[i], places, Ghost(namespaces), Ghost(mounts));
        proof {
            lemma_flat_next(f0, i as nat, f);
            lemma_flat_next(r0, i as nat, g);
        }
        i += 1;
    }
}

pub open spec fn seal_resource(tag: Seq<char>) -> Seq<char> {
    "catalog:seal:"@ + tag
}

/// All three object ids of a seal could be decoded.
pub open spec fn seal_ok(r: SealRecord) -> bool {
    r.snap_oid@.len() == 32 && r.commit_oid@.len() == 32 && r.tree_oid@.len() == 32
}

/// A seal has to have its tag: a protected and sealed snapshot.
pub open spec fn seal_tag_findings(r: SealRecord, refs: Seq<RefRecord>) -> Seq<Finding> {
    let at = seal_resource(r.tag@);
    let tag_ref = "tags/"@ + r.tag@;
    let snap = object_id(r.snap_oid@);
    match ref_at(refs, tag_ref) {
        None => seq![finding("SEAL_TAG_REF"@, at, "missing sealed ref "@ + tag_ref)],
        Some(f) => when(
            f.oid != snap || f.kind != "snapshot"@ || !f.protected || !f.sealed,
            finding(
                "SEAL_TAG_REF"@,
                at,
                tag_ref + " must be protected+sealed snapshot "@ + hex_of(snap@),
            ),
        ),
    }
}

pub open spec fn seal_findings(r: SealRecord, refs: Seq<RefRecord>, refs_ok: bool) -> Seq<Finding> {
    let at = seal_resource(r.tag@);
    oid_findings(r.snap_oid@, at, "snap_oid"@) + oid_findings(r.commit_oid@, at, "commit_oid"@)
        + oid_findings(r.tree_oid@, at, "tree_oid"@) + if seal_ok(r) && refs_ok {
        seal_tag_findings(r, refs)
    } else {
        Seq::empty()
    }
}

pub open spec fn seal_roots(r: SealRecord) -> Seq<Root> {
    let at = seal_resource(r.tag@);
    if seal_ok(r) {
        seq![
            Root {
                oid: object_id(r.snap_oid@),
                expected: CatalogObjectExpectation::Exact(ObjectType::Snapshot),
                resource: at + ":snapshot"@,
            },
            Root {
                oid: object_id(r.commit_oid@),
                expected: CatalogObjectExpectation::Exact(ObjectType::Commit),
                resource: at + ":commit"@,
            },
            Root {
                oid: object_id(r.tree_oid@),
                expected: CatalogObjectExpectation::Exact(ObjectType::Tree),
                resource: at + ":tree"@,
            },
        ]
    } else {
        Seq::empty()
    }
}

/// A seal that could be decoded.
pub ghost struct SealFact {
    pub tag: Seq<char>,
    pub snap_oid: ObjectId,
    pub commit_oid: ObjectId,
    pub tree_oid: ObjectId,
}

impl View for SealRow {
    type V = SealFact;

    open spec fn view(&self) -> SealFact {
        SealFact {
            tag: self.tag@,
            snap_oid: self.snap_oid,
            commit_oid: self.commit_oid,
            tree_oid: self.tree_oid,
        }
    }
}

pub open spec fn seal_fact(r: SealRecord) -> Seq<SealFact> {
    if seal_ok(r) {
        seq![
            SealFact {
                tag: r.tag@,
                snap_oid: object_id(r.snap_oid@),
                commit_oid: object_id(r.commit_oid@),
                tree_oid: object_id(r.tree_oid@),
            },
        ]
    } else {
        Seq::empty()
    }
}

pub open spec fn seal_finder(
    rows: Seq<SealRecord>,
    refs: Seq<RefRecord>,
    refs_ok: bool,
) -> spec_fn(int) -> Seq<Finding> {
    |i: int| seal_findings(rows[i], refs, refs_ok)
}

pub open spec fn seal_rooter(rows: Seq<SealRecord>) -> spec_fn(int) -> Seq<Root> {
    |i: int| seal_roots(rows[i])
}

pub open spec fn seal_keeper(rows: Seq<SealRecord>) -> spec_fn(int) -> Seq<SealFact> {
    |i: int| seal_fact(rows[i])
}

/// There is a seal of this tag.
pub open spec fn has_seal(rows: Seq<SealRecord>, tag: Seq<char>) -> bool {
    exists|i: int| 0 <= i < rows.len() && (#[trigger] rows[i]).tag@ == tag
}

spec fn holds_tags(m: TextMap<bool>, rows: Seq<SealRecord>) -> bool {
    forall|tag: Seq<char>| #[trigger] m.has(tag) <==> has_seal(rows, tag)
}

fn audit_seal(
    findings: &mut Vec<CatalogFinding>,
    roots: &mut Vec<CatalogObjectRoot>,
    r: &SealRecord,
    by_name: &TextMap<RefRow>,
    refs_ok: bool,
    Ghost(refs): Ghost<Seq<RefRecord>>,
) -> (row: Option<SealRow>)
    requires
        refs_ok ==> maps_refs(*by_name, refs),
    ensures
        match row {
            Some(x) => seq![x@] == seal_fact(*r),
            None => seal_fact(*r) == Seq::<SealFact>::empty(),
        },
        finding_values(final(findings)@) == finding_values(old(findings)@) + seal_findings(
            *r,
            refs,
            refs_ok,
        ),
        root_values(final(roots)@) == root_values(old(roots)@) + seal_roots(*r),
{
    let ghost f0 = finding_values(findings@);
    let ghost r0 = root_values(roots@);
    let at = cat2("catalog:seal:", r.tag.as_str());
    let snap = check_oid(findings, &r.snap_oid, at.as_str(), "snap_oid");
    let commit = check_oid(findings, &r.commit_oid, at.as_str(), "commit_oid");
    let tree = check_oid(findings, &r.tree_oid, at.as_str(), "tree_oid");
    let ids = match (snap, commit, tree) {
        (Some(a), Some(b), Some(c)) => (a, b, c),
        _ => {
            proof {
                assert(!seal_ok(*r));
                assert(finding_values(findings@) =~= f0 + seal_findings(*r, refs, refs_ok));
                assert(root_values(roots@) =~= r0 + seal_roots(*r));
            }
            return None;
        },
    };
    add_root(
        roots,
        ids.0,
        CatalogObjectExpectation::Exact(ObjectType::Snapshot),
        cat2(at.as_str(), ":snapshot"),
    );
    add_root(
        roots,
        ids.1,
        CatalogObjectExpectation::Exact(ObjectType::Commit),
        cat2(at.as_str(), ":commit"),
    );
    add_root(
        roots,
        ids.2,
        CatalogObjectExpectation::Exact(ObjectType::Tree),
        cat2(at.as_str(), ":tree"),
    );
    if refs_ok {
        let tag_ref = cat2("tags/", r.tag.as_str());
        match by_name.get(tag_ref.as_str()) {
            None => {
                let detail = cat2("missing sealed ref ", tag_ref.as_str());
                note_when(findings, true, "SEAL_TAG_REF", at.as_str(), detail.as_str());
            },
            Some(f) => {
                let wrong = !f.oid.same(&ids.0) || !text_eq(f.kind.as_str(), "snapshot")
                    || !f.protected || !f.sealed;
                let detail = cat3(
                    tag_ref.as_str(),
                    " must be protected+sealed snapshot ",
                    ids.0.hex().as_str(),
                );
                note_when(findings, wrong, "SEAL_TAG_REF", at.as_str(), detail.as_str());
            },
        }
    }
    let row = SealRow {
        tag: r.tag.clone(),
        snap_oid: ids.0,
        commit_oid: ids.1,
        tree_oid: ids.2,
    };
    proof {
        assert(finding_values(findings@) =~= f0 + seal_findings(*r, refs, refs_ok));
        assert(root_values(roots@) =~= r0 + seal_roots(*r));
        assert(seq![row@] =~= seal_fact(*r));
    }
    Some(row)
}

fn audit_seals(
    findings: &mut Vec<CatalogFinding>,
    roots: &mut Vec<CatalogObjectRoot>,
    rows: &Vec<SealRecord>,
    by_name: &TextMap<RefRow>,
    refs_ok: bool,
    Ghost(refs): Ghost<Seq<RefRecord>>,
) -> (r: (Vec<SealRow>, TextMap<bool>))
    requires
        refs_ok ==> maps_refs(*by_name, refs),
    ensures
        lines(r.0@) == flat(rows@.len(), seal_keeper(rows@)),
        holds_tags(r.1, rows@),
        finding_values(final(findings)@) == finding_values(old(findings)@) + flat(
            rows@.len(),
            seal_finder(rows@, refs, refs_ok),
        ),
        root_values(final(roots)@) == root_values(old(roots)@) + flat(
            rows@.len(),
            seal_rooter(rows@),
        ),
{
    let ghost f0 = finding_values(findings@);
    let ghost r0 = root_values(roots@);
    let ghost f = seal_finder(rows@, refs, refs_ok);
    let ghost g = seal_rooter(rows@);
    let ghost h = seal_keeper(rows@);
    let mut list: Vec<SealRow> = Vec::new();
    let mut tags: TextMap<bool> = TextMap::new();
    let mut i: usize = 0;
    proof {
        assert(f0 + flat(0, f) =~= f0);
        assert(r0 + flat(0, g) =~= r0);
        assert(lines(list@) =~= flat(0, h));
    }
    while i < rows.len()
        invariant
            i <= rows@.len(),
            f == seal_finder(rows@, refs, refs_ok),
            g == seal_rooter(rows@),
            h == seal_keeper(rows@),
            refs_ok ==> maps_refs(*by_name, refs),
            finding_values(findings@) == f0 + flat(i as nat, f),
            root_values(roots@) == r0 + flat(i as nat, g),
            lines(list@) == flat(i as nat, h),
            holds_tags(tags, rows@.take(i as int)),
        decreases rows@.len() - i,
    {
        let r = &rows[i];
        let ghost tags0 = tags;
        let ghost before = lines(list@);
        let row = audit_seal(findings, roots, r, by_name, refs_ok, Ghost(refs));
        proof {
            lemma_flat_next(f0, i as nat, f);
            lemma_flat_next(r0, i as nat, g);
        }
        if let Some(x) = row {
            list.push(x);
        }
        proof {
            assert(lines(list@) =~= before + seal_fact(*r));
        }
        tags.insert(r.tag.clone(), true);
        proof {
            let here = rows@.take(i as int);
            let next = rows@.take(i + 1);
            assert forall|tag: Seq<char>| #[trigger] tags.has(tag) <==> has_seal(next, tag) by {
                if has_seal(here, tag) {
                    let j = choose|j: int| 0 <= j < here.len() && (#[trigger] here[j]).tag@ == tag;
                    assert(next[j] == here[j]);
                }
                if tag == r.tag@ {
                    assert(next[i as int].tag@ == tag);
                }
                if has_seal(next, tag) && tag != r.tag@ {
                    let j = choose|j: int| 0 <= j < next.len() && (#[trigger] next[j]).tag@ == tag;
                    assert(here[j] == next[j]);
                }
                assert(tags0.has(tag) <==> has_seal(here, tag));
            }
        }
        i += 1;
    }
    proof {
        assert(rows@.take(i as int) =~= rows@);
    }
    (list, tags)
}

/// The name of a tag without what tags start with, however often that stands there.
pub open spec fn bare_tag(name: Seq<char>) -> Seq<char>
    decreases name.len(),
{
    if "tags/"@.is_prefix_of(name) && name.len() >= 5 {
        bare_tag(name.skip(5))
    } else {
        name
    }
}

fn bare_tag_text(name: &str) -> (r: String)
    ensures
        r@ == bare_tag(name@),
{
    proof {
        reveal_strlit("tags/");
    }
    let mut rest = name.to_string();
    while starts_with(rest.as_str(), "tags/")
        invariant
            bare_tag(rest@) == bare_tag(name@),
            "tags/"@.len() == 5,
        decreases rest@.len(),
    {
        let cs = chars_of(rest.as_str());
        let next = text_of(slice_subrange(cs.as_slice(), 5, cs.len()));
        assert(next@ =~= rest@.skip(5));
        rest = next;
    }
    rest
}

/// A tag has to have its seal.
pub open spec fn tag_findings(name: Seq<char>, seals: Seq<SealRecord>) -> Seq<Finding> {
    when(
        "tags/"@.is_prefix_of(name) && !has_seal(seals, bare_tag(name)),
        finding("SEAL_ROW"@, ref_resource(name), "sealed tag ref has no seals row"@),
    )
}

pub open spec fn tag_finder(refs: Seq<RefRecord>, seals: Seq<SealRecord>) -> spec_fn(int) -> Seq<
    Finding,
> {
    |i: int| tag_findings(refs[i].name@, seals)
}

fn audit_tags(
    out: &mut Vec<CatalogFinding>,
    refs: &Vec<RefRecord>,
    tags: &TextMap<bool>,
    Ghost(seals): Ghost<Seq<SealRecord>>,
)
    requires
        holds_tags(*tags, seals),
    ensures
        finding_values(final(out)@) == finding_values(old(out)@) + flat(
            refs@.len(),
            tag_finder(refs@, seals),
        ),
{
    let ghost start = finding_values(out@);
    let ghost f = tag_finder(refs@, seals);
    let mut i: usize = 0;
    assert(start + flat(0, f) =~= start);
    while i < refs.len()
        invariant
            i <= refs@.len(),
            f == tag_finder(refs@, seals),
            holds_tags(*tags, seals),
            finding_values(out@) == start + flat(i as nat, f),
        decreases refs@.len() - i,
    {
        let name = refs[i].name.as_str();
        let at = cat2("catalog:ref:", name);
        let bare = bare_tag_text(name);
        let lost = starts_with(name, "tags/") && !tags.contains(bare.as_str());
        note_when(out, lost, "SEAL_ROW", at.as_str(), "sealed tag ref has no seals row");
        proof {
            lemma_flat_next(start, i as nat, f);
        }
        i += 1;
    }
}

pub open spec fn landmark_resource(r: LandmarkRecord) -> Seq<char> {
    "catalog:landmark:"@ + hex_of(r.oid@)
}

pub open spec fn landmark_findings(r: LandmarkRecord) -> Seq<Finding> {
    let at = landmark_resource(r);
    oid_findings(r.oid@, at, "oid"@) + when(
        r.oid@.len() == 32 && object_kind(r.kind@) is None,
        finding("LANDMARK_KIND"@, at, "unknown landmark kind "@ + r.kind@),
    )
}

pub open spec fn landmark_roots(r: LandmarkRecord) -> Seq<Root> {
    match oid_in(r.oid@) {
        Some(oid) => seq![
            Root {
                oid,
                expected: match object_kind(r.kind@) {
                    Some(t) => CatalogObjectExpectation::Exact(t),
                    None => CatalogObjectExpectation::Any,
                },
                resource: landmark_resource(r),
            },
        ],
        None => Seq::empty(),
    }
}

pub open spec fn landmark_finder(rows: Seq<LandmarkRecord>) -> spec_fn(int) -> Seq<Finding> {
    |i: int| landmark_findings(rows[i])
}

pub open spec fn landmark_rooter(rows: Seq<LandmarkRecord>) -> spec_fn(int) -> Seq<Root> {
    |i: int| landmark_roots(rows[i])
}

/// The kind that an object is a landmark of: that of the last row of it.
pub open spec fn landmark_kind(rows: Seq<LandmarkRecord>, id: ObjectId) -> Option<Seq<char>>
    decreases rows.len(),
{
    if rows.len() == 0 {
        None
    } else if oid_in(rows.last().oid@) == Some(id) {
        Some(rows.last().kind@)
    } else {
        landmark_kind(rows.drop_last(), id)
    }
}

spec fn maps_landmarks(m: IdMap<String>, rows: Seq<LandmarkRecord>) -> bool {
    forall|id: ObjectId| #[trigger]
        landmark_kind(rows, id) == (if m.has(id) {
            Some(m.at(id)@)
        } else {
            None
        })
}

fn audit_landmark(
    findings: &mut Vec<CatalogFinding>,
    roots: &mut Vec<CatalogObjectRoot>,
    r: &LandmarkRecord,
) -> (oid: Option<ObjectId>)
    ensures
        oid == oid_in(r.oid@),
        finding_values(final(findings)@) == finding_values(old(findings)@) + landmark_findings(*r),
        root_values(final(roots)@) == root_values(old(roots)@) + landmark_roots(*r),
{
    let ghost f0 = finding_values(findings@);
    let ghost r0 = root_values(roots@);
    let at = cat2("catalog:landmark:", hex_encode(r.oid.as_slice()).as_str());
    let oid = check_oid(findings, &r.oid, at.as_str(), "oid");
    let known = catalog_object_type(r.kind.as_str());
    let detail = cat2("unknown landmark kind ", r.kind.as_str());
    note_when(
        findings,
        oid.is_some() && known.is_none(),
        "LANDMARK_KIND",
        at.as_str(),
        detail.as_str(),
    );
    if let Some(id) = oid {
        let expected = match known {
            Some(t) => CatalogObjectExpectation::Exact(t),
            None => CatalogObjectExpectation::Any,
        };
        add_root(roots, id, expected, at);
    }
    proof {
        assert(finding_values(findings@) =~= f0 + landmark_findings(*r));
        assert(root_values(roots@) =~= r0 + landmark_roots(*r));
    }
    oid
}

fn audit_landmarks(
    findings: &mut Vec<CatalogFinding>,
    roots: &mut Vec<CatalogObjectRoot>,
    rows: &Vec<LandmarkRecord>,
) -> (m: IdMap<String>)
    ensures
        maps_landmarks(m, rows@),
        finding_values(final(findings)@) == finding_values(old(findings)@) + flat(
            rows@.len(),
            landmark_finder(rows@),
        ),
        root_values(final(roots)@) == root_values(old(roots)@) + flat(
            rows@.len(),
            landmark_rooter(rows@),
        ),
{
    let ghost f0 = finding_values(findings@);
    let ghost r0 = root_values(roots@);
    let ghost f = landmark_finder(rows@);
    let ghost g = landmark_rooter(rows@);
    let mut m: IdMap<String> = IdMap::new();
    let mut i: usize = 0;
    proof {
        assert(f0 + flat(0, f) =~= f0);
        assert(r0 + flat(0, g) =~= r0);
        assert(rows@.take(0) =~= Seq::empty());
        assert forall|id: ObjectId| !m.has(id) by {}
    }
    while i < rows.len()
        invariant
            i <= rows@.len(),
            f == landmark_finder(rows@),
            g == landmark_rooter(rows@),
            finding_values(findings@) == f0 + flat(i as nat, f),
            root_values(roots@) == r0 + flat(i as nat, g),
            maps_landmarks(m, rows@.take(i as int)),
            ids_differ(m.pairs()),
        decreases rows@.len() - i,
    {
        let r = &rows[i];
        let ghost m0 = m;
        let ghost here = rows@.take(i as int);
        let ghost next = rows@.take(i + 1);
        proof {
            assert(next.drop_last() =~= here);
            assert(next.last() == *r);
        }
        let oid = audit_landmark(findings, roots, r);
        proof {
            lemma_flat_next(f0, i as nat, f);
            lemma_flat_next(r0, i as nat, g);
        }
        if let Some(id) = oid {
            let kind = r.kind.clone();
            m.insert(id, kind);
            proof {
                lemma_insert(m0, m, id, kind);
            }
        }
        proof {
            assert forall|id: ObjectId| #[trigger] landmark_kind(next, id) == (if m.has(id) {
                Some(m.at(id)@)
            } else {
                None
            }) by {
                assert(landmark_kind(here, id) == (if m0.has(id) {
                    Some(m0.at(id)@)
                } else {
                    None
                }));
            }
        }
        i += 1;
    }
    assert(rows@.take(i as int) =~= rows@);
    m
}

/// The landmarks that a seal has to have, and has not.
pub open spec fn missing_landmarks(r: SealRecord, landmarks: Seq<LandmarkRecord>) -> Seq<char> {
    let snap = object_id(r.snap_oid@);
    let commit = object_id(r.commit_oid@);
    let no_snap = landmark_kind(landmarks, snap) != Some("snapshot"@);
    let no_commit = landmark_kind(landmarks, commit) != Some("commit"@);
    if no_snap && no_commit {
        "snapshot landmark "@ + hex_of(snap@) + " and commit landmark "@ + hex_of(commit@)
    } else if no_snap {
        "snapshot landmark "@ + hex_of(snap@)
    } else if no_commit {
        "commit landmark "@ + hex_of(commit@)
    } else {
        Seq::empty()
    }
}

/// The snapshot and the commit of a seal have to be landmarks.
pub open spec fn seal_landmark_findings(
    r: SealRecord,
    landmarks: Seq<LandmarkRecord>,
) -> Seq<Finding> {
    when(
        seal_ok(r) && (landmark_kind(landmarks, object_id(r.snap_oid@)) != Some("snapshot"@)
            || landmark_kind(landmarks, object_id(r.commit_oid@)) != Some("commit"@)),
        finding(
            "SEAL_LANDMARK"@,
            seal_resource(r.tag@),
            "missing or mistyped "@ + missing_landmarks(r, landmarks),
        ),
    )
}

pub open spec fn seal_landmark_finder(
    seals: Seq<SealRecord>,
    landmarks: Seq<LandmarkRecord>,
) -> spec_fn(int) -> Seq<Finding> {
    |i: int| seal_landmark_findings(seals[i], landmarks)
}

fn is_landmark(
    m: &IdMap<String>,
    id: &ObjectId,
    kind: &str,
    Ghost(rows): Ghost<Seq<LandmarkRecord>>,
) -> (r: bool)
    requires
        maps_landmarks(*m, rows),
    ensures
        r == (landmark_kind(rows, *id) == Some(kind@)),
{
    match m.get(id) {
        Some(k) => text_eq(k.as_str(), kind),
        None => false,
    }
}

fn audit_seal_landmark(
    out: &mut Vec<CatalogFinding>,
    r: &SealRecord,
    m: &IdMap<String>,
    Ghost(landmarks): Ghost<Seq<LandmarkRecord>>,
)
    requires
        maps_landmarks(*m, landmarks),
    ensures
        finding_values(final(out)@) == finding_values(old(out)@) + seal_landmark_findings(
            *r,
            landmarks,
        ),
{
    if r.snap_oid.len() != 32 || r.commit_oid.len() != 32 || r.tree_oid.len() != 32 {
        assert(finding_values(out@) =~= finding_values(out@) + seal_landmark_findings(
            *r,
            landmarks,
        ));
        return;
    }
    let snap = ObjectId::from_slice(r.snap_oid.as_slice());
    let commit = ObjectId::from_slice(r.commit_oid.as_slice());
    proof {
        lemma_object_id(snap);
        lemma_object_id(commit);
    }
    let no_snap = !is_landmark(m, &snap, "snapshot", Ghost(landmarks));
    let no_commit = !is_landmark(m, &commit, "commit", Ghost(landmarks));
    let missing = if no_snap && no_commit {
        cat4(
            "snapshot landmark ",
            snap.hex().as_str(),
            " and commit landmark ",
            commit.hex().as_str(),
        )
    } else if no_snap {
        cat2("snapshot landmark ", snap.hex().as_str())
    } else if no_commit {
        cat2("commit landmark ", commit.hex().as_str())
    } else {
        String::new()
    };
    let at = cat2("catalog:seal:", r.tag.as_str());
    let detail = cat2("missing or mistyped ", missing.as_str());
    note_when(out, no_snap || no_commit, "SEAL_LANDMARK", at.as_str(), detail.as_str());
}

fn audit_seal_landmarks(
    out: &mut Vec<CatalogFinding>,
    seals: &Vec<SealRecord>,
    m: &IdMap<String>,
    Ghost(landmarks): Ghost<Seq<LandmarkRecord>>,
)
    requires
        maps_landmarks(*m, landmarks),
    ensures
        finding_values(final(out)@) == finding_values(old(out)@) + flat(
            seals@.len(),
            seal_landmark_finder(seals@, landmarks),
        ),
{
    let ghost start = finding_values(out@);
    let ghost f = seal_landmark_finder(seals@, landmarks);
    let mut i: usize = 0;
    assert(start + flat(0, f) =~= start);
    while i < seals.len()
        invariant
            i <= seals@.len(),
            f == seal_landmark_finder(seals@, landmarks),
            maps_landmarks(*m, landmarks),
            finding_values(out@) == start + flat(i as nat, f),
        decreases seals@.len() - i,
    {
        audit_seal_landmark(out, &seals[i], m, Ghost(landmarks));
        proof {
            lemma_flat_next(start, i as nat, f);
        }
        i += 1;
    }
}

pub open spec fn intro_resource(r: IntroRecord) -> Seq<char> {
    "catalog:object_intro:"@ + hex_of(r.oid@)
}

pub open spec fn intro_findings(r: IntroRecord) -> Seq<Finding> {
    oid_findings(r.oid@, intro_resource(r), "oid"@) + oid_findings(
        r.commit_oid@,
        intro_resource(r),
        "commit_oid"@,
    )
}

pub open spec fn intro_roots(r: IntroRecord) -> Seq<Root> {
    (match oid_in(r.oid@) {
        Some(oid) => seq![
            Root {
                oid,
                expected: CatalogObjectExpectation::TreeEntry,
                resource: intro_resource(r),
            },
        ],
        None => Seq::empty(),
    }) + (match oid_in(r.commit_oid@) {
        Some(oid) => seq![
            Root {
                oid,
                expected: CatalogObjectExpectation::Exact(ObjectType::Commit),
                resource: intro_resource(r) + ":commit"@,
            },
        ],
        None => Seq::empty(),
    })
}

pub open spec fn intro_finder(rows: Seq<IntroRecord>) -> spec_fn(int) -> Seq<Finding> {
    |i: int| intro_findings(rows[i])
}

pub open spec fn intro_rooter(rows: Seq<IntroRecord>) -> spec_fn(int) -> Seq<Root> {
    |i: int| intro_roots(rows[i])
}

fn audit_intro(
    findings: &mut Vec<CatalogFinding>,
    roots: &mut Vec<CatalogObjectRoot>,
    r: &IntroRecord,
)
    ensures
        finding_values(final(findings)@) == finding_values(old(findings)@) + intro_findings(*r),
        root_values(final(roots)@) == root_values(old(roots)@) + intro_roots(*r),
{
    let ghost f0 = finding_values(findings@);
    let ghost r0 = root_values(roots@);
    let at = cat2("catalog:object_intro:", hex_encode(r.oid.as_slice()).as_str());
    let oid = check_oid(findings, &r.oid, at.as_str(), "oid");
    let commit = check_oid(findings, &r.commit_oid, at.as_str(), "commit_oid");
    if let Some(id) = oid {
        add_root(
            roots,
            id,
            CatalogObjectExpectation::TreeEntry,
            cat2("catalog:object_intro:", hex_encode(r.oid.as_slice()).as_str()),
        );
    }
    if let Some(id) = commit {
        add_root(
            roots,
            id,
            CatalogObjectExpectation::Exact(ObjectType::Commit),
            cat2(at.as_str(), ":commit"),
        );
    }
    proof {
        assert(finding_values(findings@) =~= f0 + intro_findings(*r));
        assert(root_values(roots@) =~= r0 + intro_roots(*r));
    }
}

fn audit_intros(
    findings: &mut Vec<CatalogFinding>,
    roots: &mut Vec<CatalogObjectRoot>,
    rows: &Vec<IntroRecord>,
)
    ensures
        finding_values(final(findings)@) == finding_values(old(findings)@) + flat(
            rows@.len(),
            intro_finder(rows@),
        ),
        root_values(final(roots)@) == root_values(old(roots)@) + flat(
            rows@.len(),
            intro_rooter(rows@),
        ),
{
    let ghost f0 = finding_values(findings@);
    let ghost r0 = root_values(roots@);
    let ghost f = intro_finder(rows@);
    let ghost g = intro_rooter(rows@);
    let mut i: usize = 0;
    proof {
        assert(f0 + flat(0, f) =~= f0);
        assert(r0 + flat(0, g) =~= r0);
    }
    while i < rows.len()
        invariant
            i <= rows@.len(),
            f == intro_finder(rows@),
            g == intro_rooter(rows@),
            finding_values(findings@) == f0 + flat(i as nat, f),
            root_values(roots@) == r0 + flat(i as nat, g),
        decreases rows@.len() - i,
    {
        audit_intro(findings, roots, &rows[i]);
        proof {
            lemma_flat_next(f0, i as nat, f);
            lemma_flat_next(r0, i as nat, g);
        }
        i += 1;
    }
}

/// A finding stands before another by its code, then by its resource, then by its
/// detail.
pub open spec fn finding_before(a: Finding, b: Finding) -> bool {
    ||| text_before(a.code, b.code)
    ||| a.code == b.code && text_before(a.resource, b.resource)
    ||| a.code == b.code && a.resource == b.resource && text_before(a.detail, b.detail)
}

proof fn lemma_finding_order(a: Finding, b: Finding, c: Finding)
    ensures
        !finding_before(a, b) || !finding_before(b, a),
        !finding_before(b, a) && !finding_before(c, b) ==> !finding_before(c, a),
        !finding_before(a, b) && !finding_before(b, a) ==> a == b,
{
    lemma_text_le(a.code, b.code, c.code);
    lemma_text_le(b.code, c.code, a.code);
    lemma_text_le(c.code, a.code, b.code);
    lemma_text_le(b.code, a.code, c.code);
    lemma_text_le(a.resource, b.resource, c.resource);
    lemma_text_le(b.resource, c.resource, a.resource);
    lemma_text_le(c.resource, a.resource, b.resource);
    lemma_text_le(b.resource, a.resource, c.resource);
    lemma_text_le(a.detail, b.detail, c.detail);
    lemma_text_le(b.detail, c.detail, a.detail);
    lemma_text_le(c.detail, a.detail, b.detail);
    lemma_text_le(b.detail, a.detail, c.detail);
}

impl Sortable for CatalogFinding {
    open spec fn le(self, other: Self) -> bool {
        !finding_before(other@, self@)
    }

    proof fn le_total(a: Self, b: Self) {
        lemma_finding_order(a@, b@, a@);
    }

    proof fn le_transitive(a: Self, b: Self, c: Self) {
        lemma_finding_order(a@, b@, c@);
    }

    fn strictly_before(&self, other: &Self) -> bool {
        if text_lt(self.code.as_str(), other.code.as_str()) {
            return true;
        }
        if !text_eq(self.code.as_str(), other.code.as_str()) {
            return false;
        }
        if text_lt(self.resource.as_str(), other.resource.as_str()) {
            return true;
        }
        text_eq(self.resource.as_str(), other.resource.as_str()) && text_lt(
            self.detail.as_str(),
            other.detail.as_str(),
        )
    }
}

impl Sortable for CatalogObjectRoot {
    open spec fn le(self, other: Self) -> bool {
        text_le(self.resource@, other.resource@)
    }

    proof fn le_total(a: Self, b: Self) {
        lemma_text_le(a.resource@, b.resource@, a.resource@);
    }

    proof fn le_transitive(a: Self, b: Self, c: Self) {
        lemma_text_le(a.resource@, b.resource@, c.resource@);
    }

    fn strictly_before(&self, other: &Self) -> bool {
        text_lt(self.resource.as_str(), other.resource.as_str())
    }
}

impl Sortable for SealRow {
    open spec fn le(self, other: Self) -> bool {
        text_le(self.tag@, other.tag@)
    }

    proof fn le_total(a: Self, b: Self) {
        lemma_text_le(a.tag@, b.tag@, a.tag@);
    }

    proof fn le_transitive(a: Self, b: Self, c: Self) {
        lemma_text_le(a.tag@, b.tag@, c.tag@);
    }

    fn strictly_before(&self, other: &Self) -> bool {
        text_lt(self.tag.as_str(), other.tag.as_str())
    }
}

impl Sortable for RefRow {
    open spec fn le(self, other: Self) -> bool {
        text_le(self.name@, other.name@)
    }

    proof fn le_total(a: Self, b: Self) {
        lemma_text_le(a.name@, b.name@, a.name@);
    }

    proof fn le_transitive(a: Self, b: Self, c: Self) {
        lemma_text_le(a.name@, b.name@, c.name@);
    }

    fn strictly_before(&self, other: &Self) -> bool {
        text_lt(self.name.as_str(), other.name.as_str())
    }
}

impl Sortable for CatalogNamespaceRow {
    open spec fn le(self, other: Self) -> bool {
        text_le(self.id@, other.id@)
    }

    proof fn le_total(a: Self, b: Self) {
        lemma_text_le(a.id@, b.id@, a.id@);
    }

    proof fn le_transitive(a: Self, b: Self, c: Self) {
        lemma_text_le(a.id@, b.id@, c.id@);
    }

    fn strictly_before(&self, other: &Self) -> bool {
        text_lt(self.id.as_str(), other.id.as_str())
    }
}

impl Sortable for CatalogMountRow {
    open spec fn le(self, other: Self) -> bool {
        !text_before(other.ns_id@, self.ns_id@) && (self.ns_id@ == other.ns_id@ ==> text_le(
            self.path@,
            other.path@,
        ))
    }

    proof fn le_total(a: Self, b: Self) {
        lemma_text_le(a.ns_id@, b.ns_id@, a.ns_id@);
        lemma_text_le(a.path@, b.path@, a.path@);
    }

    proof fn le_transitive(a: Self, b: Self, c: Self) {
        lemma_text_le(a.ns_id@, b.ns_id@, c.ns_id@);
        lemma_text_le(a.path@, b.path@, c.path@);
        lemma_text_le(b.ns_id@, a.ns_id@, c.ns_id@);
        lemma_text_le(b.ns_id@, c.ns_id@, a.ns_id@);
    }

    fn strictly_before(&self, other: &Self) -> bool {
        proof {
            lemma_text_le(self.ns_id@, other.ns_id@, self.ns_id@);
            lemma_text_le(other.ns_id@, self.ns_id@, self.ns_id@);
        }
        if text_lt(self.ns_id.as_str(), other.ns_id.as_str()) {
            return true;
        }
        text_eq(self.ns_id.as_str(), other.ns_id.as_str()) && text_lt(
            self.path.as_str(),
            other.path.as_str(),
        )
    }
}

fn same_finding(a: &CatalogFinding, b: &CatalogFinding) -> (r: bool)
    ensures
        r == (a@ == b@),
{
    text_eq(a.code.as_str(), b.code.as_str()) && text_eq(a.resource.as_str(), b.resource.as_str())
        && text_eq(a.detail.as_str(), b.detail.as_str())
}

/// The findings in their order, each once.
pub open spec fn settled(found: Seq<Finding>, r: Seq<Finding>) -> bool {
    &&& forall|i: int, j: int| 0 <= i < j < r.len() ==> finding_before(#[trigger] r[i], #[trigger] r[j])
    &&& forall|f: Finding| #[trigger] r.contains(f) <==> found.contains(f)
}

fn settle(v: Vec<CatalogFinding>) -> (r: Vec<CatalogFinding>)
    ensures
        settled(finding_values(v@), finding_values(r@)),
{
    let ghost all = finding_values(v@);
    let sorted_all = stable_sort(v);
    let ghost ordered = finding_values(sorted_all@);
    proof {
        assert forall|f: Finding| #[trigger] ordered.contains(f) <==> all.contains(f) by {
            broadcast use vstd::seq_lib::group_to_multiset_ensures;

            if ordered.contains(f) {
                let i = choose|i: int| 0 <= i < ordered.len() && ordered[i] == f;
                let x = sorted_all@[i];
                assert(sorted_all@.contains(x));
                assert(v@.to_multiset().count(x) > 0);
                assert(v@.contains(x));
                let j = choose|j: int| 0 <= j < v@.len() && v@[j] == x;
                assert(all[j] == f);
            }
            if all.contains(f) {
                let i = choose|i: int| 0 <= i < all.len() && all[i] == f;
                let x = v@[i];
                assert(v@.contains(x));
                assert(sorted_all@.to_multiset().count(x) > 0);
                assert(sorted_all@.contains(x));
                let j = choose|j: int| 0 <= j < sorted_all@.len() && sorted_all@[j] == x;
                assert(ordered[j] == f);
            }
        }
    }
    let mut out: Vec<CatalogFinding> = Vec::new();
    let mut i: usize = 0;
    while i < sorted_all.len()
        invariant
            i <= sorted_all@.len(),
            ordered == finding_values(sorted_all@),
            sorted(sorted_all@),
            forall|a: int, b: int|
                0 <= a < b < out@.len() ==> finding_before(
                    (#[trigger] out@[a])@,
                    (#[trigger] out@[b])@,
                ),
            out@.len() == 0 <==> i == 0,
            i > 0 ==> out@[out@.len() - 1]@ == ordered[i - 1],
            forall|j: int| 0 <= j < i ==> finding_values(out@).contains(#[trigger] ordered[j]),
            forall|j: int| 0 <= j < out@.len() ==> ordered.contains(#[trigger] out@[j]@),
        decreases sorted_all@.len() - i,
    {
        let f = &sorted_all[i];
        let again = i > 0 && same_finding(&sorted_all[i - 1], f);
        let ghost before = out@;
        if !again {
            let copy = CatalogFinding {
                code: f.code.clone(),
                resource: f.resource.clone(),
                detail: f.detail.clone(),
            };
            out.push(copy);
            proof {
                assert(ordered[i as int] == out@[before.len() as int]@);
                assert(ordered.contains(ordered[i as int]));
                assert(finding_values(out@)[before.len() as int] == ordered[i as int]);
                assert forall|j: int| 0 <= j < i implies finding_values(out@).contains(
                    #[trigger] ordered[j],
                ) by {
                    let k = choose|k: int|
                        0 <= k < finding_values(before).len() && finding_values(before)[k]
                            == ordered[j];
                    assert(finding_values(out@)[k] == ordered[j]);
                }
                if i > 0 {
                    let last = before[before.len() - 1]@;
                    assert(sorted_all@[i - 1].le(sorted_all@[i as int]));
                    lemma_finding_order(last, f@, last);
                    assert(finding_before(last, f@));
                    assert forall|a: int| 0 <= a < before.len() implies finding_before(
                        (#[trigger] before[a])@,
                        f@,
                    ) by {
                        if a < before.len() - 1 {
                            assert(finding_before(before[a]@, before[before.len() - 1]@));
                            lemma_finding_order(before[a]@, last, f@);
                            lemma_finding_order(f@, before[a]@, last);
                            lemma_finding_order(last, f@, before[a]@);
                        }
                    }
                }
            }
        } else {
            proof {
                assert(finding_values(out@)[out@.len() - 1] == ordered[i as int]);
            }
        }
        i += 1;
    }
    proof {
        let r = finding_values(out@);
        assert forall|f: Finding| #[trigger] r.contains(f) <==> all.contains(f) by {
            if r.contains(f) {
                let j = choose|j: int| 0 <= j < r.len() && r[j] == f;
                assert(ordered.contains(out@[j]@));
                assert(ordered.contains(f));
            }
            if all.contains(f) {
                assert(ordered.contains(f));
                let j = choose|j: int| 0 <= j < ordered.len() && ordered[j] == f;
                assert(r.contains(ordered[j]));
            }
        }
    }
    out
}

/// Every ref could be read and decoded.
pub open spec fn refs_ok(scan: CatalogScan) -> bool {
    shape_clean(Table::Refs, scan.shapes.refs) && ref_oids_ok(scan.tables.refs@)
}

/// The sessions, where their table is clean.
pub open spec fn known_ns(scan: CatalogScan) -> Option<Seq<NsRecord>> {
    if shape_clean(Table::Namespaces, scan.shapes.namespaces) {
        Some(scan.tables.namespaces@)
    } else {
        None
    }
}

/// The mounts, where their table is clean.
pub open spec fn known_mounts(scan: CatalogScan) -> Option<Seq<MountRecord>> {
    if shape_clean(Table::Mounts, scan.shapes.mounts) {
        Some(scan.tables.mounts@)
    } else {
        None
    }
}

/// What holds only where a condition does.
pub open spec fn provided<T>(b: bool, s: Seq<T>) -> Seq<T> {
    if b {
        s
    } else {
        Seq::empty()
    }
}

/// What is found of the shapes of the tables.
pub open spec fn all_shape_findings(shapes: CatalogShapes) -> Seq<Finding> {
    shape_findings(Table::SchemaMigrations, shapes.schema_migrations) + shape_findings(
        Table::Refs,
        shapes.refs,
    ) + shape_findings(Table::Reflog, shapes.reflog) + shape_findings(
        Table::Namespaces,
        shapes.namespaces,
    ) + shape_findings(Table::Observations, shapes.observations) + shape_findings(
        Table::Mounts,
        shapes.mounts,
    ) + shape_findings(Table::Overlay, shapes.overlay) + shape_findings(Table::Seals, shapes.seals)
        + shape_findings(Table::Landmarks, shapes.landmarks) + shape_findings(
        Table::ObjectIntro,
        shapes.object_intro,
    ) + shape_findings(Table::CapRoot, shapes.cap_root)
}

/// What is found of refs and of their log.
pub open spec fn all_ref_findings(scan: CatalogScan) -> Seq<Finding> {
    let refs = scan.tables.refs@;
    provided(
        shape_clean(Table::Refs, scan.shapes.refs),
        flat(refs.len(), ref_finder(refs)),
    ) + provided(
        refs_ok(scan) && shape_clean(Table::Reflog, scan.shapes.reflog),
        log_findings(refs, scan.tables.reflog@),
    )
}

/// What is found of sessions, their mounts, observations and staged edits.
pub open spec fn all_session_findings(scan: CatalogScan) -> Seq<Finding> {
    let t = scan.tables;
    let ns = known_ns(scan);
    let mounts = known_mounts(scan);
    provided(
        shape_clean(Table::Namespaces, scan.shapes.namespaces),
        flat(t.namespaces@.len(), ns_finder(t.namespaces@, t.refs@, refs_ok(scan))),
    ) + provided(
        shape_clean(Table::Mounts, scan.shapes.mounts),
        flat(t.mounts@.len(), mount_finder(t.mounts@, ns)),
    ) + provided(
        shape_clean(Table::Observations, scan.shapes.observations),
        flat(t.observations@.len(), observation_finder(t.observations@, ns, mounts)),
    ) + provided(
        shape_clean(Table::Overlay, scan.shapes.overlay),
        flat(t.overlay@.len(), overlay_finder(t.overlay@, ns, mounts)),
    )
}

/// What is found of seals, landmarks and introductions.
pub open spec fn all_seal_findings(scan: CatalogScan) -> Seq<Finding> {
    let t = scan.tables;
    let seals = shape_clean(Table::Seals, scan.shapes.seals);
    let landmarks = shape_clean(Table::Landmarks, scan.shapes.landmarks);
    provided(
        seals,
        flat(t.seals@.len(), seal_finder(t.seals@, t.refs@, refs_ok(scan))),
    ) + provided(
        refs_ok(scan) && seals,
        flat(t.refs@.len(), tag_finder(t.refs@, t.seals@)),
    ) + provided(
        landmarks,
        flat(t.landmarks@.len(), landmark_finder(t.landmarks@)),
    ) + provided(
        seals && landmarks,
        flat(t.seals@.len(), seal_landmark_finder(t.seals@, t.landmarks@)),
    ) + provided(
        shape_clean(Table::ObjectIntro, scan.shapes.object_intro),
        flat(t.object_intro@.len(), intro_finder(t.object_intro@)),
    )
}

/// All that an audit finds.
pub open spec fn all_findings(scan: CatalogScan) -> Seq<Finding> {
    integrity_findings(scan.integrity@) + all_shape_findings(scan.shapes) + provided(
        shape_clean(Table::SchemaMigrations, scan.shapes.schema_migrations),
        version_findings(scan.versions@),
    ) + all_ref_findings(scan) + all_session_findings(scan) + all_seal_findings(scan)
}

/// The objects that the sessions name.
pub open spec fn session_roots(scan: CatalogScan) -> Seq<Root> {
    let t = scan.tables;
    provided(
        shape_clean(Table::Namespaces, scan.shapes.namespaces),
        flat(t.namespaces@.len(), ns_rooter(t.namespaces@)),
    ) + provided(
        shape_clean(Table::Observations, scan.shapes.observations),
        flat(t.observations@.len(), observation_rooter(t.observations@)),
    ) + provided(
        shape_clean(Table::Overlay, scan.shapes.overlay),
        flat(t.overlay@.len(), overlay_rooter(t.overlay@)),
    )
}

/// The objects that seals, landmarks and introductions name.
pub open spec fn sealed_roots(scan: CatalogScan) -> Seq<Root> {
    let t = scan.tables;
    provided(
        shape_clean(Table::Seals, scan.shapes.seals),
        flat(t.seals@.len(), seal_rooter(t.seals@)),
    ) + provided(
        shape_clean(Table::Landmarks, scan.shapes.landmarks),
        flat(t.landmarks@.len(), landmark_rooter(t.landmarks@)),
    ) + provided(
        shape_clean(Table::ObjectIntro, scan.shapes.object_intro),
        flat(t.object_intro@.len(), intro_rooter(t.object_intro@)),
    )
}

/// All objects that the catalog names, in the order of its tables.
pub open spec fn all_roots(scan: CatalogScan) -> Seq<Root> {
    provided(
        shape_clean(Table::Refs, scan.shapes.refs),
        flat(scan.tables.refs@.len(), ref_rooter(scan.tables.refs@)),
    ) + session_roots(scan) + sealed_roots(scan)
}

/// The rows have these values, once they are sorted, ties in their order.
pub open spec fn sorted_from<T: Sortable + View>(values: Seq<T::V>, r: Seq<T>) -> bool {
    exists|given: Seq<T>| lines(given) == values && #[trigger] is_stable_sort(given, r)
}

pub(crate) fn sort_rows<T: Sortable + View>(v: Vec<T>) -> (r: Vec<T>)
    ensures
        sorted_from(lines(v@), r@),
{
    let r = stable_sort(v);
    assert(is_stable_sort(v@, r@));
    r
}

/// Which tables are clean.
struct CleanTables {
    migrations: bool,
    refs: bool,
    reflog: bool,
    namespaces: bool,
    observations: bool,
    mounts: bool,
    overlay: bool,
    seals: bool,
    landmarks: bool,
    intros: bool,
}

spec fn tells_clean(c: CleanTables, s: CatalogShapes) -> bool {
    &&& c.migrations == shape_clean(Table::SchemaMigrations, s.schema_migrations)
    &&& c.refs == shape_clean(Table::Refs, s.refs)
    &&& c.reflog == shape_clean(Table::Reflog, s.reflog)
    &&& c.namespaces == shape_clean(Table::Namespaces, s.namespaces)
    &&& c.observations == shape_clean(Table::Observations, s.observations)
    &&& c.mounts == shape_clean(Table::Mounts, s.mounts)
    &&& c.overlay == shape_clean(Table::Overlay, s.overlay)
    &&& c.seals == shape_clean(Table::Seals, s.seals)
    &&& c.landmarks == shape_clean(Table::Landmarks, s.landmarks)
    &&& c.intros == shape_clean(Table::ObjectIntro, s.object_intro)
}

fn audit_shapes(out: &mut Vec<CatalogFinding>, s: &CatalogShapes) -> (c: CleanTables)
    ensures
        tells_clean(c, *s),
        finding_values(final(out)@) == finding_values(old(out)@) + all_shape_findings(*s),
{
    let ghost start = finding_values(out@);
    let migrations = audit_table_shape(out, Table::SchemaMigrations, &s.schema_migrations);
    let refs = audit_table_shape(out, Table::Refs, &s.refs);
    let reflog = audit_table_shape(out, Table::Reflog, &s.reflog);
    let namespaces = audit_table_shape(out, Table::Namespaces, &s.namespaces);
    let observations = audit_table_shape(out, Table::Observations, &s.observations);
    let mounts = audit_table_shape(out, Table::Mounts, &s.mounts);
    let overlay = audit_table_shape(out, Table::Overlay, &s.overlay);
    let seals = audit_table_shape(out, Table::Seals, &s.seals);
    let landmarks = audit_table_shape(out, Table::Landmarks, &s.landmarks);
    let intros = audit_table_shape(out, Table::ObjectIntro, &s.object_intro);
    audit_table_shape(out, Table::CapRoot, &s.cap_root);
    assert(finding_values(out@) =~= start + all_shape_findings(*s));
    CleanTables {
        migrations,
        refs,
        reflog,
        namespaces,
        observations,
        mounts,
        overlay,
        seals,
        landmarks,
        intros,
    }
}

/// The sessions and mounts that an audit hands on.
struct SessionsSeen {
    namespaces: Vec<CatalogNamespaceRow>,
    mounts: Vec<CatalogMountRow>,
}

/// What is found of sessions and mounts.
spec fn ns_part(scan: CatalogScan) -> Seq<Finding> {
    let t = scan.tables;
    provided(
        shape_clean(Table::Namespaces, scan.shapes.namespaces),
        flat(t.namespaces@.len(), ns_finder(t.namespaces@, t.refs@, refs_ok(scan))),
    )
}

spec fn mount_part(scan: CatalogScan) -> Seq<Finding> {
    provided(
        shape_clean(Table::Mounts, scan.shapes.mounts),
        flat(scan.tables.mounts@.len(), mount_finder(scan.tables.mounts@, known_ns(scan))),
    )
}

spec fn ns_root_part(scan: CatalogScan) -> Seq<Root> {
    provided(
        shape_clean(Table::Namespaces, scan.shapes.namespaces),
        flat(scan.tables.namespaces@.len(), ns_rooter(scan.tables.namespaces@)),
    )
}

/// What is found of observations and staged edits.
spec fn observation_part(scan: CatalogScan) -> Seq<Finding> {
    let t = scan.tables;
    provided(
        shape_clean(Table::Observations, scan.shapes.observations),
        flat(
            t.observations@.len(),
            observation_finder(t.observations@, known_ns(scan), known_mounts(scan)),
        ),
    )
}

spec fn overlay_part(scan: CatalogScan) -> Seq<Finding> {
    let t = scan.tables;
    provided(
        shape_clean(Table::Overlay, scan.shapes.overlay),
        flat(
            t.overlay@.len(),
            overlay_finder(t.overlay@, known_ns(scan), known_mounts(scan)),
        ),
    )
}

spec fn observation_root_part(scan: CatalogScan) -> Seq<Root> {
    provided(
        shape_clean(Table::Observations, scan.shapes.observations),
        flat(scan.tables.observations@.len(), observation_rooter(scan.tables.observations@)),
    )
}

spec fn overlay_root_part(scan: CatalogScan) -> Seq<Root> {
    provided(
        shape_clean(Table::Overlay, scan.shapes.overlay),
        flat(scan.tables.overlay@.len(), overlay_rooter(scan.tables.overlay@)),
    )
}

fn audit_session_rows(
    findings: &mut Vec<CatalogFinding>,
    roots: &mut Vec<CatalogObjectRoot>,
    scan: &CatalogScan,
    clean: &CleanTables,
    by_name: &TextMap<RefRow>,
    complete: bool,
) -> (seen: (SessionsSeen, Places))
    requires
        tells_clean(*clean, scan.shapes),
        complete == refs_ok(*scan),
        complete ==> maps_refs(*by_name, scan.tables.refs@),
    ensures
        lines(seen.0.namespaces@) == provided(
            clean.namespaces,
            ns_facts(scan.tables.namespaces@),
        ),
        lines(seen.0.mounts@) == provided(clean.mounts, mount_facts(scan.tables.mounts@)),
        knows(seen.1, known_ns(*scan), known_mounts(*scan)),
        finding_values(final(findings)@) == finding_values(old(findings)@) + ns_part(*scan)
            + mount_part(*scan),
        root_values(final(roots)@) == root_values(old(roots)@) + ns_root_part(*scan),
{
    let ghost f0 = finding_values(findings@);
    let ghost r0 = root_values(roots@);
    let mut namespaces: Vec<CatalogNamespaceRow> = Vec::new();
    let mut mounts: Vec<CatalogMountRow> = Vec::new();
    let mut ids: TextMap<bool> = TextMap::new();
    let mut keys: TextMap<TextMap<bool>> = TextMap::new();
    if clean.namespaces {
        let pair = audit_namespaces(
            findings,
            roots,
            &scan.tables.namespaces,
            by_name,
            complete,
            Ghost(scan.tables.refs@),
        );
        namespaces = pair.0;
        ids = pair.1;
    }
    proof {
        assert(finding_values(findings@) =~= f0 + ns_part(*scan));
        assert(root_values(roots@) =~= r0 + ns_root_part(*scan));
        assert(lines(namespaces@) =~= provided(
            clean.namespaces,
            ns_facts(scan.tables.namespaces@),
        ));
    }
    let ghost f1 = finding_values(findings@);
    if clean.mounts {
        let pair = audit_mounts(
            findings,
            &scan.tables.mounts,
            clean.namespaces,
            &ids,
            Ghost(known_ns(*scan)),
        );
        mounts = pair.0;
        keys = pair.1;
    }
    proof {
        assert(finding_values(findings@) =~= f1 + mount_part(*scan));
        assert(lines(mounts@) =~= provided(clean.mounts, mount_facts(scan.tables.mounts@)));
    }
    let places = Places {
        ns_clean: clean.namespaces,
        ids,
        mounts_clean: clean.mounts,
        keys,
    };
    (SessionsSeen { namespaces, mounts }, places)
}

fn audit_session_state(
    findings: &mut Vec<CatalogFinding>,
    roots: &mut Vec<CatalogObjectRoot>,
    scan: &CatalogScan,
    clean: &CleanTables,
    places: &Places,
)
    requires
        tells_clean(*clean, scan.shapes),
        knows(*places, known_ns(*scan), known_mounts(*scan)),
    ensures
        finding_values(final(findings)@) == finding_values(old(findings)@) + observation_part(*scan)
            + overlay_part(*scan),
        root_values(final(roots)@) == root_values(old(roots)@) + observation_root_part(*scan)
            + overlay_root_part(*scan),
{
    let ghost f0 = finding_values(findings@);
    let ghost r0 = root_values(roots@);
    let ghost ns = known_ns(*scan);
    let ghost ms = known_mounts(*scan);
    if clean.observations {
        audit_observations(
            findings,
            roots,
            &scan.tables.observations,
            places,
            Ghost(ns),
            Ghost(ms),
        );
    }
    proof {
        assert(finding_values(findings@) =~= f0 + observation_part(*scan));
        assert(root_values(roots@) =~= r0 + observation_root_part(*scan));
    }
    let ghost f1 = finding_values(findings@);
    let ghost r1 = root_values(roots@);
    if clean.overlay {
        audit_overlay(findings, roots, &scan.tables.overlay, places, Ghost(ns), Ghost(ms));
    }
    proof {
        assert(finding_values(findings@) =~= f1 + overlay_part(*scan));
        assert(root_values(roots@) =~= r1 + overlay_root_part(*scan));
    }
}

fn audit_sessions(
    findings: &mut Vec<CatalogFinding>,
    roots: &mut Vec<CatalogObjectRoot>,
    scan: &CatalogScan,
    clean: &CleanTables,
    by_name: &TextMap<RefRow>,
    complete: bool,
) -> (seen: SessionsSeen)
    requires
        tells_clean(*clean, scan.shapes),
        complete == refs_ok(*scan),
        complete ==> maps_refs(*by_name, scan.tables.refs@),
    ensures
        lines(seen.namespaces@) == provided(clean.namespaces, ns_facts(scan.tables.namespaces@)),
        lines(seen.mounts@) == provided(clean.mounts, mount_facts(scan.tables.mounts@)),
        finding_values(final(findings)@) == finding_values(old(findings)@) + all_session_findings(
            *scan,
        ),
        root_values(final(roots)@) == root_values(old(roots)@) + session_roots(*scan),
{
    let ghost f0 = finding_values(findings@);
    let ghost r0 = root_values(roots@);
    let seen = audit_session_rows(findings, roots, scan, clean, by_name, complete);
    audit_session_state(findings, roots, scan, clean, &seen.1);
    proof {
        let (a, b) = (ns_part(*scan), mount_part(*scan));
        let (c, d) = (observation_part(*scan), overlay_part(*scan));
        assert(all_session_findings(*scan) == a + b + c + d);
        assert(f0 + a + b + c + d =~= f0 + (a + b + c + d));
        let (x, y, z) = (
            ns_root_part(*scan),
            observation_root_part(*scan),
            overlay_root_part(*scan),
        );
        assert(session_roots(*scan) == x + y + z);
        assert(r0 + x + y + z =~= r0 + (x + y + z));
    }
    seen.0
}

fn audit_sealed(
    findings: &mut Vec<CatalogFinding>,
    roots: &mut Vec<CatalogObjectRoot>,
    scan: &CatalogScan,
    clean: &CleanTables,
    by_name: &TextMap<RefRow>,
    complete: bool,
) -> (seals: Vec<SealRow>)
    requires
        tells_clean(*clean, scan.shapes),
        complete == refs_ok(*scan),
        complete ==> maps_refs(*by_name, scan.tables.refs@),
    ensures
        lines(seals@) == provided(
            clean.seals,
            flat(scan.tables.seals@.len(), seal_keeper(scan.tables.seals@)),
        ),
        finding_values(final(findings)@) == finding_values(old(findings)@) + all_seal_findings(
            *scan,
        ),
        root_values(final(roots)@) == root_values(old(roots)@) + sealed_roots(*scan),
{
    let ghost f0 = finding_values(findings@);
    let ghost r0 = root_values(roots@);
    let t = &scan.tables;
    let mut seals: Vec<SealRow> = Vec::new();
    if clean.seals {
        let (list, tags) = audit_seals(
            findings,
            roots,
            &t.seals,
            by_name,
            complete,
            Ghost(t.refs@),
        );
        seals = list;
        if complete {
            audit_tags(findings, &t.refs, &tags, Ghost(t.seals@));
        }
    }
    assert(lines(seals@) =~= provided(clean.seals, flat(t.seals@.len(), seal_keeper(t.seals@))));
    if clean.landmarks {
        let m = audit_landmarks(findings, roots, &t.landmarks);
        if clean.seals {
            audit_seal_landmarks(findings, &t.seals, &m, Ghost(t.landmarks@));
        }
    }
    if clean.intros {
        audit_intros(findings, roots, &t.object_intro);
    }
    proof {
        assert(finding_values(findings@) =~= f0 + all_seal_findings(*scan));
        assert(root_values(roots@) =~= r0 + sealed_roots(*scan));
    }
    seals
}

fn audit_tables(scan: &CatalogScan) -> (r: CatalogAudit)
    ensures
        settled(all_findings(*scan), finding_values(r.findings@)),
        sorted_from(all_roots(*scan), r.roots@),
        sorted_from(
            provided(
                shape_clean(Table::Refs, scan.shapes.refs),
                flat(scan.tables.refs@.len(), ref_keeper(scan.tables.refs@)),
            ),
            r.refs@,
        ),
        r.refs_complete == refs_ok(*scan),
        sorted_from(
            provided(
                shape_clean(Table::Seals, scan.shapes.seals),
                flat(scan.tables.seals@.len(), seal_keeper(scan.tables.seals@)),
            ),
            r.seals@,
        ),
        sorted_from(
            provided(
                shape_clean(Table::Namespaces, scan.shapes.namespaces),
                ns_facts(scan.tables.namespaces@),
            ),
            r.namespaces@,
        ),
        sorted_from(
            provided(
                shape_clean(Table::Mounts, scan.shapes.mounts),
                mount_facts(scan.tables.mounts@),
            ),
            r.mounts@,
        ),
{
    let mut findings: Vec<CatalogFinding> = Vec::new();
    let mut roots: Vec<CatalogObjectRoot> = Vec::new();
    let t = &scan.tables;
    audit_integrity(&mut findings, &scan.integrity);
    let clean = audit_shapes(&mut findings, &scan.shapes);
    if clean.migrations {
        audit_versions(&mut findings, &scan.versions);
    }
    let ghost f1 = finding_values(findings@);
    assert(f1 =~= integrity_findings(scan.integrity@) + all_shape_findings(scan.shapes) + provided(
        clean.migrations,
        version_findings(scan.versions@),
    ));
    let mut refs: Vec<RefRow> = Vec::new();
    let mut by_name: TextMap<RefRow> = TextMap::new();
    let mut complete = false;
    if clean.refs {
        let seen = audit_refs(&mut findings, &mut roots, &t.refs);
        refs = seen.list;
        by_name = seen.by_name;
        complete = seen.complete;
        if complete && clean.reflog {
            audit_log(&mut findings, &t.refs, &by_name, &t.reflog);
        }
    }
    proof {
        assert(finding_values(findings@) =~= f1 + all_ref_findings(*scan));
        assert(root_values(roots@) =~= provided(
            clean.refs,
            flat(t.refs@.len(), ref_rooter(t.refs@)),
        ));
        assert(lines(refs@) =~= provided(clean.refs, flat(t.refs@.len(), ref_keeper(t.refs@)))) by {
            assert(lines(refs@) =~= ref_facts(refs@));
        }
    }
    let sessions = audit_sessions(&mut findings, &mut roots, scan, &clean, &by_name, complete);
    let seals = audit_sealed(&mut findings, &mut roots, scan, &clean, &by_name, complete);
    assert(finding_values(findings@) == all_findings(*scan));
    assert(lines(roots@) =~= root_values(roots@));
    assert(root_values(roots@) == all_roots(*scan));
    CatalogAudit {
        findings: settle(findings),
        roots: sort_rows(roots),
        seals: sort_rows(seals),
        refs: sort_rows(refs),
        refs_complete: complete,
        namespaces: sort_rows(sessions.namespaces),
        mounts: sort_rows(sessions.mounts),
    }
}

/// Audit the catalog: every relation that makes its rows trustworthy. The findings
/// come sorted and each once; the rows that could be decoded come sorted too.
pub fn audit_catalog(scan: &CatalogScan) -> (r: CatalogAudit)
    ensures
        settled(all_findings(*scan), finding_values(r.findings@)),
        r.findings@.len() == 0 <==> in_order(*scan),
        rows_kept(*scan, r),
        sorted_from(all_roots(*scan), r.roots@),
        roots_listed(*scan, root_values(r.roots@)),
        forall|k: int| 0 <= k < r.roots@.len() ==> named_in(*scan, (#[trigger] r.roots@[k]).oid@),
        sorted_from(
            provided(
                shape_clean(Table::Refs, scan.shapes.refs),
                flat(scan.tables.refs@.len(), ref_keeper(scan.tables.refs@)),
            ),
            r.refs@,
        ),
        r.refs_complete == refs_ok(*scan),
        sorted_from(
            provided(
                shape_clean(Table::Seals, scan.shapes.seals),
                flat(scan.tables.seals@.len(), seal_keeper(scan.tables.seals@)),
            ),
            r.seals@,
        ),
        sorted_from(
            provided(
                shape_clean(Table::Namespaces, scan.shapes.namespaces),
                ns_facts(scan.tables.namespaces@),
            ),
            r.namespaces@,
        ),
        sorted_from(
            provided(
                shape_clean(Table::Mounts, scan.shapes.mounts),
                mount_facts(scan.tables.mounts@),
            ),
            r.mounts@,
        ),
{
    let audit = audit_tables(scan);
    proof {
        lemma_roots_listed(*scan, audit.roots@);
        lemma_in_order(*scan, finding_values(audit.findings@));
        lemma_rows_kept(*scan, audit);
    }
    audit
}

} // verus!
