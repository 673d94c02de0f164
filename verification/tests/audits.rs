//! Audits of the catalog.
use forgefs::audit::{
    audit_catalog, BadRow, CatalogScan, CatalogShapes, ColumnsRead, TableShape, ValuesRead,
};
use forgefs::catalog::Meta;
use forgefs::rows::{CatalogAudit, CatalogObjectExpectation};
use forgefs::schema::Table;
use forgefs::tables::Tables;
use forgefs::types::{ObjectId, ObjectType};

fn oid(n: u8) -> ObjectId {
    ObjectId([n; 32])
}

fn clean(table: Table) -> TableShape {
    TableShape {
        columns: ColumnsRead::Columns(table.column_list()),
        values: ValuesRead::BadRows(vec![]),
    }
}

fn scan(tables: Tables) -> CatalogScan {
    CatalogScan {
        integrity: vec!["ok".to_string()],
        shapes: CatalogShapes {
            schema_migrations: clean(Table::SchemaMigrations),
            refs: clean(Table::Refs),
            reflog: clean(Table::Reflog),
            namespaces: clean(Table::Namespaces),
            observations: clean(Table::Observations),
            mounts: clean(Table::Mounts),
            overlay: clean(Table::Overlay),
            seals: clean(Table::Seals),
            landmarks: clean(Table::Landmarks),
            object_intro: clean(Table::ObjectIntro),
            cap_root: clean(Table::CapRoot),
        },
        versions: vec![1, 2, 3],
        tables,
    }
}

fn codes(audit: &CatalogAudit) -> Vec<&str> {
    audit.findings.iter().map(|f| f.code.as_str()).collect()
}

fn used() -> Meta {
    let mut meta = Meta::new();
    meta.insert_ref("main", oid(1), "commit", true, false, "a", "init", 1).unwrap();
    meta.create_session("ns", "a", oid(1), "heads/a", true, 2).unwrap();
    meta.overlay_upsert("ns", "/", "f", Some(oid(9)), false).unwrap();
    meta.cas_ref("heads/a", oid(1), oid(2), "commit", "a", "a", false, 3).unwrap();
    meta.cas_ref("heads/a", oid(1), oid(3), "commit", "a", "a", false, 4).unwrap();
    meta.commit_seal("v1", oid(4), oid(5), oid(6), "a", 5).unwrap();
    meta.intro_insert(oid(7), oid(2), "a", 6);
    let fork = "forks/x/a/1";
    meta.insert_ref(fork, oid(8), "commit", false, false, "a", "fork", 7).unwrap();
    meta.abandon_ref(fork, "a", 8).unwrap();
    meta
}

#[test]
fn a_catalog_that_its_transactions_made_is_clean() {
    let audit = audit_catalog(&scan(used().tables));
    assert!(audit.findings.is_empty(), "{:?}", audit.findings);
    assert!(audit.refs_complete);
    assert_eq!(audit.refs.len(), 4);
    assert!(audit.refs.windows(2).all(|w| w[0].name < w[1].name));
    assert_eq!(audit.seals.len(), 1);
    assert_eq!(audit.namespaces.len(), 1);
    assert_eq!(audit.mounts.len(), 2);
    assert!(audit.roots.windows(2).all(|w| w[0].resource <= w[1].resource));
    assert!(audit.roots.iter().any(|r| r.resource == "ref:main"
        && r.oid == oid(1)
        && r.expected == CatalogObjectExpectation::Exact(ObjectType::Commit)));
    assert!(audit
        .roots
        .iter()
        .any(|r| r.oid == oid(7) && r.expected == CatalogObjectExpectation::TreeEntry));
}

#[test]
fn a_log_that_does_not_fit_its_ref_is_found() {
    let mut meta = used();
    meta.tables.refs[0].oid = vec![0xee; 32];
    let audit = audit_catalog(&scan(meta.tables));
    assert_eq!(codes(&audit), ["REFLOG_TERMINAL"]);
    assert_eq!(audit.findings[0].resource, "catalog:ref:main");

    let mut meta = used();
    meta.tables.reflog.remove(0);
    assert_eq!(codes(&audit_catalog(&scan(meta.tables))), ["REFLOG_MISSING"]);

    let mut meta = used();
    meta.tables.refs.remove(0);
    assert_eq!(codes(&audit_catalog(&scan(meta.tables))), ["REFLOG_ORPHAN"]);

    let mut meta = used();
    let last = meta.tables.reflog.iter().position(|l| l.name == "heads/a" && l.reason == "cas");
    meta.tables.reflog[last.unwrap()].old_oid = None;
    let audit = audit_catalog(&scan(meta.tables));
    assert_eq!(codes(&audit), ["REFLOG_CHAIN"]);
    assert_eq!(
        audit.findings[0].detail,
        format!("old_oid None does not equal previous new_oid {}", oid(1).hex())
    );

    let mut meta = used();
    meta.tables.reflog[0].old_oid = Some(vec![3; 32]);
    assert_eq!(codes(&audit_catalog(&scan(meta.tables))), ["REFLOG_CHAIN"]);
}

#[test]
fn refs_of_the_wrong_kind_and_open_tags_are_found() {
    let mut meta = used();
    meta.tables.refs[0].kind = "blob".to_string();
    let audit = audit_catalog(&scan(meta.tables));
    assert_eq!(codes(&audit), ["REF_KIND", "REF_KIND"]);
    assert_eq!(audit.findings[0].detail, "invalid: ref main requires kind commit, got blob");
    assert_eq!(audit.findings[1].detail, "unknown ref kind blob");

    let mut meta = used();
    let tag = meta.tables.refs.iter().position(|r| r.name == "tags/v1").unwrap();
    meta.tables.refs[tag].sealed = 0;
    assert_eq!(codes(&audit_catalog(&scan(meta.tables))), ["SEAL_TAG_REF", "TAG_FLAGS"]);
}

#[test]
fn a_short_id_stops_what_depends_on_it() {
    let mut meta = used();
    meta.tables.refs[0].oid = vec![1; 31];
    let audit = audit_catalog(&scan(meta.tables));
    assert_eq!(codes(&audit), ["CATALOG_OID"]);
    assert!(!audit.refs_complete);
    assert_eq!(
        audit.findings[0].detail,
        "oid is not a 32-byte object ID: corrupt: oid blob length"
    );
    assert_eq!(audit.refs.len(), 3);
}

#[test]
fn sessions_without_what_they_need_are_found() {
    let mut meta = used();
    meta.tables.namespaces[0].pinned_oid = None;
    meta.tables.namespaces[0].live_ref = Some("heads/gone".to_string());
    assert_eq!(codes(&audit_catalog(&scan(meta.tables))), ["NS_LIVE_REF", "NS_PIN"]);

    let mut meta = used();
    meta.tables.namespaces[0].live_ref = Some("tags/v1".to_string());
    let audit = audit_catalog(&scan(meta.tables));
    assert_eq!(codes(&audit), ["NS_LIVE_TYPE"]);
    assert_eq!(audit.findings[0].detail, "live ref tags/v1 is snapshot, expected commit");

    let mut meta = used();
    meta.tables.namespaces.clear();
    assert_eq!(
        codes(&audit_catalog(&scan(meta.tables))),
        ["MOUNT_NAMESPACE", "MOUNT_NAMESPACE", "OVERLAY_NAMESPACE"]
    );

    let mut meta = used();
    meta.observe("ns", "/none", "f", forgefs::rows::Observed::Tree(oid(1)));
    meta.tables.overlay[0].mount = "/none".to_string();
    assert_eq!(
        codes(&audit_catalog(&scan(meta.tables))),
        ["OBSERVATION_MOUNT", "OVERLAY_MOUNT"]
    );
}

#[test]
fn seals_without_tags_or_landmarks_are_found() {
    let mut meta = used();
    meta.tables.seals.clear();
    assert_eq!(codes(&audit_catalog(&scan(meta.tables))), ["SEAL_ROW"]);

    let mut meta = used();
    meta.tables.landmarks.clear();
    let audit = audit_catalog(&scan(meta.tables));
    assert_eq!(codes(&audit), ["SEAL_LANDMARK"]);
    assert_eq!(
        audit.findings[0].detail,
        format!(
            "missing or mistyped snapshot landmark {} and commit landmark {}",
            oid(4).hex(),
            oid(5).hex()
        )
    );

    let mut meta = used();
    meta.tables.landmarks[0].kind = "odd".to_string();
    assert_eq!(
        codes(&audit_catalog(&scan(meta.tables))),
        ["LANDMARK_KIND", "SEAL_LANDMARK"]
    );
}

#[test]
fn damage_of_the_database_and_of_its_tables_is_found() {
    let mut s = scan(used().tables);
    s.integrity = vec!["OK".to_string(), "row 3 missing from index".to_string()];
    s.versions = vec![1, 3];
    s.shapes.refs.columns = ColumnsRead::Columns(vec!["name".to_string()]);
    s.shapes.seals.values =
        ValuesRead::BadRows(vec![BadRow::Row(-4), BadRow::Unreadable("e".to_string())]);
    s.shapes.cap_root.columns = ColumnsRead::CannotInspect("locked".to_string());
    s.shapes.overlay.values = ValuesRead::CannotScan("io".to_string());
    let audit = audit_catalog(&s);
    assert_eq!(
        codes(&audit),
        [
            "CATALOG_INTEGRITY",
            "CATALOG_SCHEMA",
            "CATALOG_SCHEMA",
            "CATALOG_SCHEMA",
            "CATALOG_VALUE",
            "CATALOG_VALUE",
            "SCHEMA_LEDGER",
        ]
    );
    assert_eq!(audit.findings[0].detail, "row 3 missing from index");
    assert_eq!(audit.findings[1].detail, "cannot inspect table shape: locked");
    assert_eq!(audit.findings[2].detail, "cannot scan table values: io");
    assert!(audit.findings[3].detail.ends_with(", found [\"name\"]"));
    assert_eq!(audit.findings[5].resource, "catalog:seals:row:-4");
    assert_eq!(
        audit.findings[6].detail,
        "expected contiguous supported versions [1, 2, 3], found [1, 3]"
    );
    assert!(!audit.refs_complete);
    assert!(audit.refs.is_empty() && audit.seals.is_empty());
}

#[test]
fn equal_findings_are_reported_once() {
    let mut s = scan(Meta::new().tables);
    s.integrity = vec!["b".to_string(), "a".to_string(), "b".to_string()];
    let audit = audit_catalog(&s);
    let details: Vec<&str> = audit.findings.iter().map(|f| f.detail.as_str()).collect();
    assert_eq!(details, ["a", "b"]);
}
