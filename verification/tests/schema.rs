//! The schema of the catalog and the set-up of its database.
use forgefs::rows::DurabilityPolicy;
use forgefs::schema::{
    catalog_tables, checkpoint_result, compatible_schema_version, enforce_durability,
    explain_read_only_media, map_read_only_open, map_sql, migrate, observe_durability,
    read_pool_width, readable_schema_version, sqlite_uri, verify_migrated_shape,
    wal_index_path, wal_index_space_check, MigrationStep, SqlCode, Table, CURRENT_SCHEMA_VERSION,
    WAL_INDEX_REGION_BYTES,
};
use forgefs::types::Error;

#[test]
fn wal_index_space_check_rejects_only_below_one_region() {
    assert!(wal_index_space_check(WAL_INDEX_REGION_BYTES).is_ok());
    assert!(wal_index_space_check(WAL_INDEX_REGION_BYTES * 4096).is_ok());
    for available in [0u64, 3072, 7168, 9216, 15360, WAL_INDEX_REGION_BYTES - 1] {
        let error = wal_index_space_check(available)
            .expect_err("below one wal-index region must fail as I/O, never by signal");
        assert!(
            matches!(error, Error::Io(_)),
            "the near-full filesystem band must map to exit 5, got {error:?}"
        );
        assert!(
            error.message().contains("wal-index"),
            "diagnostic must name the wal-index: {error:?}"
        );
    }
}

#[test]
fn wal_index_path_is_the_sqlite_shm_sidecar() {
    assert_eq!(
        wal_index_path("/x/.forge/meta.sqlite"),
        "/x/.forge/meta.sqlite-shm"
    );
}

#[test]
fn every_version_below_the_current_one_has_a_migration() {
    let versions: Vec<i64> = (0..CURRENT_SCHEMA_VERSION).collect();
    assert_eq!(versions, [0, 1, 2]);
    for from in versions {
        let steps = migrate(from, true).unwrap();
        let recorded: Vec<i64> = steps
            .iter()
            .filter_map(|s| match s {
                MigrationStep::Record(v) => Some(*v),
                _ => None,
            })
            .collect();
        assert_eq!(recorded, ((from + 1)..=CURRENT_SCHEMA_VERSION).collect::<Vec<_>>());
        assert!(steps.contains(&MigrationStep::VerifyShape));
        assert!(steps.contains(&MigrationStep::PinMounts));
    }
    assert_eq!(
        migrate(0, false).unwrap(),
        vec![
            MigrationStep::ApplySchema,
            MigrationStep::VerifyShape,
            MigrationStep::Record(1),
            MigrationStep::Record(2),
            MigrationStep::Record(3),
        ]
    );
    assert!(migrate(CURRENT_SCHEMA_VERSION, true).unwrap().is_empty());
}

#[test]
fn other_versions_are_refused() {
    let error = migrate(CURRENT_SCHEMA_VERSION + 1, false).unwrap_err();
    assert!(matches!(error, Error::Invalid(_)));
    assert!(error.message().contains("newer than supported"));
    assert!(compatible_schema_version(CURRENT_SCHEMA_VERSION + 1).is_err());
    assert_eq!(compatible_schema_version(1).unwrap(), 1);
    let error = migrate(-1, false).unwrap_err();
    assert_eq!(error.message(), "invalid: unsupported metadata schema migration -1 -> 0");
    let error = readable_schema_version(0).unwrap_err();
    assert!(error.message().contains("needs migration to 3"));
    assert!(readable_schema_version(CURRENT_SCHEMA_VERSION).is_ok());
}

#[test]
fn a_catalog_that_did_not_reach_the_shape_is_refused_by_table_and_column() {
    let mut found: Vec<Vec<String>> = catalog_tables().iter().map(|t| t.column_list()).collect();
    assert!(verify_migrated_shape(0, &found).is_ok());
    found[0].retain(|c| c != "sealed");
    let error = verify_migrated_shape(0, &found).unwrap_err();
    assert!(matches!(error, Error::Invalid(_)));
    let text = error.message();
    assert!(text.contains("table refs") && text.contains("\"sealed\""), "{text}");
    assert_eq!(Table::Mounts.column_list(), ["ns_id", "path", "spec", "mode", "base_oid"]);
}

#[test]
fn failures_are_classified_by_their_code() {
    assert!(matches!(map_sql(SqlCode::DatabaseBusy, "x"), Error::Busy(m) if m == "x"));
    assert!(matches!(map_sql(SqlCode::DatabaseLocked, "x"), Error::Busy(_)));
    assert!(matches!(map_sql(SqlCode::ConstraintViolation, "x"), Error::Invalid(_)));
    assert!(matches!(
        map_sql(SqlCode::NotADatabase, "x"),
        Error::Corrupt(m) if m == "metadata catalog: x"
    ));
    assert!(matches!(map_sql(SqlCode::ReadOnly, "x"), Error::Denied(_)));
    assert!(matches!(map_sql(SqlCode::Other, "x"), Error::Sqlite(_)));
    assert!(matches!(map_read_only_open("p", SqlCode::CannotOpen, "x"), Error::Invalid(_)));
    assert!(matches!(map_read_only_open("p", SqlCode::Other, "x"), Error::Sqlite(_)));
    assert!(matches!(
        explain_read_only_media("p", Error::Sqlite("x".to_string()), true),
        Error::Denied(_)
    ));
    assert!(matches!(
        explain_read_only_media("p", Error::Sqlite("x".to_string()), false),
        Error::Sqlite(_)
    ));
    assert!(matches!(
        explain_read_only_media("p", Error::Corrupt("x".to_string()), true),
        Error::Corrupt(_)
    ));
}

#[test]
fn uris_escape_what_would_end_or_change_the_path() {
    assert_eq!(
        sqlite_uri("/a b/c?d#e%.sqlite", "immutable=1"),
        "file:/a%20b/c%3Fd%23e%25.sqlite?immutable=1"
    );
    assert_eq!(sqlite_uri("/\u{e9}", "q"), "file:/%C3%A9?q");
}

#[test]
fn durability_is_enforced() {
    let good = observe_durability("WAL", 2, None, false);
    assert_eq!(good.journal_mode, "wal");
    assert!(enforce_durability(&good, false).is_ok());
    assert!(matches!(enforce_durability(&good, true), Err(Error::Corrupt(_))));
    let full = observe_durability("wal", 2, Some(1), false);
    assert_eq!(full.fullfsync, Some(true));
    assert!(enforce_durability(&full, true).is_ok());
    let rollback = DurabilityPolicy {
        journal_mode: "delete".to_string(),
        ..good.clone()
    };
    assert_eq!(
        enforce_durability(&rollback, false).unwrap_err().message(),
        "corrupt: metadata durability requires journal_mode=WAL, got delete"
    );
    let normal = DurabilityPolicy { synchronous: 1, ..good };
    assert!(enforce_durability(&normal, false).is_err());
}

#[test]
fn a_partial_checkpoint_is_busy() {
    let done = checkpoint_result(0, 4, 4).unwrap();
    assert_eq!((done.log_frames, done.checkpointed_frames), (4, 4));
    assert!(matches!(checkpoint_result(1, 4, 4), Err(Error::Busy(_))));
    assert_eq!(
        checkpoint_result(0, 4, 3).unwrap_err().message(),
        "busy: WAL checkpoint incomplete: busy=0 log=4 checkpointed=3"
    );
}

#[test]
fn reads_share_a_bounded_number_of_connections() {
    assert_eq!(read_pool_width(None), 2);
    assert_eq!(read_pool_width(Some(1)), 2);
    assert_eq!(read_pool_width(Some(5)), 5);
    assert_eq!(read_pool_width(Some(64)), 8);
}
