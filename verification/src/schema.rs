//! The schema of the catalog: its tables, its versions, and how the database
//! has to be set up and to answer.
use crate::rows::{CheckpointResult, DurabilityPolicy};
use crate::text::{
    bracketed, bracketed_text, cat2, cat3, cat4, cat6, chars_of, debug_text, decimal, decimal_text,
    integer, integer_text, quoted, text_eq, text_of, text_values,
};
use crate::types::Error;
use vstd::prelude::*;
use vstd::utf8::encode_utf8;

verus! {

/// The statements that make an empty catalog.
pub const SCHEMA: &'static str = r#"
CREATE TABLE IF NOT EXISTS refs (
  name       TEXT PRIMARY KEY,
  oid        BLOB NOT NULL CHECK(length(oid)=32),
  kind       TEXT NOT NULL CHECK(kind IN ('commit','tree','conflict','snapshot')),
  protected  INTEGER NOT NULL DEFAULT 0,
  sealed     INTEGER NOT NULL DEFAULT 0,
  updated_ms INTEGER NOT NULL
);

CREATE TABLE IF NOT EXISTS reflog (
  id INTEGER PRIMARY KEY AUTOINCREMENT,
  name TEXT NOT NULL,
  old_oid BLOB,
  new_oid BLOB NOT NULL,
  agent_id TEXT NOT NULL,
  reason TEXT NOT NULL,
  ts_ms INTEGER NOT NULL
);
CREATE INDEX IF NOT EXISTS reflog_name ON reflog(name, id);

CREATE TABLE IF NOT EXISTS namespaces (
  id TEXT PRIMARY KEY,
  agent_id TEXT NOT NULL,
  created_ms INTEGER NOT NULL,
  pinned_oid BLOB,
  live_ref TEXT
);

CREATE TABLE IF NOT EXISTS observations (
  ns_id TEXT NOT NULL,
  mount TEXT NOT NULL,
  path  TEXT NOT NULL,
  kind  TEXT NOT NULL,
  oid   BLOB,
  PRIMARY KEY (ns_id, mount, path),
  CHECK((kind='absent' AND oid IS NULL)
        OR (kind IN ('blob','tree') AND length(oid)=32))
);

CREATE TABLE IF NOT EXISTS mounts (
  ns_id TEXT NOT NULL,
  path  TEXT NOT NULL,
  spec  TEXT NOT NULL,
  mode  TEXT NOT NULL CHECK(mode IN ('ro','rw')),
  base_oid BLOB,
  PRIMARY KEY (ns_id, path)
);

CREATE TABLE IF NOT EXISTS overlay (
  ns_id    TEXT NOT NULL,
  mount    TEXT NOT NULL,
  path     TEXT NOT NULL,
  blob_oid BLOB,
  exec     INTEGER NOT NULL DEFAULT 0,
  PRIMARY KEY (ns_id, mount, path)
);

CREATE TABLE IF NOT EXISTS seals (
  tag        TEXT PRIMARY KEY,
  snap_oid   BLOB NOT NULL UNIQUE,
  commit_oid BLOB NOT NULL,
  tree_oid   BLOB NOT NULL,
  ts_ms      INTEGER NOT NULL
);

CREATE TABLE IF NOT EXISTS landmarks (
  oid     BLOB PRIMARY KEY,
  kind    TEXT NOT NULL,
  reason  TEXT NOT NULL,
  ts_ms   INTEGER NOT NULL
);

CREATE TABLE IF NOT EXISTS object_intro (
  oid        BLOB PRIMARY KEY,
  commit_oid BLOB NOT NULL,
  agent_id   TEXT NOT NULL,
  ts_ms      INTEGER NOT NULL
);

CREATE TABLE IF NOT EXISTS cap_root (
  id INTEGER PRIMARY KEY CHECK(id=1),
  hmac_key BLOB NOT NULL DEFAULT X'',
  seal_pub BLOB NOT NULL
);

CREATE TABLE IF NOT EXISTS schema_migrations (
  version INTEGER PRIMARY KEY,
  applied_ms INTEGER NOT NULL
);
"#;

/// The version of the schema that this library knows.
pub const CURRENT_SCHEMA_VERSION: i64 = 3;

/// The statements that give `observations` its second shape. Every row it has is
/// carried on as the observation of a blob that it was.
pub const MIGRATE_1_TO_2: &'static str = r#"
CREATE TABLE observations_v2 (
  ns_id TEXT NOT NULL,
  mount TEXT NOT NULL,
  path  TEXT NOT NULL,
  kind  TEXT NOT NULL,
  oid   BLOB,
  PRIMARY KEY (ns_id, mount, path),
  CHECK((kind='absent' AND oid IS NULL)
        OR (kind IN ('blob','tree') AND length(oid)=32))
);
INSERT INTO observations_v2 (ns_id, mount, path, kind, oid)
  SELECT ns_id, mount, path, 'blob', oid FROM observations;
DROP TABLE observations;
ALTER TABLE observations_v2 RENAME TO observations;
"#;

/// The statement that gives `mounts` its third shape. The rows are pinned after it.
pub const MIGRATE_2_TO_3: &'static str = "ALTER TABLE mounts ADD COLUMN base_oid BLOB;";

/// A table of the catalog.
#[derive(Clone, Copy, Debug, PartialEq, Eq, Structural)]
pub enum Table {
    Refs,
    Reflog,
    Namespaces,
    Observations,
    Mounts,
    Overlay,
    Seals,
    Landmarks,
    ObjectIntro,
    CapRoot,
    SchemaMigrations,
}

/// The values of some literals.
pub open spec fn literal_values(v: Seq<&'static str>) -> Seq<Seq<char>> {
    Seq::new(v.len(), |i: int| v[i]@)
}

fn owned(parts: Vec<&'static str>) -> (r: Vec<String>)
    ensures
        text_values(r@) == literal_values(parts@),
{
    let mut out: Vec<String> = Vec::new();
    let mut i: usize = 0;
    while i < parts.len()
        invariant
            i <= parts@.len(),
            out@.len() == i,
            forall|j: int| 0 <= j < i ==> (#[trigger] out@[j])@ == parts@[j]@,
        decreases parts@.len() - i,
    {
        out.push(parts[i].to_string());
        i += 1;
    }
    assert(text_values(out@) =~= literal_values(parts@));
    out
}

impl Table {
    pub open spec fn label(self) -> Seq<char> {
        match self {
            Table::Refs => "refs"@,
            Table::Reflog => "reflog"@,
            Table::Namespaces => "namespaces"@,
            Table::Observations => "observations"@,
            Table::Mounts => "mounts"@,
            Table::Overlay => "overlay"@,
            Table::Seals => "seals"@,
            Table::Landmarks => "landmarks"@,
            Table::ObjectIntro => "object_intro"@,
            Table::CapRoot => "cap_root"@,
            Table::SchemaMigrations => "schema_migrations"@,
        }
    }

    /// The name of the table.
    pub fn name(self) -> (r: &'static str)
        ensures
            r@ == self.label(),
    {
        match self {
            Table::Refs => "refs",
            Table::Reflog => "reflog",
            Table::Namespaces => "namespaces",
            Table::Observations => "observations",
            Table::Mounts => "mounts",
            Table::Overlay => "overlay",
            Table::Seals => "seals",
            Table::Landmarks => "landmarks",
            Table::ObjectIntro => "object_intro",
            Table::CapRoot => "cap_root",
            Table::SchemaMigrations => "schema_migrations",
        }
    }

    /// The columns that the table has in the current schema.
    pub open spec fn columns(self) -> Seq<Seq<char>> {
        match self {
            Table::Refs => seq!["name"@, "oid"@, "kind"@, "protected"@, "sealed"@, "updated_ms"@],
            Table::Reflog => seq!["id"@, "name"@, "old_oid"@, "new_oid"@, "agent_id"@, "reason"@, "ts_ms"@],
            Table::Namespaces => seq!["id"@, "agent_id"@, "created_ms"@, "pinned_oid"@, "live_ref"@],
            Table::Observations => seq!["ns_id"@, "mount"@, "path"@, "kind"@, "oid"@],
            Table::Mounts => seq!["ns_id"@, "path"@, "spec"@, "mode"@, "base_oid"@],
            Table::Overlay => seq!["ns_id"@, "mount"@, "path"@, "blob_oid"@, "exec"@],
            Table::Seals => seq!["tag"@, "snap_oid"@, "commit_oid"@, "tree_oid"@, "ts_ms"@],
            Table::Landmarks => seq!["oid"@, "kind"@, "reason"@, "ts_ms"@],
            Table::ObjectIntro => seq!["oid"@, "commit_oid"@, "agent_id"@, "ts_ms"@],
            Table::CapRoot => seq!["id"@, "hmac_key"@, "seal_pub"@],
            Table::SchemaMigrations => seq!["version"@, "applied_ms"@],
        }
    }

    pub fn column_list(self) -> (r: Vec<String>)
        ensures
            text_values(r@) == self.columns(),
    {
        let parts: Vec<&'static str> = match self {
            Table::Refs => vec!["name", "oid", "kind", "protected", "sealed", "updated_ms"],
            Table::Reflog => vec!["id", "name", "old_oid", "new_oid", "agent_id", "reason", "ts_ms"],
            Table::Namespaces => vec!["id", "agent_id", "created_ms", "pinned_oid", "live_ref"],
            Table::Observations => vec!["ns_id", "mount", "path", "kind", "oid"],
            Table::Mounts => vec!["ns_id", "path", "spec", "mode", "base_oid"],
            Table::Overlay => vec!["ns_id", "mount", "path", "blob_oid", "exec"],
            Table::Seals => vec!["tag", "snap_oid", "commit_oid", "tree_oid", "ts_ms"],
            Table::Landmarks => vec!["oid", "kind", "reason", "ts_ms"],
            Table::ObjectIntro => vec!["oid", "commit_oid", "agent_id", "ts_ms"],
            Table::CapRoot => vec!["id", "hmac_key", "seal_pub"],
            Table::SchemaMigrations => vec!["version", "applied_ms"],
        };
        assert(literal_values(parts@) =~= self.columns());
        owned(parts)
    }
}

/// All tables, in the order in which their shapes are checked.
pub open spec fn all_tables() -> Seq<Table> {
    seq![
        Table::Refs,
        Table::Reflog,
        Table::Namespaces,
        Table::Observations,
        Table::Mounts,
        Table::Overlay,
        Table::Seals,
        Table::Landmarks,
        Table::ObjectIntro,
        Table::CapRoot,
        Table::SchemaMigrations,
    ]
}

pub fn catalog_tables() -> (r: Vec<Table>)
    ensures
        r@ == all_tables(),
{
    let v: Vec<Table> = vec![
        Table::Refs,
        Table::Reflog,
        Table::Namespaces,
        Table::Observations,
        Table::Mounts,
        Table::Overlay,
        Table::Seals,
        Table::Landmarks,
        Table::ObjectIntro,
        Table::CapRoot,
        Table::SchemaMigrations,
    ];
    assert(v@ =~= all_tables());
    v
}

/// Whether two lists of texts are equal.
pub fn same_texts(a: &Vec<String>, b: &Vec<String>) -> (r: bool)
    ensures
        r == (text_values(a@) == text_values(b@)),
{
    if a.len() != b.len() {
        assert(text_values(a@).len() != text_values(b@).len());
        return false;
    }
    let mut i: usize = 0;
    while i < a.len()
        invariant
            i <= a@.len(),
            a@.len() == b@.len(),
            forall|j: int| 0 <= j < i ==> text_values(a@)[j] == #[trigger] text_values(b@)[j],
        decreases a@.len() - i,
    {
        if !text_eq(a[i].as_str(), b[i].as_str()) {
            assert(text_values(a@)[i as int] != text_values(b@)[i as int]);
            return false;
        }
        i += 1;
    }
    assert(text_values(a@) =~= text_values(b@));
    true
}

/// A list of texts, each in quotes.
pub open spec fn quoted_list(parts: Seq<Seq<char>>) -> Seq<char> {
    bracketed(Seq::new(parts.len(), |i: int| quoted(parts[i])))
}

pub fn quoted_list_text(parts: &Vec<String>) -> (r: String)
    ensures
        r@ == quoted_list(text_values(parts@)),
{
    let mut out: Vec<String> = Vec::new();
    let mut i: usize = 0;
    while i < parts.len()
        invariant
            i <= parts@.len(),
            out@.len() == i,
            forall|j: int| 0 <= j < i ==> (#[trigger] out@[j])@ == quoted(parts@[j]@),
        decreases parts@.len() - i,
    {
        out.push(debug_text(parts[i].as_str()));
        i += 1;
    }
    proof {
        let all = text_values(parts@);
        assert(text_values(out@) =~= Seq::new(all.len(), |j: int| quoted(all[j])));
    }
    bracketed_text(&out)
}

/// What a table with the wrong columns is refused with after a migration.
pub open spec fn wrong_shape(from: i64, table: Table, found: Seq<Seq<char>>) -> Seq<char> {
    "metadata schema migration "@ + integer(from as int)
        + " -> 3 did not reach the current shape: table "@ + table.label() + " has columns "@ + (
    quoted_list(found) + ", expected "@ + quoted_list(table.columns()))
}

/// Check that the catalog has reached the current shape, given the columns of
/// all tables in their order. The first table that has not is named.
pub fn verify_migrated_shape(from: i64, found: &Vec<Vec<String>>) -> (r: Result<(), Error>)
    requires
        found@.len() == all_tables().len(),
    ensures
        r is Ok <==> forall|i: int|
            0 <= i < found@.len() ==> text_values((#[trigger] found@[i])@)
                == all_tables()[i].columns(),
        r matches Err(e) ==> e matches Error::Invalid(msg) && exists|i: int|
            {
                &&& 0 <= i < found@.len()
                &&& msg@ == wrong_shape(from, all_tables()[i], text_values((#[trigger] found@[i])@))
                &&& text_values(found@[i]@) != all_tables()[i].columns()
                &&& forall|j: int|
                    0 <= j < i ==> text_values((#[trigger] found@[j])@)
                        == all_tables()[j].columns()
            },
{
    let tables = catalog_tables();
    let mut i: usize = 0;
    while i < tables.len()
        invariant
            i <= tables@.len(),
            tables@ == all_tables(),
            found@.len() == tables@.len(),
            forall|j: int|
                0 <= j < i ==> text_values((#[trigger] found@[j])@) == all_tables()[j].columns(),
        decreases tables@.len() - i,
    {
        let table = tables[i];
        let expected = table.column_list();
        if !same_texts(&found[i], &expected) {
            let actual = quoted_list_text(&found[i]);
            let head = cat6(
                "metadata schema migration ",
                integer_text(from).as_str(),
                " -> 3 did not reach the current shape: table ",
                table.name(),
                " has columns ",
                cat3(
                    actual.as_str(),
                    ", expected ",
                    quoted_list_text(&expected).as_str(),
                ).as_str(),
            );
            assert(text_values(found@[i as int]@) != all_tables()[i as int].columns());
            return Err(Error::Invalid(head));
        }
        i += 1;
    }
    Ok(())
}

/// The refusal of a schema that is newer than this library.
pub open spec fn too_new(version: i64) -> Seq<char> {
    "metadata schema version "@ + integer(version as int) + " is newer than supported 3"@
}

/// Check that this library knows a version of the schema, and return it.
pub fn compatible_schema_version(version: i64) -> (r: Result<i64, Error>)
    ensures
        match r {
            Ok(v) => v == version && version <= CURRENT_SCHEMA_VERSION,
            Err(e) => version > CURRENT_SCHEMA_VERSION && (e matches Error::Invalid(msg) && msg@
                == too_new(version)),
        },
{
    if version > CURRENT_SCHEMA_VERSION {
        return Err(
            Error::Invalid(
                cat3(
                    "metadata schema version ",
                    integer_text(version).as_str(),
                    " is newer than supported 3",
                ),
            ),
        );
    }
    Ok(version)
}

/// Check that a catalog can be read without a migration, which would write.
pub fn readable_schema_version(version: i64) -> (r: Result<(), Error>)
    ensures
        match r {
            Ok(_) => version == CURRENT_SCHEMA_VERSION,
            Err(e) => version != CURRENT_SCHEMA_VERSION && (e matches Error::Invalid(msg) && msg@
                == if version > CURRENT_SCHEMA_VERSION {
                too_new(version)
            } else {
                "metadata schema version "@ + integer(version as int)
                    + " needs migration to 3, which a read-only open cannot perform"@
            }),
        },
{
    let version = compatible_schema_version(version)?;
    if version < CURRENT_SCHEMA_VERSION {
        return Err(
            Error::Invalid(
                cat3(
                    "metadata schema version ",
                    integer_text(version).as_str(),
                    " needs migration to 3, which a read-only open cannot perform",
                ),
            ),
        );
    }
    Ok(())
}

/// A step of a migration.
#[derive(Clone, Copy, Debug, PartialEq, Eq, Structural)]
pub enum MigrationStep {
    /// Run the statements of the current schema.
    ApplySchema,
    /// Give `observations` its second shape.
    ReshapeObservations,
    /// Give `mounts` its third shape, and every read-write mount its base.
    PinMounts,
    /// Check that every table has the current shape.
    VerifyShape,
    /// Write a version into the ledger.
    Record(i64),
}

/// The steps that change tables, from one version to the current one.
pub open spec fn reshaping(first: int) -> Seq<MigrationStep> {
    if first <= 1 {
        seq![MigrationStep::ReshapeObservations, MigrationStep::PinMounts]
    } else if first == 2 {
        seq![MigrationStep::PinMounts]
    } else {
        Seq::empty()
    }
}

/// The versions above one, each written into the ledger.
pub open spec fn recording(from: int) -> Seq<MigrationStep> {
    Seq::new((3 - from) as nat, |i: int| MigrationStep::Record((from + 1 + i) as i64))
}

/// The steps from a version to the current one.
///
/// Version 0 is two states: a catalog without tables, and one from before the
/// ledger, whose tables have the first shape. The statements of the schema do
/// nothing to a table that exists, so the second needs the reshaping too.
pub open spec fn migration_steps(from: i64, has_observations: bool) -> Seq<MigrationStep> {
    if from == 3 {
        Seq::empty()
    } else if from > 0 {
        reshaping(from as int).push(MigrationStep::VerifyShape) + recording(from as int)
    } else if has_observations {
        (seq![MigrationStep::ApplySchema] + reshaping(1)).push(MigrationStep::VerifyShape)
            + recording(0)
    } else {
        seq![MigrationStep::ApplySchema, MigrationStep::VerifyShape] + recording(0)
    }
}

/// Plan the migration from a version, in one transaction. `has_observations`
/// tells whether the table is there before.
pub fn migrate(from: i64, has_observations: bool) -> (r: Result<Vec<MigrationStep>, Error>)
    ensures
        match r {
            Ok(steps) => 0 <= from <= 3 && steps@ == migration_steps(from, has_observations),
            Err(e) => (from < 0 || from > 3) && (e matches Error::Invalid(msg) && msg@ == if from
                > 3 {
                too_new(from)
            } else {
                "unsupported metadata schema migration "@ + integer(from as int) + " -> "@ + integer(
                    from + 1,
                )
            }),
        },
{
    let from = compatible_schema_version(from)?;
    let mut steps: Vec<MigrationStep> = Vec::new();
    if from == CURRENT_SCHEMA_VERSION {
        assert(steps@ =~= migration_steps(from, has_observations));
        return Ok(steps);
    }
    if from < 0 {
        return Err(
            Error::Invalid(
                cat4(
                    "unsupported metadata schema migration ",
                    integer_text(from).as_str(),
                    " -> ",
                    integer_text(from + 1).as_str(),
                ),
            ),
        );
    }
    if from == 0 {
        steps.push(MigrationStep::ApplySchema);
    }
    if from != 0 || has_observations {
        if from <= 1 {
            steps.push(MigrationStep::ReshapeObservations);
        }
        steps.push(MigrationStep::PinMounts);
    }
    steps.push(MigrationStep::VerifyShape);
    let ghost changed = steps@;
    proof {
        assert(changed + recording(from as int) =~= migration_steps(from, has_observations));
    }
    let mut version: i64 = from;
    while version < CURRENT_SCHEMA_VERSION
        invariant
            0 <= from <= version <= 3,
            steps@ == changed + recording(from as int).take(version - from),
        decreases 3 - version,
    {
        version += 1;
        steps.push(MigrationStep::Record(version));
        assert(steps@ =~= changed + recording(from as int).take(version - from));
    }
    assert(recording(from as int).take(3 - from) =~= recording(from as int));
    Ok(steps)
}

/// A migration checks the shape before it writes a version down, and writes down exactly
/// the versions above the one it started from, after everything else.
pub proof fn lemma_migration_records(from: i64, has_observations: bool)
    requires
        0 <= from < 3,
    ensures
        exists|n: int|
            0 <= n < migration_steps(from, has_observations).len() && #[trigger] migration_steps(
                from,
                has_observations,
            )[n] == MigrationStep::VerifyShape && migration_steps(from, has_observations).skip(
                n + 1,
            ) == recording(from as int) && forall|i: int|
                0 <= i < n ==> !((#[trigger] migration_steps(from, has_observations)[i]) is Record),
{
    let steps = migration_steps(from, has_observations);
    let n = steps.len() - recording(from as int).len() - 1;
    assert(steps[n] == MigrationStep::VerifyShape);
    assert(steps.skip(n + 1) =~= recording(from as int));
}

/// The bytes of the first region of the shared-memory index of the write-ahead
/// log, which the database maps as a whole.
pub const WAL_INDEX_REGION_BYTES: u64 = 32768;

/// Decide whether the index may be created with so many free bytes. Below one
/// region the mapping cannot be backed, and a fault in it ends the process by a
/// signal.
pub fn wal_index_space_check(available: u64) -> (r: Result<(), Error>)
    ensures
        match r {
            Ok(_) => available >= WAL_INDEX_REGION_BYTES,
            Err(e) => available < WAL_INDEX_REGION_BYTES && (e matches Error::Io(msg) && msg@
                == "refusing to open metadata: "@ + decimal(available as nat)
                + " bytes free on the filesystem holding the repository, below the 32768 bytes SQLite maps for the wal-index; continuing risks SIGBUS instead of an error"@),
        },
{
    if available >= WAL_INDEX_REGION_BYTES {
        return Ok(());
    }
    Err(
        Error::Io(
            cat3(
                "refusing to open metadata: ",
                decimal_text(available).as_str(),
                " bytes free on the filesystem holding the repository, below the 32768 bytes SQLite maps for the wal-index; continuing risks SIGBUS instead of an error",
            ),
        ),
    )
}

/// The file of the index beside a database.
pub fn wal_index_path(db: &str) -> (r: String)
    ensures
        r@ == db@ + "-shm"@,
{
    cat2(db, "-shm")
}

/// The class of a failure of the database, by its primary result code.
#[derive(Clone, Copy, Debug, PartialEq, Eq, Structural)]
pub enum SqlCode {
    DatabaseBusy,
    DatabaseLocked,
    ConstraintViolation,
    DatabaseCorrupt,
    NotADatabase,
    ReadOnly,
    CannotOpen,
    /// Any other code, or a failure without one.
    Other,
}

/// The error that a failure of the database is: by its code, never by its text.
pub open spec fn sql_error(code: SqlCode, text: Seq<char>, e: Error) -> bool {
    match code {
        SqlCode::DatabaseBusy => e matches Error::Busy(m) && m@ == text,
        SqlCode::DatabaseLocked => e matches Error::Busy(m) && m@ == text,
        SqlCode::ConstraintViolation => e matches Error::Invalid(m) && m@ == text,
        SqlCode::DatabaseCorrupt => e matches Error::Corrupt(m) && m@ == "metadata catalog: "@
            + text,
        SqlCode::NotADatabase => e matches Error::Corrupt(m) && m@ == "metadata catalog: "@ + text,
        SqlCode::ReadOnly => e matches Error::Denied(m) && m@
            == "repository is open read-only; this operation writes metadata: "@ + text,
        SqlCode::CannotOpen => e matches Error::Sqlite(m) && m@ == text,
        SqlCode::Other => e matches Error::Sqlite(m) && m@ == text,
    }
}

pub fn map_sql(code: SqlCode, text: &str) -> (e: Error)
    ensures
        sql_error(code, text@, e),
{
    match code {
        SqlCode::DatabaseBusy | SqlCode::DatabaseLocked => Error::Busy(text.to_string()),
        SqlCode::ConstraintViolation => Error::Invalid(text.to_string()),
        SqlCode::DatabaseCorrupt | SqlCode::NotADatabase => Error::Corrupt(
            cat2("metadata catalog: ", text),
        ),
        SqlCode::ReadOnly => Error::Denied(
            cat2("repository is open read-only; this operation writes metadata: ", text),
        ),
        _ => Error::Sqlite(text.to_string()),
    }
}

/// Whether a failure means that the database could not be opened.
pub fn cannot_open(code: SqlCode) -> (r: bool)
    ensures
        r == (code == SqlCode::CannotOpen || code == SqlCode::ReadOnly),
{
    code == SqlCode::CannotOpen || code == SqlCode::ReadOnly
}

/// The error that a failed read-only open is. A catalog that is missing, or whose
/// log needs recovery, is no fault of the database.
pub fn map_read_only_open(path: &str, code: SqlCode, text: &str) -> (e: Error)
    ensures
        if code == SqlCode::CannotOpen || code == SqlCode::ReadOnly {
            e matches Error::Invalid(msg) && msg@ == "cannot open "@ + path@
                + " read-only; either it is missing or a pending write-ahead log needs recovery on writable media first"@
        } else {
            sql_error(code, text@, e)
        },
{
    if cannot_open(code) {
        return Error::Invalid(
            cat3(
                "cannot open ",
                path,
                " read-only; either it is missing or a pending write-ahead log needs recovery on writable media first",
            ),
        );
    }
    map_sql(code, text)
}

/// Name the cause where a writable open failed on read-only media.
pub fn explain_read_only_media(path: &str, error: Error, media_read_only: bool) -> (e: Error)
    ensures
        if media_read_only && (error is Sqlite || error is Io || error is Denied) {
            e matches Error::Denied(msg) && msg@ == path@
                + " is on read-only media; opening a ForgeFS repository for writing needs writable media (`forge fsck` and `forge verify` run read-only)"@
        } else {
            e == error
        },
{
    let fits = match &error {
        Error::Sqlite(_) => true,
        Error::Io(_) => true,
        Error::Denied(_) => true,
        _ => false,
    };
    if fits && media_read_only {
        return Error::Denied(
            cat2(
                path,
                " is on read-only media; opening a ForgeFS repository for writing needs writable media (`forge fsck` and `forge verify` run read-only)",
            ),
        );
    }
    error
}

/// A byte that stands for itself in a file URI.
pub open spec fn unreserved(b: u8) -> bool {
    ||| 65 <= b <= 90
    ||| 97 <= b <= 122
    ||| 48 <= b <= 57
    ||| b == 45
    ||| b == 46
    ||| b == 95
    ||| b == 126
    ||| b == 47
}

/// A hexadecimal digit in upper case.
pub open spec fn upper_hex(d: int) -> char {
    if d < 10 {
        (48 + d) as char
    } else {
        (55 + d) as char
    }
}

/// A byte in a file URI.
pub open spec fn uri_byte(b: u8) -> Seq<char> {
    if unreserved(b) {
        seq![b as char]
    } else {
        seq!['%', upper_hex(b as int / 16), upper_hex(b as int % 16)]
    }
}

/// Bytes in a file URI.
pub open spec fn uri_escaped(bytes: Seq<u8>) -> Seq<char>
    decreases bytes.len(),
{
    if bytes.len() == 0 {
        Seq::<char>::empty()
    } else {
        uri_escaped(bytes.drop_last()) + uri_byte(bytes.last())
    }
}

fn hex_digit(d: u8) -> (c: char)
    requires
        d < 16,
    ensures
        c == upper_hex(d as int),
{
    if d < 10 {
        (48 + d) as char
    } else {
        (55 + d) as char
    }
}

/// The file URI of a database. URIs are percent-decoded, and a question mark or a
/// hash would end the path, so every byte outside the unreserved ones is escaped.
pub fn sqlite_uri(path: &str, query: &str) -> (r: String)
    ensures
        r@ == "file:"@ + uri_escaped(encode_utf8(path@)) + "?"@ + query@,
{
    let bytes = path.as_bytes();
    let ghost all = bytes@;
    let mut out: Vec<char> = Vec::new();
    let mut i: usize = 0;
    assert(all.take(0) =~= Seq::<u8>::empty());
    while i < bytes.len()
        invariant
            i <= bytes@.len(),
            all == bytes@,
            out@ == uri_escaped(all.take(i as int)),
        decreases bytes@.len() - i,
    {
        let b: u8 = bytes[i];
        proof {
            let next = all.take(i + 1);
            assert(next.drop_last() =~= all.take(i as int));
            assert(next.last() == b);
        }
        let plain = (65 <= b && b <= 90) || (97 <= b && b <= 122) || (48 <= b && b <= 57) || b == 45
            || b == 46 || b == 95 || b == 126 || b == 47;
        if plain {
            out.push(b as char);
        } else {
            out.push('%');
            out.push(hex_digit(b / 16));
            out.push(hex_digit(b % 16));
        }
        assert(out@ =~= uri_escaped(all.take(i + 1)));
        i += 1;
    }
    assert(all.take(i as int) =~= all);
    cat4("file:", text_of(out.as_slice()).as_str(), "?", query)
}

/// The letter in lower case, where it is one of the English alphabet.
pub open spec fn lower(c: char) -> char {
    if 'A' <= c <= 'Z' {
        ((c as int) + 32) as char
    } else {
        c
    }
}

/// Text with the letters of the English alphabet in lower case.
pub open spec fn lowered(s: Seq<char>) -> Seq<char> {
    Seq::new(s.len(), |i: int| lower(s[i]))
}

pub fn lower_text(s: &str) -> (r: String)
    ensures
        r@ == lowered(s@),
{
    let cs = chars_of(s);
    let mut out: Vec<char> = Vec::new();
    let mut i: usize = 0;
    while i < cs.len()
        invariant
            i <= cs@.len(),
            cs@ == s@,
            out@.len() == i,
            forall|j: int| 0 <= j < i ==> #[trigger] out@[j] == lower(s@[j]),
        decreases cs@.len() - i,
    {
        let c: char = cs[i];
        if 'A' <= c && c <= 'Z' {
            out.push((c as u8 + 32) as char);
        } else {
            out.push(c);
        }
        i += 1;
    }
    assert(out@ =~= lowered(s@));
    text_of(out.as_slice())
}

/// The settings in force, as the database reported them.
pub fn observe_durability(
    journal_mode: &str,
    synchronous: i64,
    fullfsync: Option<i64>,
    read_only: bool,
) -> (r: DurabilityPolicy)
    ensures
        r.journal_mode@ == lowered(journal_mode@),
        r.synchronous == synchronous,
        r.fullfsync == (match fullfsync {
            Some(n) => Some(n == 1),
            None => None::<bool>,
        }),
        r.read_only == read_only,
{
    DurabilityPolicy {
        journal_mode: lower_text(journal_mode),
        synchronous,
        fullfsync: match fullfsync {
            Some(n) => Some(n == 1),
            None => None,
        },
        read_only,
    }
}

/// The settings under which a catalog may be written: a write-ahead log, full
/// synchronization, and the full flush where the platform has one.
pub open spec fn durable(p: DurabilityPolicy, has_fullfsync: bool) -> bool {
    lowered(p.journal_mode@) == "wal"@ && p.synchronous == 2 && (has_fullfsync ==> p.fullfsync
        == Some(true))
}

/// Check the settings before anything is written.
pub fn enforce_durability(p: &DurabilityPolicy, has_fullfsync: bool) -> (r: Result<(), Error>)
    ensures
        match r {
            Ok(_) => durable(*p, has_fullfsync),
            Err(e) => !durable(*p, has_fullfsync) && (e matches Error::Corrupt(msg) && msg@
                == if lowered(p.journal_mode@) != "wal"@ {
                "metadata durability requires journal_mode=WAL, got "@ + p.journal_mode@
            } else if p.synchronous != 2 {
                "metadata durability requires synchronous=FULL(2), got "@ + integer(
                    p.synchronous as int,
                )
            } else {
                "metadata durability requires fullfsync=ON on macOS"@
            }),
        },
{
    let mode = lower_text(p.journal_mode.as_str());
    if !text_eq(mode.as_str(), "wal") {
        return Err(
            Error::Corrupt(
                cat2(
                    "metadata durability requires journal_mode=WAL, got ",
                    p.journal_mode.as_str(),
                ),
            ),
        );
    }
    if p.synchronous != 2 {
        return Err(
            Error::Corrupt(
                cat2(
                    "metadata durability requires synchronous=FULL(2), got ",
                    integer_text(p.synchronous).as_str(),
                ),
            ),
        );
    }
    let full = match p.fullfsync {
        Some(b) => b,
        None => false,
    };
    if has_fullfsync && !full {
        return Err(
            Error::Corrupt("metadata durability requires fullfsync=ON on macOS".to_string()),
        );
    }
    Ok(())
}

/// Judge what a checkpoint reported. The database reports a busy one as a row, not
/// as an error, so a partial one is refused here.
pub fn checkpoint_result(busy: i64, log_frames: i64, checkpointed_frames: i64) -> (r: Result<
    CheckpointResult,
    Error,
>)
    ensures
        match r {
            Ok(c) => busy == 0 && checkpointed_frames >= log_frames && c == (CheckpointResult {
                log_frames,
                checkpointed_frames,
            }),
            Err(e) => (busy != 0 || checkpointed_frames < log_frames) && (e matches Error::Busy(msg)
                && msg@ == "WAL checkpoint incomplete: busy="@ + integer(busy as int) + " log="@
                + integer(log_frames as int) + " checkpointed="@ + integer(
                checkpointed_frames as int,
            )),
        },
{
    if busy != 0 || checkpointed_frames < log_frames {
        return Err(
            Error::Busy(
                cat6(
                    "WAL checkpoint incomplete: busy=",
                    integer_text(busy).as_str(),
                    " log=",
                    integer_text(log_frames).as_str(),
                    " checkpointed=",
                    integer_text(checkpointed_frames).as_str(),
                ),
            ),
        );
    }
    Ok(CheckpointResult { log_frames, checkpointed_frames })
}

/// The most and the fewest connections that reads share.
pub const READ_POOL_MAX: usize = 8;

pub const READ_POOL_MIN: usize = 2;

/// How many connections reads share: one for each processor, within the bounds.
pub fn read_pool_width(processors: Option<usize>) -> (n: usize)
    ensures
        n == (match processors {
            Some(p) => if p < READ_POOL_MIN {
                READ_POOL_MIN
            } else if p > READ_POOL_MAX {
                READ_POOL_MAX
            } else {
                p
            },
            None => READ_POOL_MIN,
        }),
{
    match processors {
        Some(p) => if p < READ_POOL_MIN {
            READ_POOL_MIN
        } else if p > READ_POOL_MAX {
            READ_POOL_MAX
        } else {
            p
        },
        None => READ_POOL_MIN,
    }
}

} // verus!
