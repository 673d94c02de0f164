//! The rows of the catalog, as the library sees them.
use crate::objectstore::capped;
use crate::types::{hex_of, ObjectId, ObjectType, RefRow};
use vstd::prelude::*;

verus! {

/// The durable record that a retired ref leaves behind.
#[derive(Clone, Debug, PartialEq, Eq)]
pub struct RetiredRef {
    pub name: String,
    pub oid: ObjectId,
    pub kind: String,
    pub agent_id: String,
    pub ts_ms: i64,
}

/// What an abandoned session took out of the catalog.
#[derive(Clone, Debug, PartialEq, Eq)]
pub struct AbandonedSession {
    pub ns_id: String,
    pub discarded_overlay: usize,
    pub removed_mounts: usize,
    pub removed_observations: usize,
}

/// A mount of a session.
#[derive(Clone, Debug)]
pub struct MountRow {
    pub path: String,
    pub spec: String,
    pub mode: String,
    /// The commit that a read-write mount is based on.
    pub base_oid: Option<ObjectId>,
}

/// A staged edit of a session.
#[derive(Clone, Debug)]
pub struct OverlayRow {
    pub path: String,
    pub blob_oid: Option<ObjectId>,
    pub executable: bool,
}

/// A session.
#[derive(Clone, Debug)]
pub struct NsRow {
    pub id: String,
    pub agent_id: String,
    pub pinned_oid: Option<ObjectId>,
    pub live_ref: Option<String>,
}

/// What a session saw at a path.
#[derive(Clone, Copy, Debug, PartialEq, Eq)]
pub enum Observed {
    /// A file with this content.
    Blob(ObjectId),
    /// A directory with this canonical tree.
    Tree(ObjectId),
    /// Nothing.
    Absent,
}

impl Observed {
    /// The stored name of the kind.
    pub open spec fn kind_name(self) -> Seq<char> {
        match self {
            Observed::Blob(_) => "blob"@,
            Observed::Tree(_) => "tree"@,
            Observed::Absent => "absent"@,
        }
    }

    #[must_use]
    pub fn kind(&self) -> (r: &'static str)
        ensures
            r@ == self.kind_name(),
    {
        match self {
            Observed::Blob(_) => "blob",
            Observed::Tree(_) => "tree",
            Observed::Absent => "absent",
        }
    }

    /// The object that was seen.
    pub open spec fn object(self) -> Option<ObjectId> {
        match self {
            Observed::Blob(id) => Some(id),
            Observed::Tree(id) => Some(id),
            Observed::Absent => None,
        }
    }

    #[must_use]
    pub fn oid(&self) -> (r: Option<ObjectId>)
        ensures
            r == self.object(),
    {
        match self {
            Observed::Blob(id) => Some(*id),
            Observed::Tree(id) => Some(*id),
            Observed::Absent => None,
        }
    }

    /// How a report of a stale observation names what was seen.
    #[must_use]
    pub fn describe(&self) -> (r: String)
        ensures
            r@ == (match *self {
                Observed::Blob(id) => hex_of(id@),
                Observed::Tree(id) => "tree "@ + hex_of(id@),
                Observed::Absent => "absent"@,
            }),
    {
        match self {
            Observed::Blob(id) => id.hex(),
            Observed::Tree(id) => {
                let mut s = "tree ".to_string();
                s.append(id.hex().as_str());
                s
            },
            Observed::Absent => "absent".to_string(),
        }
    }
}

/// An observation of a session.
#[derive(Clone, Debug)]
pub struct ObservationRow {
    pub mount: String,
    pub path: String,
    pub seen: Observed,
}

/// A defect of the catalog.
#[derive(Clone, Debug, PartialEq, Eq)]
pub struct CatalogFinding {
    pub code: String,
    pub resource: String,
    pub detail: String,
}

/// The types that an object named by the catalog may have.
#[derive(Clone, Copy, Debug, PartialEq, Eq, Structural)]
pub enum CatalogObjectExpectation {
    Any,
    Exact(ObjectType),
    /// A tree or a blob: what a change of a tree can introduce.
    TreeEntry,
}

/// An object that the catalog names.
#[derive(Clone, Debug, PartialEq, Eq)]
pub struct CatalogObjectRoot {
    pub oid: ObjectId,
    pub expected: CatalogObjectExpectation,
    pub resource: String,
}

#[derive(Clone, Debug, PartialEq, Eq)]
pub struct CatalogNamespaceRow {
    pub id: String,
    pub pinned_oid: Option<ObjectId>,
    pub live_ref: Option<String>,
}

#[derive(Clone, Debug, PartialEq, Eq)]
pub struct CatalogMountRow {
    pub ns_id: String,
    pub path: String,
    pub spec: String,
    pub mode: String,
}

#[derive(Clone, Debug, PartialEq, Eq)]
pub struct SealRow {
    pub tag: String,
    pub snap_oid: ObjectId,
    pub commit_oid: ObjectId,
    pub tree_oid: ObjectId,
}

/// What an audit of the catalog has found, with the valid rows that it saw.
#[derive(Clone, Debug, PartialEq, Eq)]
pub struct CatalogAudit {
    pub findings: Vec<CatalogFinding>,
    pub roots: Vec<CatalogObjectRoot>,
    pub seals: Vec<SealRow>,
    pub refs: Vec<RefRow>,
    /// Every ref row was decoded. Only then does the absence of a ref from
    /// `refs` mean that it is missing.
    pub refs_complete: bool,
    pub namespaces: Vec<CatalogNamespaceRow>,
    pub mounts: Vec<CatalogMountRow>,
}

/// Counters of a process for work on the catalog.
#[derive(Clone, Copy, Debug, PartialEq, Eq, Structural)]
pub struct MetaStats {
    /// Time spent in explicit transactions.
    pub txn_us: u64,
    /// Write transactions that committed, explicit or not.
    pub txn_count: u64,
    /// Attempts at explicit transactions.
    pub explicit_txn_count: u64,
    /// Time spent waiting for connections: the sum of the next two.
    pub lock_wait_us: u64,
    pub write_lock_wait_us: u64,
    pub read_lock_wait_us: u64,
    /// Acquisitions of connections: the sum of the next two.
    pub lock_acquires: u64,
    pub write_lock_acquires: u64,
    pub read_lock_acquires: u64,
    pub busy: u64,
    pub cas_updated: u64,
    pub cas_forked: u64,
    pub cas_denied: u64,
    /// Checkins that published no commit.
    pub cas_noop: u64,
}

/// The counters before any work.
pub open spec fn no_meta_work() -> MetaStats {
    MetaStats {
        txn_us: 0,
        txn_count: 0,
        explicit_txn_count: 0,
        lock_wait_us: 0,
        write_lock_wait_us: 0,
        read_lock_wait_us: 0,
        lock_acquires: 0,
        write_lock_acquires: 0,
        read_lock_acquires: 0,
        busy: 0,
        cas_updated: 0,
        cas_forked: 0,
        cas_denied: 0,
        cas_noop: 0,
    }
}

impl Default for MetaStats {
    fn default() -> (r: Self)
        ensures
            r == no_meta_work(),
    {
        MetaStats {
            txn_us: 0,
            txn_count: 0,
            explicit_txn_count: 0,
            lock_wait_us: 0,
            write_lock_wait_us: 0,
            read_lock_wait_us: 0,
            lock_acquires: 0,
            write_lock_acquires: 0,
            read_lock_acquires: 0,
            busy: 0,
            cas_updated: 0,
            cas_forked: 0,
            cas_denied: 0,
            cas_noop: 0,
        }
    }
}

impl MetaStats {
    /// All time accounted for: the wait for the connection and the explicit
    /// transactions.
    pub fn sqlite_accounted_us(&self) -> (r: u64)
        ensures
            r == capped(self.lock_wait_us + self.txn_us),
    {
        self.lock_wait_us.saturating_add(self.txn_us)
    }
}

/// The settings of the database that define the durability of the catalog.
#[derive(Clone, Debug, PartialEq, Eq)]
pub struct DurabilityPolicy {
    pub journal_mode: String,
    pub synchronous: i64,
    /// `None` where the platform has no such setting.
    pub fullfsync: Option<bool>,
    /// The settings were observed, not established.
    pub read_only: bool,
}

/// What a checkpoint of the database did.
#[derive(Clone, Copy, Debug, PartialEq, Eq)]
pub struct CheckpointResult {
    pub log_frames: i64,
    pub checkpointed_frames: i64,
}

} // verus!
