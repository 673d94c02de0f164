//! The tables of the catalog, row by row as they are stored.
use vstd::prelude::*;

verus! {

/// A row of `refs`.
#[derive(Debug)]
pub struct RefRecord {
    pub name: String,
    pub oid: Vec<u8>,
    pub kind: String,
    pub protected: i64,
    pub sealed: i64,
    pub updated_ms: i64,
}

pub ghost struct RefLine {
    pub name: Seq<char>,
    pub oid: Seq<u8>,
    pub kind: Seq<char>,
    pub protected: i64,
    pub sealed: i64,
    pub updated_ms: i64,
}

impl View for RefRecord {
    type V = RefLine;

    open spec fn view(&self) -> RefLine {
        RefLine {
            name: self.name@,
            oid: self.oid@,
            kind: self.kind@,
            protected: self.protected,
            sealed: self.sealed,
            updated_ms: self.updated_ms,
        }
    }
}

/// The bytes of an optional column.
pub open spec fn bytes_in(v: Option<Vec<u8>>) -> Option<Seq<u8>> {
    match v {
        Some(b) => Some(b@),
        None => None,
    }
}

/// The text of an optional column.
pub open spec fn text_in(v: Option<String>) -> Option<Seq<char>> {
    match v {
        Some(s) => Some(s@),
        None => None,
    }
}

/// A row of `reflog`.
#[derive(Debug)]
pub struct LogRecord {
    pub id: i64,
    pub name: String,
    pub old_oid: Option<Vec<u8>>,
    pub new_oid: Vec<u8>,
    pub agent_id: String,
    pub reason: String,
    pub ts_ms: i64,
}

pub ghost struct LogLine {
    pub id: i64,
    pub name: Seq<char>,
    pub old_oid: Option<Seq<u8>>,
    pub new_oid: Seq<u8>,
    pub agent_id: Seq<char>,
    pub reason: Seq<char>,
    pub ts_ms: i64,
}

impl View for LogRecord {
    type V = LogLine;

    open spec fn view(&self) -> LogLine {
        LogLine {
            id: self.id,
            name: self.name@,
            old_oid: bytes_in(self.old_oid),
            new_oid: self.new_oid@,
            agent_id: self.agent_id@,
            reason: self.reason@,
            ts_ms: self.ts_ms,
        }
    }
}

/// A row of `namespaces`.
#[derive(Debug)]
pub struct NsRecord {
    pub id: String,
    pub agent_id: String,
    pub created_ms: i64,
    pub pinned_oid: Option<Vec<u8>>,
    pub live_ref: Option<String>,
}

pub ghost struct NsLine {
    pub id: Seq<char>,
    pub agent_id: Seq<char>,
    pub created_ms: i64,
    pub pinned_oid: Option<Seq<u8>>,
    pub live_ref: Option<Seq<char>>,
}

impl View for NsRecord {
    type V = NsLine;

    open spec fn view(&self) -> NsLine {
        NsLine {
            id: self.id@,
            agent_id: self.agent_id@,
            created_ms: self.created_ms,
            pinned_oid: bytes_in(self.pinned_oid),
            live_ref: text_in(self.live_ref),
        }
    }
}

/// A row of `mounts`.
#[derive(Debug)]
pub struct MountRecord {
    pub ns_id: String,
    pub path: String,
    pub spec: String,
    pub mode: String,
    pub base_oid: Option<Vec<u8>>,
}

pub ghost struct MountLine {
    pub ns_id: Seq<char>,
    pub path: Seq<char>,
    pub spec: Seq<char>,
    pub mode: Seq<char>,
    pub base_oid: Option<Seq<u8>>,
}

impl View for MountRecord {
    type V = MountLine;

    open spec fn view(&self) -> MountLine {
        MountLine {
            ns_id: self.ns_id@,
            path: self.path@,
            spec: self.spec@,
            mode: self.mode@,
            base_oid: bytes_in(self.base_oid),
        }
    }
}

/// A row of `observations`.
#[derive(Debug)]
pub struct ObservationRecord {
    pub ns_id: String,
    pub mount: String,
    pub path: String,
    pub kind: String,
    pub oid: Option<Vec<u8>>,
}

pub ghost struct ObservationLine {
    pub ns_id: Seq<char>,
    pub mount: Seq<char>,
    pub path: Seq<char>,
    pub kind: Seq<char>,
    pub oid: Option<Seq<u8>>,
}

impl View for ObservationRecord {
    type V = ObservationLine;

    open spec fn view(&self) -> ObservationLine {
        ObservationLine {
            ns_id: self.ns_id@,
            mount: self.mount@,
            path: self.path@,
            kind: self.kind@,
            oid: bytes_in(self.oid),
        }
    }
}

/// A row of `overlay`.
#[derive(Debug)]
pub struct OverlayRecord {
    pub ns_id: String,
    pub mount: String,
    pub path: String,
    pub blob_oid: Option<Vec<u8>>,
    pub executable: i64,
}

pub ghost struct OverlayLine {
    pub ns_id: Seq<char>,
    pub mount: Seq<char>,
    pub path: Seq<char>,
    pub blob_oid: Option<Seq<u8>>,
    pub executable: i64,
}

impl View for OverlayRecord {
    type V = OverlayLine;

    open spec fn view(&self) -> OverlayLine {
        OverlayLine {
            ns_id: self.ns_id@,
            mount: self.mount@,
            path: self.path@,
            blob_oid: bytes_in(self.blob_oid),
            executable: self.executable,
        }
    }
}

/// A row of `seals`.
#[derive(Debug)]
pub struct SealRecord {
    pub tag: String,
    pub snap_oid: Vec<u8>,
    pub commit_oid: Vec<u8>,
    pub tree_oid: Vec<u8>,
    pub ts_ms: i64,
}

pub ghost struct SealLine {
    pub tag: Seq<char>,
    pub snap_oid: Seq<u8>,
    pub commit_oid: Seq<u8>,
    pub tree_oid: Seq<u8>,
    pub ts_ms: i64,
}

impl View for SealRecord {
    type V = SealLine;

    open spec fn view(&self) -> SealLine {
        SealLine {
            tag: self.tag@,
            snap_oid: self.snap_oid@,
            commit_oid: self.commit_oid@,
            tree_oid: self.tree_oid@,
            ts_ms: self.ts_ms,
        }
    }
}

/// A row of `landmarks`.
#[derive(Debug)]
pub struct LandmarkRecord {
    pub oid: Vec<u8>,
    pub kind: String,
    pub reason: String,
    pub ts_ms: i64,
}

pub ghost struct LandmarkLine {
    pub oid: Seq<u8>,
    pub kind: Seq<char>,
    pub reason: Seq<char>,
    pub ts_ms: i64,
}

impl View for LandmarkRecord {
    type V = LandmarkLine;

    open spec fn view(&self) -> LandmarkLine {
        LandmarkLine {
            oid: self.oid@,
            kind: self.kind@,
            reason: self.reason@,
            ts_ms: self.ts_ms,
        }
    }
}

/// A row of `object_intro`.
#[derive(Debug)]
pub struct IntroRecord {
    pub oid: Vec<u8>,
    pub commit_oid: Vec<u8>,
    pub agent_id: String,
    pub ts_ms: i64,
}

pub ghost struct IntroLine {
    pub oid: Seq<u8>,
    pub commit_oid: Seq<u8>,
    pub agent_id: Seq<char>,
    pub ts_ms: i64,
}

impl View for IntroRecord {
    type V = IntroLine;

    open spec fn view(&self) -> IntroLine {
        IntroLine {
            oid: self.oid@,
            commit_oid: self.commit_oid@,
            agent_id: self.agent_id@,
            ts_ms: self.ts_ms,
        }
    }
}

/// The tables of the catalog, each with its rows in their order.
#[derive(Debug)]
pub struct Tables {
    pub refs: Vec<RefRecord>,
    pub reflog: Vec<LogRecord>,
    pub namespaces: Vec<NsRecord>,
    pub observations: Vec<ObservationRecord>,
    pub mounts: Vec<MountRecord>,
    pub overlay: Vec<OverlayRecord>,
    pub seals: Vec<SealRecord>,
    pub landmarks: Vec<LandmarkRecord>,
    pub object_intro: Vec<IntroRecord>,
}

/// What the tables hold.
pub ghost struct Rows {
    pub refs: Seq<RefLine>,
    pub reflog: Seq<LogLine>,
    pub namespaces: Seq<NsLine>,
    pub observations: Seq<ObservationLine>,
    pub mounts: Seq<MountLine>,
    pub overlay: Seq<OverlayLine>,
    pub seals: Seq<SealLine>,
    pub landmarks: Seq<LandmarkLine>,
    pub object_intro: Seq<IntroLine>,
}

/// The values of some rows.
pub open spec fn lines<R: View>(rows: Seq<R>) -> Seq<R::V> {
    Seq::new(rows.len(), |i: int| rows[i]@)
}

impl View for Tables {
    type V = Rows;

    open spec fn view(&self) -> Rows {
        Rows {
            refs: lines(self.refs@),
            reflog: lines(self.reflog@),
            namespaces: lines(self.namespaces@),
            observations: lines(self.observations@),
            mounts: lines(self.mounts@),
            overlay: lines(self.overlay@),
            seals: lines(self.seals@),
            landmarks: lines(self.landmarks@),
            object_intro: lines(self.object_intro@),
        }
    }
}

} // verus!
