//! Barriers: where durability is established, how a test makes one fail, and how one
//! barrier of the whole filesystem serves several waiters.
use crate::text::{cat2, text_eq};
use crate::types::Error;
use vstd::prelude::*;

verus! {

/// The points at which durability is established, or has just been.
#[non_exhaustive]
#[derive(Clone, Copy, Debug, PartialEq, Eq, Structural)]
pub enum DurabilityBarrier {
    ObjectFile,
    ObjectFileAfter,
    ObjectExistingFile,
    ObjectLinkAfter,
    ObjectPathDirectory,
    ObjectPublicationDirectory,
    ObjectPublicationDirectoryAfter,
    ObjectTemporaryDirectory,
    InitFile,
    InitKeyDirectory,
    InitCleanupDirectory,
    InitStagingDirectory,
    InitPublicationDirectory,
    InitParentDirectory,
    OpenPublicationDirectory,
    MetadataRefCommitAfter,
    MetadataCheckpointBefore,
    MetadataCheckpointAfter,
    OtherFile,
    OtherDirectory,
}

impl DurabilityBarrier {
    pub open spec fn label(self) -> Seq<char> {
        match self {
            DurabilityBarrier::ObjectFile => "ObjectFile"@,
            DurabilityBarrier::ObjectFileAfter => "ObjectFileAfter"@,
            DurabilityBarrier::ObjectExistingFile => "ObjectExistingFile"@,
            DurabilityBarrier::ObjectLinkAfter => "ObjectLinkAfter"@,
            DurabilityBarrier::ObjectPathDirectory => "ObjectPathDirectory"@,
            DurabilityBarrier::ObjectPublicationDirectory => "ObjectPublicationDirectory"@,
            DurabilityBarrier::ObjectPublicationDirectoryAfter =>
                "ObjectPublicationDirectoryAfter"@,
            DurabilityBarrier::ObjectTemporaryDirectory => "ObjectTemporaryDirectory"@,
            DurabilityBarrier::InitFile => "InitFile"@,
            DurabilityBarrier::InitKeyDirectory => "InitKeyDirectory"@,
            DurabilityBarrier::InitCleanupDirectory => "InitCleanupDirectory"@,
            DurabilityBarrier::InitStagingDirectory => "InitStagingDirectory"@,
            DurabilityBarrier::InitPublicationDirectory => "InitPublicationDirectory"@,
            DurabilityBarrier::InitParentDirectory => "InitParentDirectory"@,
            DurabilityBarrier::OpenPublicationDirectory => "OpenPublicationDirectory"@,
            DurabilityBarrier::MetadataRefCommitAfter => "MetadataRefCommitAfter"@,
            DurabilityBarrier::MetadataCheckpointBefore => "MetadataCheckpointBefore"@,
            DurabilityBarrier::MetadataCheckpointAfter => "MetadataCheckpointAfter"@,
            DurabilityBarrier::OtherFile => "OtherFile"@,
            DurabilityBarrier::OtherDirectory => "OtherDirectory"@,
        }
    }

    /// The name of the point.
    pub fn name(self) -> (r: &'static str)
        ensures
            r@ == self.label(),
    {
        match self {
            DurabilityBarrier::ObjectFile => "ObjectFile",
            DurabilityBarrier::ObjectFileAfter => "ObjectFileAfter",
            DurabilityBarrier::ObjectExistingFile => "ObjectExistingFile",
            DurabilityBarrier::ObjectLinkAfter => "ObjectLinkAfter",
            DurabilityBarrier::ObjectPathDirectory => "ObjectPathDirectory",
            DurabilityBarrier::ObjectPublicationDirectory => "ObjectPublicationDirectory",
            DurabilityBarrier::ObjectPublicationDirectoryAfter => "ObjectPublicationDirectoryAfter",
            DurabilityBarrier::ObjectTemporaryDirectory => "ObjectTemporaryDirectory",
            DurabilityBarrier::InitFile => "InitFile",
            DurabilityBarrier::InitKeyDirectory => "InitKeyDirectory",
            DurabilityBarrier::InitCleanupDirectory => "InitCleanupDirectory",
            DurabilityBarrier::InitStagingDirectory => "InitStagingDirectory",
            DurabilityBarrier::InitPublicationDirectory => "InitPublicationDirectory",
            DurabilityBarrier::InitParentDirectory => "InitParentDirectory",
            DurabilityBarrier::OpenPublicationDirectory => "OpenPublicationDirectory",
            DurabilityBarrier::MetadataRefCommitAfter => "MetadataRefCommitAfter",
            DurabilityBarrier::MetadataCheckpointBefore => "MetadataCheckpointBefore",
            DurabilityBarrier::MetadataCheckpointAfter => "MetadataCheckpointAfter",
            DurabilityBarrier::OtherFile => "OtherFile",
            DurabilityBarrier::OtherDirectory => "OtherDirectory",
        }
    }
}

/// A plan to make one barrier fail: the given occurrence of a point, counted from one.
#[derive(Clone, Copy, Debug)]
pub struct FaultPlan {
    pub point: DurabilityBarrier,
    pub occurrence: usize,
    pub matches: usize,
    pub fired: bool,
}

/// Plan to fail an occurrence of a point.
pub fn fail_at(point: DurabilityBarrier, occurrence: usize) -> (r: FaultPlan)
    requires
        occurrence > 0,
    ensures
        r == (FaultPlan { point, occurrence, matches: 0, fired: false }),
{
    FaultPlan { point, occurrence, matches: 0, fired: false }
}

impl FaultPlan {
    /// The plan has counted no further than the occurrence, which it fires at.
    pub open spec fn valid(self) -> bool {
        &&& self.occurrence > 0
        &&& self.matches <= self.occurrence
        &&& self.fired == (self.matches == self.occurrence)
    }

    /// The plan makes the barrier at this point fail.
    pub open spec fn fires(self, point: DurabilityBarrier) -> bool {
        point == self.point && !self.fired && self.matches + 1 == self.occurrence
    }

    /// The plan once a point has been passed.
    pub open spec fn after(self, point: DurabilityBarrier) -> Self {
        if point != self.point || self.fired {
            self
        } else {
            FaultPlan {
                matches: (self.matches + 1) as usize,
                fired: self.matches + 1 == self.occurrence,
                ..self
            }
        }
    }

    /// The plan once some points have been passed, one after the other.
    pub open spec fn after_all(self, points: Seq<DurabilityBarrier>) -> Self
        decreases points.len(),
    {
        if points.len() == 0 {
            self
        } else {
            self.after_all(points.drop_last()).after(points.last())
        }
    }

    /// Whether the plan has made a barrier fail.
    pub fn fired(&self) -> (r: bool)
        ensures
            r == self.fired,
    {
        self.fired
    }

    /// Whether a barrier has to fail now.
    pub fn hit(&mut self, point: DurabilityBarrier) -> (r: bool)
        requires
            old(self).valid(),
        ensures
            final(self).valid(),
            *final(self) == old(self).after(point),
            r == old(self).fires(point),
    {
        if point != self.point || self.fired {
            return false;
        }
        self.matches = self.matches + 1;
        let should_fail = self.matches == self.occurrence;
        if should_fail {
            self.fired = true;
        }
        should_fail
    }
}

/// Fail at a point where a plan says so.
pub fn inject_barrier_failure(plan: &mut Option<FaultPlan>, point: DurabilityBarrier) -> (r: Result<
    (),
    Error,
>)
    requires
        *old(plan) matches Some(p) ==> p.valid(),
    ensures
        *final(plan) matches Some(p) ==> p.valid(),
        match *old(plan) {
            None => r is Ok && *final(plan) is None,
            Some(p) => {
                &&& *final(plan) == Some(p.after(point))
                &&& r is Err <==> p.fires(point)
                &&& r matches Err(e) ==> (e matches Error::Io(msg) && msg@
                    == "injected durability barrier failure at "@ + point.label())
            },
        },
{
    match plan {
        None => Ok(()),
        Some(p) => {
            if p.hit(point) {
                return Err(
                    Error::Io(cat2("injected durability barrier failure at ", point.name())),
                );
            }
            Ok(())
        },
    }
}

/// How many times a point occurs.
pub open spec fn occurrences(points: Seq<DurabilityBarrier>, point: DurabilityBarrier) -> nat
    decreases points.len(),
{
    if points.len() == 0 {
        0
    } else {
        occurrences(points.drop_last(), point) + if points.last() == point {
            1nat
        } else {
            0nat
        }
    }
}

/// A new plan makes exactly the occurrence fail that it names, and no other barrier: after
/// any points, it fires at the next one just where that is its own point for the time that
/// it names.
pub proof fn lemma_plan_fires_once(
    point: DurabilityBarrier,
    occurrence: usize,
    points: Seq<DurabilityBarrier>,
    next: DurabilityBarrier,
)
    requires
        occurrence > 0,
    ensures
        ({
            let plan = FaultPlan { point, occurrence, matches: 0, fired: false };
            let now = plan.after_all(points);
            &&& now.valid()
            &&& now.point == point
            &&& now.occurrence == occurrence
            &&& now.matches == if occurrences(points, point) < occurrence {
                occurrences(points, point) as int
            } else {
                occurrence as int
            }
            &&& now.fires(next) <==> next == point && occurrences(points.push(next), point)
                == occurrence
        }),
    decreases points.len(),
{
    let plan = FaultPlan { point, occurrence, matches: 0, fired: false };
    assert(points.push(next).drop_last() =~= points);
    assert(points.push(next).last() == next);
    assert(occurrences(points.push(next), point) == occurrences(points, point) + if next == point {
        1nat
    } else {
        0nat
    });
    if points.len() > 0 {
        let before = points.drop_last();
        lemma_plan_fires_once(point, occurrence, before, points.last());
        assert(before.push(points.last()) =~= points);
        assert(plan.after_all(points) == plan.after_all(before).after(points.last()));
    } else {
        assert(plan.after_all(points) == plan);
    }
}

/// How a batch proves the directories that lead to its objects. All three prove the
/// same before the batch is done; they differ in how many barriers they ask for.
#[derive(Clone, Copy, Debug, PartialEq, Eq, Structural)]
pub enum DirectoryBarrier {
    /// One barrier for every directory, when the batch touches it.
    PerDirectory,
    /// One barrier for every distinct directory, all at the end of the batch.
    Deferred,
    /// One barrier of the whole filesystem for the batch, shared with every other
    /// batch that waits for one.
    Collapsed,
}

impl DirectoryBarrier {
    /// What a setting selects. Where it is absent or unknown, the default holds.
    pub open spec fn selected(raw: Option<Seq<char>>) -> Self {
        match raw {
            Some(s) => if s == "deferred"@ {
                DirectoryBarrier::Deferred
            } else if s == "collapsed"@ {
                DirectoryBarrier::Collapsed
            } else {
                DirectoryBarrier::PerDirectory
            },
            None => DirectoryBarrier::PerDirectory,
        }
    }

    pub fn from_setting(raw: Option<&str>) -> (r: Self)
        ensures
            r == Self::selected(
                match raw {
                    Some(s) => Some(s@),
                    None => None,
                },
            ),
    {
        match raw {
            Some(s) => if text_eq(s, "deferred") {
                DirectoryBarrier::Deferred
            } else if text_eq(s, "collapsed") {
                DirectoryBarrier::Collapsed
            } else {
                DirectoryBarrier::platform_default()
            },
            None => DirectoryBarrier::platform_default(),
        }
    }

    pub fn platform_default() -> (r: Self)
        ensures
            r == DirectoryBarrier::PerDirectory,
    {
        DirectoryBarrier::PerDirectory
    }

    /// Every barrier of a directory waits for the end of the batch.
    pub open spec fn deferring(self) -> bool {
        self != DirectoryBarrier::PerDirectory
    }

    pub fn defers(self) -> (r: bool)
        ensures
            r == self.deferring(),
    {
        match self {
            DirectoryBarrier::PerDirectory => false,
            _ => true,
        }
    }

    /// The policy that a store settles on: without a barrier of the whole filesystem,
    /// the collapsed policy defers instead.
    pub fn settled(self, has_fs_barrier: bool) -> (r: Self)
        ensures
            r == if self == DirectoryBarrier::Collapsed && !has_fs_barrier {
                DirectoryBarrier::Deferred
            } else {
                self
            },
    {
        if self == DirectoryBarrier::Collapsed && !has_fs_barrier {
            DirectoryBarrier::Deferred
        } else {
            self
        }
    }
}

/// The barriers of the whole filesystem so far. `completed` counts those that ran to
/// their end; `in_flight` is the one that runs.
#[derive(Clone, Copy, Debug)]
pub struct BarrierGate {
    pub completed: u64,
    pub in_flight: Option<u64>,
}

impl Default for BarrierGate {
    fn default() -> (r: Self)
        ensures
            r == (BarrierGate { completed: 0, in_flight: None }),
    {
        BarrierGate { completed: 0, in_flight: None }
    }
}

/// What a waiter does next.
#[derive(Clone, Copy, Debug, PartialEq, Eq)]
pub enum GateStep {
    /// Another barrier runs: wait for its end.
    Wait,
    /// Run the barrier of this number.
    Lead(u64),
}

impl BarrierGate {
    /// At most one barrier runs, the next one.
    pub open spec fn valid(self) -> bool {
        self.in_flight matches Some(g) ==> g == self.completed + 1
    }

    /// The last barrier that has started.
    pub open spec fn started(self) -> int {
        match self.in_flight {
            Some(g) => g as int,
            None => self.completed as int,
        }
    }

    /// There are numbers left for two more barriers.
    pub open spec fn has_room(self) -> bool {
        self.started() < u64::MAX
    }

    /// The first barrier that cannot have started yet: the one that a new waiter waits
    /// for.
    pub fn target(&self) -> (r: u64)
        requires
            self.valid(),
            self.has_room(),
        ensures
            r == self.started() + 1,
    {
        let last = match self.in_flight {
            Some(g) => g,
            None => self.completed,
        };
        last + 1
    }

    /// What a waiter does next. A waiter that leads has started its barrier.
    pub fn next(&mut self, target: u64) -> (r: GateStep)
        requires
            old(self).valid(),
            old(self).completed < target,
            old(self).has_room(),
        ensures
            final(self).valid(),
            final(self).completed == old(self).completed,
            match old(self).in_flight {
                Some(_) => r == GateStep::Wait && *final(self) == *old(self),
                None => r == GateStep::Lead(final(self).started() as u64) && final(self).in_flight
                    == Some((old(self).completed + 1) as u64) && gate_moves(*old(self), *final(self)),
            },
    {
        if self.in_flight.is_some() {
            return GateStep::Wait;
        }
        let generation = self.completed + 1;
        self.in_flight = Some(generation);
        GateStep::Lead(generation)
    }

    /// Whether the barrier that a waiter waits for is done.
    pub fn passed(&self, target: u64) -> (r: bool)
        ensures
            r == (self.completed >= target),
    {
        self.completed >= target
    }

    /// The barrier that ran is over. One that failed counts for nothing: every waiter
    /// keeps waiting, and the next one runs it again.
    pub fn finish(&mut self, succeeded: bool)
        requires
            old(self).valid(),
            old(self).in_flight is Some,
        ensures
            final(self).valid(),
            final(self).in_flight is None,
            final(self).completed == if succeeded {
                old(self).completed + 1
            } else {
                old(self).completed as int
            },
            gate_moves(*old(self), *final(self)),
    {
        if let Some(g) = self.in_flight {
            self.in_flight = None;
            if succeeded {
                self.completed = g;
            }
        }
    }
}

/// One step: a barrier started, or it ended.
pub open spec fn gate_moves(a: BarrierGate, b: BarrierGate) -> bool {
    ||| a.in_flight is None && b.completed == a.completed && b.in_flight == Some(
        (a.completed + 1) as u64,
    ) && a.completed < u64::MAX
    ||| a.in_flight is Some && b.in_flight is None && (b.completed == a.completed || b.completed
        == a.completed + 1)
}

/// States one after the other, each one step from the one before.
pub open spec fn gate_history(h: Seq<BarrierGate>) -> bool {
    &&& h.len() > 0
    &&& h[0].valid()
    &&& forall|i: int| 0 <= i < h.len() - 1 ==> gate_moves(#[trigger] h[i], h[i + 1])
}

proof fn lemma_gate_valid(h: Seq<BarrierGate>, i: int)
    requires
        gate_history(h),
        0 <= i < h.len(),
    ensures
        h[i].valid(),
        h[0].completed <= h[i].completed,
        h[0].completed <= h[i].started(),
    decreases i,
{
    if i > 0 {
        lemma_gate_valid(h, i - 1);
        assert(gate_moves(h[i - 1], h[i - 1 + 1]));
    }
}

/// A waiter is never told that its work is durable by a barrier that began before it
/// came: once the barrier that it waits for is done, that barrier started after the
/// waiter read its number, and then ran to its end.
pub proof fn lemma_waiter_is_covered(h: Seq<BarrierGate>)
    requires
        gate_history(h),
        h[h.len() - 1].completed > h[0].started(),
    ensures
        exists|i: int, j: int|
            #![trigger h[i], h[j]]
            0 < i < j < h.len() && h[i - 1].in_flight is None && h[i].in_flight == Some(
                (h[0].started() + 1) as u64,
            ) && h[j - 1].in_flight == h[i].in_flight && h[j].in_flight is None && h[j].completed
                == h[0].started() + 1,
    decreases h.len(),
{
    let target = h[0].started() + 1;
    let n = h.len() as int;
    lemma_gate_valid(h, n - 1);
    if n == 1 {
        assert(h[0].completed <= h[0].started());
    } else {
        lemma_gate_valid(h, n - 2);
        assert(gate_moves(h[n - 2], h[n - 2 + 1]));
        if h[n - 2].completed > h[0].started() {
            let d = h.drop_last();
            assert forall|i: int| 0 <= i < d.len() - 1 implies gate_moves(
                #[trigger] d[i],
                d[i + 1],
            ) by {
                assert(gate_moves(h[i], h[i + 1]));
            }
            lemma_waiter_is_covered(d);
            let (i, j) = choose|i: int, j: int|
                #![trigger d[i], d[j]]
                0 < i < j < d.len() && d[i - 1].in_flight is None && d[i].in_flight == Some(
                    (d[0].started() + 1) as u64,
                ) && d[j - 1].in_flight == d[i].in_flight && d[j].in_flight is None
                    && d[j].completed == d[0].started() + 1;
            assert(h[i] == d[i] && h[j] == d[j] && h[i - 1] == d[i - 1] && h[j - 1] == d[j - 1]);
        } else {
            lemma_start_of(h, n - 2, target);
            let i = choose|i: int|
                0 < i <= n - 2 && h[i - 1].in_flight is None && (#[trigger] h[i]).in_flight == Some(
                    target as u64,
                );
            assert(h[n - 1].completed == target);
            assert(h[n - 1 - 1].in_flight == h[i].in_flight);
        }
    }
}

/// A barrier that runs and was not running at the start has started in between.
proof fn lemma_start_of(h: Seq<BarrierGate>, k: int, target: int)
    requires
        gate_history(h),
        0 <= k < h.len(),
        h[k].in_flight == Some(target as u64),
        h[0].started() < target <= u64::MAX,
    ensures
        exists|i: int|
            0 < i <= k && h[i - 1].in_flight is None && (#[trigger] h[i]).in_flight == Some(
                target as u64,
            ),
    decreases k,
{
    lemma_gate_valid(h, k);
    if k > 0 {
        lemma_gate_valid(h, k - 1);
        assert(gate_moves(h[k - 1], h[k - 1 + 1]));
        assert(h[k - 1].in_flight is None);
    }
}

} // verus!
