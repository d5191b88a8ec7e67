//! Materialising one derivative. The decisions of `ensure` form a state
//! machine per request; the host performs each action (a file check, taking a
//! permit, running the transform and writing the file) and reports what
//! happened as the next event.
use crate::transform::TransformError;
use vstd::prelude::*;

verus! {

/// Why a derivative could not be materialised.
#[derive(Clone, Copy, Debug, PartialEq, Eq, Structural)]
pub enum CreateImageError {
    /// The transform failed on the source.
    ImageError(TransformError),
    /// The background task running the transform panicked or was cancelled.
    JoinError,
    /// Reading the source or writing the artifact failed, or its path is too long.
    IOError,
}

/// Where one `ensure` stands.
#[derive(Clone, Copy, Debug, PartialEq, Eq, Structural)]
pub enum EnsurePhase {
    /// Nothing done yet.
    Unrequested,
    /// Waiting to learn whether the artifact is on disk.
    Checking,
    /// Not on disk; waiting for a permit of the concurrency governor.
    AwaitingPermit,
    /// Holding a permit while the artifact is generated and written.
    InFlight,
    /// The artifact is on disk; `created` tells whether this call wrote it.
    OnDisk { created: bool },
    /// Generation failed; nothing was written.
    Failed(CreateImageError),
}

/// What the host reports back.
#[derive(Clone, Copy, Debug, PartialEq, Eq, Structural)]
pub enum EnsureEvent {
    /// The caller asks for the artifact.
    Start,
    /// The file check answered.
    Checked { exists: bool },
    /// A permit was granted.
    PermitGranted,
    /// The artifact was generated and written.
    Written,
    /// Generation or the write failed; nothing was left at the artifact's path.
    GenerationFailed(CreateImageError),
}

/// What the host must do next.
#[derive(Clone, Copy, Debug, PartialEq, Eq, Structural)]
pub enum EnsureAction {
    /// Check whether the artifact's file exists.
    CheckExists,
    /// Wait for a permit of the governor.
    AcquirePermit,
    /// Run the transform off the request path, write to a temporary file, then
    /// rename it to the artifact's path.
    Generate,
    /// Give the permit back; the outcome is final.
    ReleasePermit,
    /// Nothing more; the outcome is final.
    Done,
    /// The event does not belong to this phase; nothing changes.
    Ignore,
}

/// The transition table of `ensure`.
pub open spec fn ensure_next(phase: EnsurePhase, event: EnsureEvent) -> (EnsurePhase, EnsureAction) {
    match (phase, event) {
        (EnsurePhase::Unrequested, EnsureEvent::Start) => (
            EnsurePhase::Checking,
            EnsureAction::CheckExists,
        ),
        (EnsurePhase::Checking, EnsureEvent::Checked { exists }) => if exists {
            (EnsurePhase::OnDisk { created: false }, EnsureAction::Done)
        } else {
            (EnsurePhase::AwaitingPermit, EnsureAction::AcquirePermit)
        },
        (EnsurePhase::AwaitingPermit, EnsureEvent::PermitGranted) => (
            EnsurePhase::InFlight,
            EnsureAction::Generate,
        ),
        (EnsurePhase::InFlight, EnsureEvent::Written) => (
            EnsurePhase::OnDisk { created: true },
            EnsureAction::ReleasePermit,
        ),
        (EnsurePhase::InFlight, EnsureEvent::GenerationFailed(e)) => (
            EnsurePhase::Failed(e),
            EnsureAction::ReleasePermit,
        ),
        _ => (phase, EnsureAction::Ignore),
    }
}

/// The result of a finished `ensure`: whether it created the file, or why it failed.
pub open spec fn ensure_outcome(phase: EnsurePhase) -> Option<Result<bool, CreateImageError>> {
    match phase {
        EnsurePhase::OnDisk { created } => Some(Ok(created)),
        EnsurePhase::Failed(e) => Some(Err(e)),
        _ => None,
    }
}

impl EnsurePhase {
    /// Takes one step of `ensure` on an event.
    pub fn step(self, event: EnsureEvent) -> (r: (EnsurePhase, EnsureAction))
        ensures
            r == ensure_next(self, event),
    {
        match (self, event) {
            (EnsurePhase::Unrequested, EnsureEvent::Start) => (
                EnsurePhase::Checking,
                EnsureAction::CheckExists,
            ),
            (EnsurePhase::Checking, EnsureEvent::Checked { exists }) => if exists {
                (EnsurePhase::OnDisk { created: false }, EnsureAction::Done)
            } else {
                (EnsurePhase::AwaitingPermit, EnsureAction::AcquirePermit)
            },
            (EnsurePhase::AwaitingPermit, EnsureEvent::PermitGranted) => (
                EnsurePhase::InFlight,
                EnsureAction::Generate,
            ),
            (EnsurePhase::InFlight, EnsureEvent::Written) => (
                EnsurePhase::OnDisk { created: true },
                EnsureAction::ReleasePermit,
            ),
            (EnsurePhase::InFlight, EnsureEvent::GenerationFailed(e)) => (
                EnsurePhase::Failed(e),
                EnsureAction::ReleasePermit,
            ),
            _ => (self, EnsureAction::Ignore),
        }
    }

    /// The result, once the phase is final.
    pub fn outcome(self) -> (r: Option<Result<bool, CreateImageError>>)
        ensures
            r == ensure_outcome(self),
    {
        match self {
            EnsurePhase::OnDisk { created } => Some(Ok(created)),
            EnsurePhase::Failed(e) => Some(Err(e)),
            _ => None,
        }
    }
}

// ---------------------------------------------------------------------------
// A model of concurrent callers sharing one disk
// ---------------------------------------------------------------------------
/// The disk: file contents by path.
pub type Disk = Map<Seq<u8>, Seq<u8>>;

/// How the host answers the action of `phase` on `disk`, for the artifact
/// `bytes` at `path`, when generation succeeds: the event it reports, and the
/// disk afterwards.
pub open spec fn host_reply(phase: EnsurePhase, disk: Disk, path: Seq<u8>, bytes: Seq<u8>) -> (
    EnsureEvent,
    Disk,
) {
    match phase {
        EnsurePhase::Unrequested => (EnsureEvent::Start, disk),
        EnsurePhase::Checking => (EnsureEvent::Checked { exists: disk.contains_key(path) }, disk),
        EnsurePhase::AwaitingPermit => (EnsureEvent::PermitGranted, disk),
        EnsurePhase::InFlight => (EnsureEvent::Written, disk.insert(path, bytes)),
        _ => (EnsureEvent::Start, disk),
    }
}

/// Caller `i` takes one step.
pub open spec fn world_step(
    callers: Seq<EnsurePhase>,
    disk: Disk,
    i: int,
    path: Seq<u8>,
    bytes: Seq<u8>,
) -> (Seq<EnsurePhase>, Disk) {
    if 0 <= i < callers.len() && ensure_outcome(callers[i]) is None {
        let (event, after) = host_reply(callers[i], disk, path, bytes);
        (callers.update(i, ensure_next(callers[i], event).0), after)
    } else {
        (callers, disk)
    }
}

/// The callers step in the order the schedule names them.
pub open spec fn world_run(
    callers: Seq<EnsurePhase>,
    disk: Disk,
    schedule: Seq<int>,
    path: Seq<u8>,
    bytes: Seq<u8>,
) -> (Seq<EnsurePhase>, Disk)
    decreases schedule.len(),
{
    if schedule.len() == 0 {
        (callers, disk)
    } else {
        let (c, d) = world_step(callers, disk, schedule[0], path, bytes);
        world_run(c, d, schedule.drop_first(), path, bytes)
    }
}

/// What holds of the callers and the disk at every point of a run.
pub open spec fn world_ok(
    callers: Seq<EnsurePhase>,
    disk: Disk,
    start: Disk,
    path: Seq<u8>,
    bytes: Seq<u8>,
) -> bool {
    &&& disk.remove(path) == start.remove(path)
    &&& disk.contains_key(path) ==> disk[path] == bytes
    &&& forall|i: int|
        0 <= i < callers.len() ==> !(#[trigger] callers[i] is Failed) && (callers[i] is OnDisk
            ==> disk.contains_key(path))
}

/// One step keeps `world_ok`, and once the artifact is on disk the disk no longer changes.
proof fn lemma_world_step(
    callers: Seq<EnsurePhase>,
    disk: Disk,
    start: Disk,
    i: int,
    path: Seq<u8>,
    bytes: Seq<u8>,
)
    requires
        world_ok(callers, disk, start, path, bytes),
    ensures
        world_ok(world_step(callers, disk, i, path, bytes).0, world_step(callers, disk, i, path, bytes).1, start, path, bytes),
        disk.contains_key(path) ==> world_step(callers, disk, i, path, bytes).1 == disk,
{
    let (c, d) = world_step(callers, disk, i, path, bytes);
    if 0 <= i < callers.len() && ensure_outcome(callers[i]) is None {
        assert(d.remove(path) =~= disk.remove(path));
        if disk.contains_key(path) {
            assert(disk.insert(path, bytes) =~= disk);
        }
        assert forall|j: int| 0 <= j < c.len() implies !(#[trigger] c[j] is Failed) && (c[j] is OnDisk
            ==> d.contains_key(path)) by {
            if j != i {
                assert(c[j] == callers[j]);
            }
        }
    }
}

/// Concurrent callers for one request, interleaved in any order: none fails,
/// every caller that finished found or wrote the artifact, the artifact's path
/// holds the one valid artifact, and no other file is touched.
pub proof fn lemma_concurrent_ensure(
    callers: Seq<EnsurePhase>,
    disk: Disk,
    schedule: Seq<int>,
    path: Seq<u8>,
    bytes: Seq<u8>,
)
    requires
        forall|i: int| 0 <= i < callers.len() ==> callers[i] == EnsurePhase::Unrequested,
        disk.contains_key(path) ==> disk[path] == bytes,
    ensures
        ({
            let (c, d) = world_run(callers, disk, schedule, path, bytes);
            &&& c.len() == callers.len()
            &&& d.remove(path) == disk.remove(path)
            &&& d.contains_key(path) ==> d[path] == bytes
            &&& forall|i: int|
                0 <= i < c.len() ==> ensure_outcome(#[trigger] c[i]) is None || ensure_outcome(c[i])
                    == Some(Ok::<bool, CreateImageError>(true)) || ensure_outcome(c[i]) == Some(
                    Ok::<bool, CreateImageError>(false),
                )
            &&& (exists|i: int| 0 <= i < c.len() && c[i] is OnDisk) ==> d.contains_key(path)
        }),
{
    lemma_world_run(callers, disk, disk, schedule, path, bytes);
    let (c, d) = world_run(callers, disk, schedule, path, bytes);
    assert forall|i: int| 0 <= i < c.len() implies ensure_outcome(#[trigger] c[i]) is None
        || ensure_outcome(c[i]) == Some(Ok::<bool, CreateImageError>(true)) || ensure_outcome(c[i])
        == Some(Ok::<bool, CreateImageError>(false)) by {
        assert(!(c[i] is Failed));
    }
}

/// A whole run keeps `world_ok` and the number of callers.
proof fn lemma_world_run(
    callers: Seq<EnsurePhase>,
    disk: Disk,
    start: Disk,
    schedule: Seq<int>,
    path: Seq<u8>,
    bytes: Seq<u8>,
)
    requires
        world_ok(callers, disk, start, path, bytes),
    ensures
        world_ok(world_run(callers, disk, schedule, path, bytes).0, world_run(callers, disk, schedule, path, bytes).1, start, path, bytes),
        world_run(callers, disk, schedule, path, bytes).0.len() == callers.len(),
    decreases schedule.len(),
{
    if schedule.len() > 0 {
        lemma_world_step(callers, disk, start, schedule[0], path, bytes);
        let (c, d) = world_step(callers, disk, schedule[0], path, bytes);
        lemma_world_run(c, d, start, schedule.drop_first(), path, bytes);
    }
}

/// Two `ensure` calls for a request whose artifact is not on disk, one after
/// the other: the first writes it and reports `created`, the second finds it
/// and reports not created, leaving the disk as the first left it.
pub proof fn lemma_ensure_twice(disk: Disk, path: Seq<u8>, bytes: Seq<u8>)
    requires
        !disk.contains_key(path),
    ensures
        world_run(seq![EnsurePhase::Unrequested], disk, seq![0int, 0, 0, 0], path, bytes) == (
            seq![EnsurePhase::OnDisk { created: true }],
            disk.insert(path, bytes),
        ),
        world_run(
            seq![EnsurePhase::Unrequested],
            disk.insert(path, bytes),
            seq![0int, 0],
            path,
            bytes,
        ) == (seq![EnsurePhase::OnDisk { created: false }], disk.insert(path, bytes)),
{
    reveal_with_fuel(world_run, 5);
    let one = seq![EnsurePhase::Unrequested];
    let s = seq![0int, 0, 0, 0];
    assert(s.drop_first() =~= seq![0int, 0, 0]);
    assert(s.drop_first().drop_first() =~= seq![0int, 0]);
    assert(s.drop_first().drop_first().drop_first() =~= seq![0int]);
    assert(seq![0int].drop_first() =~= Seq::<int>::empty());
    assert(one.update(0, EnsurePhase::Checking) =~= seq![EnsurePhase::Checking]);
    assert(seq![EnsurePhase::Checking].update(0, EnsurePhase::AwaitingPermit) =~= seq![
        EnsurePhase::AwaitingPermit,
    ]);
    assert(seq![EnsurePhase::AwaitingPermit].update(0, EnsurePhase::InFlight) =~= seq![
        EnsurePhase::InFlight,
    ]);
    assert(seq![EnsurePhase::InFlight].update(0, EnsurePhase::OnDisk { created: true }) =~= seq![
        EnsurePhase::OnDisk { created: true },
    ]);
    assert(seq![EnsurePhase::Checking].update(0, EnsurePhase::OnDisk { created: false }) =~= seq![
        EnsurePhase::OnDisk { created: false },
    ]);
    assert(disk.insert(path, bytes).contains_key(path));
}

} // verus!
