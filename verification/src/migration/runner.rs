//! The migration runner.
//!
//! A forward run applies every migration of the registry that the ledger
//! does not hold, in ascending order of version. A rollback reverts the most
//! recently applied ones, most recent first. Either stops at the first step
//! that fails and leaves what was done before it in place.
//!
//! The runner decides and the embedding program acts. [`run`] and
//! [`rollback`] check the registry and name the first thing to do;
//! [`advance`] takes the reply to what was last asked and names the next
//! thing, until the invocation is finished:
//!
//! 1. make sure the ledger relation exists;
//! 2. read the ledger;
//! 3. for each selected migration in order: invoke its action, write the
//!    ledger, announce the completion.
//!
//! The ledger is read once per invocation, after which the runner goes by
//! its own plan.
//!
//! The embedding program's part is a loop without decisions:
//!
//! ```text
//! let mut step = run(&migrations);
//! loop {
//!     match step {
//!         Step::Finished(outcome) => return outcome,
//!         Step::Next(progress, action) => {
//!             let reply = /* perform `action`, see how it went */;
//!             step = advance(progress, reply);
//!         }
//!     }
//! }
//! ```
//!
//! What such a loop comes to in a world that behaves is proved in
//! [`crate::migration::theory`].

use crate::migration::ledger::{
    delete_version,
    ensure_schema_migrations,
    insert_version,
    select_versions,
    Statement,
};
use crate::migration::order::{ascending, descending};
use crate::migration::plan::{
    backward_plan,
    first_missing,
    first_undefined,
    forward_plan,
    lemma_backward_plan,
    lemma_first_missing,
    lemma_forward_plan,
    pending_versions,
    position_of,
    rollback_targets,
};
use crate::migration::record::{versions_of, Migration};
use vstd::prelude::*;

verus! {

/// Which of a migration's two actions an invocation performs.
#[derive(Clone, Copy, Debug, PartialEq, Eq)]
pub enum Direction {
    /// Forward: apply, then record in the ledger.
    Up,
    /// Backward: revert, then remove from the ledger.
    Down,
}

/// What the runner is waiting to hear about.
#[derive(Clone, Copy, Debug, PartialEq, Eq)]
pub enum Phase {
    /// Whether the ledger relation is in place.
    Schema,
    /// The rows of the ledger.
    Ledger,
    /// How the action of the current migration went.
    Acting,
    /// How the ledger write for the current migration went.
    Recording,
    /// That the completion of the current migration was announced.
    Announcing,
}

/// What the embedding program is asked to do next.
#[derive(Clone, Copy, Debug, PartialEq, Eq)]
pub enum Action {
    /// Send the statement to the database.
    Execute(Statement),
    /// Invoke the apply action of the registry's record at this index.
    Apply(usize),
    /// Invoke the revert action of the registry's record at this index.
    Revert(usize),
    /// Announce that the record at this index was applied.
    Completed(usize),
    /// Announce that the record at this index was reverted.
    Reverted(usize),
}

/// How the last action went, as the embedding program reports it.
#[derive(Debug, PartialEq, Eq)]
pub enum Reply {
    /// It succeeded and brought no rows.
    Done,
    /// It succeeded and brought these values, one per row.
    Rows(Vec<i64>),
    /// It failed.
    Failed,
}

/// A [`Reply`] with its rows as a sequence.
pub enum ReplyView {
    Done,
    Rows(Seq<i64>),
    Failed,
}

impl View for Reply {
    type V = ReplyView;

    open spec fn view(&self) -> ReplyView {
        match self {
            Reply::Done => ReplyView::Done,
            Reply::Rows(rows) => ReplyView::Rows(rows@),
            Reply::Failed => ReplyView::Failed,
        }
    }
}

/// Why an invocation ended without doing all of its work.
///
/// An error says what failed and for which version. What the connection or
/// the migration had to say about it stays with the embedding program, which
/// holds the message when it reports the failure.
#[derive(Clone, Copy, Debug, PartialEq, Eq)]
pub enum MigrationError {
    /// The registry holds this version more than once.
    DuplicateVersion(u64),
    /// The registry holds this version, which is too large for the ledger's
    /// 64-bit signed column.
    VersionOutOfRange(u64),
    /// The ledger holds this version, which the rollback was to revert, and
    /// the registry has no record of it.
    MissingDefinition(i64),
    /// The database rejected the statement that creates the ledger relation.
    SchemaFailed,
    /// The database did not deliver the rows of the ledger.
    LedgerReadFailed,
    /// The action of the migration of this version failed. The ledger still
    /// says what it said before the action.
    ActionFailed(u64),
    /// The action of the migration of this version succeeded and the ledger
    /// write that follows it failed: the schema and the ledger disagree on
    /// this version.
    LedgerWriteFailed(u64),
}

/// The state of an invocation between two actions.
pub struct Progress {
    direction: Direction,
    steps: usize,
    versions: Vec<i64>,
    phase: Phase,
    work: Vec<i64>,
    position: usize,
}

/// What a [`Progress`] holds.
pub struct ProgressView {
    /// Forward run or rollback.
    pub direction: Direction,
    /// How many migrations a rollback was asked to revert.
    pub steps: nat,
    /// The registry's versions, in the registry's order.
    pub versions: Seq<i64>,
    /// What the runner is waiting to hear about.
    pub phase: Phase,
    /// The versions selected for this invocation, in the order of execution;
    /// empty until the ledger was read.
    pub work: Seq<i64>,
    /// The index in `work` of the migration in hand.
    pub position: nat,
}

impl ProgressView {
    /// The version of the migration in hand.
    pub open spec fn current(self) -> i64 {
        self.work[self.position as int]
    }

    /// What every state of an invocation satisfies: the registry's versions
    /// are distinct and fit the ledger, the work is taken from the registry
    /// and ordered by direction, and there is a migration in hand whenever
    /// the runner waits for news of one.
    pub open spec fn wf(self) -> bool {
        &&& self.versions.no_duplicates()
        &&& forall|i: int| 0 <= i < self.versions.len() ==> self.versions[i] >= 0
        &&& self.versions.len() <= usize::MAX
        &&& forall|k: int| 0 <= k < self.work.len() ==> self.versions.contains(self.work[k])
        &&& self.direction == Direction::Up ==> ascending(self.work)
        &&& self.direction == Direction::Down ==> descending(self.work)
        &&& match self.phase {
            Phase::Schema | Phase::Ledger => self.work.len() == 0 && self.position == 0,
            _ => self.position < self.work.len(),
        }
    }
}

impl View for Progress {
    type V = ProgressView;

    closed spec fn view(&self) -> ProgressView {
        ProgressView {
            direction: self.direction,
            steps: self.steps as nat,
            versions: self.versions@,
            phase: self.phase,
            work: self.work@,
            position: self.position as nat,
        }
    }
}

impl Progress {
    #[verifier::type_invariant]
    spec fn well_formed(self) -> bool {
        self@.wf()
    }
}

/// The runner's answer: the next action with the state to hand back with its
/// reply, or the end of the invocation.
pub enum Step {
    /// Perform the action, then call [`advance`] with this state and the
    /// reply.
    Next(Progress, Action),
    /// The invocation is over, with this outcome.
    Finished(Result<(), MigrationError>),
}

/// A [`Step`] over the view of its state.
pub enum StepView {
    Next(ProgressView, Action),
    Finished(Result<(), MigrationError>),
}

impl View for Step {
    type V = StepView;

    open spec fn view(&self) -> StepView {
        match self {
            Step::Next(progress, action) => StepView::Next(progress@, *action),
            Step::Finished(outcome) => StepView::Finished(*outcome),
        }
    }
}

/// The record at index `j` cannot be run: its version does not fit the
/// ledger, or a record before it has the same version.
pub open spec fn offends(versions: Seq<u64>, j: int) -> bool {
    ||| versions[j] > i64::MAX
    ||| exists|i: int| 0 <= i < j && versions[i] == versions[j]
}

/// The index of the first record of the registry that cannot be run.
pub open spec fn first_offender(versions: Seq<u64>) -> int {
    choose|j: int|
        0 <= j < versions.len() && offends(versions, j) && forall|i: int|
            0 <= i < j ==> !offends(versions, i)
}

/// What is wrong with the registry, if anything: the complaint about the
/// first record that cannot be run.
pub open spec fn registry_fault(versions: Seq<u64>) -> Option<MigrationError> {
    if exists|j: int| 0 <= j < versions.len() && offends(versions, j) {
        let version = versions[first_offender(versions)];
        if version > i64::MAX {
            Some(MigrationError::VersionOutOfRange(version))
        } else {
            Some(MigrationError::DuplicateVersion(version))
        }
    } else {
        None
    }
}

/// A registry is without fault exactly when each of its versions fits the
/// ledger and none occurs twice. A fault names a version of the registry
/// that is too large, or one that occurs twice.
pub proof fn lemma_registry_fault(versions: Seq<u64>)
    ensures
        registry_fault(versions) is None <==> {
            &&& forall|i: int| 0 <= i < versions.len() ==> versions[i] <= i64::MAX
            &&& forall|i: int, j: int| 0 <= i < j < versions.len() ==> versions[i] != versions[j]
        },
        registry_fault(versions) matches Some(MigrationError::VersionOutOfRange(version))
            ==> version > i64::MAX && versions.contains(version),
        registry_fault(versions) matches Some(MigrationError::DuplicateVersion(version))
            ==> exists|i: int, j: int|
            0 <= i < j < versions.len() && versions[i] == version && versions[j] == version,
        registry_fault(versions) matches Some(fault) ==> fault is VersionOutOfRange
            || fault is DuplicateVersion,
{
    if exists|j: int| 0 <= j < versions.len() && offends(versions, j) {
        let some = choose|j: int| 0 <= j < versions.len() && offends(versions, j);
        lemma_least_offender(versions, some);
        let j = first_offender(versions);
        assert(0 <= j < versions.len() && offends(versions, j));
        let version = versions[j];
        if version > i64::MAX {
            assert(versions.contains(version));
        } else {
            let i = choose|i: int| 0 <= i < j && versions[i] == versions[j];
            assert(versions[i] == version && versions[j] == version);
        }
    } else {
        assert forall|i: int| 0 <= i < versions.len() implies versions[i] <= i64::MAX by {
            assert(!offends(versions, i));
        }
        assert forall|i: int, j: int| 0 <= i < j < versions.len() implies versions[i]
            != versions[j] by {
            assert(!offends(versions, j));
        }
    }
}

/// Where some record offends, there is a first one that does.
proof fn lemma_least_offender(versions: Seq<u64>, j: int)
    requires
        0 <= j < versions.len(),
        offends(versions, j),
    ensures
        exists|f: int|
            0 <= f <= j && offends(versions, f) && forall|i: int|
                0 <= i < f ==> !offends(versions, i),
    decreases j,
{
    if exists|i: int| 0 <= i < j && offends(versions, i) {
        let i = choose|i: int| 0 <= i < j && offends(versions, i);
        lemma_least_offender(versions, i);
    }
}

/// The registry's versions as the ledger stores them.
pub open spec fn ledger_versions(versions: Seq<u64>) -> Seq<i64> {
    Seq::new(versions.len(), |i: int| versions[i] as i64)
}

/// The action that performs a migration in the given direction.
pub open spec fn act(direction: Direction, index: usize) -> Action {
    match direction {
        Direction::Up => Action::Apply(index),
        Direction::Down => Action::Revert(index),
    }
}

/// The ledger write that follows a migration's action.
pub open spec fn record(direction: Direction, version: i64) -> Statement {
    match direction {
        Direction::Up => Statement::Insert(version),
        Direction::Down => Statement::Delete(version),
    }
}

/// The announcement that follows a migration's ledger write.
pub open spec fn announce(direction: Direction, index: usize) -> Action {
    match direction {
        Direction::Up => Action::Completed(index),
        Direction::Down => Action::Reverted(index),
    }
}

/// How an invocation starts: with a complaint about the registry, or with
/// the request to make sure that the ledger relation exists.
pub open spec fn start(direction: Direction, steps: nat, versions: Seq<u64>) -> StepView {
    match registry_fault(versions) {
        Some(fault) => StepView::Finished(Err(fault)),
        None => StepView::Next(
            ProgressView {
                direction,
                steps,
                versions: ledger_versions(versions),
                phase: Phase::Schema,
                work: Seq::empty(),
                position: 0,
            },
            Action::Execute(Statement::EnsureSchema),
        ),
    }
}

/// How an invocation takes up the selected `work`: it is over where there is
/// none, and else asks for the action of the first.
pub open spec fn take_up(p: ProgressView, work: Seq<i64>) -> StepView {
    if work.len() == 0 {
        StepView::Finished(Ok(()))
    } else {
        StepView::Next(
            ProgressView { phase: Phase::Acting, work, position: 0, ..p },
            act(p.direction, p.versions.index_of(work[0]) as usize),
        )
    }
}

/// What an invocation does once it knows the ledger to hold `applied`.
///
/// A rollback that is to revert a version of which the registry has no
/// record reverts nothing: it ends with the most recent such version.
pub open spec fn select(p: ProgressView, applied: Set<i64>) -> StepView {
    match p.direction {
        Direction::Up => take_up(p, forward_plan(p.versions, applied)),
        Direction::Down => {
            let targets = backward_plan(applied, p.steps);
            match first_missing(targets, p.versions) {
                Some(version) => StepView::Finished(
                    Err(MigrationError::MissingDefinition(version)),
                ),
                None => take_up(p, targets),
            }
        },
    }
}

/// The runner's rule: what follows from a state and the reply to the action
/// that was asked with it.
///
/// Anything but rows in reply to the reading of the ledger counts as a
/// failure to read it. To every other action, anything but `Failed` counts
/// as success; the reply to an announcement is not looked at.
pub open spec fn next(p: ProgressView, reply: ReplyView) -> StepView {
    match p.phase {
        Phase::Schema => if reply is Failed {
            StepView::Finished(Err(MigrationError::SchemaFailed))
        } else {
            StepView::Next(
                ProgressView { phase: Phase::Ledger, ..p },
                Action::Execute(Statement::SelectVersions),
            )
        },
        Phase::Ledger => match reply {
            ReplyView::Rows(rows) => select(p, rows.to_set()),
            _ => StepView::Finished(Err(MigrationError::LedgerReadFailed)),
        },
        Phase::Acting => if reply is Failed {
            StepView::Finished(Err(MigrationError::ActionFailed(p.current() as u64)))
        } else {
            StepView::Next(
                ProgressView { phase: Phase::Recording, ..p },
                Action::Execute(record(p.direction, p.current())),
            )
        },
        Phase::Recording => if reply is Failed {
            StepView::Finished(Err(MigrationError::LedgerWriteFailed(p.current() as u64)))
        } else {
            StepView::Next(
                ProgressView { phase: Phase::Announcing, ..p },
                announce(p.direction, p.versions.index_of(p.current()) as usize),
            )
        },
        Phase::Announcing => if p.position + 1 < p.work.len() {
            StepView::Next(
                ProgressView { phase: Phase::Acting, position: p.position + 1, ..p },
                act(p.direction, p.versions.index_of(p.work[p.position as int + 1]) as usize),
            )
        } else {
            StepView::Finished(Ok(()))
        },
    }
}

/// A step that goes on does so from a well-formed state.
pub open spec fn goes_on_well(step: StepView) -> bool {
    step matches StepView::Next(p, _) ==> p.wf()
}

/// An invocation over a registry without fault starts from a well-formed
/// state.
pub proof fn lemma_start_goes_on_well(direction: Direction, steps: nat, versions: Seq<u64>)
    requires
        versions.len() <= usize::MAX,
    ensures
        goes_on_well(start(direction, steps, versions)),
{
    if registry_fault(versions) is None {
        lemma_registry_fault(versions);
        let stored = ledger_versions(versions);
        assert forall|i: int, j: int|
            0 <= i < stored.len() && 0 <= j < stored.len() && i != j implies stored[i]
            != stored[j] by {
            if i < j {
                assert(versions[i] != versions[j]);
            } else {
                assert(versions[j] != versions[i]);
            }
        }
    }
}

/// Every step from a well-formed state leads to a well-formed state or to
/// the end of the invocation.
pub proof fn lemma_next_goes_on_well(p: ProgressView, reply: ReplyView)
    requires
        p.wf(),
    ensures
        goes_on_well(next(p, reply)),
{
    match p.phase {
        Phase::Ledger => {
            if let ReplyView::Rows(rows) = reply {
                vstd::seq_lib::seq_to_set_is_finite(rows);
                let applied = rows.to_set();
                match p.direction {
                    Direction::Up => {
                        let work = forward_plan(p.versions, applied);
                        lemma_forward_plan(p.versions, applied);
                        assert forall|k: int| 0 <= k < work.len() implies p.versions.contains(
                            work[k],
                        ) by {
                            assert(work.contains(work[k]));
                        }
                    },
                    Direction::Down => {
                        let targets = backward_plan(applied, p.steps);
                        lemma_backward_plan(applied, p.steps);
                        lemma_first_missing(targets, p.versions);
                    },
                }
            }
        },
        _ => {},
    }
}

/// In a sequence without repetition, `index_of` is the one index that holds
/// the value.
proof fn lemma_index_of(versions: Seq<i64>, i: int)
    requires
        versions.no_duplicates(),
        0 <= i < versions.len(),
    ensures
        versions.index_of(versions[i]) == i,
{
    let j = versions.index_of(versions[i]);
    assert(0 <= j < versions.len() && versions[j] == versions[i]);
}

/// Checks the registry and collects its versions as the ledger stores them.
fn collect_versions<A>(migrations: &Vec<Migration<A>>) -> (checked: Result<
    Vec<i64>,
    MigrationError,
>)
    ensures
        match registry_fault(versions_of(migrations@)) {
            Some(fault) => checked == Err::<Vec<i64>, MigrationError>(fault),
            None => checked is Ok && checked->Ok_0@ == ledger_versions(versions_of(migrations@))
                && checked->Ok_0@.no_duplicates() && forall|i: int|
                0 <= i < checked->Ok_0@.len() ==> checked->Ok_0@[i] >= 0,
        },
{
    let ghost versions = versions_of(migrations@);
    let mut collected: Vec<i64> = Vec::new();
    let mut j: usize = 0;
    while j < migrations.len()
        invariant
            j <= migrations.len(),
            versions == versions_of(migrations@),
            collected@.len() == j,
            forall|i: int| 0 <= i < j ==> !offends(versions, i),
            forall|i: int| 0 <= i < j ==> collected@[i] as int == versions[i] as int,
        decreases migrations.len() - j,
    {
        let version: u64 = *migrations[j].version();
        assert(version == versions[j as int]);
        if version > i64::MAX as u64 {
            proof {
                assert(offends(versions, j as int));
                lemma_first_offender(versions, j as int);
            }
            return Err(MigrationError::VersionOutOfRange(version));
        }
        let stored: i64 = version as i64;
        if position_of(&collected, stored).is_some() {
            proof {
                let i = choose|i: int| 0 <= i < collected@.len() && collected@[i] == stored;
                assert(collected@[i] as int == versions[i] as int);
                assert(versions[i] == versions[j as int]);
                assert(offends(versions, j as int));
                lemma_first_offender(versions, j as int);
            }
            return Err(MigrationError::DuplicateVersion(version));
        }
        proof {
            assert(!offends(versions, j as int)) by {
                if exists|i: int| 0 <= i < j && versions[i] == versions[j as int] {
                    let i = choose|i: int| 0 <= i < j && versions[i] == versions[j as int];
                    assert(collected@[i] == stored);
                }
            }
        }
        collected.push(stored);
        j += 1;
    }
    proof {
        assert forall|i: int| 0 <= i < collected@.len() implies collected@[i]
            == ledger_versions(versions)[i] && collected@[i] >= 0 by {
            assert(!offends(versions, i));
            assert(collected@[i] as int == versions[i] as int);
        }
        assert(collected@ =~= ledger_versions(versions));
        assert forall|a: int, b: int|
            0 <= a < collected@.len() && 0 <= b < collected@.len() && a != b implies collected@[a]
            != collected@[b] by {
            assert(collected@[a] as int == versions[a] as int);
            assert(collected@[b] as int == versions[b] as int);
            if a < b {
                assert(!offends(versions, b));
            } else {
                assert(!offends(versions, a));
            }
        }
    }
    Ok(collected)
}

/// The first offender is `j` where `j` offends and no record before it does.
proof fn lemma_first_offender(versions: Seq<u64>, j: int)
    requires
        0 <= j < versions.len(),
        offends(versions, j),
        forall|i: int| 0 <= i < j ==> !offends(versions, i),
    ensures
        first_offender(versions) == j,
{
    let f = first_offender(versions);
    assert(0 <= f < versions.len() && offends(versions, f) && forall|i: int|
        0 <= i < f ==> !offends(versions, i));
    if f < j {
        assert(!offends(versions, f));
    }
    if j < f {
        assert(!offends(versions, j));
    }
}

/// Starts an invocation in the given direction.
fn begin<A>(direction: Direction, steps: usize, migrations: &Vec<Migration<A>>) -> (step: Step)
    ensures
        step@ == start(direction, steps as nat, versions_of(migrations@)),
        goes_on_well(step@),
{
    match collect_versions(migrations) {
        Err(fault) => Step::Finished(Err(fault)),
        Ok(versions) => {
            assert(versions@.len() == versions.len());
            let progress = Progress {
                direction,
                steps,
                versions,
                phase: Phase::Schema,
                work: Vec::new(),
                position: 0,
            };
            Step::Next(progress, Action::Execute(ensure_schema_migrations()))
        },
    }
}

/// Starts a forward run over the registry `migrations`.
///
/// The registry is checked before anything is asked of the database: every
/// version must fit the ledger and occur once. The run then asks that the
/// ledger relation be made sure of; [`advance`] takes it from there, and
/// applies the migrations that the ledger does not hold, by ascending
/// version, whatever the registry's own order.
pub fn run<A>(migrations: &Vec<Migration<A>>) -> (step: Step)
    ensures
        step@ == start(Direction::Up, 0, versions_of(migrations@)),
        goes_on_well(step@),
{
    begin(Direction::Up, 0, migrations)
}

/// Starts a rollback of the `steps` most recently applied migrations.
///
/// The registry is checked as for [`run`]. [`advance`] then reverts the
/// `steps` largest versions that the ledger holds, largest first, or all of
/// them where the ledger holds no more than `steps`; with `steps == 0` it
/// reverts none.
pub fn rollback<A>(steps: usize, migrations: &Vec<Migration<A>>) -> (step: Step)
    ensures
        step@ == start(Direction::Down, steps as nat, versions_of(migrations@)),
        goes_on_well(step@),
{
    begin(Direction::Down, steps, migrations)
}

/// The action that performs the migration of `version`.
fn act_on(direction: Direction, versions: &Vec<i64>, version: i64) -> (action: Action)
    requires
        versions@.no_duplicates(),
        versions@.contains(version),
    ensures
        action == act(direction, versions@.index_of(version) as usize),
{
    let index: usize = index_in(versions, version);
    match direction {
        Direction::Up => Action::Apply(index),
        Direction::Down => Action::Revert(index),
    }
}

/// The index at which the registry holds `version`.
fn index_in(versions: &Vec<i64>, version: i64) -> (index: usize)
    requires
        versions@.no_duplicates(),
        versions@.contains(version),
    ensures
        index == versions@.index_of(version),
        index < versions.len(),
{
    match position_of(versions, version) {
        Some(index) => {
            proof {
                lemma_index_of(versions@, index as int);
            }
            index
        },
        None => 0,
    }
}

/// Takes up the selected work.
fn set_out(progress: Progress, work: Vec<i64>) -> (step: Step)
    requires
        progress@.phase == Phase::Ledger,
        forall|k: int| 0 <= k < work@.len() ==> progress@.versions.contains(work@[k]),
        progress@.direction == Direction::Up ==> ascending(work@),
        progress@.direction == Direction::Down ==> descending(work@),
    ensures
        step@ == take_up(progress@, work@),
        goes_on_well(step@),
{
    proof {
        use_type_invariant(&progress);
    }
    if work.len() == 0 {
        Step::Finished(Ok(()))
    } else {
        let action = act_on(progress.direction, &progress.versions, work[0]);
        Step::Next(Progress { phase: Phase::Acting, work, position: 0, ..progress }, action)
    }
}

/// Selects the work from the rows of the ledger and takes it up.
fn select_work(progress: Progress, rows: &Vec<i64>) -> (step: Step)
    requires
        progress@.phase == Phase::Ledger,
    ensures
        step@ == select(progress@, rows@.to_set()),
        goes_on_well(step@),
{
    proof {
        use_type_invariant(&progress);
    }
    match progress.direction {
        Direction::Up => {
            let work = pending_versions(&progress.versions, rows);
            proof {
                lemma_forward_plan(progress@.versions, rows@.to_set());
                assert forall|k: int| 0 <= k < work@.len() implies progress@.versions.contains(
                    work@[k],
                ) by {
                    assert(work@.contains(work@[k]));
                }
            }
            set_out(progress, work)
        },
        Direction::Down => {
            let targets = rollback_targets(rows, progress.steps);
            match first_undefined(&targets, &progress.versions) {
                Some(version) => Step::Finished(Err(MigrationError::MissingDefinition(version))),
                None => {
                    proof {
                        vstd::seq_lib::seq_to_set_is_finite(rows@);
                        lemma_backward_plan(rows@.to_set(), progress@.steps);
                        lemma_first_missing(targets@, progress@.versions);
                    }
                    set_out(progress, targets)
                },
            }
        },
    }
}

/// Takes the reply to the action that was asked with `progress` and names
/// what follows: the next action, or the end of the invocation.
///
/// A failed action, or a failed ledger write, ends the invocation at once:
/// no later migration is touched, and what was completed stays as it is.
pub fn advance(progress: Progress, reply: Reply) -> (step: Step)
    ensures
        step@ == next(progress@, reply@),
        goes_on_well(step@),
{
    proof {
        use_type_invariant(&progress);
    }
    let failed = match reply {
        Reply::Failed => true,
        _ => false,
    };
    match progress.phase {
        Phase::Schema => {
            if failed {
                Step::Finished(Err(MigrationError::SchemaFailed))
            } else {
                Step::Next(
                    Progress { phase: Phase::Ledger, ..progress },
                    Action::Execute(select_versions()),
                )
            }
        },
        Phase::Ledger => match reply {
            Reply::Rows(rows) => select_work(progress, &rows),
            _ => Step::Finished(Err(MigrationError::LedgerReadFailed)),
        },
        Phase::Acting => {
            let version: i64 = progress.work[progress.position];
            assert(progress@.versions.contains(version));
            if failed {
                Step::Finished(Err(MigrationError::ActionFailed(version as u64)))
            } else {
                let statement = match progress.direction {
                    Direction::Up => insert_version(&version),
                    Direction::Down => delete_version(&version),
                };
                Step::Next(
                    Progress { phase: Phase::Recording, ..progress },
                    Action::Execute(statement),
                )
            }
        },
        Phase::Recording => {
            let version: i64 = progress.work[progress.position];
            assert(progress@.versions.contains(version));
            if failed {
                Step::Finished(Err(MigrationError::LedgerWriteFailed(version as u64)))
            } else {
                let index: usize = index_in(&progress.versions, version);
                let action = match progress.direction {
                    Direction::Up => Action::Completed(index),
                    Direction::Down => Action::Reverted(index),
                };
                Step::Next(Progress { phase: Phase::Announcing, ..progress }, action)
            }
        },
        Phase::Announcing => {
            assert(progress.position < progress.work.len());
            if progress.position + 1 < progress.work.len() {
                let position: usize = progress.position + 1;
                let action = act_on(
                    progress.direction,
                    &progress.versions,
                    progress.work[position],
                );
                Step::Next(Progress { phase: Phase::Acting, position, ..progress }, action)
            } else {
                Step::Finished(Ok(()))
            }
        },
    }
}

} // verus!
