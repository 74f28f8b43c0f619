//! What an invocation of the runner comes to.
//!
//! The runner only ever names the next action. This module puts it into a
//! world that performs what is asked, and proves what a whole forward run or
//! rollback leaves behind: which actions were invoked and in which order,
//! what the ledger holds afterwards, and how the invocation ends.
//!
//! The world is one that behaves: the ledger does what the statements say,
//! reads deliver every recorded version, and nothing fails but the one thing
//! that a [`Fault`] names.

use crate::migration::ledger::Statement;
use crate::migration::order::{
    ascending,
    descending,
    descending_list,
    lemma_ascending_unique,
    lemma_descending_list,
};
use crate::migration::plan::{
    backward_plan,
    first_missing,
    forward_plan,
    lemma_backward_plan,
    lemma_first_missing,
    lemma_forward_plan,
};
use crate::migration::runner::{
    act,
    announce,
    ledger_versions,
    next,
    offends,
    record,
    registry_fault,
    start,
    take_up,
    Action,
    Direction,
    MigrationError,
    Phase,
    ProgressView,
    ReplyView,
    StepView,
};
use vstd::prelude::*;

verus! {

/// What an invocation can change, and what can be seen of it from outside.
pub struct World {
    /// The versions that the ledger holds.
    pub ledger: Set<i64>,
    /// The versions whose apply action was invoked, in the order of the
    /// invocations.
    pub ups: Seq<i64>,
    /// The versions whose revert action was invoked, in the order of the
    /// invocations.
    pub downs: Seq<i64>,
    /// The announcements made, in their order.
    pub notices: Seq<Action>,
}

/// The one thing that goes wrong in a world, if anything does.
pub enum Fault {
    /// Nothing fails.
    Nothing,
    /// The action of the migration of this version fails.
    Action(i64),
    /// The ledger write for this version fails.
    Write(i64),
}

/// The world after it has performed `action`, and its reply. `versions` are
/// the registry's versions, by which the world finds the record that an
/// index names.
pub open spec fn perform(versions: Seq<i64>, action: Action, world: World, fault: Fault) -> (
    World,
    ReplyView,
) {
    match action {
        Action::Execute(statement) => match statement {
            Statement::EnsureSchema => (world, ReplyView::Done),
            Statement::SelectVersions => (world, ReplyView::Rows(descending_list(world.ledger))),
            Statement::Insert(version) | Statement::Delete(version) => if fault == Fault::Write(
                version,
            ) {
                (world, ReplyView::Failed)
            } else {
                (World { ledger: statement.effect(world.ledger), ..world }, ReplyView::Done)
            },
        },
        Action::Apply(index) => {
            let version = versions[index as int];
            (
                World { ups: world.ups.push(version), ..world },
                if fault == Fault::Action(version) {
                    ReplyView::Failed
                } else {
                    ReplyView::Done
                },
            )
        },
        Action::Revert(index) => {
            let version = versions[index as int];
            (
                World { downs: world.downs.push(version), ..world },
                if fault == Fault::Action(version) {
                    ReplyView::Failed
                } else {
                    ReplyView::Done
                },
            )
        },
        Action::Completed(_) | Action::Reverted(_) => (
            World { notices: world.notices.push(action), ..world },
            ReplyView::Done,
        ),
    }
}

/// The world after up to `limit` actions, beginning with `action` in state
/// `p`, and the outcome of the invocation if it ended within them.
pub open spec fn execute(
    p: ProgressView,
    action: Action,
    world: World,
    fault: Fault,
    limit: nat,
) -> (World, Option<Result<(), MigrationError>>)
    decreases limit,
{
    if limit == 0 {
        (world, None)
    } else {
        let (after, reply) = perform(p.versions, action, world, fault);
        match next(p, reply) {
            StepView::Finished(outcome) => (after, Some(outcome)),
            StepView::Next(q, then) => execute(q, then, after, fault, (limit - 1) as nat),
        }
    }
}

/// A whole invocation over the registry's `versions`: the world that it
/// leaves and its outcome.
///
/// An invocation asks for two actions before it selects its work and for
/// three for each migration that it has selected, none of which occurs
/// twice; the limit given here covers that.
pub open spec fn invoke(
    direction: Direction,
    steps: nat,
    versions: Seq<u64>,
    world: World,
    fault: Fault,
) -> (World, Option<Result<(), MigrationError>>) {
    match start(direction, steps, versions) {
        StepView::Finished(outcome) => (world, Some(outcome)),
        StepView::Next(p, action) => execute(p, action, world, fault, 3 * versions.len() + 2),
    }
}

/// The index in `work` of the migration at which the fault strikes, and the
/// length of `work` where it strikes none of them.
pub open spec fn halt(work: Seq<i64>, fault: Fault) -> int {
    match fault {
        Fault::Nothing => work.len() as int,
        Fault::Action(version) | Fault::Write(version) => if work.contains(version) {
            work.index_of(version)
        } else {
            work.len() as int
        },
    }
}

/// How an invocation with this work ends.
pub open spec fn verdict(work: Seq<i64>, fault: Fault) -> Result<(), MigrationError> {
    match fault {
        Fault::Nothing => Ok(()),
        Fault::Action(version) => if work.contains(version) {
            Err(MigrationError::ActionFailed(version as u64))
        } else {
            Ok(())
        },
        Fault::Write(version) => if work.contains(version) {
            Err(MigrationError::LedgerWriteFailed(version as u64))
        } else {
            Ok(())
        },
    }
}

/// The migrations of `work` that were completed: those before the fault.
pub open spec fn completed(work: Seq<i64>, fault: Fault) -> Seq<i64> {
    work.take(halt(work, fault))
}

/// The migrations of `work` whose action was invoked: the completed ones
/// and the one at which the fault struck.
pub open spec fn invoked(work: Seq<i64>, fault: Fault) -> Seq<i64> {
    if halt(work, fault) < work.len() {
        work.take(halt(work, fault) + 1)
    } else {
        work
    }
}

/// The announcements that go with completed migrations, one each.
pub open spec fn announcements(direction: Direction, versions: Seq<i64>, done: Seq<i64>) -> Seq<
    Action,
> {
    Seq::new(done.len(), |m: int| announce(direction, versions.index_of(done[m]) as usize))
}

/// The world that carrying out `work` from `world` leaves.
pub open spec fn carried_out(
    direction: Direction,
    versions: Seq<i64>,
    work: Seq<i64>,
    world: World,
    fault: Fault,
) -> World {
    let done = completed(work, fault);
    match direction {
        Direction::Up => World {
            ledger: world.ledger.union(done.to_set()),
            ups: world.ups + invoked(work, fault),
            downs: world.downs,
            notices: world.notices + announcements(direction, versions, done),
        },
        Direction::Down => World {
            ledger: world.ledger.difference(done.to_set()),
            ups: world.ups,
            downs: world.downs + invoked(work, fault),
            notices: world.notices + announcements(direction, versions, done),
        },
    }
}

/// Work that is ordered either way holds no version twice.
proof fn lemma_ordered_distinct(work: Seq<i64>)
    requires
        ascending(work) || descending(work),
    ensures
        work.no_duplicates(),
        forall|k: int| 0 <= k < work.len() ==> work.index_of(#[trigger] work[k]) == k,
{
    assert forall|a: int, b: int| 0 <= a < work.len() && 0 <= b < work.len() && a != b implies work[a]
        != work[b] by {
        if a < b {
            assert(work[a] != work[b]);
        } else {
            assert(work[b] != work[a]);
        }
    }
    assert forall|k: int| 0 <= k < work.len() implies work.index_of(#[trigger] work[k]) == k by {
        let j = work.index_of(work[k]);
        assert(0 <= j < work.len() && work[j] == work[k]);
    }
}

/// What is left of ordered work after its first `k` migrations is ordered
/// the same way, and the fault strikes it at the same migration.
proof fn lemma_skip(work: Seq<i64>, k: int, fault: Fault)
    requires
        ascending(work) || descending(work),
        0 <= k <= work.len(),
        halt(work, fault) >= k,
    ensures
        ascending(work) ==> ascending(work.skip(k)),
        descending(work) ==> descending(work.skip(k)),
        halt(work.skip(k), fault) == halt(work, fault) - k,
{
    let rest = work.skip(k);
    if ascending(work) {
        assert forall|a: int, b: int| 0 <= a < b < rest.len() implies rest[a] < rest[b] by {
            assert(work[a + k] < work[b + k]);
        }
    }
    if descending(work) {
        assert forall|a: int, b: int| 0 <= a < b < rest.len() implies rest[a] > rest[b] by {
            assert(work[a + k] > work[b + k]);
        }
    }
    lemma_ordered_distinct(work);
    lemma_ordered_distinct(rest);
    let h = halt(work, fault);
    match fault {
        Fault::Nothing => {},
        Fault::Action(v) | Fault::Write(v) => {
            if work.contains(v) {
                assert(work[h] == v);
                assert(rest[h - k] == v);
            } else {
                if rest.contains(v) {
                    let m = choose|m: int| 0 <= m < rest.len() && rest[m] == v;
                    assert(work[m + k] == v);
                }
            }
        },
    }
}

/// The rest of an invocation, from the moment at which the action of the
/// migration at `p.position` is asked: the migrations from there on are
/// carried out one after the other up to the fault.
proof fn lemma_rest(p: ProgressView, world: World, fault: Fault, limit: nat)
    requires
        p.wf(),
        p.phase == Phase::Acting,
        limit >= 3 * (p.work.len() - p.position),
        halt(p.work, fault) >= p.position,
    ensures
        execute(
            p,
            act(p.direction, p.versions.index_of(p.current()) as usize),
            world,
            fault,
            limit,
        ) == (
            carried_out(p.direction, p.versions, p.work.skip(p.position as int), world, fault),
            Some(verdict(p.work, fault)),
        ),
    decreases p.work.len() - p.position,
{
    let k = p.position as int;
    let n = p.work.len() as int;
    let version = p.current();
    let rest = p.work.skip(k);
    lemma_ordered_distinct(p.work);
    lemma_skip(p.work, k, fault);
    assert(p.versions.contains(version));
    let index = p.versions.index_of(version);
    assert(0 <= index < p.versions.len() && p.versions[index] == version);
    let first = act(p.direction, index as usize);
    let h = halt(p.work, fault);
    assert(rest[0] == version);
    let (w1, r1) = perform(p.versions, first, world, fault);
    if fault == Fault::Action(version) {
        assert(h == k);
        assert(p.work.contains(version));
        assert(completed(rest, fault) =~= Seq::<i64>::empty());
        assert(invoked(rest, fault) =~= seq![version]);
        assert(announcements(p.direction, p.versions, completed(rest, fault)) =~= Seq::<
            Action,
        >::empty());
        let after = carried_out(p.direction, p.versions, rest, world, fault);
        assert(after.ledger =~= world.ledger);
        assert(after.notices =~= world.notices);
        assert(after.ups =~= w1.ups);
        assert(after.downs =~= w1.downs);
        assert(after == w1);
    } else {
        let recording = ProgressView { phase: Phase::Recording, ..p };
        let second = Action::Execute(record(p.direction, version));
        assert(next(p, r1) == StepView::Next(recording, second));
        let (w2, r2) = perform(p.versions, second, w1, fault);
        assert(execute(p, first, world, fault, limit) == execute(
            recording,
            second,
            w1,
            fault,
            (limit - 1) as nat,
        ));
        if fault == Fault::Write(version) {
            assert(h == k);
            assert(p.work.contains(version));
            assert(completed(rest, fault) =~= Seq::<i64>::empty());
            assert(invoked(rest, fault) =~= seq![version]);
            assert(announcements(p.direction, p.versions, completed(rest, fault)) =~= Seq::<
                Action,
            >::empty());
            let after = carried_out(p.direction, p.versions, rest, world, fault);
            assert(after.ledger =~= world.ledger);
            assert(after.notices =~= world.notices);
            assert(after.ups =~= w2.ups);
            assert(after.downs =~= w2.downs);
            assert(after == w2);
        } else {
            assert(h > k) by {
                if h == k {
                    assert(p.work[h] == version);
                }
            }
            let announcing = ProgressView { phase: Phase::Announcing, ..p };
            let third = announce(p.direction, index as usize);
            assert(next(recording, r2) == StepView::Next(announcing, third));
            let (w3, r3) = perform(p.versions, third, w2, fault);
            assert(execute(recording, second, w1, fault, (limit - 1) as nat) == execute(
                announcing,
                third,
                w2,
                fault,
                (limit - 2) as nat,
            ));
            let after = carried_out(p.direction, p.versions, rest, world, fault);
            if k + 1 < n {
                let onward = ProgressView { phase: Phase::Acting, position: (k + 1) as nat, ..p };
                let fourth = act(p.direction, p.versions.index_of(p.work[k + 1]) as usize);
                assert(next(announcing, r3) == StepView::Next(onward, fourth));
                assert(execute(announcing, third, w2, fault, (limit - 2) as nat) == execute(
                    onward,
                    fourth,
                    w3,
                    fault,
                    (limit - 3) as nat,
                ));
                lemma_rest(onward, w3, fault, (limit - 3) as nat);
                let tail = p.work.skip(k + 1);
                let end = carried_out(p.direction, p.versions, tail, w3, fault);
                lemma_skip(p.work, k + 1, fault);
                assert(tail =~= rest.skip(1));
                lemma_join(p.direction, p.versions, rest, tail, world, w3, fault);
                assert(end == after);
            } else {
                assert(next(announcing, r3) == StepView::Finished(Ok(())));
                assert(h == n) by {
                    match fault {
                        Fault::Nothing => {},
                        Fault::Action(v) | Fault::Write(v) => {
                            if p.work.contains(v) {
                                assert(p.work[h] == v);
                            }
                        },
                    }
                }
                assert(verdict(p.work, fault) == Ok::<(), MigrationError>(())) by {
                    match fault {
                        Fault::Nothing => {},
                        Fault::Action(v) | Fault::Write(v) => {},
                    }
                }
                assert(rest =~= seq![version]);
                assert(completed(rest, fault) =~= seq![version]);
                assert(invoked(rest, fault) =~= seq![version]);
                assert(announcements(p.direction, p.versions, completed(rest, fault)) =~= seq![
                    third,
                ]);
                assert(seq![version].to_set() =~= Set::<i64>::empty().insert(version)) by {
                    assert forall|x: i64| seq![version].to_set().contains(x) <==> x
                        == version by {
                        if x == version {
                            assert(seq![version][0] == x);
                        }
                    }
                }
                assert(after.ledger =~= w3.ledger);
                assert(after.notices =~= w3.notices);
                assert(after.ups =~= w3.ups);
                assert(after.downs =~= w3.downs);
                assert(after == w3);
            }
        }
    }
}

/// Carrying out `rest` is completing its first migration and carrying out
/// the `tail` from the world that this leaves.
proof fn lemma_join(
    direction: Direction,
    versions: Seq<i64>,
    rest: Seq<i64>,
    tail: Seq<i64>,
    world: World,
    middle: World,
    fault: Fault,
)
    requires
        rest.len() > 0,
        tail == rest.skip(1),
        halt(rest, fault) > 0,
        halt(tail, fault) == halt(rest, fault) - 1,
        middle == match direction {
            Direction::Up => World {
                ledger: world.ledger.insert(rest[0]),
                ups: world.ups.push(rest[0]),
                downs: world.downs,
                notices: world.notices.push(
                    announce(direction, versions.index_of(rest[0]) as usize),
                ),
            },
            Direction::Down => World {
                ledger: world.ledger.remove(rest[0]),
                ups: world.ups,
                downs: world.downs.push(rest[0]),
                notices: world.notices.push(
                    announce(direction, versions.index_of(rest[0]) as usize),
                ),
            },
        },
    ensures
        carried_out(direction, versions, tail, middle, fault) == carried_out(
            direction,
            versions,
            rest,
            world,
            fault,
        ),
{
    let h = halt(rest, fault);
    let done = completed(rest, fault);
    let done_tail = completed(tail, fault);
    assert(done =~= seq![rest[0]] + done_tail);
    assert(invoked(rest, fault) =~= seq![rest[0]] + invoked(tail, fault));
    assert(done.to_set() =~= done_tail.to_set().insert(rest[0])) by {
        assert forall|x: i64| done.to_set().contains(x) <==> (done_tail.to_set().contains(x) || x
            == rest[0]) by {
            if done.contains(x) {
                let m = choose|m: int| 0 <= m < done.len() && done[m] == x;
                if m > 0 {
                    assert(done_tail[m - 1] == x);
                }
            }
            if done_tail.contains(x) {
                let m = choose|m: int| 0 <= m < done_tail.len() && done_tail[m] == x;
                assert(done[m + 1] == x);
            }
            if x == rest[0] {
                assert(done[0] == x);
            }
        }
    }
    assert(announcements(direction, versions, done) =~= seq![
        announce(direction, versions.index_of(rest[0]) as usize),
    ] + announcements(direction, versions, done_tail));
    let a = carried_out(direction, versions, tail, middle, fault);
    let b = carried_out(direction, versions, rest, world, fault);
    assert(a.ledger =~= b.ledger);
    assert(a.ups =~= b.ups);
    assert(a.downs =~= b.downs);
    assert(a.notices =~= b.notices);
}

/// The state in which an invocation waits for the rows of the ledger.
pub open spec fn reading(direction: Direction, steps: nat, versions: Seq<u64>) -> ProgressView {
    ProgressView {
        direction,
        steps,
        versions: ledger_versions(versions),
        phase: Phase::Ledger,
        work: Seq::empty(),
        position: 0,
    }
}

/// A registry without fault gives versions that are distinct and fit the
/// ledger.
proof fn lemma_sound_registry(versions: Seq<u64>)
    requires
        registry_fault(versions) is None,
    ensures
        ledger_versions(versions).no_duplicates(),
        forall|i: int| 0 <= i < versions.len() ==> ledger_versions(versions)[i] >= 0,
        forall|i: int| 0 <= i < versions.len() ==> ledger_versions(versions)[i] == versions[i],
{
    let stored = ledger_versions(versions);
    assert forall|i: int| 0 <= i < versions.len() implies stored[i] >= 0 && stored[i]
        == versions[i] by {
        assert(!offends(versions, i));
    }
    assert forall|a: int, b: int|
        0 <= a < stored.len() && 0 <= b < stored.len() && a != b implies stored[a]
        != stored[b] by {
        assert(!offends(versions, a));
        assert(!offends(versions, b));
    }
}

/// An invocation whose registry is sound and which finds `work` to do
/// carries it out up to the fault.
proof fn lemma_invocation(
    direction: Direction,
    steps: nat,
    versions: Seq<u64>,
    work: Seq<i64>,
    world: World,
    fault: Fault,
)
    requires
        registry_fault(versions) is None,
        versions.len() <= usize::MAX,
        world.ledger.finite(),
        next(
            reading(direction, steps, versions),
            ReplyView::Rows(descending_list(world.ledger)),
        ) == take_up(reading(direction, steps, versions), work),
        forall|k: int| 0 <= k < work.len() ==> ledger_versions(versions).contains(work[k]),
        direction == Direction::Up ==> ascending(work),
        direction == Direction::Down ==> descending(work),
    ensures
        invoke(direction, steps, versions, world, fault) == (
            carried_out(direction, ledger_versions(versions), work, world, fault),
            Some(verdict(work, fault)),
        ),
{
    lemma_sound_registry(versions);
    let stored = ledger_versions(versions);
    let opening = ProgressView {
        direction,
        steps,
        versions: stored,
        phase: Phase::Schema,
        work: Seq::empty(),
        position: 0,
    };
    let a0 = Action::Execute(Statement::EnsureSchema);
    assert(start(direction, steps, versions) == StepView::Next(opening, a0));
    let limit = (3 * versions.len() + 2) as nat;
    let awaiting = reading(direction, steps, versions);
    let a1 = Action::Execute(Statement::SelectVersions);
    let (w0, r0) = perform(stored, a0, world, fault);
    assert(w0 == world);
    assert(next(opening, r0) == StepView::Next(awaiting, a1));
    assert(execute(opening, a0, world, fault, limit) == execute(
        awaiting,
        a1,
        world,
        fault,
        (limit - 1) as nat,
    ));
    let (w1, r1) = perform(stored, a1, world, fault);
    assert(w1 == world);
    let after = carried_out(direction, stored, work, world, fault);
    if work.len() == 0 {
        assert(next(awaiting, r1) == StepView::Finished(Ok(())));
        assert(completed(work, fault) =~= Seq::<i64>::empty());
        assert(invoked(work, fault) =~= Seq::<i64>::empty());
        assert(announcements(direction, stored, completed(work, fault)) =~= Seq::<
            Action,
        >::empty());
        assert(after.ledger =~= world.ledger);
        assert(after.ups =~= world.ups);
        assert(after.downs =~= world.downs);
        assert(after.notices =~= world.notices);
        assert(after == world);
        assert(verdict(work, fault) == Ok::<(), MigrationError>(())) by {
            match fault {
                Fault::Nothing => {},
                Fault::Action(v) | Fault::Write(v) => {},
            }
        }
    } else {
        let acting = ProgressView { phase: Phase::Acting, work, position: 0, ..awaiting };
        let a2 = act(direction, stored.index_of(work[0]) as usize);
        assert(next(awaiting, r1) == StepView::Next(acting, a2));
        assert(execute(awaiting, a1, world, fault, (limit - 1) as nat) == execute(
            acting,
            a2,
            world,
            fault,
            (limit - 2) as nat,
        ));
        lemma_ordered_distinct(work);
        assert(work.len() <= versions.len()) by {
            lemma_fits(stored, work);
        }
        assert(halt(work, fault) >= 0) by {
            match fault {
                Fault::Nothing => {},
                Fault::Action(v) | Fault::Write(v) => {
                    if work.contains(v) {
                        let j = work.index_of(v);
                        assert(0 <= j < work.len() && work[j] == v);
                    }
                },
            }
        }
        lemma_rest(acting, world, fault, (limit - 2) as nat);
        assert(work.skip(0) =~= work);
    }
}

/// Distinct values that all occur in `within` are no more than `within`
/// holds.
proof fn lemma_fits(within: Seq<i64>, work: Seq<i64>)
    requires
        work.no_duplicates(),
        forall|k: int| 0 <= k < work.len() ==> within.contains(work[k]),
    ensures
        work.len() <= within.len(),
{
    vstd::seq_lib::seq_to_set_is_finite(within);
    work.unique_seq_to_set();
    assert(work.to_set().subset_of(within.to_set())) by {
        assert forall|x: i64| work.to_set().contains(x) implies within.to_set().contains(x) by {
            let k = choose|k: int| 0 <= k < work.len() && work[k] == x;
            assert(within.contains(work[k]));
        }
    }
    vstd::set_lib::lemma_len_subset(work.to_set(), within.to_set());
    within.lemma_cardinality_of_set();
}

/// What a forward run comes to.
///
/// Over a registry without fault, a forward run invokes the apply action of
/// the pending migrations in ascending order of version, whatever the order
/// of the registry, up to and including the one at which the fault strikes.
/// It invokes no revert action. It adds to the ledger exactly the versions
/// that it completed, announces each of them in turn, and ends with the
/// fault's error, or with `Ok` where the fault struck none of them.
pub proof fn lemma_forward_run(versions: Seq<u64>, world: World, fault: Fault)
    requires
        registry_fault(versions) is None,
        versions.len() <= usize::MAX,
        world.ledger.finite(),
    ensures
        ({
            let stored = ledger_versions(versions);
            let plan = forward_plan(stored, world.ledger);
            let (after, outcome) = invoke(Direction::Up, 0, versions, world, fault);
            &&& ascending(plan)
            &&& forall|v: i64| plan.contains(v) <==> stored.contains(v) && !world.ledger.contains(v)
            &&& after.ups == world.ups + invoked(plan, fault)
            &&& after.downs == world.downs
            &&& after.ledger == world.ledger.union(completed(plan, fault).to_set())
            &&& after.notices == world.notices + announcements(
                Direction::Up,
                stored,
                completed(plan, fault),
            )
            &&& outcome == Some(verdict(plan, fault))
        }),
{
    let stored = ledger_versions(versions);
    let plan = forward_plan(stored, world.ledger);
    lemma_forward_plan(stored, world.ledger);
    lemma_descending_list(world.ledger);
    assert(descending_list(world.ledger).to_set() =~= world.ledger);
    assert forall|k: int| 0 <= k < plan.len() implies stored.contains(plan[k]) by {
        assert(plan.contains(plan[k]));
    }
    lemma_invocation(Direction::Up, 0, versions, plan, world, fault);
}

/// What a rollback comes to.
///
/// Over a registry without fault that has a record of every version to be
/// reverted, a rollback of `steps` invokes the revert action of the `steps`
/// largest versions of the ledger, or of all where the ledger holds no more,
/// largest first, up to and including the one at which the fault strikes. It
/// invokes no apply action. It removes from the ledger exactly the versions
/// that it completed, announces each of them in turn, and ends with the
/// fault's error, or with `Ok` where the fault struck none of them.
pub proof fn lemma_rollback(steps: nat, versions: Seq<u64>, world: World, fault: Fault)
    requires
        registry_fault(versions) is None,
        versions.len() <= usize::MAX,
        world.ledger.finite(),
        first_missing(backward_plan(world.ledger, steps), ledger_versions(versions)) is None,
    ensures
        ({
            let stored = ledger_versions(versions);
            let plan = backward_plan(world.ledger, steps);
            let (after, outcome) = invoke(Direction::Down, steps, versions, world, fault);
            &&& descending(plan)
            &&& plan.len() == if steps < world.ledger.len() {
                steps
            } else {
                world.ledger.len()
            }
            &&& forall|v: i64| plan.contains(v) ==> world.ledger.contains(v)
            &&& after.downs == world.downs + invoked(plan, fault)
            &&& after.ups == world.ups
            &&& after.ledger == world.ledger.difference(completed(plan, fault).to_set())
            &&& after.notices == world.notices + announcements(
                Direction::Down,
                stored,
                completed(plan, fault),
            )
            &&& outcome == Some(verdict(plan, fault))
        }),
{
    let stored = ledger_versions(versions);
    let plan = backward_plan(world.ledger, steps);
    lemma_backward_plan(world.ledger, steps);
    lemma_first_missing(plan, stored);
    lemma_descending_list(world.ledger);
    assert(descending_list(world.ledger).to_set() =~= world.ledger);
    lemma_invocation(Direction::Down, steps, versions, plan, world, fault);
}

/// A rollback that is to revert a version of which the registry has no
/// record touches nothing and ends with that version, the largest such.
pub proof fn lemma_rollback_missing_definition(
    steps: nat,
    versions: Seq<u64>,
    world: World,
    fault: Fault,
)
    requires
        registry_fault(versions) is None,
        world.ledger.finite(),
        first_missing(backward_plan(world.ledger, steps), ledger_versions(versions)) is Some,
    ensures
        invoke(Direction::Down, steps, versions, world, fault) == (
            world,
            Some(
                Err::<(), MigrationError>(
                    MigrationError::MissingDefinition(
                        first_missing(
                            backward_plan(world.ledger, steps),
                            ledger_versions(versions),
                        )->Some_0,
                    ),
                ),
            ),
        ),
{
    let stored = ledger_versions(versions);
    lemma_descending_list(world.ledger);
    assert(descending_list(world.ledger).to_set() =~= world.ledger);
    let opening = ProgressView {
        direction: Direction::Down,
        steps,
        versions: stored,
        phase: Phase::Schema,
        work: Seq::empty(),
        position: 0,
    };
    let a0 = Action::Execute(Statement::EnsureSchema);
    let limit = (3 * versions.len() + 2) as nat;
    let awaiting = reading(Direction::Down, steps, versions);
    let a1 = Action::Execute(Statement::SelectVersions);
    let (w0, r0) = perform(stored, a0, world, fault);
    assert(next(opening, r0) == StepView::Next(awaiting, a1));
    assert(execute(opening, a0, world, fault, limit) == execute(
        awaiting,
        a1,
        world,
        fault,
        (limit - 1) as nat,
    ));
    let (w1, r1) = perform(stored, a1, world, fault);
    assert(w1 == world);
}

/// A registry with a fault stops the invocation before anything is asked of
/// the world.
pub proof fn lemma_faulty_registry(
    direction: Direction,
    steps: nat,
    versions: Seq<u64>,
    world: World,
    fault: Fault,
)
    requires
        registry_fault(versions) is Some,
    ensures
        invoke(direction, steps, versions, world, fault) == (
            world,
            Some(Err::<(), MigrationError>(registry_fault(versions)->Some_0)),
        ),
{
}

/// A forward run right after a forward run in which nothing failed finds
/// nothing to do: it invokes no action, leaves the ledger as it found it,
/// and ends as the first one did.
pub proof fn lemma_second_run_does_nothing(versions: Seq<u64>, world: World)
    requires
        versions.len() <= usize::MAX,
        world.ledger.finite(),
    ensures
        ({
            let (once, first) = invoke(Direction::Up, 0, versions, world, Fault::Nothing);
            let (twice, second) = invoke(Direction::Up, 0, versions, once, Fault::Nothing);
            &&& twice == once
            &&& second == first
            &&& registry_fault(versions) is None ==> first == Some(Ok::<(), MigrationError>(()))
        }),
{
    if registry_fault(versions) is None {
        let stored = ledger_versions(versions);
        let plan = forward_plan(stored, world.ledger);
        lemma_forward_run(versions, world, Fault::Nothing);
        let (once, first) = invoke(Direction::Up, 0, versions, world, Fault::Nothing);
        assert(completed(plan, Fault::Nothing) =~= plan);
        assert(once.ledger.finite()) by {
            vstd::seq_lib::seq_to_set_is_finite(plan);
        }
        lemma_forward_run(versions, once, Fault::Nothing);
        let again = forward_plan(stored, once.ledger);
        assert(again.len() == 0) by {
            if again.len() > 0 {
                assert(again.contains(again[0]));
                assert(stored.contains(again[0]) && !once.ledger.contains(again[0]));
                if !world.ledger.contains(again[0]) {
                    assert(plan.contains(again[0]));
                    assert(plan.to_set().contains(again[0]));
                }
            }
        }
        let (twice, second) = invoke(Direction::Up, 0, versions, once, Fault::Nothing);
        assert(completed(again, Fault::Nothing) =~= Seq::<i64>::empty());
        assert(invoked(again, Fault::Nothing) =~= Seq::<i64>::empty());
        assert(announcements(Direction::Up, stored, completed(again, Fault::Nothing)) =~= Seq::<
            Action,
        >::empty());
        assert(twice.ledger =~= once.ledger);
        assert(twice.ups =~= once.ups);
        assert(twice.notices =~= once.notices);
    }
}

/// The order of the registry makes no difference to a forward run: two
/// registries that hold the same versions give the same plan.
pub proof fn lemma_registry_order_is_irrelevant(a: Seq<i64>, b: Seq<i64>, applied: Set<i64>)
    requires
        forall|v: i64| a.contains(v) <==> b.contains(v),
    ensures
        forward_plan(a, applied) == forward_plan(b, applied),
{
    lemma_forward_plan(a, applied);
    lemma_forward_plan(b, applied);
    assert forall|v: i64|
        forward_plan(a, applied).contains(v) <==> forward_plan(b, applied).contains(v) by {
        assert(a.contains(v) <==> b.contains(v));
    }
    lemma_ascending_unique(forward_plan(a, applied), forward_plan(b, applied));
}

/// A rollback of at least as many steps as the ledger holds versions
/// reverts every one of them, largest first, and leaves the ledger empty.
pub proof fn lemma_rollback_beyond_ledger(steps: nat, versions: Seq<u64>, world: World)
    requires
        registry_fault(versions) is None,
        versions.len() <= usize::MAX,
        world.ledger.finite(),
        steps >= world.ledger.len(),
        forall|v: i64| world.ledger.contains(v) ==> ledger_versions(versions).contains(v),
    ensures
        ({
            let (after, outcome) = invoke(Direction::Down, steps, versions, world, Fault::Nothing);
            &&& outcome == Some(Ok::<(), MigrationError>(()))
            &&& after.downs == world.downs + descending_list(world.ledger)
            &&& descending(descending_list(world.ledger))
            &&& descending_list(world.ledger).to_set() == world.ledger
            &&& after.ups == world.ups
            &&& after.ledger == Set::<i64>::empty()
        }),
{
    let stored = ledger_versions(versions);
    let all = descending_list(world.ledger);
    lemma_descending_list(world.ledger);
    assert(all.to_set() =~= world.ledger);
    let plan = backward_plan(world.ledger, steps);
    assert(plan == all);
    lemma_first_missing(plan, stored);
    assert(first_missing(plan, stored) is None) by {
        assert forall|k: int| 0 <= k < plan.len() implies stored.contains(#[trigger] plan[k]) by {
            assert(all.contains(plan[k]));
        }
    }
    lemma_rollback(steps, versions, world, Fault::Nothing);
    assert(completed(plan, Fault::Nothing) =~= plan);
    let (after, outcome) = invoke(Direction::Down, steps, versions, world, Fault::Nothing);
    assert(after.ledger =~= Set::<i64>::empty());
}

} // verus!
