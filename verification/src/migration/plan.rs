//! Selection of work: which versions a forward run applies and which a
//! rollback reverts, and in which order.
//!
//! Both selections depend on the registry and the ledger as sets only. The
//! order of the work is imposed here, by version number, which doubles as the
//! identity of a migration and as the time at which it was written.

use crate::migration::ledger::{get_versions_as_hash, get_versions_as_vec};
use crate::migration::order::{
    ascending,
    ascending_list,
    descending,
    descending_list,
    lemma_ascending_list,
    lemma_descending_list,
    sorted_versions,
    without_repeats,
};
use vstd::prelude::*;

verus! {

broadcast use vstd::std_specs::hash::group_hash_axioms;

/// The versions that a forward run applies, in the order in which it applies
/// them: those of the registry that the ledger does not hold, smallest first.
pub open spec fn forward_plan(versions: Seq<i64>, applied: Set<i64>) -> Seq<i64> {
    ascending_list(versions.to_set().difference(applied))
}

/// The versions that a rollback of `steps` reverts, in the order in which it
/// reverts them: the `steps` largest of the ledger, largest first, and all of
/// the ledger where it holds no more than `steps`.
pub open spec fn backward_plan(applied: Set<i64>, steps: nat) -> Seq<i64> {
    let all = descending_list(applied);
    if steps < all.len() {
        all.take(steps as int)
    } else {
        all
    }
}

/// The first of `targets` that `versions` does not hold, if there is one.
pub open spec fn first_missing(targets: Seq<i64>, versions: Seq<i64>) -> Option<i64>
    decreases targets.len(),
{
    if targets.len() == 0 {
        None
    } else if !versions.contains(targets[0]) {
        Some(targets[0])
    } else {
        first_missing(targets.drop_first(), versions)
    }
}

/// A forward plan is ascending and holds exactly the pending versions.
pub proof fn lemma_forward_plan(versions: Seq<i64>, applied: Set<i64>)
    ensures
        ascending(forward_plan(versions, applied)),
        forall|v: i64|
            forward_plan(versions, applied).contains(v) <==> (versions.contains(v)
                && !applied.contains(v)),
{
    vstd::seq_lib::seq_to_set_is_finite(versions);
    let pending = versions.to_set().difference(applied);
    lemma_ascending_list(pending);
    assert forall|v: i64|
        forward_plan(versions, applied).contains(v) <==> (versions.contains(v)
            && !applied.contains(v)) by {
        assert(pending.contains(v) <==> (versions.to_set().contains(v) && !applied.contains(v)));
    }
}

/// A backward plan is descending, holds `steps` versions of the ledger or
/// all of them, and every version that it leaves out is smaller than each
/// one that it holds.
pub proof fn lemma_backward_plan(applied: Set<i64>, steps: nat)
    requires
        applied.finite(),
    ensures
        descending(backward_plan(applied, steps)),
        backward_plan(applied, steps).len() == if steps < applied.len() {
            steps
        } else {
            applied.len()
        },
        forall|v: i64| backward_plan(applied, steps).contains(v) ==> applied.contains(v),
        forall|v: i64, w: i64|
            backward_plan(applied, steps).contains(v) && applied.contains(w) && !backward_plan(
                applied,
                steps,
            ).contains(w) ==> w < v,
{
    lemma_descending_list(applied);
    let all = descending_list(applied);
    let plan = backward_plan(applied, steps);
    assert forall|v: i64| plan.contains(v) implies applied.contains(v) by {
        let k = choose|k: int| 0 <= k < plan.len() && plan[k] == v;
        assert(all[k] == v);
        assert(all.contains(v));
    }
    assert forall|v: i64, w: i64|
        plan.contains(v) && applied.contains(w) && !plan.contains(w) implies w < v by {
        let k = choose|k: int| 0 <= k < plan.len() && plan[k] == v;
        assert(all.contains(w));
        let m = choose|m: int| 0 <= m < all.len() && all[m] == w;
        if m < plan.len() {
            assert(plan[m] == w);
        }
        assert(all[k] > all[m]);
    }
}

/// `first_missing` finds no version exactly when `versions` holds every
/// target; what it finds is a target that `versions` lacks, and every target
/// before it is held.
pub proof fn lemma_first_missing(targets: Seq<i64>, versions: Seq<i64>)
    ensures
        first_missing(targets, versions) is None <==> forall|k: int|
            0 <= k < targets.len() ==> versions.contains(#[trigger] targets[k]),
        first_missing(targets, versions) matches Some(v) ==> exists|k: int|
            0 <= k < targets.len() && #[trigger] targets[k] == v && !versions.contains(v)
                && forall|m: int| 0 <= m < k ==> versions.contains(#[trigger] targets[m]),
    decreases targets.len(),
{
    if targets.len() == 0 {
    } else if !versions.contains(targets[0]) {
        assert(targets[0] == targets[0]);
    } else {
        let rest = targets.drop_first();
        lemma_first_missing(rest, versions);
        if first_missing(rest, versions) is None {
            assert forall|k: int| 0 <= k < targets.len() implies versions.contains(
                #[trigger] targets[k],
            ) by {
                if k > 0 {
                    assert(rest[k - 1] == targets[k]);
                }
            }
        } else {
            let v = first_missing(rest, versions)->Some_0;
            let k0 = choose|k: int|
                0 <= k < rest.len() && #[trigger] rest[k] == v && !versions.contains(v)
                    && forall|m: int| 0 <= m < k ==> versions.contains(#[trigger] rest[m]);
            assert(targets[k0 + 1] == v);
            assert forall|m: int| 0 <= m < k0 + 1 implies versions.contains(
                #[trigger] targets[m],
            ) by {
                if m > 0 {
                    assert(rest[m - 1] == targets[m]);
                }
            }
            assert(rest[k0] == targets[k0 + 1]);
        }
    }
}

/// Where `version` stands in `versions`: the first index that holds it.
pub fn position_of(versions: &Vec<i64>, version: i64) -> (found: Option<usize>)
    ensures
        found is None <==> !versions@.contains(version),
        found matches Some(i) ==> i < versions.len() && versions@[i as int] == version
            && forall|k: int| 0 <= k < i ==> versions@[k] != version,
{
    let mut i: usize = 0;
    while i < versions.len()
        invariant
            i <= versions.len(),
            forall|k: int| 0 <= k < i ==> versions@[k] != version,
        decreases versions.len() - i,
    {
        if versions[i] == version {
            return Some(i);
        }
        i += 1;
    }
    None
}

/// The work of a forward run: the versions of the registry that the rows of
/// the ledger do not record, smallest first.
pub fn pending_versions(versions: &Vec<i64>, rows: &Vec<i64>) -> (work: Vec<i64>)
    ensures
        work@ == forward_plan(versions@, rows@.to_set()),
        ascending(work@),
        forall|v: i64| work@.contains(v) <==> (versions@.contains(v) && !rows@.contains(v)),
{
    let applied = get_versions_as_hash(rows);
    let mut pending: Vec<i64> = Vec::new();
    let mut i: usize = 0;
    while i < versions.len()
        invariant
            i <= versions.len(),
            applied@.dom() == rows@.to_set(),
            forall|v: i64|
                pending@.contains(v) <==> (versions@.take(i as int).contains(v)
                    && !rows@.to_set().contains(v)),
        decreases versions.len() - i,
    {
        let version: i64 = versions[i];
        let ghost seen = versions@.take(i as int);
        let ghost seen_next = versions@.take(i + 1);
        let ghost before = pending@;
        assert(seen_next =~= seen.push(version));
        if !applied.contains_key(&version) {
            pending.push(version);
        }
        assert forall|v: i64|
            pending@.contains(v) <==> (seen_next.contains(v) && !rows@.to_set().contains(
                v,
            )) by {
            if pending@.contains(v) {
                let k = choose|k: int| 0 <= k < pending@.len() && pending@[k] == v;
                if k < before.len() {
                    assert(before[k] == v);
                    assert(before.contains(v));
                    let m = choose|m: int| 0 <= m < seen.len() && seen[m] == v;
                    assert(seen_next[m] == v);
                } else {
                    assert(seen_next[i as int] == v);
                }
            }
            if seen_next.contains(v) && !rows@.to_set().contains(v) {
                let m = choose|m: int| 0 <= m < seen_next.len() && seen_next[m] == v;
                if m < seen.len() {
                    assert(seen[m] == v);
                    assert(seen.contains(v));
                    assert(before.contains(v));
                    let k = choose|k: int| 0 <= k < before.len() && before[k] == v;
                    assert(pending@[k] == v);
                } else {
                    assert(pending@[before.len() as int] == v);
                }
            }
        }
        i += 1;
    }
    proof {
        assert(versions@.take(i as int) =~= versions@);
        assert(pending@.to_set() =~= versions@.to_set().difference(rows@.to_set()));
    }
    sorted_versions(&pending)
}

/// The versions that a rollback of `steps` is to revert: the `steps` largest
/// that the rows of the ledger record, largest first, or all of them where
/// there are no more than `steps`. A version counts once, in however many
/// rows it stands.
pub fn rollback_targets(rows: &Vec<i64>, steps: usize) -> (targets: Vec<i64>)
    ensures
        targets@ == backward_plan(rows@.to_set(), steps as nat),
        descending(targets@),
        targets@.len() == if steps < rows@.to_set().len() {
            steps as nat
        } else {
            rows@.to_set().len()
        },
        forall|v: i64| targets@.contains(v) ==> rows@.contains(v),
        forall|v: i64, w: i64|
            targets@.contains(v) && rows@.contains(w) && !targets@.contains(w) ==> w < v,
{
    proof {
        vstd::seq_lib::seq_to_set_is_finite(rows@);
        lemma_backward_plan(rows@.to_set(), steps as nat);
        let plan = backward_plan(rows@.to_set(), steps as nat);
        assert forall|v: i64, w: i64|
            plan.contains(v) && rows@.contains(w) && !plan.contains(w) implies w < v by {
            assert(rows@.to_set().contains(w));
        }
        assert forall|v: i64| plan.contains(v) implies rows@.contains(v) by {
            assert(rows@.to_set().contains(v));
        }
    }
    let ordered = get_versions_as_vec(rows);
    assert(ordered@.to_set() =~= rows@.to_set());
    let mut targets = without_repeats(&ordered);
    if steps < targets.len() {
        targets.truncate(steps);
    }
    targets
}

/// The first of `targets` for which the registry has no record.
pub fn first_undefined(targets: &Vec<i64>, versions: &Vec<i64>) -> (missing: Option<i64>)
    ensures
        missing == first_missing(targets@, versions@),
{
    let mut i: usize = 0;
    assert(targets@.skip(0) =~= targets@);
    while i < targets.len()
        invariant
            i <= targets.len(),
            first_missing(targets@, versions@) == first_missing(
                targets@.skip(i as int),
                versions@,
            ),
        decreases targets.len() - i,
    {
        let ghost rest = targets@.skip(i as int);
        assert(rest[0] == targets@[i as int]);
        assert(rest.drop_first() =~= targets@.skip(i + 1));
        if position_of(versions, targets[i]).is_none() {
            return Some(targets[i]);
        }
        i += 1;
    }
    assert(targets@.skip(i as int).len() == 0);
    None
}

} // verus!
