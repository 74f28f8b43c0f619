//! Ordering of version numbers.
//!
//! The runner never trusts the order in which versions reach it: the registry
//! may list them in any order, and the ledger may deliver its rows in any
//! order and hold a version in more than one row. This module fixes what
//! "the versions of a set, smallest first" and "the rows, largest first"
//! mean, and computes them.

use vstd::prelude::*;

verus! {

/// Every element is smaller than each element behind it.
pub open spec fn ascending(s: Seq<i64>) -> bool {
    forall|i: int, j: int| 0 <= i < j < s.len() ==> s[i] < s[j]
}

/// Every element is larger than each element behind it.
pub open spec fn descending(s: Seq<i64>) -> bool {
    forall|i: int, j: int| 0 <= i < j < s.len() ==> s[i] > s[j]
}

/// No element is smaller than an element behind it: the largest come first
/// and equal elements stand side by side.
pub open spec fn non_increasing(s: Seq<i64>) -> bool {
    forall|i: int, j: int| 0 <= i < j < s.len() ==> s[i] >= s[j]
}

/// `s` holds exactly the members of `set`, each once, smallest first.
pub open spec fn lists_ascending(s: Seq<i64>, set: Set<i64>) -> bool {
    &&& ascending(s)
    &&& forall|v: i64| s.contains(v) <==> set.contains(v)
}

/// The members of a finite `set`, each once, smallest first.
///
/// [`lemma_ascending_list`] shows that such a sequence exists and
/// [`lemma_ascending_unique`] that there is only one.
pub open spec fn ascending_list(set: Set<i64>) -> Seq<i64> {
    choose|s: Seq<i64>| lists_ascending(s, set)
}

/// The members of a finite `set`, each once, largest first.
pub open spec fn descending_list(set: Set<i64>) -> Seq<i64> {
    ascending_list(set).reverse()
}

/// Two ascending sequences with the same members are the same sequence.
pub proof fn lemma_ascending_unique(a: Seq<i64>, b: Seq<i64>)
    requires
        ascending(a),
        ascending(b),
        forall|v: i64| a.contains(v) <==> b.contains(v),
    ensures
        a == b,
    decreases a.len(),
{
    if a.len() == 0 {
        if b.len() > 0 {
            assert(b.contains(b[0]));
            assert(a.contains(b[0]));
        }
        assert(a =~= b);
    } else {
        assert(a.contains(a.last()));
        assert(b.contains(a.last()));
        assert(b.len() > 0);
        assert(b.contains(b.last()));
        assert(a.contains(b.last()));
        let i = choose|i: int| 0 <= i < a.len() && a[i] == b.last();
        let j = choose|j: int| 0 <= j < b.len() && b[j] == a.last();
        assert(a.last() == b.last()) by {
            if i < a.len() - 1 {
                assert(a[i] < a[a.len() - 1]);
            }
            if j < b.len() - 1 {
                assert(b[j] < b[b.len() - 1]);
            }
        }
        let a0 = a.drop_last();
        let b0 = b.drop_last();
        assert forall|v: i64| a0.contains(v) <==> b0.contains(v) by {
            if a0.contains(v) {
                let k = choose|k: int| 0 <= k < a0.len() && a0[k] == v;
                assert(a[k] < a[a.len() - 1]);
                assert(a.contains(a[k]));
                let m = choose|m: int| 0 <= m < b.len() && b[m] == v;
                assert(b0[m] == v);
            }
            if b0.contains(v) {
                let k = choose|k: int| 0 <= k < b0.len() && b0[k] == v;
                assert(b[k] < b[b.len() - 1]);
                assert(b.contains(b[k]));
                let m = choose|m: int| 0 <= m < a.len() && a[m] == v;
                assert(a0[m] == v);
            }
        }
        lemma_ascending_unique(a0, b0);
        assert(a =~= a0.push(a.last()));
        assert(b =~= b0.push(b.last()));
    }
}

/// An ascending sequence can take one more member and stay ascending.
proof fn lemma_ascending_with(s: Seq<i64>, v: i64) -> (t: Seq<i64>)
    requires
        ascending(s),
    ensures
        ascending(t),
        forall|x: i64| t.contains(x) <==> (s.contains(x) || x == v),
    decreases s.len(),
{
    if s.len() == 0 {
        let t = seq![v];
        assert(t[0] == v);
        t
    } else if s.last() < v {
        let t = s.push(v);
        assert forall|x: i64| t.contains(x) <==> (s.contains(x) || x == v) by {
            if s.contains(x) {
                let k = choose|k: int| 0 <= k < s.len() && s[k] == x;
                assert(t[k] == x);
            }
            if x == v {
                assert(t[s.len() as int] == v);
            }
        }
        assert forall|i: int, j: int| 0 <= i < j < t.len() implies t[i] < t[j] by {
            if j == s.len() {
                if i < s.len() - 1 {
                    assert(s[i] < s[s.len() - 1]);
                }
            }
        }
        t
    } else if s.last() == v {
        assert(s.contains(s.last()));
        s
    } else {
        let s0 = s.drop_last();
        let t0 = lemma_ascending_with(s0, v);
        let t = t0.push(s.last());
        assert forall|i: int, j: int| 0 <= i < j < t.len() implies t[i] < t[j] by {
            if j == t0.len() {
                assert(t0.contains(t0[i]));
                if s0.contains(t0[i]) {
                    let k = choose|k: int| 0 <= k < s0.len() && s0[k] == t0[i];
                    assert(s[k] < s[s.len() - 1]);
                }
            }
        }
        assert forall|x: i64| t.contains(x) <==> (s.contains(x) || x == v) by {
            if t.contains(x) {
                let k = choose|k: int| 0 <= k < t.len() && t[k] == x;
                if k < t0.len() {
                    assert(t0.contains(t0[k]));
                    if s0.contains(x) {
                        let m = choose|m: int| 0 <= m < s0.len() && s0[m] == x;
                        assert(s[m] == x);
                    }
                } else {
                    assert(s[s.len() - 1] == x);
                }
            }
            if s.contains(x) {
                let k = choose|k: int| 0 <= k < s.len() && s[k] == x;
                if k < s0.len() {
                    assert(s0[k] == x);
                    assert(s0.contains(x));
                    assert(t0.contains(x));
                    let m = choose|m: int| 0 <= m < t0.len() && t0[m] == x;
                    assert(t[m] == x);
                } else {
                    assert(t[t0.len() as int] == x);
                }
            }
            if x == v {
                assert(t0.contains(v));
                let m = choose|m: int| 0 <= m < t0.len() && t0[m] == v;
                assert(t[m] == x);
            }
        }
        t
    }
}

/// The members of any sequence can be listed in ascending order.
pub proof fn lemma_ascending_list_of(s: Seq<i64>)
    ensures
        lists_ascending(ascending_list(s.to_set()), s.to_set()),
    decreases s.len(),
{
    if s.len() == 0 {
        let t = Seq::<i64>::empty();
        assert(lists_ascending(t, s.to_set()));
    } else {
        let s0 = s.drop_last();
        lemma_ascending_list_of(s0);
        let t0 = ascending_list(s0.to_set());
        let t = lemma_ascending_with(t0, s.last());
        assert forall|x: i64| t.contains(x) <==> s.to_set().contains(x) by {
            if s.contains(x) {
                let k = choose|k: int| 0 <= k < s.len() && s[k] == x;
                if k < s0.len() {
                    assert(s0[k] == x);
                    assert(s0.contains(x));
                }
            }
            if s0.contains(x) {
                let k = choose|k: int| 0 <= k < s0.len() && s0[k] == x;
                assert(s[k] == x);
            }
            assert(s[s.len() - 1] == s.last());
        }
        assert(lists_ascending(t, s.to_set()));
    }
}

/// The ascending list of a finite set is ascending and holds exactly the
/// set's members.
pub proof fn lemma_ascending_list(set: Set<i64>)
    requires
        set.finite(),
    ensures
        ascending(ascending_list(set)),
        forall|v: i64| ascending_list(set).contains(v) <==> set.contains(v),
        ascending_list(set).to_set() == set,
        ascending_list(set).len() == set.len(),
{
    set.lemma_to_seq_to_set_id();
    lemma_ascending_list_of(set.to_seq());
    let t = ascending_list(set);
    assert(t.to_set() =~= set);
    assert(t.no_duplicates()) by {
        assert forall|i: int, j: int| 0 <= i < t.len() && 0 <= j < t.len() && i != j implies t[i]
            != t[j] by {
            if i < j {
                assert(t[i] < t[j]);
            } else {
                assert(t[j] < t[i]);
            }
        }
    }
    t.unique_seq_to_set();
}

/// The descending list of a finite set is descending and holds exactly the
/// set's members.
pub proof fn lemma_descending_list(set: Set<i64>)
    requires
        set.finite(),
    ensures
        descending(descending_list(set)),
        forall|v: i64| descending_list(set).contains(v) <==> set.contains(v),
        descending_list(set).len() == set.len(),
{
    lemma_ascending_list(set);
    let a = ascending_list(set);
    let d = descending_list(set);
    assert forall|v: i64| d.contains(v) <==> set.contains(v) by {
        if d.contains(v) {
            let k = choose|k: int| 0 <= k < d.len() && d[k] == v;
            assert(a[a.len() - 1 - k] == v);
            assert(a.contains(v));
        }
        if set.contains(v) {
            assert(a.contains(v));
            let k = choose|k: int| 0 <= k < a.len() && a[k] == v;
            assert(d[a.len() - 1 - k] == v);
        }
    }
}

/// Sorts `values` into ascending order and drops repeated values.
pub fn sorted_versions(values: &Vec<i64>) -> (out: Vec<i64>)
    ensures
        out@ == ascending_list(values@.to_set()),
        ascending(out@),
        forall|v: i64| out@.contains(v) <==> values@.contains(v),
{
    let mut out: Vec<i64> = Vec::new();
    let mut i: usize = 0;
    while i < values.len()
        invariant
            i <= values.len(),
            ascending(out@),
            forall|v: i64| out@.contains(v) <==> values@.take(i as int).contains(v),
        decreases values.len() - i,
    {
        let v: i64 = values[i];
        let mut k: usize = 0;
        while k < out.len() && out[k] < v
            invariant
                k <= out.len(),
                ascending(out@),
                forall|m: int| 0 <= m < k ==> out@[m] < v,
            decreases out.len() - k,
        {
            k += 1;
        }
        let ghost before = out@;
        let ghost seen = values@.take(i as int);
        let ghost seen_next = values@.take(i + 1);
        assert(seen_next =~= seen.push(v));
        if k < out.len() && out[k] == v {
            assert(before.contains(v));
            assert forall|x: i64| out@.contains(x) <==> seen_next.contains(x) by {
                if seen_next.contains(x) {
                    let m = choose|m: int| 0 <= m < seen_next.len() && seen_next[m] == x;
                    if m < seen.len() {
                        assert(seen[m] == x);
                        assert(seen.contains(x));
                    }
                }
                if seen.contains(x) {
                    let m = choose|m: int| 0 <= m < seen.len() && seen[m] == x;
                    assert(seen_next[m] == x);
                }
            }
        } else {
            out.insert(k, v);
            assert forall|a: int, b: int| 0 <= a < b < out@.len() implies out@[a] < out@[b] by {
                if b < k {
                    assert(before[a] < before[b]);
                } else if b == k {
                } else if a < k {
                    assert(before[k as int] > v);
                    if b - 1 > k {
                        assert(before[k as int] < before[b - 1]);
                    }
                } else if a == k {
                    if b - 1 > k {
                        assert(before[k as int] < before[b - 1]);
                    }
                } else {
                    assert(before[a - 1] < before[b - 1]);
                }
            }
            assert forall|x: i64| out@.contains(x) <==> seen_next.contains(x) by {
                if out@.contains(x) {
                    let m = choose|m: int| 0 <= m < out@.len() && out@[m] == x;
                    if m < k {
                        assert(before[m] == x);
                        assert(before.contains(x));
                    } else if m == k {
                        assert(seen_next[i as int] == x);
                    } else {
                        assert(before[m - 1] == x);
                        assert(before.contains(x));
                    }
                    if before.contains(x) {
                        assert(seen.contains(x));
                        let n = choose|n: int| 0 <= n < seen.len() && seen[n] == x;
                        assert(seen_next[n] == x);
                    }
                }
                if seen_next.contains(x) {
                    let n = choose|n: int| 0 <= n < seen_next.len() && seen_next[n] == x;
                    if n < seen.len() {
                        assert(seen[n] == x);
                        assert(seen.contains(x));
                        assert(before.contains(x));
                        let m = choose|m: int| 0 <= m < before.len() && before[m] == x;
                        if m < k {
                            assert(out@[m] == x);
                        } else {
                            assert(out@[m + 1] == x);
                        }
                    } else {
                        assert(out@[k as int] == x);
                    }
                }
            }
        }
        i += 1;
    }
    proof {
        assert(values@.take(i as int) =~= values@);
        lemma_ascending_list_of(values@);
        lemma_ascending_unique(out@, ascending_list(values@.to_set()));
    }
    out
}

/// Two descending sequences with the same members are the same sequence.
pub proof fn lemma_descending_unique(a: Seq<i64>, b: Seq<i64>)
    requires
        descending(a),
        descending(b),
        forall|v: i64| a.contains(v) <==> b.contains(v),
    ensures
        a == b,
{
    let ar = a.reverse();
    let br = b.reverse();
    assert forall|v: i64| ar.contains(v) <==> br.contains(v) by {
        if ar.contains(v) {
            let k = choose|k: int| 0 <= k < ar.len() && ar[k] == v;
            assert(a[a.len() - 1 - k] == v);
            assert(a.contains(v));
            let m = choose|m: int| 0 <= m < b.len() && b[m] == v;
            assert(br[b.len() - 1 - m] == v);
        }
        if br.contains(v) {
            let k = choose|k: int| 0 <= k < br.len() && br[k] == v;
            assert(b[b.len() - 1 - k] == v);
            assert(b.contains(v));
            let m = choose|m: int| 0 <= m < a.len() && a[m] == v;
            assert(ar[a.len() - 1 - m] == v);
        }
    }
    assert(ascending(ar)) by {
        assert forall|i: int, j: int| 0 <= i < j < ar.len() implies ar[i] < ar[j] by {
            assert(a[a.len() - 1 - j] > a[a.len() - 1 - i]);
        }
    }
    assert(ascending(br)) by {
        assert forall|i: int, j: int| 0 <= i < j < br.len() implies br[i] < br[j] by {
            assert(b[b.len() - 1 - j] > b[b.len() - 1 - i]);
        }
    }
    lemma_ascending_unique(ar, br);
    assert(a =~= b) by {
        assert(a.len() == ar.len() && b.len() == br.len());
        assert forall|i: int| 0 <= i < a.len() implies a[i] == b[i] by {
            assert(ar[a.len() - 1 - i] == a[i]);
            assert(br[b.len() - 1 - i] == b[i]);
        }
    }
}

/// Two non-increasing sequences that hold the same values equally often are
/// the same sequence.
pub proof fn lemma_non_increasing_unique(a: Seq<i64>, b: Seq<i64>)
    requires
        non_increasing(a),
        non_increasing(b),
        a.to_multiset() == b.to_multiset(),
    ensures
        a == b,
    decreases a.len(),
{
    a.to_multiset_ensures();
    b.to_multiset_ensures();
    assert(a.len() == b.len());
    if a.len() == 0 {
        assert(a =~= b);
    } else {
        let n = a.len() as int;
        assert(a.contains(a[n - 1]));
        assert(b.to_multiset().count(a[n - 1]) > 0);
        assert(b.contains(a[n - 1]));
        let j = choose|j: int| 0 <= j < b.len() && b[j] == a[n - 1];
        assert(b.contains(b[n - 1]));
        assert(a.to_multiset().count(b[n - 1]) > 0);
        assert(a.contains(b[n - 1]));
        let i = choose|i: int| 0 <= i < a.len() && a[i] == b[n - 1];
        assert(a[n - 1] == b[n - 1]) by {
            if j < n - 1 {
                assert(b[j] >= b[n - 1]);
            }
            if i < n - 1 {
                assert(a[i] >= a[n - 1]);
            }
        }
        let a0 = a.drop_last();
        let b0 = b.drop_last();
        assert(a0 =~= a.remove(n - 1));
        assert(b0 =~= b.remove(n - 1));
        assert(a0.to_multiset() == b0.to_multiset());
        lemma_non_increasing_unique(a0, b0);
        assert(a =~= a0.push(a[n - 1]));
        assert(b =~= b0.push(b[n - 1]));
    }
}

/// Sorts `values` largest first and keeps every value as often as it
/// occurs.
pub fn sorted_rows(values: &Vec<i64>) -> (out: Vec<i64>)
    ensures
        out@.to_multiset() == values@.to_multiset(),
        non_increasing(out@),
{
    let mut out: Vec<i64> = Vec::new();
    let mut i: usize = 0;
    assert(values@.take(0) =~= out@);
    while i < values.len()
        invariant
            i <= values.len(),
            non_increasing(out@),
            out@.to_multiset() == values@.take(i as int).to_multiset(),
        decreases values.len() - i,
    {
        let v: i64 = values[i];
        let mut k: usize = 0;
        while k < out.len() && out[k] >= v
            invariant
                k <= out.len(),
                forall|m: int| 0 <= m < k ==> out@[m] >= v,
            decreases out.len() - k,
        {
            k += 1;
        }
        let ghost before = out@;
        out.insert(k, v);
        proof {
            vstd::seq_lib::to_multiset_insert(before, k as int, v);
            vstd::seq_lib::to_multiset_build(values@.take(i as int), v);
            assert(values@.take(i + 1) =~= values@.take(i as int).push(v));
            assert forall|a: int, b: int| 0 <= a < b < out@.len() implies out@[a] >= out@[b] by {
                if b < k {
                    assert(before[a] >= before[b]);
                } else if b == k {
                } else if a < k {
                    assert(before[a] >= before[b - 1]);
                } else if a == k {
                    if b - 1 > k {
                        assert(before[k as int] >= before[b - 1]);
                    }
                } else {
                    assert(before[a - 1] >= before[b - 1]);
                }
            }
        }
        i += 1;
    }
    assert(values@.take(i as int) =~= values@);
    out
}

/// The values of `ordered`, which is sorted largest first, each once.
pub(crate) fn without_repeats(ordered: &Vec<i64>) -> (out: Vec<i64>)
    requires
        non_increasing(ordered@),
    ensures
        out@ == descending_list(ordered@.to_set()),
        descending(out@),
        forall|v: i64| out@.contains(v) <==> ordered@.contains(v),
{
    let mut out: Vec<i64> = Vec::new();
    let mut i: usize = 0;
    while i < ordered.len()
        invariant
            i <= ordered.len(),
            non_increasing(ordered@),
            descending(out@),
            forall|v: i64| out@.contains(v) <==> ordered@.take(i as int).contains(v),
            i == 0 ==> out@.len() == 0,
            i > 0 ==> out@.len() > 0 && out@[out@.len() - 1] == ordered@[i - 1],
        decreases ordered.len() - i,
    {
        let v: i64 = ordered[i];
        let ghost before = out@;
        let ghost seen = ordered@.take(i as int);
        let ghost seen_next = ordered@.take(i + 1);
        assert(seen_next =~= seen.push(v));
        if out.len() == 0 || out[out.len() - 1] != v {
            out.push(v);
            proof {
                if i > 0 {
                    assert(ordered@[i - 1] >= ordered@[i as int]);
                }
                assert forall|a: int, b: int| 0 <= a < b < out@.len() implies out@[a]
                    > out@[b] by {
                    if b < before.len() {
                        assert(before[a] > before[b]);
                    } else if a < before.len() - 1 {
                        assert(before[a] > before[before.len() - 1]);
                    }
                }
            }
        } else {
            assert(before.contains(v));
        }
        proof {
            assert forall|x: i64| out@.contains(x) <==> seen_next.contains(x) by {
                if out@.contains(x) {
                    let m = choose|m: int| 0 <= m < out@.len() && out@[m] == x;
                    if m < before.len() {
                        assert(before[m] == x);
                        assert(before.contains(x));
                        let n = choose|n: int| 0 <= n < seen.len() && seen[n] == x;
                        assert(seen_next[n] == x);
                    } else {
                        assert(seen_next[i as int] == x);
                    }
                }
                if seen_next.contains(x) {
                    let n = choose|n: int| 0 <= n < seen_next.len() && seen_next[n] == x;
                    if n < seen.len() {
                        assert(seen[n] == x);
                        assert(seen.contains(x));
                        assert(before.contains(x));
                        let m = choose|m: int| 0 <= m < before.len() && before[m] == x;
                        assert(out@[m] == x);
                    } else {
                        if out@.len() > before.len() {
                            assert(out@[before.len() as int] == x);
                        } else {
                            assert(before.contains(x));
                        }
                    }
                }
            }
        }
        i += 1;
    }
    proof {
        assert(ordered@.take(i as int) =~= ordered@);
        vstd::seq_lib::seq_to_set_is_finite(ordered@);
        lemma_descending_list(ordered@.to_set());
        assert forall|v: i64| out@.contains(v) <==> descending_list(
            ordered@.to_set(),
        ).contains(v) by {
            assert(ordered@.to_set().contains(v) <==> ordered@.contains(v));
        }
        lemma_descending_unique(out@, descending_list(ordered@.to_set()));
    }
    out
}

/// The elements of `values`, last first.
pub fn reversed(values: &Vec<i64>) -> (out: Vec<i64>)
    ensures
        out@ == values@.reverse(),
{
    let mut out: Vec<i64> = Vec::new();
    let mut i: usize = values.len();
    while i > 0
        invariant
            i <= values.len(),
            out@.len() == values.len() - i,
            forall|k: int| 0 <= k < out@.len() ==> out@[k] == values@[values.len() - 1 - k],
        decreases i,
    {
        i -= 1;
        out.push(values[i]);
    }
    assert(out@ =~= values@.reverse());
    out
}

} // verus!
