//! What holds of every decision: nothing is lost or doubled, the grace window
//! is kept, and what is cleaned comes oldest first.

use vstd::prelude::*;

use super::ls::Snapshot;
use super::order::{is_ordered, lemma_order_by_time, order_by_time};
use super::{decision, in_grace, newest_time, walk, yields};
use crate::config::Tier;

verus! {

/// The relative paths of the snapshots of `s`, as a set.
pub open spec fn identities(s: Seq<Snapshot>) -> Set<Seq<char>> {
    Set::new(|p: Seq<char>| exists|i: int| 0 <= i < s.len() && #[trigger] s[i].path@ == p)
}

/// No two snapshots of `s` have the same relative path.
pub open spec fn distinct_identities(s: Seq<Snapshot>) -> bool {
    forall|i: int, j: int|
        0 <= i < s.len() && 0 <= j < s.len() && i != j ==> #[trigger] s[i].path@
            != #[trigger] s[j].path@
}

/// No snapshot is newer than `newest_time` says, and one is that new.
pub proof fn lemma_newest_time(s: Seq<Snapshot>)
    ensures
        forall|i: int| 0 <= i < s.len() ==> (#[trigger] s[i]).t <= newest_time(s),
        s.len() > 0 ==> exists|i: int| 0 <= i < s.len() && (#[trigger] s[i]).t == newest_time(s),
    decreases s.len(),
{
    if s.len() > 0 {
        let front = s.drop_last();
        lemma_newest_time(front);
        assert forall|i: int| 0 <= i < s.len() implies (#[trigger] s[i]).t <= newest_time(s) by {
            if i < s.len() - 1 {
                assert(s[i] == front[i]);
            }
        }
        if s.last().t >= newest_time(front) {
            assert(s[s.len() - 1].t == newest_time(s));
        } else {
            let i = choose|i: int| 0 <= i < front.len() && (#[trigger] front[i]).t == newest_time(front);
            assert(s[i] == front[i]);
        }
    }
}

/// The first of the snapshots ordered newest first is as new as any.
pub proof fn lemma_newest_stands_first(s: Seq<Snapshot>)
    requires
        s.len() > 0,
    ensures
        order_by_time(s, true)[0].t == newest_time(s),
{
    broadcast use vstd::seq_lib::to_multiset_contains;

    let sorted = order_by_time(s, true);
    lemma_order_by_time(s, true);
    lemma_newest_time(s);
    let i = choose|i: int| 0 <= i < s.len() && (#[trigger] s[i]).t == newest_time(s);
    assert(s.contains(s[i]));
    assert(sorted.to_multiset().count(s[i]) > 0);
    assert(sorted.contains(s[i]));
    let j = choose|j: int| 0 <= j < sorted.len() && sorted[j] == s[i];
    assert(sorted.contains(sorted[0]));
    assert(s.to_multiset().count(sorted[0]) > 0);
    assert(s.contains(sorted[0]));
    let k = choose|k: int| 0 <= k < s.len() && s[k] == sorted[0];
    assert(s[k].t <= newest_time(s));
    if 0 < j {
        assert(!super::order::precedes(sorted[j], sorted[0], true));
    }
}

/// After `n` steps the walk has put each of the first `n` snapshots on one of
/// its two lists, and has used no more slots than the tiers have.
pub proof fn lemma_walk_partition(y: Seq<nat>, s: Seq<Snapshot>, n: nat)
    requires
        n <= s.len(),
    ensures
        walk(y, s, n).keep.to_multiset().add(walk(y, s, n).clean.to_multiset()) == s.take(
            n as int,
        ).to_multiset(),
        walk(y, s, n).keep.len() + walk(y, s, n).clean.len() == n,
        walk(y, s, n).used <= y.len(),
    decreases n,
{
    broadcast use vstd::seq_lib::group_to_multiset_ensures;

    if n == 0 {
        assert(s.take(0) =~= Seq::<Snapshot>::empty());
        assert(walk(y, s, n).keep.to_multiset().add(walk(y, s, n).clean.to_multiset()) =~= s.take(
            0,
        ).to_multiset());
    } else {
        let m = (n - 1) as nat;
        lemma_walk_partition(y, s, m);
        let w = walk(y, s, m);
        let x = s[n - 1];
        assert(s.take(n as int) =~= s.take(m as int).push(x));
        assert(walk(y, s, n).keep.to_multiset().add(walk(y, s, n).clean.to_multiset()) =~= s.take(
            m as int,
        ).to_multiset().insert(x));
    }
}

/// After `n` steps the walk has kept every one of the first `n` snapshots
/// that lies in the grace window of the first.
pub proof fn lemma_walk_keeps_grace(y: Seq<nat>, s: Seq<Snapshot>, n: nat)
    requires
        n <= s.len(),
    ensures
        forall|i: int|
            0 <= i < n && in_grace(s[0].t as nat, (#[trigger] s[i]).t as nat) ==> walk(
                y,
                s,
                n,
            ).keep.contains(s[i]),
    decreases n,
{
    if n > 0 {
        let m = (n - 1) as nat;
        lemma_walk_keeps_grace(y, s, m);
        let w = walk(y, s, m);
        let v = walk(y, s, n);
        assert forall|i: int|
            0 <= i < n && in_grace(s[0].t as nat, (#[trigger] s[i]).t as nat) implies v.keep.contains(
            s[i],
        ) by {
            if i < m {
                let k = choose|k: int| 0 <= k < w.keep.len() && w.keep[k] == s[i];
                assert(v.keep[k] == s[i]);
            } else {
                assert(v.keep[v.keep.len() - 1] == s[i]);
            }
        }
    }
}

/// Where the tiers hand out nothing, the walk cleans every snapshot outside
/// the grace window.
pub proof fn lemma_walk_cleans_without_tiers(y: Seq<nat>, s: Seq<Snapshot>, n: nat)
    requires
        n <= s.len(),
        y.len() == 0,
    ensures
        forall|i: int|
            0 <= i < n && !in_grace(s[0].t as nat, (#[trigger] s[i]).t as nat) ==> walk(
                y,
                s,
                n,
            ).clean.contains(s[i]),
    decreases n,
{
    if n > 0 {
        let m = (n - 1) as nat;
        lemma_walk_cleans_without_tiers(y, s, m);
        let w = walk(y, s, m);
        let v = walk(y, s, n);
        assert forall|i: int|
            0 <= i < n && !in_grace(s[0].t as nat, (#[trigger] s[i]).t as nat) implies v.clean.contains(
            s[i],
        ) by {
            if i < m {
                let k = choose|k: int| 0 <= k < w.clean.len() && w.clean[k] == s[i];
                assert(v.clean[k] == s[i]);
            } else {
                assert(v.clean[v.clean.len() - 1] == s[i]);
            }
        }
    }
}

/// The walk over snapshots that have the newest first puts the newest first
/// on both of its lists.
pub proof fn lemma_walk_in_order(y: Seq<nat>, s: Seq<Snapshot>, n: nat)
    requires
        n <= s.len(),
        is_ordered(s, true),
    ensures
        is_ordered(walk(y, s, n).keep, true),
        is_ordered(walk(y, s, n).clean, true),
    decreases n,
{
    broadcast use vstd::seq_lib::to_multiset_contains;

    if n > 0 {
        let m = (n - 1) as nat;
        let w = walk(y, s, m);
        let v = walk(y, s, n);
        let x = s[n - 1];
        lemma_walk_in_order(y, s, m);
        lemma_walk_partition(y, s, m);
        assert forall|e: Snapshot| w.keep.contains(e) || w.clean.contains(e) implies e.t
            >= x.t by {
            assert(s.take(m as int).to_multiset().count(e) == w.keep.to_multiset().count(e)
                + w.clean.to_multiset().count(e));
            assert(s.take(m as int).contains(e));
            let k = choose|k: int| 0 <= k < m && s.take(m as int)[k] == e;
            assert(!super::order::precedes(s[n - 1], s[k], true));
        }
        assert forall|i: int, j: int| 0 <= i < j < v.keep.len() implies !super::order::precedes(
            v.keep[j],
            v.keep[i],
            true,
        ) by {
            if j < w.keep.len() {
                assert(!super::order::precedes(w.keep[j], w.keep[i], true));
            } else {
                assert(w.keep.contains(w.keep[i]));
            }
        }
        assert forall|i: int, j: int| 0 <= i < j < v.clean.len() implies !super::order::precedes(
            v.clean[j],
            v.clean[i],
            true,
        ) by {
            if j < w.clean.len() {
                assert(!super::order::precedes(w.clean[j], w.clean[i], true));
            } else {
                assert(w.clean.contains(w.clean[i]));
            }
        }
    }
}

/// Every snapshot is either kept or cleaned, exactly as often as it was
/// given, and nothing else is.
pub proof fn decision_is_a_partition(t: Seq<Tier>, s: Seq<Snapshot>)
    ensures
        decision(t, s).0.to_multiset().add(decision(t, s).1.to_multiset()) == s.to_multiset(),
        decision(t, s).0.len() + decision(t, s).1.len() == s.len(),
        forall|x: Snapshot|
            s.contains(x) <==> decision(t, s).0.contains(x) || decision(t, s).1.contains(x),
{
    broadcast use vstd::seq_lib::to_multiset_contains;

    let sorted = order_by_time(s, true);
    let w = walk(yields(t), sorted, sorted.len());
    lemma_order_by_time(s, true);
    lemma_walk_partition(yields(t), sorted, sorted.len());
    lemma_order_by_time(w.clean, false);
    assert(sorted.take(sorted.len() as int) =~= sorted);
    let keep = decision(t, s).0;
    let clean = decision(t, s).1;
    assert forall|x: Snapshot| s.contains(x) <==> keep.contains(x) || clean.contains(x) by {
        assert(s.to_multiset().count(x) == keep.to_multiset().count(x) + clean.to_multiset().count(
            x,
        ));
    }
}

/// Where no two snapshots share a relative path, no path is both kept and
/// cleaned, and the kept and the cleaned paths together are the paths given.
pub proof fn decision_splits_identities(t: Seq<Tier>, s: Seq<Snapshot>)
    requires
        distinct_identities(s),
    ensures
        identities(decision(t, s).0).disjoint(identities(decision(t, s).1)),
        identities(decision(t, s).0).union(identities(decision(t, s).1)) == identities(s),
{
    broadcast use vstd::seq_lib::to_multiset_contains;

    decision_is_a_partition(t, s);
    let keep = decision(t, s).0;
    let clean = decision(t, s).1;
    assert forall|p: Seq<char>| !(identities(keep).contains(p) && identities(clean).contains(p)) by {
        if identities(keep).contains(p) && identities(clean).contains(p) {
            let a = choose|a: int| 0 <= a < keep.len() && #[trigger] keep[a].path@ == p;
            let b = choose|b: int| 0 <= b < clean.len() && #[trigger] clean[b].path@ == p;
            assert(keep.contains(keep[a]));
            assert(clean.contains(clean[b]));
            assert(s.contains(keep[a]));
            assert(s.contains(clean[b]));
            let i = choose|i: int| 0 <= i < s.len() && s[i] == keep[a];
            let j = choose|j: int| 0 <= j < s.len() && s[j] == clean[b];
            assert(i == j);
            let x = s[i];
            assert(s.no_duplicates()) by {
                assert forall|u: int, v: int| 0 <= u < s.len() && 0 <= v < s.len() && u != v implies s[u]
                    != s[v] by {
                    assert(s[u].path@ != s[v].path@);
                }
            }
            s.lemma_multiset_has_no_duplicates();
            assert(s.to_multiset().count(x) > 0);
            assert(s.to_multiset().contains(x));
            assert(keep.to_multiset().count(x) > 0);
            assert(clean.to_multiset().count(x) > 0);
            assert(s.to_multiset().count(x) == keep.to_multiset().count(x)
                + clean.to_multiset().count(x));
        }
    }
    assert forall|p: Seq<char>|
        identities(keep).union(identities(clean)).contains(p) <==> identities(s).contains(p) by {
        if identities(keep).contains(p) {
            let a = choose|a: int| 0 <= a < keep.len() && #[trigger] keep[a].path@ == p;
            assert(keep.contains(keep[a]));
            assert(s.contains(keep[a]));
            let i = choose|i: int| 0 <= i < s.len() && s[i] == keep[a];
            assert(s[i].path@ == p);
        }
        if identities(clean).contains(p) {
            let b = choose|b: int| 0 <= b < clean.len() && #[trigger] clean[b].path@ == p;
            assert(clean.contains(clean[b]));
            assert(s.contains(clean[b]));
            let j = choose|j: int| 0 <= j < s.len() && s[j] == clean[b];
            assert(s[j].path@ == p);
        }
        if identities(s).contains(p) {
            let i = choose|i: int| 0 <= i < s.len() && #[trigger] s[i].path@ == p;
            assert(s.contains(s[i]));
            if keep.contains(s[i]) {
                let a = choose|a: int| 0 <= a < keep.len() && keep[a] == s[i];
                assert(keep[a].path@ == p);
            } else {
                let b = choose|b: int| 0 <= b < clean.len() && clean[b] == s[i];
                assert(clean[b].path@ == p);
            }
        }
    }
    assert(identities(keep).union(identities(clean)) =~= identities(s));
}

/// Every snapshot in the grace window of the newest one is kept, whatever the
/// tiers are.
pub proof fn grace_window_is_kept(t: Seq<Tier>, s: Seq<Snapshot>)
    ensures
        forall|i: int|
            0 <= i < s.len() && in_grace(newest_time(s), (#[trigger] s[i]).t as nat) ==> decision(
                t,
                s,
            ).0.contains(s[i]),
{
    broadcast use vstd::seq_lib::to_multiset_contains;

    if s.len() > 0 {
        let sorted = order_by_time(s, true);
        lemma_order_by_time(s, true);
        lemma_newest_stands_first(s);
        lemma_walk_keeps_grace(yields(t), sorted, sorted.len());
        assert forall|i: int|
            0 <= i < s.len() && in_grace(newest_time(s), (#[trigger] s[i]).t as nat) implies decision(
            t,
            s,
        ).0.contains(s[i]) by {
            assert(s.contains(s[i]));
            assert(sorted.to_multiset().count(s[i]) > 0);
            assert(sorted.contains(s[i]));
            let j = choose|j: int| 0 <= j < sorted.len() && sorted[j] == s[i];
            assert(in_grace(sorted[0].t as nat, sorted[j].t as nat));
        }
    }
}

/// Without tiers, every snapshot outside the grace window of the newest one
/// is cleaned.
pub proof fn no_tiers_clean_the_rest(t: Seq<Tier>, s: Seq<Snapshot>)
    requires
        yields(t).len() == 0,
    ensures
        forall|i: int|
            0 <= i < s.len() && !in_grace(newest_time(s), (#[trigger] s[i]).t as nat) ==> decision(
                t,
                s,
            ).1.contains(s[i]),
{
    broadcast use vstd::seq_lib::to_multiset_contains;

    if s.len() > 0 {
        let sorted = order_by_time(s, true);
        let w = walk(yields(t), sorted, sorted.len());
        lemma_order_by_time(s, true);
        lemma_newest_stands_first(s);
        lemma_walk_cleans_without_tiers(yields(t), sorted, sorted.len());
        lemma_order_by_time(w.clean, false);
        assert forall|i: int|
            0 <= i < s.len() && !in_grace(newest_time(s), (#[trigger] s[i]).t as nat) implies decision(
            t,
            s,
        ).1.contains(s[i]) by {
            assert(s.contains(s[i]));
            assert(sorted.to_multiset().count(s[i]) > 0);
            assert(sorted.contains(s[i]));
            let j = choose|j: int| 0 <= j < sorted.len() && sorted[j] == s[i];
            assert(!in_grace(sorted[0].t as nat, sorted[j].t as nat));
            assert(w.clean.contains(sorted[j]));
            assert(w.clean.to_multiset().count(s[i]) > 0);
        }
    }
}

/// The snapshots to clean come oldest first.
pub proof fn clean_is_oldest_first(t: Seq<Tier>, s: Seq<Snapshot>)
    ensures
        is_ordered(decision(t, s).1, false),
        forall|i: int, j: int|
            0 <= i < j < decision(t, s).1.len() ==> decision(t, s).1[i].t <= decision(t, s).1[j].t,
{
    let sorted = order_by_time(s, true);
    let w = walk(yields(t), sorted, sorted.len());
    lemma_order_by_time(w.clean, false);
    let clean = decision(t, s).1;
    assert forall|i: int, j: int| 0 <= i < j < clean.len() implies clean[i].t <= clean[j].t by {
        assert(!super::order::precedes(clean[j], clean[i], false));
    }
}

/// The snapshots to keep come newest first.
pub proof fn keep_is_newest_first(t: Seq<Tier>, s: Seq<Snapshot>)
    ensures
        is_ordered(decision(t, s).0, true),
        forall|i: int, j: int|
            0 <= i < j < decision(t, s).0.len() ==> decision(t, s).0[i].t >= decision(t, s).0[j].t,
{
    let sorted = order_by_time(s, true);
    lemma_order_by_time(s, true);
    lemma_walk_in_order(yields(t), sorted, sorted.len());
    let keep = decision(t, s).0;
    assert forall|i: int, j: int| 0 <= i < j < keep.len() implies keep[i].t >= keep[j].t by {
        assert(!super::order::precedes(keep[j], keep[i], true));
    }
}

/// No two snapshots of `s` were taken in the same second.
pub open spec fn distinct_times(s: Seq<Snapshot>) -> bool {
    forall|i: int, j: int|
        0 <= i < s.len() && 0 <= j < s.len() && i != j ==> (#[trigger] s[i]).t != (
        #[trigger] s[j]).t
}

/// Snapshots taken in different seconds keep different seconds when they are
/// put in another order.
pub proof fn lemma_distinct_times_in_any_order(a: Seq<Snapshot>, b: Seq<Snapshot>)
    requires
        distinct_times(a),
        a.to_multiset() == b.to_multiset(),
    ensures
        distinct_times(b),
{
    broadcast use vstd::seq_lib::to_multiset_contains;

    assert(a.no_duplicates());
    a.lemma_multiset_has_no_duplicates();
    b.lemma_multiset_has_no_duplicates_conv();
    assert forall|i: int, j: int| 0 <= i < b.len() && 0 <= j < b.len() && i != j implies (
    #[trigger] b[i]).t != (#[trigger] b[j]).t by {
        assert(b.contains(b[i]));
        assert(b.contains(b[j]));
        assert(a.to_multiset().count(b[i]) > 0);
        assert(a.to_multiset().count(b[j]) > 0);
        assert(a.contains(b[i]));
        assert(a.contains(b[j]));
        let p = choose|p: int| 0 <= p < a.len() && a[p] == b[i];
        let q = choose|q: int| 0 <= q < a.len() && a[q] == b[j];
        assert(b[i] != b[j]);
    }
}

/// There is one way only to put snapshots taken in different seconds in
/// order.
pub proof fn lemma_one_order(a: Seq<Snapshot>, b: Seq<Snapshot>, newest_first: bool)
    requires
        is_ordered(a, newest_first),
        is_ordered(b, newest_first),
        distinct_times(a),
        a.to_multiset() == b.to_multiset(),
    ensures
        a == b,
    decreases a.len(),
{
    broadcast use vstd::seq_lib::to_multiset_contains;

    vstd::seq_lib::to_multiset_len(a);
    vstd::seq_lib::to_multiset_len(b);
    lemma_distinct_times_in_any_order(a, b);
    if a.len() > 0 {
        assert(a.contains(a[0]));
        assert(b.to_multiset().count(a[0]) > 0);
        assert(b.contains(a[0]));
        let k = choose|k: int| 0 <= k < b.len() && b[k] == a[0];
        assert(b.contains(b[0]));
        assert(a.to_multiset().count(b[0]) > 0);
        assert(a.contains(b[0]));
        let m = choose|m: int| 0 <= m < a.len() && a[m] == b[0];
        if m > 0 {
            assert(!super::order::precedes(a[m], a[0], newest_first));
            assert(a[m].t != a[0].t);
        }
        if k > 0 {
            assert(!super::order::precedes(b[k], b[0], newest_first));
            assert(b[k].t != b[0].t);
        }
        assert(a[0] == b[0]);
        let ra = a.drop_first();
        let rb = b.drop_first();
        assert(ra =~= a.remove(0));
        assert(rb =~= b.remove(0));
        vstd::seq_lib::to_multiset_remove(a, 0);
        vstd::seq_lib::to_multiset_remove(b, 0);
        assert forall|i: int, j: int| 0 <= i < j < ra.len() implies !super::order::precedes(
            ra[j],
            ra[i],
            newest_first,
        ) by {
            assert(ra[i] == a[i + 1] && ra[j] == a[j + 1]);
        }
        assert forall|i: int, j: int| 0 <= i < j < rb.len() implies !super::order::precedes(
            rb[j],
            rb[i],
            newest_first,
        ) by {
            assert(rb[i] == b[i + 1] && rb[j] == b[j + 1]);
        }
        assert forall|i: int, j: int|
            0 <= i < ra.len() && 0 <= j < ra.len() && i != j implies (#[trigger] ra[i]).t != (
        #[trigger] ra[j]).t by {
            assert(ra[i] == a[i + 1] && ra[j] == a[j + 1]);
        }
        lemma_one_order(ra, rb, newest_first);
        assert(a =~= seq![a[0]] + ra);
        assert(b =~= seq![b[0]] + rb);
    } else {
        assert(a =~= b);
    }
}

/// The decision does not depend on the order in which the snapshots are
/// given, where no two of them were taken in the same second.
pub proof fn decision_ignores_order(t: Seq<Tier>, a: Seq<Snapshot>, b: Seq<Snapshot>)
    requires
        distinct_times(a),
        a.to_multiset() == b.to_multiset(),
    ensures
        decision(t, a) == decision(t, b),
{
    lemma_order_by_time(a, true);
    lemma_order_by_time(b, true);
    lemma_distinct_times_in_any_order(a, order_by_time(a, true));
    lemma_one_order(order_by_time(a, true), order_by_time(b, true), true);
}

/// The decision depends on nothing but the tiers and the snapshots: the same
/// input gives the same partition.
pub proof fn same_input_same_decision(
    t1: Seq<Tier>,
    s1: Seq<Snapshot>,
    t2: Seq<Tier>,
    s2: Seq<Snapshot>,
)
    requires
        t1 == t2,
        s1 == s2,
    ensures
        decision(t1, s1) == decision(t2, s2),
{
}

} // verus!
