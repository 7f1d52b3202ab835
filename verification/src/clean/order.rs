//! Snapshots in the order of their timestamps.

use vstd::prelude::*;

use super::ls::Snapshot;

verus! {

/// `a` has to stand in front of `b`: it is newer where the newest come first,
/// older where the oldest come first.
pub open spec fn precedes(a: Snapshot, b: Snapshot, newest_first: bool) -> bool {
    if newest_first {
        a.t > b.t
    } else {
        a.t < b.t
    }
}

/// No snapshot of `s` stands behind one that it has to stand in front of.
pub open spec fn is_ordered(s: Seq<Snapshot>, newest_first: bool) -> bool {
    forall|i: int, j: int| 0 <= i < j < s.len() ==> !precedes(s[j], s[i], newest_first)
}

/// Where `x` goes into the ordered sequence `s`: behind every snapshot that
/// has to stand in front of it, and in front of all others.
pub open spec fn slot(s: Seq<Snapshot>, x: Snapshot, newest_first: bool) -> int
    decreases s.len(),
{
    if s.len() == 0 || !precedes(s[0], x, newest_first) {
        0
    } else {
        1 + slot(s.drop_first(), x, newest_first)
    }
}

/// The snapshots of `s` ordered by timestamp. Snapshots with the same
/// timestamp stay in the order in which `s` has them.
pub open spec fn order_by_time(s: Seq<Snapshot>, newest_first: bool) -> Seq<Snapshot>
    decreases s.len(),
{
    if s.len() == 0 {
        s
    } else {
        let rest = order_by_time(s.drop_first(), newest_first);
        rest.insert(slot(rest, s[0], newest_first), s[0])
    }
}

/// `slot` is the one position that splits `s` into the snapshots in front of
/// `x` and the others.
pub proof fn lemma_slot(s: Seq<Snapshot>, x: Snapshot, newest_first: bool, p: int)
    requires
        0 <= p <= s.len(),
        forall|i: int| 0 <= i < p ==> precedes(#[trigger] s[i], x, newest_first),
        p < s.len() ==> !precedes(s[p], x, newest_first),
    ensures
        slot(s, x, newest_first) == p,
    decreases s.len(),
{
    if p > 0 {
        let rest = s.drop_first();
        assert forall|i: int| 0 <= i < p - 1 implies precedes(
            #[trigger] rest[i],
            x,
            newest_first,
        ) by {
            assert(rest[i] == s[i + 1]);
        }
        lemma_slot(rest, x, newest_first, p - 1);
    }
}

/// What `slot` returns lies within `s`, every snapshot in front of it
/// precedes `x`, and the one at it does not.
pub proof fn lemma_slot_splits(s: Seq<Snapshot>, x: Snapshot, newest_first: bool)
    ensures
        0 <= slot(s, x, newest_first) <= s.len(),
        forall|i: int|
            0 <= i < slot(s, x, newest_first) ==> precedes(#[trigger] s[i], x, newest_first),
        slot(s, x, newest_first) < s.len() ==> !precedes(
            s[slot(s, x, newest_first)],
            x,
            newest_first,
        ),
    decreases s.len(),
{
    if s.len() == 0 || !precedes(s[0], x, newest_first) {
    } else {
        let rest = s.drop_first();
        lemma_slot_splits(rest, x, newest_first);
        assert forall|i: int| 0 <= i < slot(s, x, newest_first) implies precedes(
            #[trigger] s[i],
            x,
            newest_first,
        ) by {
            if i > 0 {
                assert(s[i] == rest[i - 1]);
            }
        }
    }
}

/// Putting snapshots in order keeps every one of them, each as often as it
/// occurs.
pub proof fn lemma_order_by_time(s: Seq<Snapshot>, newest_first: bool)
    ensures
        order_by_time(s, newest_first).len() == s.len(),
        order_by_time(s, newest_first).to_multiset() == s.to_multiset(),
        is_ordered(order_by_time(s, newest_first), newest_first),
    decreases s.len(),
{
    broadcast use vstd::seq_lib::group_to_multiset_ensures;

    if s.len() == 0 {
    } else {
        let tail = s.drop_first();
        let rest = order_by_time(tail, newest_first);
        let x = s[0];
        let p = slot(rest, x, newest_first);
        let out = rest.insert(p, x);
        lemma_order_by_time(tail, newest_first);
        lemma_slot_splits(rest, x, newest_first);
        vstd::seq_lib::to_multiset_insert(rest, p, x);
        assert(s =~= tail.insert(0, x));
        vstd::seq_lib::to_multiset_insert(tail, 0, x);
        assert forall|i: int, j: int| 0 <= i < j < out.len() implies !precedes(
            out[j],
            out[i],
            newest_first,
        ) by {
            if j < p {
                assert(out[i] == rest[i] && out[j] == rest[j]);
            } else if j == p {
                assert(out[i] == rest[i]);
            } else if i < p {
                assert(out[i] == rest[i] && out[j] == rest[j - 1]);
                if p < j - 1 {
                    assert(!precedes(rest[j - 1], rest[p], newest_first));
                }
            } else if i == p {
                assert(out[j] == rest[j - 1]);
                if p < j - 1 {
                    assert(!precedes(rest[j - 1], rest[p], newest_first));
                }
            } else {
                assert(out[i] == rest[i - 1] && out[j] == rest[j - 1]);
            }
        }
    }
}

/// Tells whether `a` has to stand in front of `b`.
pub fn stands_before(a: &Snapshot, b: &Snapshot, newest_first: bool) -> (r: bool)
    ensures
        r == precedes(*a, *b, newest_first),
{
    if newest_first {
        a.t > b.t
    } else {
        a.t < b.t
    }
}

/// Orders snapshots by timestamp, the newest first or the oldest first.
/// Snapshots with the same timestamp stay in the order in which they came.
pub fn sort_by_time(list: Vec<Snapshot>, newest_first: bool) -> (out: Vec<Snapshot>)
    ensures
        out@ == order_by_time(list@, newest_first),
        out@.len() == list@.len(),
        out@.to_multiset() == list@.to_multiset(),
        is_ordered(out@, newest_first),
{
    let mut list = list;
    let ghost all = list@;
    let mut out: Vec<Snapshot> = Vec::new();
    proof {
        assert(all.skip(all.len() as int) =~= Seq::<Snapshot>::empty());
    }
    while list.len() > 0
        invariant
            list@.len() <= all.len(),
            list@ == all.take(list@.len() as int),
            out@ == order_by_time(all.skip(list@.len() as int), newest_first),
        decreases list@.len(),
    {
        let ghost n = list@.len() as int;
        let x = list.pop().unwrap();
        let mut p: usize = 0;
        proof {
            lemma_order_by_time(all.skip(n), newest_first);
        }
        while p < out.len() && stands_before(&out[p], &x, newest_first)
            invariant
                p <= out@.len(),
                forall|i: int| 0 <= i < p ==> precedes(#[trigger] out@[i], x, newest_first),
            decreases out@.len() - p,
        {
            p = p + 1;
        }
        proof {
            lemma_slot(out@, x, newest_first, p as int);
            assert(x == all[n - 1]);
            assert(all.skip(n - 1).drop_first() =~= all.skip(n));
            assert(all.skip(n - 1)[0] == x);
            assert(list@ =~= all.take(n - 1));
        }
        out.insert(p, x);
    }
    proof {
        assert(all.skip(0) =~= all);
        lemma_order_by_time(all, newest_first);
    }
    out
}

/// The same snapshots, the last one first.
pub fn reversed(list: Vec<Snapshot>) -> (out: Vec<Snapshot>)
    ensures
        out@ == list@.reverse(),
{
    let mut list = list;
    let ghost all = list@;
    let mut out: Vec<Snapshot> = Vec::new();
    while list.len() > 0
        invariant
            list@.len() <= all.len(),
            list@ == all.take(list@.len() as int),
            out@.len() == all.len() - list@.len(),
            forall|k: int| 0 <= k < out@.len() ==> out@[k] == all[all.len() - 1 - k],
        decreases list@.len(),
    {
        let ghost n = list@.len() as int;
        let x = list.pop().unwrap();
        out.push(x);
        proof {
            assert(list@ =~= all.take(n - 1));
        }
    }
    proof {
        assert(out@ =~= all.reverse());
    }
    out
}

} // verus!
