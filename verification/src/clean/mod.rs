//! The retention decision: which snapshots are kept and which are cleaned.

use vstd::prelude::*;

use crate::config::{copy_rules, tiers, PmbsConfigKeep, Tier};

pub mod ls;
pub mod order;
pub mod partition;
pub mod safe_rm_subvol;

pub use ls::{get_re_t, get_re_year, ls_snapshot, Snapshot};
pub use safe_rm_subvol::{get_re_safe_check_path, safe_rm_subvol_list};
pub use order::{is_ordered, order_by_time, reversed, sort_by_time};

verus! {

/// The intervals that a list of tiers hands out, in order: each tier's
/// interval once per slot, the tiers from left to right.
pub open spec fn yields(t: Seq<Tier>) -> Seq<nat>
    decreases t.len(),
{
    if t.len() == 0 {
        Seq::empty()
    } else {
        Seq::new(t[0].slots, |k: int| t[0].interval) + yields(t.drop_first())
    }
}

/// A cursor over a list of keep rules. It hands out one interval per slot and
/// moves on to the next rule when the slots of the current one are used up.
#[derive(Debug)]
pub struct KeepIter {
    rule: Vec<PmbsConfigKeep>,
    // index of the current rule; `rule.len()` once all are used up
    i: usize,
    // slots of the current rule that are not handed out yet
    left: u32,
}

impl KeepIter {
    /// The cursor stands at a rule, or behind the last one with nothing left.
    #[verifier::type_invariant]
    closed spec fn wf(&self) -> bool {
        &&& self.i <= self.rule.len()
        &&& self.i == self.rule.len() ==> self.left == 0
        &&& self.i < self.rule.len() ==> self.left <= self.rule[self.i as int].n
    }

    /// The intervals that the cursor has still to hand out, next one first.
    pub closed spec fn pending(&self) -> Seq<nat> {
        if self.i < self.rule.len() {
            Seq::new(self.left as nat, |k: int| self.rule[self.i as int].s as nat) + yields(
                tiers(self.rule@.skip(self.i as int + 1)),
            )
        } else {
            Seq::empty()
        }
    }

    /// A cursor at the start of `rule`.
    pub fn new(rule: Vec<PmbsConfigKeep>) -> (ki: Self)
        ensures
            ki.pending() == yields(tiers(rule@)),
    {
        let left: u32 = if rule.len() > 0 {
            rule[0].n
        } else {
            0
        };
        let ki = Self { rule, i: 0, left };
        proof {
            if ki.rule.len() > 0 {
                assert(tiers(ki.rule@).drop_first() =~= tiers(ki.rule@.skip(1)));
            }
        }
        ki
    }

    /// Moves on to the next rule that has a slot left, if the current one has
    /// none. What the cursor has still to hand out does not change.
    fn check_load_next_rule(&mut self)
        ensures
            final(self).pending() == old(self).pending(),
            final(self).pending().len() > 0 ==> final(self).left > 0,
    {
        proof {
            use_type_invariant(&*self);
        }
        while self.i < self.rule.len() && self.left < 1
            invariant
                self.wf(),
                self.pending() == old(self).pending(),
            decreases self.rule.len() - self.i,
        {
            proof {
                let rest = tiers(self.rule@.skip(self.i as int + 1));
                if self.i + 1 < self.rule.len() {
                    assert(rest.drop_first() =~= tiers(self.rule@.skip(self.i as int + 2)));
                }
                assert(Seq::new(0nat, |k: int| self.rule[self.i as int].s as nat) + yields(rest)
                    =~= yields(rest));
            }
            self.i = self.i + 1;
            if self.i < self.rule.len() {
                self.left = self.rule[self.i].n;
            }
        }
    }

    /// The next interval in seconds, or `None` once every slot of every rule
    /// has been handed out.
    pub fn next(&mut self) -> (r: Option<u64>)
        ensures
            r.is_some() <==> old(self).pending().len() > 0,
            r matches Some(seconds) ==> seconds as nat == old(self).pending()[0]
                && final(self).pending() == old(self).pending().drop_first(),
            r.is_none() ==> final(self).pending() == old(self).pending(),
    {
        self.check_load_next_rule();
        proof {
            use_type_invariant(&*self);
        }
        if self.left > 0 {
            let ghost before = self.pending();
            self.left = self.left - 1;
            proof {
                assert(self.pending() =~= before.drop_first());
            }
            Some(self.rule[self.i].s)
        } else {
            None
        }
    }
}

impl Clone for KeepIter {
    /// A cursor that stands where `self` stands.
    fn clone(&self) -> (r: Self)
        ensures
            r.pending() == self.pending(),
    {
        proof {
            use_type_invariant(self);
        }
        Self { rule: copy_rules(&self.rule), i: self.i, left: self.left }
    }
}

/// Seconds before the newest snapshot within which every snapshot is kept.
pub const KEEP_LATEST: u64 = 300;

/// Seconds by which every comparison of timestamps is relaxed, so that a
/// small drift of the clock excludes nothing.
pub const KEEP_S: u64 = 10;

/// A snapshot taken at `t` lies in the window before `newest` in which
/// everything is kept.
pub open spec fn in_grace(newest: nat, t: nat) -> bool {
    t + KEEP_S > newest - KEEP_LATEST
}

/// A snapshot taken at `t` lies too close to the snapshot kept last, at
/// `last_kept`, for a tier with the given interval.
pub open spec fn shadowed(last_kept: int, interval: nat, t: nat) -> bool {
    t > last_kept - interval + KEEP_S
}

/// The newest timestamp among `s`; zero where `s` is empty.
pub open spec fn newest_time(s: Seq<Snapshot>) -> nat
    decreases s.len(),
{
    if s.len() == 0 {
        0
    } else if s.last().t >= newest_time(s.drop_last()) {
        s.last().t as nat
    } else {
        newest_time(s.drop_last())
    }
}

/// Where the walk over the snapshots stands.
pub struct Walk {
    /// Timestamp of the snapshot kept last.
    pub last_kept: int,
    /// How many slots of the tiers are used up.
    pub used: nat,
    /// The snapshots kept so far, newest first.
    pub keep: Seq<Snapshot>,
    /// The snapshots to clean so far, newest first.
    pub clean: Seq<Snapshot>,
}

/// The walk over the first `n` snapshots of `s`, which has the newest first.
/// `y` holds the intervals that the tiers hand out.
///
/// A snapshot in the grace window is kept and uses no slot. Any other is
/// cleaned once the slots are used up, or while it lies in the shadow of the
/// snapshot kept last; else it is kept and uses one slot.
pub open spec fn walk(y: Seq<nat>, s: Seq<Snapshot>, n: nat) -> Walk
    decreases n,
{
    if n == 0 || n > s.len() {
        Walk {
            last_kept: s[0].t - KEEP_LATEST,
            used: 0,
            keep: Seq::empty(),
            clean: Seq::empty(),
        }
    } else {
        let w = walk(y, s, (n - 1) as nat);
        let x = s[n - 1];
        if in_grace(s[0].t as nat, x.t as nat) {
            Walk { last_kept: x.t as int, used: w.used, keep: w.keep.push(x), clean: w.clean }
        } else if w.used < y.len() && !shadowed(w.last_kept, y[w.used as int], x.t as nat) {
            Walk { last_kept: x.t as int, used: w.used + 1, keep: w.keep.push(x), clean: w.clean }
        } else {
            Walk { last_kept: w.last_kept, used: w.used, keep: w.keep, clean: w.clean.push(x) }
        }
    }
}

/// The partition of the snapshots `s` under the tiers `t`: the snapshots to
/// keep, newest first, and those to clean, oldest first.
pub open spec fn decision(t: Seq<Tier>, s: Seq<Snapshot>) -> (Seq<Snapshot>, Seq<Snapshot>) {
    let sorted = order_by_time(s, true);
    let w = walk(yields(t), sorted, sorted.len());
    (w.keep, order_by_time(w.clean, false))
}

/// Tells whether a snapshot taken at `t` lies in the grace window before
/// `newest`, which is no older than it.
fn within_grace(newest: u64, t: u64) -> (r: bool)
    requires
        t <= newest,
    ensures
        r == in_grace(newest as nat, t as nat),
{
    newest - t < KEEP_LATEST + KEEP_S
}

/// Tells whether a snapshot taken at `t` lies in the shadow of the one kept
/// last, at `last_kept`, for the given interval.
fn in_shadow(last_kept: u64, interval: u64, t: u64) -> (r: bool)
    ensures
        r == shadowed(last_kept as int, interval as nat, t as nat),
{
    t as u128 + interval as u128 > last_kept as u128 + KEEP_S as u128
}

/// Decides which snapshots to keep and which to clean.
///
/// Returns the snapshots to keep, newest first, and those to clean, oldest
/// first. Each snapshot given is on exactly one of the two lists.
pub fn decide(rule: Vec<PmbsConfigKeep>, snapshot: Vec<Snapshot>) -> (r: (
    Vec<Snapshot>,
    Vec<Snapshot>,
))
    ensures
        (r.0@, r.1@) == decision(tiers(rule@), snapshot@),
        r.0@.to_multiset().add(r.1@.to_multiset()) == snapshot@.to_multiset(),
        r.0@.len() + r.1@.len() == snapshot@.len(),
        forall|i: int|
            0 <= i < snapshot@.len() && in_grace(
                newest_time(snapshot@),
                (#[trigger] snapshot@[i]).t as nat,
            ) ==> r.0@.contains(snapshot@[i]),
        rule@.len() == 0 ==> forall|i: int|
            0 <= i < snapshot@.len() && !in_grace(
                newest_time(snapshot@),
                (#[trigger] snapshot@[i]).t as nat,
            ) ==> r.1@.contains(snapshot@[i]),
        forall|i: int, j: int| 0 <= i < j < r.1@.len() ==> r.1@[i].t <= r.1@[j].t,
        forall|i: int, j: int| 0 <= i < j < r.0@.len() ==> r.0@[i].t >= r.0@[j].t,
{
    let ghost y = yields(tiers(rule@));
    let ghost given = snapshot@;
    let ghost given_tiers = tiers(rule@);
    let sorted = sort_by_time(snapshot, true);
    let ghost s = sorted@;
    let n = sorted.len();
    let mut ki = KeepIter::new(rule);
    let mut keep: Vec<Snapshot> = Vec::new();
    let mut clean: Vec<Snapshot> = Vec::new();
    if n > 0 {
        let newest = sorted[0].t;
        let mut stack = reversed(sorted);
        let mut interval = ki.next();
        let mut t = newest;
        while stack.len() > 0
            invariant
                s.len() == n,
                stack@.len() <= n,
                stack@ == s.reverse().take(stack@.len() as int),
                is_ordered(s, true),
                newest == s[0].t,
                keep@ == walk(y, s, (n - stack@.len()) as nat).keep,
                clean@ == walk(y, s, (n - stack@.len()) as nat).clean,
                stack@.len() < n ==> t == walk(y, s, (n - stack@.len()) as nat).last_kept,
                walk(y, s, (n - stack@.len()) as nat).used <= y.len(),
                walk(y, s, (n - stack@.len()) as nat).used < y.len() ==> interval.is_some()
                    && interval.unwrap() as nat == y[walk(
                    y,
                    s,
                    (n - stack@.len()) as nat,
                ).used as int] && ki.pending() == y.skip(
                    walk(y, s, (n - stack@.len()) as nat).used as int + 1,
                ),
                walk(y, s, (n - stack@.len()) as nat).used == y.len() ==> interval.is_none()
                    && ki.pending().len() == 0,
            decreases stack@.len(),
        {
            let ghost done = (n - stack@.len()) as nat;
            let ghost w = walk(y, s, done);
            let x = stack.pop().unwrap();
            proof {
                assert(x == s[done as int]);
                assert(stack@ =~= s.reverse().take(stack@.len() as int));
                if done > 0 {
                    assert(!order::precedes(s[done as int], s[0], true));
                }
            }
            if within_grace(newest, x.t) {
                t = x.t;
                keep.push(x);
            } else {
                match interval {
                    Some(seconds) => {
                        if in_shadow(t, seconds, x.t) {
                            clean.push(x);
                        } else {
                            t = x.t;
                            keep.push(x);
                            proof {
                                if w.used + 1 < y.len() {
                                    assert(y.skip(w.used as int + 1).drop_first() =~= y.skip(
                                        w.used as int + 2,
                                    ));
                                }
                            }
                            interval = ki.next();
                        }
                    },
                    None => {
                        clean.push(x);
                    },
                }
            }
        }
    }
    let clean = sort_by_time(clean, false);
    proof {
        partition::decision_is_a_partition(given_tiers, given);
        partition::grace_window_is_kept(given_tiers, given);
        partition::clean_is_oldest_first(given_tiers, given);
        partition::keep_is_newest_first(given_tiers, given);
        if given_tiers.len() == 0 {
            partition::no_tiers_clean_the_rest(given_tiers, given);
        }
    }
    (keep, clean)
}

} // verus!
