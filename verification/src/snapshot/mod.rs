//! Taking a snapshot: what it is called, where it goes, and what to look at
//! afterwards.

use vstd::prelude::*;
use vstd::string::StringExecFns;

use crate::clean::ls::Snapshot;
use crate::clean::newest_time;
use crate::config::ConfigEnv;
use crate::text::{
    catalog_segment, decimal_digits, decimal_text, decimal_value, is_snapshot_path,
    is_snapshot_path_at, is_timestamp_name, is_year_name, lemma_decimal_digits,
    lemma_decimal_digits_len, ten_to, texts,
};

pub mod t;

pub use t::{
    format_t, get_t, get_year, is_year_of, year_of, DIR_PMBS, LAST_SECOND, SYMLINK_LATEST,
};

verus! {

/// Where a snapshot goes and how it is taken. Each path is given by its
/// parts, the volume first.
#[derive(Debug, Clone)]
pub struct SnapshotPlan {
    /// When the snapshot is taken, in seconds since the epoch.
    pub t: u64,
    /// The year that `t` falls in.
    pub year: i32,
    /// The year directory, which has to be there before the snapshot is
    /// taken.
    pub year_dir: Vec<String>,
    /// The snapshot.
    pub to: Vec<String>,
    /// The command that takes the snapshot, without its last argument, which
    /// is the path of the snapshot.
    pub command: Vec<String>,
    /// The marker of the latest snapshot.
    pub latest: Vec<String>,
    /// The place where the new marker is written before it takes the place
    /// of the old one, so that a marker is there at every moment.
    pub latest_tmp: Vec<String>,
    /// What the new marker points at: year and timestamp, without the
    /// volume.
    pub link_to: Vec<String>,
}

/// The name under which the marker for the snapshot named `timestamp` is
/// written first.
pub open spec fn marker_tmp_name(timestamp: Seq<char>) -> Seq<char> {
    SYMLINK_LATEST@ + seq!['.'] + timestamp
}

/// The command that takes a read-only snapshot of `subvol` with the program
/// `btrfs`, without the path of the snapshot.
pub open spec fn snapshot_command(btrfs: Seq<char>, subvol: Seq<char>) -> Seq<Seq<char>> {
    seq![
        btrfs,
        seq!['s', 'u', 'b', 'v', 'o', 'l'],
        seq!['s', 'n', 'a', 'p', 's', 'h', 'o', 't'],
        seq!['-', 'r'],
        subvol,
    ]
}

/// `plan` is the plan for a snapshot of `subvol` at the second `t`.
pub open spec fn is_plan_for(
    plan: SnapshotPlan,
    btrfs: Seq<char>,
    subvol: Seq<char>,
    t: u64,
) -> bool {
    let year = decimal_digits(plan.year as nat);
    let timestamp = decimal_digits(t as nat);
    &&& plan.t == t
    &&& is_year_of(t as int, plan.year as int)
    &&& texts(plan.year_dir@) == seq![subvol, DIR_PMBS@, year]
    &&& texts(plan.to@) == seq![subvol, DIR_PMBS@, year, timestamp]
    &&& texts(plan.command@) == snapshot_command(btrfs, subvol)
    &&& texts(plan.latest@) == seq![subvol, DIR_PMBS@, SYMLINK_LATEST@]
    &&& texts(plan.latest_tmp@) == seq![subvol, DIR_PMBS@, marker_tmp_name(timestamp)]
    &&& texts(plan.link_to@) == seq![year, timestamp]
}

/// Plans a snapshot of the volume `subvol` at the second `t`, which becomes
/// the snapshot's name. There is no plan where `t` lies behind the last date
/// that can be held.
pub fn make_snapshot(config: &ConfigEnv, subvol: &str, t: u64) -> (r: Option<SnapshotPlan>)
    ensures
        r.is_some() <==> t <= LAST_SECOND,
        r matches Some(plan) ==> is_plan_for(plan, config.bin_btrfs@, subvol@, t),
{
    let year = match year_of(t) {
        Some(year) => year,
        None => {
            return None;
        },
    };
    proof {
        t::lemma_year_is_four_digits(t as int, year as int);
    }
    let year_name = decimal_text(year as u64);
    let name = decimal_text(t);
    let mut tmp_name = String::from_str(SYMLINK_LATEST);
    tmp_name.append(".");
    tmp_name.append(name.as_str());
    proof {
        reveal_strlit(".");
        assert("."@ =~= seq!['.']);
    }

    let mut year_dir: Vec<String> = Vec::new();
    year_dir.push(String::from_str(subvol));
    year_dir.push(String::from_str(DIR_PMBS));
    year_dir.push(year_name.clone());

    let mut to: Vec<String> = Vec::new();
    to.push(String::from_str(subvol));
    to.push(String::from_str(DIR_PMBS));
    to.push(year_name.clone());
    to.push(name.clone());

    let mut command: Vec<String> = Vec::new();
    command.push(config.bin_btrfs.clone());
    command.push(String::from_str("subvol"));
    command.push(String::from_str("snapshot"));
    command.push(String::from_str("-r"));
    command.push(String::from_str(subvol));

    let mut latest: Vec<String> = Vec::new();
    latest.push(String::from_str(subvol));
    latest.push(String::from_str(DIR_PMBS));
    latest.push(String::from_str(SYMLINK_LATEST));

    let mut latest_tmp: Vec<String> = Vec::new();
    latest_tmp.push(String::from_str(subvol));
    latest_tmp.push(String::from_str(DIR_PMBS));
    latest_tmp.push(tmp_name);

    let mut link_to: Vec<String> = Vec::new();
    link_to.push(year_name);
    link_to.push(name);

    let plan = SnapshotPlan { t, year, year_dir, to, command, latest, latest_tmp, link_to };
    proof {
        reveal_strlit("subvol");
        reveal_strlit("snapshot");
        reveal_strlit("-r");
        assert("subvol"@ =~= seq!['s', 'u', 'b', 'v', 'o', 'l']);
        assert("snapshot"@ =~= seq!['s', 'n', 'a', 'p', 's', 'h', 'o', 't']);
        assert("-r"@ =~= seq!['-', 'r']);
        let y = decimal_digits(plan.year as nat);
        let n = decimal_digits(t as nat);
        assert(texts(plan.year_dir@) =~= seq![subvol@, DIR_PMBS@, y]);
        assert(texts(plan.to@) =~= seq![subvol@, DIR_PMBS@, y, n]);
        assert(texts(plan.command@) =~= snapshot_command(config.bin_btrfs@, subvol@));
        assert(texts(plan.latest@) =~= seq![subvol@, DIR_PMBS@, SYMLINK_LATEST@]);
        assert(texts(plan.latest_tmp@) =~= seq![subvol@, DIR_PMBS@, marker_tmp_name(n)]);
        assert(texts(plan.link_to@) =~= seq![y, n]);
    }
    Some(plan)
}

/// The newest timestamp among the snapshots, which are not none.
fn newest(list: &Vec<Snapshot>) -> (r: u64)
    ensures
        r == newest_time(list@),
{
    let mut r: u64 = 0;
    let mut i: usize = 0;
    proof {
        assert(list@.take(0) =~= Seq::<Snapshot>::empty());
    }
    while i < list.len()
        invariant
            i <= list@.len(),
            r == newest_time(list@.take(i as int)),
        decreases list@.len() - i,
    {
        proof {
            assert(list@.take(i + 1).drop_last() =~= list@.take(i as int));
            assert(list@.take(i + 1).last() == list@[i as int]);
        }
        if list[i].t >= r {
            r = list[i].t;
        }
        i = i + 1;
    }
    proof {
        assert(list@.take(list@.len() as int) =~= list@);
    }
    r
}

/// Looks for a snapshot that is newer than the one just taken at `t`. Such a
/// snapshot shows that the clock has been set back. Returns its timestamp,
/// the newest of all.
pub fn newer_snapshot(list: &Vec<Snapshot>, t: u64) -> (r: Option<u64>)
    ensures
        r == if newest_time(list@) > t {
            Some(newest_time(list@) as u64)
        } else {
            None
        },
{
    let max_t = newest(list);
    if max_t > t {
        Some(max_t)
    } else {
        None
    }
}

/// The path with the given parts, each behind a slash but the first.
pub open spec fn joined(parts: Seq<Seq<char>>) -> Seq<char>
    decreases parts.len(),
{
    if parts.len() == 0 {
        seq![]
    } else if parts.len() == 1 {
        parts[0]
    } else {
        joined(parts.drop_last()) + seq!['/'] + parts.last()
    }
}

/// A snapshot taken in September 2001 or later lies where it is found again:
/// its directories are named like a year and like a timestamp, the names
/// denote the year and the second of the plan, and its path is one that may
/// be deleted.
pub proof fn planned_snapshot_is_found_again(
    plan: SnapshotPlan,
    btrfs: Seq<char>,
    subvol: Seq<char>,
    t: u64,
)
    requires
        is_plan_for(plan, btrfs, subvol, t),
        t >= 1_000_000_000,
    ensures
        is_year_name(texts(plan.to@)[2]),
        is_timestamp_name(texts(plan.to@)[3]),
        decimal_value(texts(plan.to@)[2]) == plan.year,
        decimal_value(texts(plan.to@)[3]) == t,
        is_snapshot_path(joined(texts(plan.to@))),
{
    let year = decimal_digits(plan.year as nat);
    let name = decimal_digits(t as nat);
    let to = texts(plan.to@);
    assert(to[2] == year && to[3] == name);
    t::lemma_year_is_four_digits(t as int, plan.year as int);
    lemma_decimal_digits(plan.year as nat);
    lemma_decimal_digits(t as nat);
    assert(ten_to(3) == 1000 && ten_to(9) == 1_000_000_000) by {
        reveal_with_fuel(ten_to, 10);
    }
    lemma_decimal_digits_len(plan.year as nat, 3);
    lemma_decimal_digits_len(t as nat, 9);

    let path = joined(to);
    reveal_with_fuel(joined, 4);
    reveal_strlit(".pmbs");
    assert(to.drop_last() =~= seq![subvol, DIR_PMBS@, year]);
    assert(to.drop_last().drop_last() =~= seq![subvol, DIR_PMBS@]);
    assert(to.drop_last().drop_last().drop_last() =~= seq![subvol]);
    assert(path == subvol + seq!['/'] + DIR_PMBS@ + seq!['/'] + year + seq!['/'] + name);
    let i = subvol.len() as int;
    let j = i + 7 + year.len();
    assert(path.subrange(i, i + 7) =~= catalog_segment());
    assert(path.subrange(i + 7, j) =~= year);
    assert(path.subrange(j + 1, path.len() as int) =~= name);
    assert(is_snapshot_path_at(path, i, j));
}

} // verus!
