//! What a run of the cleaner works out before anything is deleted, and what
//! it leaves behind for the operator.

use vstd::prelude::*;
use vstd::string::StringExecFns;

use crate::clean::ls::Snapshot;
use crate::clean::{decide, decision};
use crate::config::{copy_rules, tiers, PmbsConfigFile};
use crate::text::{decimal_digits, decimal_text, texts};

verus! {

/// The record of one run of the cleaner.
#[derive(Debug, Clone)]
pub struct CleanLog {
    /// When the decision was made, in seconds since the epoch.
    pub t: u64,
    /// The configuration that the decision was made under.
    pub config: PmbsConfigFile,
    /// The relative paths of the snapshots kept.
    pub keep: Vec<String>,
    /// The relative paths of the snapshots cleaned.
    pub clean: Vec<String>,
}

/// The relative paths of the snapshots of `s`, in order.
pub open spec fn relative_paths(s: Seq<Snapshot>) -> Seq<Seq<char>> {
    s.map_values(|x: Snapshot| x.path@)
}

/// The paths in the filesystem of the snapshots of `s`, in order.
pub open spec fn full_paths(s: Seq<Snapshot>) -> Seq<Seq<char>> {
    s.map_values(|x: Snapshot| x.p@)
}

/// The name of the file that holds the record of a run at the second `t`
/// under the configuration file named `config`.
pub open spec fn log_name(t: nat, config: Seq<char>) -> Seq<char> {
    seq!['c', 'l', 'e', 'a', 'n', '-'] + decimal_digits(t) + seq!['-'] + config + seq![
        '.',
        'l',
        'o',
        'g',
        '.',
        'j',
        's',
        'o',
        'n',
    ]
}

/// The relative paths of the snapshots, in order.
pub fn snapshot_paths(list: &Vec<Snapshot>) -> (r: Vec<String>)
    ensures
        texts(r@) == relative_paths(list@),
{
    let mut r: Vec<String> = Vec::new();
    let mut i: usize = 0;
    while i < list.len()
        invariant
            i <= list@.len(),
            r@.len() == i,
            forall|k: int| 0 <= k < i ==> (#[trigger] r@[k])@ == list@[k].path@,
        decreases list@.len() - i,
    {
        r.push(list[i].path.clone());
        i = i + 1;
    }
    proof {
        assert(texts(r@) =~= relative_paths(list@));
    }
    r
}

/// The paths of the snapshots in the filesystem, in order: what is handed on
/// for deletion.
pub fn snapshot_full_paths(list: &Vec<Snapshot>) -> (r: Vec<String>)
    ensures
        texts(r@) == full_paths(list@),
{
    let mut r: Vec<String> = Vec::new();
    let mut i: usize = 0;
    while i < list.len()
        invariant
            i <= list@.len(),
            r@.len() == i,
            forall|k: int| 0 <= k < i ==> (#[trigger] r@[k])@ == list@[k].p@,
        decreases list@.len() - i,
    {
        r.push(list[i].p.clone());
        i = i + 1;
    }
    proof {
        assert(texts(r@) =~= full_paths(list@));
    }
    r
}

impl CleanLog {
    /// The record of a decision made at the second `t` under `config`, with
    /// every snapshot kept and every snapshot cleaned.
    pub fn new(t: u64, config: PmbsConfigFile, keep: &Vec<Snapshot>, clean: &Vec<Snapshot>) -> (r:
        Self)
        ensures
            r.t == t,
            r.config == config,
            texts(r.keep@) == relative_paths(keep@),
            texts(r.clean@) == relative_paths(clean@),
    {
        Self { t, config, keep: snapshot_paths(keep), clean: snapshot_paths(clean) }
    }

    /// The name of the file that the record is written to.
    pub fn file_name(&self) -> (r: String)
        ensures
            r@ == log_name(self.t as nat, self.config.path@),
    {
        let mut r = String::from_str("clean-");
        r.append(decimal_text(self.t).as_str());
        r.append("-");
        r.append(self.config.path.as_str());
        r.append(".log.json");
        proof {
            reveal_strlit("clean-");
            reveal_strlit("-");
            reveal_strlit(".log.json");
            assert("clean-"@ =~= seq!['c', 'l', 'e', 'a', 'n', '-']);
            assert("-"@ =~= seq!['-']);
            assert(".log.json"@ =~= seq!['.', 'l', 'o', 'g', '.', 'j', 's', 'o', 'n']);
        }
        r
    }
}

/// Decides, under the rules of `config`, which of the snapshots of its volume
/// to keep and which to clean. Returns the two lists as `decide` does.
pub fn get_clean(config: &PmbsConfigFile, snapshot: Vec<Snapshot>) -> (r: (
    Vec<Snapshot>,
    Vec<Snapshot>,
))
    ensures
        (r.0@, r.1@) == decision(tiers(config.config.keep@), snapshot@),
        r.0@.len() + r.1@.len() == snapshot@.len(),
        r.0@.to_multiset().add(r.1@.to_multiset()) == snapshot@.to_multiset(),
{
    decide(copy_rules(&config.config.keep), snapshot)
}

} // verus!
