//! Deleting snapshots, and nothing but snapshots.
//!
//! A snapshot is deleted by its path alone, and a path may as well lead to a
//! volume that is no snapshot. So a path is handed on for deletion only where
//! it ends as the path of a snapshot does.

use vstd::prelude::*;
use vstd::string::StringExecFns;

use crate::config::ConfigEnv;
use crate::text::{is_snapshot_path, texts, Pattern};

verus! {

/// The shape that a path must end in to be deleted, such as
/// `/.pmbs/2025/1756392923`.
pub fn get_re_safe_check_path() -> (r: Pattern)
    ensures
        r == Pattern::SnapshotPath,
        forall|s: Seq<char>| r.matches(s) == is_snapshot_path(s),
{
    Pattern::SnapshotPath
}

/// What is to happen next while a list of paths is deleted.
#[derive(Debug, Clone)]
pub enum RmStep {
    /// Run this command, which deletes the path at the given position, and
    /// come back with its exit code.
    Delete { index: usize, command: Vec<String> },
    /// Every path is deleted.
    Done,
    /// The path at the given position is no path of a snapshot. Nothing more
    /// is deleted.
    BadPath { index: usize },
    /// Deleting the path at the given position has failed. Nothing more is
    /// deleted.
    Failed { index: usize },
}

/// What a step is, as plain values.
pub enum RmStepView {
    Delete { index: nat, command: Seq<Seq<char>> },
    Done,
    BadPath { index: nat },
    Failed { index: nat },
}

impl View for RmStep {
    type V = RmStepView;

    open spec fn view(&self) -> RmStepView {
        match *self {
            RmStep::Delete { index, command } => RmStepView::Delete {
                index: index as nat,
                command: texts(command@),
            },
            RmStep::Done => RmStepView::Done,
            RmStep::BadPath { index } => RmStepView::BadPath { index: index as nat },
            RmStep::Failed { index } => RmStepView::Failed { index: index as nat },
        }
    }
}

/// The command that deletes the snapshot at `path` with the program `btrfs`.
pub open spec fn delete_command(btrfs: Seq<char>, path: Seq<char>) -> Seq<Seq<char>> {
    seq![btrfs, seq!['s', 'u', 'b', 'v', 'o', 'l'], seq!['d', 'e', 'l', 'e', 't', 'e'], path]
}

/// The next step after `done` paths of `list` have been deleted, the last of
/// them with the exit code `last_code`.
///
/// A failed deletion ends the batch, and so does a path that is no path of a
/// snapshot: it is not passed over.
pub open spec fn next_step(
    btrfs: Seq<char>,
    list: Seq<String>,
    done: nat,
    last_code: i32,
) -> RmStepView {
    if done > 0 && last_code != 0 {
        RmStepView::Failed { index: (done - 1) as nat }
    } else if done >= list.len() {
        RmStepView::Done
    } else if is_snapshot_path(list[done as int]@) {
        RmStepView::Delete { index: done, command: delete_command(btrfs, list[done as int]@) }
    } else {
        RmStepView::BadPath { index: done }
    }
}

/// Deletes a list of paths, one step at a time.
///
/// Call it first with `done` zero, run the command that it hands out, and
/// call it again with `done` one higher and the command's exit code as
/// `last_code`, until it hands out something else than a command. It hands
/// out a command only for a path that ends as the path of a snapshot does.
pub fn safe_rm_subvol_list(config: &ConfigEnv, list: &Vec<String>, done: usize, last_code: i32) -> (r:
    RmStep)
    ensures
        r@ == next_step(config.bin_btrfs@, list@, done as nat, last_code),
        r matches RmStep::Delete { index, .. } ==> index < list@.len() && is_snapshot_path(
            list@[index as int]@,
        ),
{
    if done > 0 && last_code != 0 {
        return RmStep::Failed { index: done - 1 };
    }
    if done >= list.len() {
        return RmStep::Done;
    }
    if !get_re_safe_check_path().is_match(list[done].as_str()) {
        return RmStep::BadPath { index: done };
    }
    let mut command: Vec<String> = Vec::new();
    command.push(config.bin_btrfs.clone());
    command.push(String::from_str("subvol"));
    command.push(String::from_str("delete"));
    command.push(list[done].clone());
    proof {
        reveal_strlit("subvol");
        reveal_strlit("delete");
        assert("subvol"@ =~= seq!['s', 'u', 'b', 'v', 'o', 'l']);
        assert("delete"@ =~= seq!['d', 'e', 'l', 'e', 't', 'e']);
        assert(texts(command@) =~= delete_command(
            config.bin_btrfs@,
            list@[done as int]@,
        ));
    }
    RmStep::Delete { index: done, command }
}

} // verus!
