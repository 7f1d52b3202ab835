//! Where the program finds its files and tools.

use vstd::prelude::*;
use vstd::string::StringExecFns;

verus! {

/// The variable that names the directory of the configuration files.
pub const ENV_PMBS_DIR_ETC: &'static str = "PMBS_DIR_ETC";

/// The directory of the configuration files where the variable is not set.
pub const DEFAULT_PMBS_DIR_ETC: &'static str = "/etc/pmbs";

/// The variable that names the directory of the clean logs.
pub const ENV_PMBS_DIR_LOG: &'static str = "PMBS_DIR_LOG";

/// The directory of the clean logs where the variable is not set.
pub const DEFAULT_PMBS_DIR_LOG: &'static str = "/var/log/pmbs";

/// The variable that names the `btrfs` program.
pub const ENV_PMBS_BIN_BTRFS: &'static str = "PMBS_BIN_BTRFS";

/// The `btrfs` program where the variable is not set.
pub const DEFAULT_PMBS_BIN_BTRFS: &'static str = "btrfs";

/// The settings that come from the environment.
#[derive(Debug, Clone)]
pub struct ConfigEnv {
    /// The directory of the configuration files.
    pub dir_etc: String,
    /// The directory of the clean logs.
    pub dir_log: String,
    /// The `btrfs` program.
    pub bin_btrfs: String,
}

/// The value of a variable, or `default` where it is not set.
pub open spec fn value_or(value: Option<String>, default: &str) -> Seq<char> {
    match value {
        Some(s) => s@,
        None => default@,
    }
}

/// The value of a variable, or `default` where it is not set.
fn or_default(value: Option<String>, default: &str) -> (r: String)
    ensures
        r@ == value_or(value, default),
{
    match value {
        Some(s) => s,
        None => String::from_str(default),
    }
}

impl ConfigEnv {
    /// The settings for the given values of the three variables, each `None`
    /// where the variable is not set.
    pub fn new(dir_etc: Option<String>, dir_log: Option<String>, bin_btrfs: Option<String>) -> (c:
        Self)
        ensures
            c.dir_etc@ == value_or(dir_etc, DEFAULT_PMBS_DIR_ETC),
            c.dir_log@ == value_or(dir_log, DEFAULT_PMBS_DIR_LOG),
            c.bin_btrfs@ == value_or(bin_btrfs, DEFAULT_PMBS_BIN_BTRFS),
    {
        Self {
            dir_etc: or_default(dir_etc, DEFAULT_PMBS_DIR_ETC),
            dir_log: or_default(dir_log, DEFAULT_PMBS_DIR_LOG),
            bin_btrfs: or_default(bin_btrfs, DEFAULT_PMBS_BIN_BTRFS),
        }
    }
}

/// The settings for the given values of the three variables, each `None`
/// where the variable is not set.
pub fn get_env_config(
    dir_etc: Option<String>,
    dir_log: Option<String>,
    bin_btrfs: Option<String>,
) -> (c: ConfigEnv)
    ensures
        c.dir_etc@ == value_or(dir_etc, DEFAULT_PMBS_DIR_ETC),
        c.dir_log@ == value_or(dir_log, DEFAULT_PMBS_DIR_LOG),
        c.bin_btrfs@ == value_or(bin_btrfs, DEFAULT_PMBS_BIN_BTRFS),
{
    ConfigEnv::new(dir_etc, dir_log, bin_btrfs)
}

} // verus!
