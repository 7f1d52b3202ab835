//! The retention configuration: its types and its validation.

use vstd::prelude::*;

use crate::text::{
    chars_of, decimal_value, is_keep_time, is_number_name, is_time_unit, number_at,
    number_name_at, texts, Pattern,
};

pub mod config_env;

pub use config_env::{get_env_config, ConfigEnv};

verus! {

/// One tier of a retention policy, as the decision engine reads it.
pub struct Tier {
    /// Least distance in seconds between two snapshots kept under this tier.
    pub interval: nat,
    /// How many kept snapshots this tier accounts for.
    pub slots: nat,
}

/// One keep rule of a configuration.
#[derive(Debug, Clone)]
pub struct PmbsConfigKeep {
    /// The interval as written: a number with the suffix `m`, `h` or `d`.
    pub time: String,
    /// How many snapshots to keep at this interval.
    pub n: u32,
    /// The interval in seconds; validation fills it in from `time`.
    pub s: u64,
}

/// What a keep rule is, as plain values.
pub struct KeepRule {
    /// The interval as written.
    pub time: Seq<char>,
    /// How many snapshots to keep at this interval.
    pub n: nat,
    /// The interval in seconds.
    pub s: nat,
}

impl KeepRule {
    /// The tier that the rule stands for once its seconds are filled in.
    pub open spec fn tier(self) -> Tier {
        Tier { interval: self.s, slots: self.n }
    }
}

impl View for PmbsConfigKeep {
    type V = KeepRule;

    open spec fn view(&self) -> KeepRule {
        KeepRule { time: self.time@, n: self.n as nat, s: self.s as nat }
    }
}

impl PmbsConfigKeep {
    /// A rule given directly by its interval in seconds and its count.
    pub fn new_sn(s: u64, n: u32) -> (r: Self)
        ensures
            r.s == s,
            r.n == n,
            r.time@ == Seq::<char>::empty(),
            r@ == (KeepRule { time: Seq::empty(), n: n as nat, s: s as nat }),
    {
        Self { time: String::new(), n, s }
    }
}

/// The tiers that a list of keep rules stands for.
pub open spec fn tiers(rule: Seq<PmbsConfigKeep>) -> Seq<Tier> {
    rule.map_values(|r: PmbsConfigKeep| r@.tier())
}

/// The version of the configuration format that this crate reads.
pub const CONFIG_FILE_VERSION: u32 = 1;

/// A rule with more slots than this is reported.
pub const BIG_COUNT: u32 = 200;

/// A rule with an interval of more seconds than this (31 days) is reported.
pub const BIG_TIME: u64 = 2_678_400;

/// A configuration with more slots in all than this is reported.
pub const BIG_TOTAL: u32 = 500;

/// What a configuration file holds.
#[derive(Debug, Clone)]
pub struct PmbsConfig {
    /// The version of the configuration format.
    pub pmbs: u32,
    /// The path of the volume to take snapshots of.
    pub subvol: String,
    /// The keep rules, the shortest interval first.
    pub keep: Vec<PmbsConfigKeep>,
}

/// A configuration together with the name of the file that it came from.
#[derive(Debug, Clone)]
pub struct PmbsConfigFile {
    /// The file's name.
    pub path: String,
    /// What the file holds.
    pub config: PmbsConfig,
}

/// Why a configuration is refused.
#[derive(Debug, Clone, Copy, PartialEq, Eq, Structural)]
pub enum ConfigError {
    /// The file is written for another version of the format.
    BadVersion,
    /// The path of the volume is empty or blank.
    EmptySubvol,
    /// The rule at this position keeps no snapshot.
    BadCount(usize),
    /// The interval of the rule at this position is not written as an
    /// interval is: a number without a leading zero, and a unit behind it.
    BadTime(usize),
    /// The interval of the rule at this position stands for more seconds
    /// than can be held.
    TimeOutOfRange(usize),
}

/// What a configuration is accepted with, but not without a word.
#[derive(Debug, Clone, Copy, PartialEq, Eq, Structural)]
pub enum ConfigWarning {
    /// There is no keep rule.
    NoRule,
    /// The rule at this position keeps very many snapshots.
    BigCount(usize),
    /// The interval of the rule at this position is very long.
    BigTime(usize),
    /// The interval of the rule at this position is no longer than that of
    /// the rule in front of it.
    NotLonger(usize),
    /// The rules keep very many snapshots in all.
    BigTotal,
}

/// The shape in which the interval of a keep rule is written, such as `20m`.
pub fn get_re_keep_time() -> (r: Pattern)
    ensures
        r == Pattern::KeepTime,
        forall|s: Seq<char>| r.matches(s) == is_keep_time(s),
{
    Pattern::KeepTime
}

/// The seconds that one unit of time has: a minute, an hour or a day.
pub open spec fn unit_seconds(unit: char) -> nat {
    if unit == 'm' {
        60
    } else if unit == 'h' {
        3600
    } else {
        86400
    }
}

/// The seconds that an interval stands for: a decimal number without a
/// leading zero, times its unit. `None` where `s` is no such text.
pub open spec fn interval_seconds(s: Seq<char>) -> Option<nat> {
    if s.len() >= 2 && is_number_name(s.drop_last(), 1) && is_time_unit(s.last()) {
        Some(decimal_value(s.drop_last()) * unit_seconds(s.last()))
    } else {
        None
    }
}

/// The seconds that an interval stands for, where they can be held.
pub open spec fn seconds_held(s: Seq<char>) -> Option<u64> {
    match interval_seconds(s) {
        Some(v) => if v <= u64::MAX {
            Some(v as u64)
        } else {
            None
        },
        None => None,
    }
}

/// An interval that stands for seconds is written like an interval.
pub proof fn lemma_interval_is_keep_time(s: Seq<char>)
    requires
        interval_seconds(s).is_some(),
    ensures
        is_keep_time(s),
{
    let digits = s.drop_last();
    assert(s[0] == digits[0]);
    assert forall|i: int| 1 <= i < s.len() - 1 implies crate::text::is_digit(#[trigger] s[i])
        || s[i] == '_' by {
        assert(s[i] == digits[i]);
    }
}

/// A rule is accepted where it keeps at least one snapshot and its interval
/// stands for seconds that can be held, and nowhere else. The interval of an
/// accepted rule is written as `get_re_keep_time` asks.
pub proof fn rule_is_accepted(r: PmbsConfigKeep, i: usize)
    ensures
        rule_error(r, i).is_none() <==> r.n >= 1 && seconds_held(r.time@).is_some(),
        rule_error(r, i).is_none() ==> is_keep_time(r.time@),
{
    if seconds_held(r.time@).is_some() {
        lemma_interval_is_keep_time(r.time@);
    }
}

/// Tells whether `time` is written as an interval is: a number without a
/// leading zero, and a unit behind it.
pub fn is_interval(time: &str) -> (b: bool)
    ensures
        b == interval_seconds(time@).is_some(),
{
    let v = chars_of(time);
    let n = v.len();
    if n < 2 {
        return false;
    }
    proof {
        assert(v@.subrange(0, n - 1) =~= time@.drop_last());
    }
    number_name_at(&v, 0, n - 1, 1) && (v[n - 1] == 'm' || v[n - 1] == 'h' || v[n - 1] == 'd')
}

/// The seconds that the interval `time` stands for, or `None` where `time`
/// is not a number with a unit behind it, or stands for more seconds than can
/// be held.
pub fn parse_time(time: &str) -> (r: Option<u64>)
    ensures
        r == seconds_held(time@),
{
    let v = chars_of(time);
    let n = v.len();
    if n < 2 {
        return None;
    }
    let ghost digits = v@.subrange(0, n - 1);
    proof {
        assert(digits =~= time@.drop_last());
    }
    if !number_name_at(&v, 0, n - 1, 1) {
        return None;
    }
    let unit: u64 = if v[n - 1] == 'm' {
        60
    } else if v[n - 1] == 'h' {
        3600
    } else if v[n - 1] == 'd' {
        86400
    } else {
        return None;
    };
    match number_at(&v, 0, n - 1) {
        Some(number) => {
            assert(number * unit == decimal_value(digits) * unit_seconds(time@.last()))
                by (nonlinear_arith)
                requires
                    number == decimal_value(digits),
                    unit == unit_seconds(time@.last()),
            ;
            if number > u64::MAX / unit {
                assert(number * unit > u64::MAX) by (nonlinear_arith)
                    requires
                        number > u64::MAX / unit,
                        unit == 60 || unit == 3600 || unit == 86400,
                ;
                None
            } else {
                assert(number * unit <= u64::MAX) by (nonlinear_arith)
                    requires
                        number <= u64::MAX / unit,
                        unit == 60 || unit == 3600 || unit == 86400,
                ;
                Some(number * unit)
            }
        },
        None => {
            assert(decimal_value(digits) * unit_seconds(time@.last()) > u64::MAX)
                by (nonlinear_arith)
                requires
                    decimal_value(digits) > u64::MAX,
                    unit_seconds(time@.last()) >= 60,
            ;
            None
        },
    }
}

/// The seconds that the interval `time` stands for.
pub fn time_to_s(time: &str) -> (s: u64)
    requires
        seconds_held(time@).is_some(),
    ensures
        Some(s) == seconds_held(time@),
        s as nat == interval_seconds(time@).unwrap(),
{
    parse_time(time).unwrap()
}

/// `c` is white space as Unicode knows it: a tab, a line feed, a vertical
/// tab, a form feed, a carriage return or a space of ASCII, the next line
/// of Latin-1, or one of the spaces and separators beyond.
pub open spec fn white_space(c: char) -> bool {
    ||| '\u{9}' <= c <= '\u{d}'
    ||| c == ' '
    ||| c == '\u{85}'
    ||| c == '\u{a0}'
    ||| c == '\u{1680}'
    ||| '\u{2000}' <= c <= '\u{200a}'
    ||| c == '\u{2028}'
    ||| c == '\u{2029}'
    ||| c == '\u{202f}'
    ||| c == '\u{205f}'
    ||| c == '\u{3000}'
}

/// Tells whether `c` is white space.
pub fn is_white_space(c: char) -> (b: bool)
    ensures
        b == white_space(c),
{
    ('\u{9}' <= c && c <= '\u{d}') || c == ' ' || c == '\u{85}' || c == '\u{a0}' || c
        == '\u{1680}' || ('\u{2000}' <= c && c <= '\u{200a}') || c == '\u{2028}' || c
        == '\u{2029}' || c == '\u{202f}' || c == '\u{205f}' || c == '\u{3000}'
}

/// `s` holds nothing but white space.
pub open spec fn is_blank(s: Seq<char>) -> bool {
    forall|i: int| 0 <= i < s.len() ==> white_space(#[trigger] s[i])
}

/// Tells whether `s` holds nothing but white space.
pub fn blank(s: &str) -> (b: bool)
    ensures
        b == is_blank(s@),
{
    let v = chars_of(s);
    let mut i: usize = 0;
    while i < v.len()
        invariant
            i <= v@.len(),
            v@ == s@,
            forall|k: int| 0 <= k < i ==> white_space(#[trigger] v@[k]),
        decreases v@.len() - i,
    {
        if !is_white_space(v[i]) {
            return false;
        }
        i = i + 1;
    }
    true
}

/// Why the rule `r` at position `i` is refused, if it is.
pub open spec fn rule_error(r: PmbsConfigKeep, i: usize) -> Option<ConfigError> {
    if r.n < 1 {
        Some(ConfigError::BadCount(i))
    } else if interval_seconds(r.time@).is_none() {
        Some(ConfigError::BadTime(i))
    } else if seconds_held(r.time@).is_none() {
        Some(ConfigError::TimeOutOfRange(i))
    } else {
        None
    }
}

/// The position of the first rule from `from` on that is refused, or the
/// number of rules where none is.
pub open spec fn rules_passed(keep: Seq<PmbsConfigKeep>, from: nat) -> nat
    decreases keep.len() - from,
{
    if from >= keep.len() {
        keep.len()
    } else if rule_error(keep[from as int], from as usize).is_some() {
        from
    } else {
        rules_passed(keep, from + 1)
    }
}

/// The rule at which `rules_passed` stops is refused, and none in front of it
/// is.
pub proof fn lemma_rules_passed(keep: Seq<PmbsConfigKeep>, from: nat)
    requires
        from <= keep.len(),
    ensures
        from <= rules_passed(keep, from) <= keep.len(),
        rules_passed(keep, from) < keep.len() ==> rule_error(
            keep[rules_passed(keep, from) as int],
            rules_passed(keep, from) as usize,
        ).is_some(),
        forall|j: int|
            from <= j < rules_passed(keep, from) ==> rule_error(#[trigger] keep[j], j as usize)
                .is_none(),
    decreases keep.len() - from,
{
    if from < keep.len() && rule_error(keep[from as int], from as usize).is_none() {
        lemma_rules_passed(keep, from + 1);
    }
}

/// Why the configuration is refused, if it is: for its version, else for its
/// volume, else for the first rule that is refused.
pub open spec fn config_error(c: PmbsConfig) -> Option<ConfigError> {
    if c.pmbs != CONFIG_FILE_VERSION {
        Some(ConfigError::BadVersion)
    } else if is_blank(c.subvol@) {
        Some(ConfigError::EmptySubvol)
    } else if rules_passed(c.keep@, 0) < c.keep@.len() {
        rule_error(c.keep@[rules_passed(c.keep@, 0) as int], rules_passed(c.keep@, 0) as usize)
    } else {
        None
    }
}

/// How many rules of the configuration have their seconds filled in by a
/// validation: those in front of the first one that is refused.
pub open spec fn rules_filled(c: PmbsConfig) -> nat {
    if c.pmbs != CONFIG_FILE_VERSION || is_blank(c.subvol@) {
        0
    } else {
        rules_passed(c.keep@, 0)
    }
}

/// `after` is `before` with the seconds of its first `k` rules filled in
/// from their intervals, and nothing else changed.
pub open spec fn filled_in(before: PmbsConfig, after: PmbsConfig, k: nat) -> bool {
    &&& after.pmbs == before.pmbs
    &&& after.subvol == before.subvol
    &&& after.keep@.len() == before.keep@.len()
    &&& forall|j: int|
        0 <= j < before.keep@.len() ==> (#[trigger] after.keep@[j]).time == before.keep@[j].time
            && after.keep@[j].n == before.keep@[j].n
    &&& forall|j: int|
        0 <= j < k && j < before.keep@.len() ==> Some((#[trigger] after.keep@[j]).s)
            == seconds_held(before.keep@[j].time@)
    &&& forall|j: int|
        k <= j < before.keep@.len() ==> (#[trigger] after.keep@[j]).s == before.keep@[j].s
}

/// What is to be said of the tier at position `i`.
pub open spec fn tier_warnings(t: Seq<Tier>, i: int) -> Seq<ConfigWarning> {
    (if t[i].slots > BIG_COUNT {
        seq![ConfigWarning::BigCount(i as usize)]
    } else {
        seq![]
    }) + (if t[i].interval > BIG_TIME {
        seq![ConfigWarning::BigTime(i as usize)]
    } else {
        seq![]
    }) + (if i > 0 && t[i].interval <= t[i - 1].interval {
        seq![ConfigWarning::NotLonger(i as usize)]
    } else {
        seq![]
    })
}

/// What is to be said of the first `k` tiers, one after the other.
pub open spec fn warnings_before(t: Seq<Tier>, k: nat) -> Seq<ConfigWarning>
    decreases k,
{
    if k == 0 || k > t.len() {
        seq![]
    } else {
        warnings_before(t, (k - 1) as nat) + tier_warnings(t, k - 1)
    }
}

/// The slots of the first `k` tiers, added up.
pub open spec fn slots_before(t: Seq<Tier>, k: nat) -> nat
    decreases k,
{
    if k == 0 || k > t.len() {
        0
    } else {
        slots_before(t, (k - 1) as nat) + t[k - 1].slots
    }
}

/// What is to be said of a list of tiers: that it is empty, then what is to
/// be said of each tier, then that the tiers have very many slots in all.
pub open spec fn warnings(t: Seq<Tier>) -> Seq<ConfigWarning> {
    (if t.len() < 1 {
        seq![ConfigWarning::NoRule]
    } else {
        seq![]
    }) + warnings_before(t, t.len()) + (if slots_before(t, t.len()) > BIG_TOTAL {
        seq![ConfigWarning::BigTotal]
    } else {
        seq![]
    })
}

/// Looks a list of keep rules over for what an operator should know of it.
/// Nothing of this refuses the rules.
pub fn config_warnings(keep: &Vec<PmbsConfigKeep>) -> (w: Vec<ConfigWarning>)
    ensures
        w@ == warnings(tiers(keep@)),
{
    let ghost t = tiers(keep@);
    let mut w: Vec<ConfigWarning> = Vec::new();
    if keep.len() < 1 {
        w.push(ConfigWarning::NoRule);
    }
    let ghost head = w@;
    let mut total: u128 = 0;
    let mut i: usize = 0;
    while i < keep.len()
        invariant
            i <= keep@.len(),
            t == tiers(keep@),
            w@ == head + warnings_before(t, i as nat),
            total == slots_before(t, i as nat),
            total <= i * 0xffff_ffff,
        decreases keep@.len() - i,
    {
        let ghost before = w@;
        let r = &keep[i];
        proof {
            assert(t[i as int] == keep@[i as int]@.tier());
            if i > 0 {
                assert(t[i - 1] == keep@[i - 1]@.tier());
            }
        }
        if r.n > BIG_COUNT {
            w.push(ConfigWarning::BigCount(i));
        }
        if r.s > BIG_TIME {
            w.push(ConfigWarning::BigTime(i));
        }
        if i > 0 && r.s <= keep[i - 1].s {
            w.push(ConfigWarning::NotLonger(i));
        }
        proof {
            assert(w@ =~= before + tier_warnings(t, i as int));
            assert(head + warnings_before(t, i as nat) + tier_warnings(t, i as int) =~= head + (
            warnings_before(t, i as nat) + tier_warnings(t, i as int)));
        }
        total = total + r.n as u128;
        i = i + 1;
    }
    if total > BIG_TOTAL as u128 {
        w.push(ConfigWarning::BigTotal);
    }
    proof {
        assert(w@ =~= warnings(t));
    }
    w
}

/// A number whose first digit is not zero is not zero.
pub proof fn lemma_number_is_positive(s: Seq<char>)
    requires
        is_number_name(s, 1),
    ensures
        decimal_value(s) >= 1,
{
    crate::text::lemma_decimal_value_grows(s, 1);
    let first = s.take(1);
    assert(first.drop_last() =~= Seq::<char>::empty());
    assert(decimal_value(first.drop_last()) == 0);
    assert(first.last() == s[0]);
}

/// An interval that stands for seconds stands for a minute at least.
pub proof fn lemma_interval_is_positive(s: Seq<char>)
    requires
        interval_seconds(s).is_some(),
    ensures
        interval_seconds(s).unwrap() >= 60,
{
    lemma_number_is_positive(s.drop_last());
    assert(decimal_value(s.drop_last()) * unit_seconds(s.last()) >= 60) by (nonlinear_arith)
        requires
            decimal_value(s.drop_last()) >= 1,
            unit_seconds(s.last()) >= 60,
    ;
}

/// Checks a configuration and fills in the seconds of its rules.
///
/// The configuration is accepted where its version is the one this crate
/// reads, its volume is not blank, and each rule keeps at least one snapshot
/// and has an interval that stands for seconds. The seconds are filled in
/// rule by rule, up to the first rule that is refused. What comes back with
/// an accepted configuration is what an operator should know of its rules.
pub fn validate_config(c: &mut PmbsConfig) -> (r: Result<Vec<ConfigWarning>, ConfigError>)
    ensures
        r.is_ok() <==> config_error(*old(c)).is_none(),
        r matches Err(e) ==> config_error(*old(c)) == Some(e),
        r matches Ok(w) ==> w@ == warnings(tiers(final(c).keep@)),
        filled_in(*old(c), *final(c), rules_filled(*old(c))),
        r.is_ok() ==> forall|j: int|
            0 <= j < final(c).keep@.len() ==> (#[trigger] final(c).keep@[j]).n >= 1
                && final(c).keep@[j].s >= 60,
{
    if c.pmbs != CONFIG_FILE_VERSION {
        return Err(ConfigError::BadVersion);
    }
    if blank(c.subvol.as_str()) {
        return Err(ConfigError::EmptySubvol);
    }
    let ghost given = *c;
    let mut i: usize = 0;
    while i < c.keep.len()
        invariant
            i <= given.keep@.len(),
            given == *old(c),
            given.pmbs == CONFIG_FILE_VERSION,
            !is_blank(given.subvol@),
            rules_passed(given.keep@, 0) == rules_passed(given.keep@, i as nat),
            filled_in(given, *c, i as nat),
            forall|j: int|
                0 <= j < i ==> (#[trigger] c.keep@[j]).n >= 1 && c.keep@[j].s >= 60,
        decreases given.keep@.len() - i,
    {
        let ghost rule = given.keep@[i as int];
        assert(c.keep@[i as int].time == rule.time && c.keep@[i as int].n == rule.n);
        if c.keep[i].n < 1 {
            return Err(ConfigError::BadCount(i));
        }
        if !is_interval(c.keep[i].time.as_str()) {
            return Err(ConfigError::BadTime(i));
        }
        let seconds = match parse_time(c.keep[i].time.as_str()) {
            Some(seconds) => seconds,
            None => {
                return Err(ConfigError::TimeOutOfRange(i));
            },
        };
        proof {
            lemma_interval_is_positive(rule.time@);
        }
        c.keep[i].s = seconds;
        i = i + 1;
    }
    Ok(config_warnings(&c.keep))
}

/// Checks a configuration and fills in the seconds of its rules. Tells
/// whether the configuration is accepted.
pub fn check_config(c: &mut PmbsConfig) -> (ok: bool)
    ensures
        ok <==> config_error(*old(c)).is_none(),
        filled_in(*old(c), *final(c), rules_filled(*old(c))),
        ok ==> forall|j: int|
            0 <= j < final(c).keep@.len() ==> (#[trigger] final(c).keep@[j]).n >= 1
                && final(c).keep@[j].s >= 60,
{
    validate_config(c).is_ok()
}

/// Checks the configuration that was read from a file, if one was. Hands it
/// back with the seconds of its rules filled in where it is accepted, and
/// `None` where nothing was read or what was read is refused.
pub fn read_config(file: Option<PmbsConfigFile>) -> (r: Option<PmbsConfigFile>)
    ensures
        r.is_some() <==> file.is_some() && config_error(file.unwrap().config).is_none(),
        r matches Some(f) ==> f.path == file.unwrap().path && filled_in(
            file.unwrap().config,
            f.config,
            f.config.keep@.len() as nat,
        ),
{
    match file {
        Some(f) => {
            let mut f = f;
            let ghost given = f.config;
            if check_config(&mut f.config) {
                proof {
                    lemma_rules_passed(given.keep@, 0);
                }
                Some(f)
            } else {
                None
            }
        },
        None => None,
    }
}

/// What the name of a configuration file ends in.
pub const CONFIG_FILE_TOML: &'static str = ".toml";

/// One entry of the directory of configuration files, as it was read.
#[derive(Debug, Clone)]
pub struct FileEntry {
    /// The entry's name within the directory.
    pub name: String,
    /// Whether the entry is a regular file.
    pub is_file: bool,
    /// The entry's path in the filesystem.
    pub path: String,
}

/// The configuration files of a directory.
#[derive(Debug, Clone)]
pub struct ConfigList {
    /// The paths of the configuration files, in the order in which their
    /// entries were given.
    pub files: Vec<String>,
    /// The paths of the entries that are named like a configuration file but
    /// are no regular files.
    pub not_files: Vec<String>,
}

/// `name` ends as the name of a configuration file does.
pub open spec fn is_config_name(name: Seq<char>) -> bool {
    name.len() >= 5 && name.subrange(name.len() - 5, name.len() as int) == seq![
        '.',
        't',
        'o',
        'm',
        'l',
    ]
}

/// Tells whether `name` ends as the name of a configuration file does.
pub fn config_name(name: &str) -> (b: bool)
    ensures
        b == is_config_name(name@),
{
    let v = chars_of(name);
    let n = v.len();
    if n < 5 {
        return false;
    }
    let b = v[n - 5] == '.' && v[n - 4] == 't' && v[n - 3] == 'o' && v[n - 2] == 'm' && v[n - 1]
        == 'l';
    proof {
        let tail = name@.subrange(n - 5, n as int);
        if b {
            assert(tail =~= seq!['.', 't', 'o', 'm', 'l']);
        } else {
            assert(tail[0] == name@[n - 5] && tail[1] == name@[n - 4] && tail[2] == name@[n - 3]
                && tail[3] == name@[n - 2] && tail[4] == name@[n - 1]);
        }
    }
    b
}

/// Among the first `k` entries, the paths of those that are named like a
/// configuration file and whose being a regular file is `is_file`.
pub open spec fn config_paths(entries: Seq<FileEntry>, k: nat, is_file: bool) -> Seq<Seq<char>>
    decreases k,
{
    if k == 0 || k > entries.len() {
        seq![]
    } else {
        let front = config_paths(entries, (k - 1) as nat, is_file);
        let e = entries[k - 1];
        if is_config_name(e.name@) && e.is_file == is_file {
            front.push(e.path@)
        } else {
            front
        }
    }
}

/// Picks the configuration files out of the entries of a directory: the
/// regular files whose names end in `.toml`.
pub fn list_config(entries: &Vec<FileEntry>) -> (r: ConfigList)
    ensures
        texts(r.files@) == config_paths(entries@, entries@.len(), true),
        texts(r.not_files@) == config_paths(entries@, entries@.len(), false),
{
    let mut files: Vec<String> = Vec::new();
    let mut not_files: Vec<String> = Vec::new();
    let mut i: usize = 0;
    while i < entries.len()
        invariant
            i <= entries@.len(),
            texts(files@) == config_paths(entries@, i as nat, true),
            texts(not_files@) == config_paths(entries@, i as nat, false),
        decreases entries@.len() - i,
    {
        let e = &entries[i];
        if config_name(e.name.as_str()) {
            let path = e.path.clone();
            if e.is_file {
                proof {
                    assert(texts(files@.push(path)) =~= texts(files@).push(path@));
                }
                files.push(path);
            } else {
                proof {
                    assert(texts(not_files@.push(path)) =~= texts(not_files@).push(path@));
                }
                not_files.push(path);
            }
        }
        i = i + 1;
    }
    ConfigList { files, not_files }
}

/// A copy of a list of keep rules.
pub fn copy_rules(keep: &Vec<PmbsConfigKeep>) -> (r: Vec<PmbsConfigKeep>)
    ensures
        r@ == keep@,
{
    let mut r: Vec<PmbsConfigKeep> = Vec::new();
    let mut i: usize = 0;
    while i < keep.len()
        invariant
            i <= keep@.len(),
            r@ == keep@.take(i as int),
        decreases keep@.len() - i,
    {
        let rule = &keep[i];
        r.push(PmbsConfigKeep { time: rule.time.clone(), n: rule.n, s: rule.s });
        proof {
            assert(r@ =~= keep@.take(i + 1));
        }
        i = i + 1;
    }
    proof {
        assert(keep@.take(keep@.len() as int) =~= keep@);
    }
    r
}

} // verus!
