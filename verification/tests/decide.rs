use pmbs::clean::{decide, sort_by_time, Snapshot};
use pmbs::cli::{get_clean, snapshot_full_paths, snapshot_paths, CleanLog};
use pmbs::config::{PmbsConfig, PmbsConfigFile, PmbsConfigKeep};

fn snapshot(t: u64) -> Snapshot {
    Snapshot {
        path: format!("1970/{}", t),
        year: 1970,
        t,
        latest: false,
        p: format!("/home/.pmbs/1970/{}", t),
    }
}

fn snapshots(ts: &[u64]) -> Vec<Snapshot> {
    ts.iter().map(|t| snapshot(*t)).collect()
}

fn times(list: &Vec<Snapshot>) -> Vec<u64> {
    list.iter().map(|s| s.t).collect()
}

fn rules(r: &[(u64, u32)]) -> Vec<PmbsConfigKeep> {
    r.iter().map(|(s, n)| PmbsConfigKeep::new_sn(*s, *n)).collect()
}

fn decided(r: &[(u64, u32)], ts: &[u64]) -> (Vec<u64>, Vec<u64>) {
    let (keep, clean) = decide(rules(r), snapshots(ts));
    (times(&keep), times(&clean))
}

#[test]
fn decide_end_to_end() {
    // 99700 + 10 > 100000 - 300, so 99700 lies in the grace window and uses
    // no slot: both slots are left for 99000 and 60000
    let (keep, clean) = decided(&[(300, 2)], &[100000, 99995, 99700, 99000, 60000, 1000]);
    assert_eq!(keep, vec![100000, 99995, 99700, 99000, 60000]);
    assert_eq!(clean, vec![1000]);
}

#[test]
fn decide_end_to_end_behind_the_grace_window() {
    // 99690 + 10 is not above 100000 - 300: the window keeps 100000 and
    // 99995. Then 99690 is not above 99995 - 300 + 10 and takes the first
    // slot, 99000 is not above 99690 - 300 + 10 and takes the second, and
    // the rest is cleaned.
    let (keep, clean) = decided(&[(300, 2)], &[100000, 99995, 99690, 99000, 60000, 1000]);
    assert_eq!(keep, vec![100000, 99995, 99690, 99000]);
    assert_eq!(clean, vec![1000, 60000]);
}

#[test]
fn decide_does_not_depend_on_the_order_given() {
    let (keep, clean) = decided(&[(300, 2)], &[1000, 99690, 100000, 60000, 99995, 99000]);
    assert_eq!(keep, vec![100000, 99995, 99690, 99000]);
    assert_eq!(clean, vec![1000, 60000]);
}

#[test]
fn decide_nothing() {
    let (keep, clean) = decided(&[(300, 2)], &[]);
    assert!(keep.is_empty());
    assert!(clean.is_empty());
    let (keep, clean) = decided(&[], &[]);
    assert!(keep.is_empty());
    assert!(clean.is_empty());
}

#[test]
fn decide_keeps_a_single_snapshot() {
    assert_eq!(decided(&[], &[1756392923]), (vec![1756392923], vec![]));
    assert_eq!(decided(&[], &[5]), (vec![5], vec![]));
    assert_eq!(decided(&[(60, 1)], &[0]), (vec![0], vec![]));
}

#[test]
fn decide_keeps_the_grace_window_without_rules() {
    // the window reaches 300 s back, and 10 s further for the clock's drift
    let (keep, clean) = decided(&[], &[100000, 99900, 99701, 99691, 99690, 99689, 5]);
    assert_eq!(keep, vec![100000, 99900, 99701, 99691]);
    assert_eq!(clean, vec![5, 99689, 99690]);
}

#[test]
fn decide_uses_no_slot_in_the_grace_window() {
    let (keep, clean) = decided(&[(1000, 1)], &[100000, 99950, 99900, 99800, 98000, 97000]);
    assert_eq!(keep, vec![100000, 99950, 99900, 99800, 98000]);
    assert_eq!(clean, vec![97000]);
}

#[test]
fn decide_cleans_what_lies_in_the_shadow() {
    // after the window the last kept is 99800; with 1000 s between kept
    // snapshots and 10 s of drift, anything newer than 98810 is cleaned, and
    // after 98810 anything newer than 97820
    let (keep, clean) = decided(
        &[(1000, 3)],
        &[100000, 99800, 99600, 98811, 98810, 98000, 97821, 97820, 90000, 80000],
    );
    assert_eq!(keep, vec![100000, 99800, 98810, 97820, 90000]);
    assert_eq!(clean, vec![80000, 97821, 98000, 98811, 99600]);
}

#[test]
fn decide_moves_from_tier_to_tier() {
    let ts: Vec<u64> = (0..40).map(|k| 1_000_000 - 600 * k).collect();
    let (keep, clean) = decided(&[(600, 2), (3600, 2), (7200, 1)], &ts);
    assert_eq!(
        keep,
        vec![
            1_000_000,
            1_000_000 - 600,
            1_000_000 - 1200,
            1_000_000 - 4800,
            1_000_000 - 8400,
            1_000_000 - 15600
        ]
    );
    assert_eq!(keep.len() + clean.len(), 40);
    assert_eq!(clean.first(), Some(&(1_000_000 - 600 * 39)));
    assert_eq!(clean.last(), Some(&(1_000_000 - 1800)));
}

#[test]
fn decide_retries_a_slot_until_a_snapshot_takes_it() {
    // the snapshots behind the window are all shadowed but the last
    let (keep, clean) = decided(&[(5000, 1), (10, 1)], &[100000, 99000, 98000, 97000, 94000, 93000]);
    assert_eq!(keep, vec![100000, 94000, 93000]);
    assert_eq!(clean, vec![97000, 98000, 99000]);
}

#[test]
fn decide_passes_over_rules_without_slots() {
    let (keep, clean) = decided(
        &[(10, 0), (300, 2), (10, 0)],
        &[100000, 99995, 99690, 99000, 60000, 1000],
    );
    assert_eq!(keep, vec![100000, 99995, 99690, 99000]);
    assert_eq!(clean, vec![1000, 60000]);
}

#[test]
fn decide_works_near_zero() {
    let (keep, clean) = decided(&[(86400, 2)], &[400, 50, 0]);
    assert_eq!(keep, vec![400]);
    assert_eq!(clean, vec![0, 50]);
    let (keep, clean) = decided(&[(10, 2)], &[1000, 600, 100]);
    assert_eq!(keep, vec![1000, 600, 100]);
    assert_eq!(clean, vec![]);
}

#[test]
fn decide_works_near_the_largest_timestamp() {
    let m = u64::MAX;
    // with the longest interval everything behind the window is shadowed
    let (keep, clean) = decided(&[(u64::MAX, 1), (1, 1)], &[m, m - 309, m - 310, m - 400, 0]);
    assert_eq!(keep, vec![m, m - 309]);
    assert_eq!(clean, vec![0, m - 400, m - 310]);
    // an interval that reaches back to ten seconds before the epoch
    let (keep, clean) = decided(&[(m - 299, 1), (1, 1)], &[m, m - 309, m - 310, 0]);
    assert_eq!(keep, vec![m, m - 309, 0]);
    assert_eq!(clean, vec![m - 310]);
}

#[test]
fn decide_with_an_interval_of_zero_keeps_while_slots_last() {
    let (keep, clean) = decided(&[(0, 2)], &[10000, 9000, 8999, 8998]);
    assert_eq!(keep, vec![10000, 9000, 8999]);
    assert_eq!(clean, vec![8998]);
}

#[test]
fn decide_twice_gives_the_same() {
    let ts = [100000, 99995, 99700, 99000, 98000, 60000, 59000, 1000];
    let r = [(300, 2), (20000, 2)];
    let first = decided(&r, &ts);
    let second = decided(&r, &ts);
    assert_eq!(first, second);
    assert_eq!(first.0, vec![100000, 99995, 99700, 99000, 98000, 60000, 1000]);
    assert_eq!(first.1, vec![59000]);
}

#[test]
fn decide_loses_and_doubles_nothing() {
    let ts: Vec<u64> = (0..200).map(|k| 1_756_392_923 - (k * k * 37) % 100_000).collect();
    let (keep, clean) = decide(rules(&[(60, 5), (3600, 5), (86400, 5)]), snapshots(&ts));
    assert_eq!(keep.len() + clean.len(), ts.len());
    let mut all: Vec<u64> = times(&keep);
    all.extend(times(&clean));
    all.sort();
    let mut given = ts.clone();
    given.sort();
    assert_eq!(all, given);
    for k in &keep {
        assert!(clean.iter().all(|c| c.path != k.path || c.t == k.t));
    }
}

#[test]
fn decide_cleans_oldest_first() {
    let ts: Vec<u64> = (0..100).map(|k| 1_000_000 + (k * 7919) % 50_000).collect();
    let (_, clean) = decide(rules(&[(600, 3)]), snapshots(&ts));
    assert!(clean.len() > 10);
    assert!(clean.windows(2).all(|w| w[0].t <= w[1].t));
}

#[test]
fn decide_keeps_the_order_given_among_equal_timestamps() {
    let mut list = snapshots(&[5000, 100, 100, 100, 5000]);
    for (k, s) in list.iter_mut().enumerate() {
        s.path = format!("{}", k);
    }
    let (keep, clean) = decide(Vec::new(), list);
    let keep: Vec<&str> = keep.iter().map(|s| s.path.as_str()).collect();
    let clean: Vec<&str> = clean.iter().map(|s| s.path.as_str()).collect();
    assert_eq!(keep, vec!["0", "4"]);
    assert_eq!(clean, vec!["1", "2", "3"]);
}

#[test]
fn decide_hands_the_snapshots_on_unchanged() {
    let mut list = snapshots(&[100000, 50000]);
    list[0].latest = true;
    list[0].year = 2025;
    let (keep, clean) = decide(Vec::new(), list);
    assert_eq!(keep[0].path, "1970/100000");
    assert_eq!(keep[0].p, "/home/.pmbs/1970/100000");
    assert_eq!(keep[0].latest, true);
    assert_eq!(keep[0].year, 2025);
    assert_eq!(clean[0].path, "1970/50000");
    assert_eq!(clean[0].latest, false);
}

#[test]
fn sort_by_time_orders_both_ways() {
    let list = snapshots(&[3, 9, 1, 9, 4]);
    assert_eq!(times(&sort_by_time(list.clone(), true)), vec![9, 9, 4, 3, 1]);
    assert_eq!(times(&sort_by_time(list, false)), vec![1, 3, 4, 9, 9]);
    assert!(sort_by_time(Vec::new(), true).is_empty());
}

#[test]
fn sort_by_time_keeps_the_order_of_equal_timestamps() {
    let mut list = snapshots(&[7, 7, 2, 7, 2]);
    for (k, s) in list.iter_mut().enumerate() {
        s.path = format!("{}", k);
    }
    let down: Vec<String> = sort_by_time(list.clone(), true).into_iter().map(|s| s.path).collect();
    let up: Vec<String> = sort_by_time(list, false).into_iter().map(|s| s.path).collect();
    assert_eq!(down, vec!["0", "1", "3", "2", "4"]);
    assert_eq!(up, vec!["2", "4", "0", "1", "3"]);
}

fn config_file() -> PmbsConfigFile {
    PmbsConfigFile {
        path: "home.toml".to_string(),
        config: PmbsConfig {
            pmbs: 1,
            subvol: "/home".to_string(),
            keep: rules(&[(300, 2)]),
        },
    }
}

#[test]
fn get_clean_decides_under_the_rules_of_the_file() {
    let (keep, clean) = get_clean(
        &config_file(),
        snapshots(&[100000, 99995, 99690, 99000, 60000, 1000]),
    );
    assert_eq!(times(&keep), vec![100000, 99995, 99690, 99000]);
    assert_eq!(times(&clean), vec![1000, 60000]);
}

#[test]
fn clean_log_lists_every_path() {
    let (keep, clean) = get_clean(
        &config_file(),
        snapshots(&[100000, 99995, 99690, 99000, 60000, 1000]),
    );
    let log = CleanLog::new(1756392923, config_file(), &keep, &clean);
    assert_eq!(log.t, 1756392923);
    assert_eq!(log.config.path, "home.toml");
    assert_eq!(
        log.keep,
        vec!["1970/100000", "1970/99995", "1970/99690", "1970/99000"]
    );
    assert_eq!(log.clean, vec!["1970/1000", "1970/60000"]);
    assert_eq!(log.file_name(), "clean-1756392923-home.toml.log.json");
}

#[test]
fn clean_log_of_the_epoch_is_named_with_zero() {
    let log = CleanLog::new(0, config_file(), &Vec::new(), &Vec::new());
    assert_eq!(log.file_name(), "clean-0-home.toml.log.json");
    assert!(log.keep.is_empty());
    assert!(log.clean.is_empty());
}

#[test]
fn paths_of_snapshots_come_in_order() {
    let list = snapshots(&[3, 1, 2]);
    assert_eq!(snapshot_paths(&list), vec!["1970/3", "1970/1", "1970/2"]);
    assert_eq!(
        snapshot_full_paths(&list),
        vec![
            "/home/.pmbs/1970/3",
            "/home/.pmbs/1970/1",
            "/home/.pmbs/1970/2"
        ]
    );
}
