use pmbs::clean::ls::{DirEntry, YearDir};
use pmbs::clean::ls_snapshot;
use pmbs::snapshot::{
    format_t, get_t, get_year, make_snapshot, newer_snapshot, year_of, DIR_PMBS, LAST_SECOND,
    SYMLINK_LATEST,
};
use pmbs::clean::Snapshot;
use pmbs::config::ConfigEnv;
use pmbs::text::decimal_text;

fn entry(year: &str, name: &str, is_dir: bool) -> DirEntry {
    DirEntry {
        name: name.to_string(),
        is_dir,
        path: format!("/home/.pmbs/{}/{}", year, name),
    }
}

fn year(name: &str, is_dir: bool, entries: &[(&str, bool)]) -> YearDir {
    YearDir {
        name: name.to_string(),
        is_dir,
        path: format!("/home/.pmbs/{}", name),
        entries: entries.iter().map(|(n, d)| entry(name, n, *d)).collect(),
    }
}

#[test]
fn catalog_lists_snapshots_in_the_order_given() {
    let years = vec![
        year("2025", true, &[("1756392923", true), ("1756392983", true)]),
        year("2024", true, &[("1706745600", true)]),
    ];
    let list = ls_snapshot(Some("2025/1756392983".to_string()), years);
    assert!(list.not_dirs.is_empty());
    let s = &list.snapshots;
    assert_eq!(s.len(), 3);
    assert_eq!(s[0].path, "2025/1756392923");
    assert_eq!(s[0].year, 2025);
    assert_eq!(s[0].t, 1756392923);
    assert_eq!(s[0].latest, false);
    assert_eq!(s[0].p, "/home/.pmbs/2025/1756392923");
    assert_eq!(s[1].path, "2025/1756392983");
    assert_eq!(s[1].t, 1756392983);
    assert_eq!(s[1].latest, true);
    assert_eq!(s[2].path, "2024/1706745600");
    assert_eq!(s[2].year, 2024);
    assert_eq!(s[2].latest, false);
}

#[test]
fn catalog_of_nothing_is_empty() {
    let list = ls_snapshot(None, Vec::new());
    assert!(list.snapshots.is_empty());
    assert!(list.not_dirs.is_empty());
    let list = ls_snapshot(Some("2025/1756392923".to_string()), vec![year("2025", true, &[])]);
    assert!(list.snapshots.is_empty());
}

#[test]
fn catalog_passes_over_other_names() {
    let years = vec![
        year("latest", false, &[]),
        year("latest.1756392923", false, &[]),
        year("lost+found", true, &[("1756392923", true)]),
        year("025", true, &[("1756392923", true)]),
        year("0025", true, &[("1756392923", true)]),
        year(
            "2025",
            true,
            &[
                ("175639292", true),
                ("0756392923", true),
                ("1756392923.tmp", true),
                ("notes", false),
                ("1756392923", true),
            ],
        ),
    ];
    let list = ls_snapshot(None, years);
    assert_eq!(list.snapshots.len(), 1);
    assert_eq!(list.snapshots[0].path, "2025/1756392923");
    assert!(list.not_dirs.is_empty());
}

#[test]
fn catalog_reports_what_is_no_directory() {
    let years = vec![
        year("2023", false, &[]),
        year("2025", true, &[("1756392923", false), ("1756392983", true)]),
    ];
    let list = ls_snapshot(None, years);
    assert_eq!(list.snapshots.len(), 1);
    assert_eq!(list.snapshots[0].t, 1756392983);
    assert_eq!(
        list.not_dirs,
        vec!["/home/.pmbs/2023", "/home/.pmbs/2025/1756392923"]
    );
}

#[test]
fn catalog_does_not_look_into_what_is_no_year_directory() {
    let years = vec![
        year("2023", false, &[("1756392923", true)]),
        year("tmp", true, &[("1756392983", true)]),
    ];
    let list = ls_snapshot(None, years);
    assert!(list.snapshots.is_empty());
    assert_eq!(list.not_dirs, vec!["/home/.pmbs/2023"]);
}

#[test]
fn catalog_marks_nothing_without_a_marker() {
    let years = vec![year("2025", true, &[("1756392923", true), ("1756392983", true)])];
    let list = ls_snapshot(None, years);
    assert!(list.snapshots.iter().all(|s| !s.latest));
}

#[test]
fn catalog_marks_nothing_where_the_marker_points_elsewhere() {
    let years = vec![year("2025", true, &[("1756392923", true), ("1756392983", true)])];
    for target in ["2025/1756392924", "1756392923", "/2025/1756392923", "2025/1756392923/", ""] {
        let list = ls_snapshot(Some(target.to_string()), years.clone());
        assert!(list.snapshots.iter().all(|s| !s.latest), "{:?}", target);
    }
}

#[test]
fn catalog_holds_the_largest_numbers() {
    let years = vec![year("2147483647", true, &[("18446744073709551615", true)])];
    let list = ls_snapshot(None, years);
    assert_eq!(list.snapshots[0].year, i32::MAX);
    assert_eq!(list.snapshots[0].t, u64::MAX);
    assert_eq!(list.snapshots[0].path, "2147483647/18446744073709551615");
}

#[test]
fn catalog_passes_over_a_year_that_cannot_be_held() {
    let years = vec![
        year("2147483648", true, &[("1756392900", true)]),
        year("2025", true, &[("1756392923", true)]),
        year("99999999999", true, &[]),
    ];
    let list = ls_snapshot(None, years);
    assert_eq!(list.snapshots.len(), 1);
    assert_eq!(list.snapshots[0].path, "2025/1756392923");
    assert_eq!(list.snapshots[0].year, 2025);
    assert_eq!(
        list.out_of_range,
        vec!["/home/.pmbs/2147483648", "/home/.pmbs/99999999999"]
    );
    assert!(list.not_dirs.is_empty());
}

#[test]
fn catalog_passes_over_a_timestamp_that_cannot_be_held() {
    let years = vec![year(
        "2025",
        true,
        &[
            ("18446744073709551616", true),
            ("1756392923", true),
            ("99999999999999999999999", true),
        ],
    )];
    let list = ls_snapshot(None, years);
    assert_eq!(list.snapshots.len(), 1);
    assert_eq!(list.snapshots[0].t, 1756392923);
    assert_eq!(
        list.out_of_range,
        vec![
            "/home/.pmbs/2025/18446744073709551616",
            "/home/.pmbs/2025/99999999999999999999999"
        ]
    );
    assert!(list.not_dirs.is_empty());
}

#[test]
fn catalog_reports_large_numbers_that_are_no_directories_as_such() {
    let years = vec![
        year("2147483648", false, &[]),
        year("2025", true, &[("18446744073709551616", false)]),
    ];
    let list = ls_snapshot(None, years);
    assert!(list.snapshots.is_empty());
    assert_eq!(
        list.not_dirs,
        vec!["/home/.pmbs/2147483648", "/home/.pmbs/2025/18446744073709551616"]
    );
    assert!(list.out_of_range.is_empty());
}

#[test]
fn year_of_a_timestamp() {
    assert_eq!(get_year(0), 1970);
    assert_eq!(get_year(1756392923), 2025);
    assert_eq!(get_year(31_535_999), 1970);
    assert_eq!(get_year(31_536_000), 1971);
    // the end of the leap year 2000
    assert_eq!(get_year(978_307_199), 2000);
    assert_eq!(get_year(978_307_200), 2001);
    assert_eq!(get_year(1_767_225_599), 2025);
    assert_eq!(get_year(1_767_225_600), 2026);
    // 2100 is no leap year
    assert_eq!(get_year(4_133_980_799), 2100);
    assert_eq!(get_year(4_133_980_800), 2101);
    assert_eq!(get_year(253_402_300_799), 9999);
    assert_eq!(get_year(253_402_300_800), 10000);
}

#[test]
fn year_of_the_last_second() {
    assert_eq!(LAST_SECOND, 8_210_266_876_799);
    assert_eq!(get_year(LAST_SECOND), 262142);
    assert_eq!(year_of(LAST_SECOND), Some(262142));
    assert_eq!(year_of(LAST_SECOND + 1), None);
    assert_eq!(year_of(u64::MAX), None);
    assert_eq!(year_of(1 << 63), None);
    assert_eq!(year_of(1756392923), Some(2025));
}

fn text(parts: &[&str]) -> Vec<String> {
    parts.iter().map(|p| p.to_string()).collect()
}

#[test]
fn plan_of_a_snapshot() {
    let env = ConfigEnv::new(None, None, None);
    let plan = make_snapshot(&env, "/home", 1756392923).unwrap();
    assert_eq!(plan.t, 1756392923);
    assert_eq!(plan.year, 2025);
    assert_eq!(plan.year_dir, text(&["/home", ".pmbs", "2025"]));
    assert_eq!(plan.to, text(&["/home", ".pmbs", "2025", "1756392923"]));
    assert_eq!(plan.command, text(&["btrfs", "subvol", "snapshot", "-r", "/home"]));
    assert_eq!(plan.latest, text(&["/home", ".pmbs", "latest"]));
    assert_eq!(plan.latest_tmp, text(&["/home", ".pmbs", "latest.1756392923"]));
    assert_eq!(plan.link_to, text(&["2025", "1756392923"]));
}

#[test]
fn plan_of_a_snapshot_at_the_epoch() {
    let env = ConfigEnv::new(None, None, Some("/sbin/btrfs".to_string()));
    let plan = make_snapshot(&env, "/", 0).unwrap();
    assert_eq!(plan.year, 1970);
    assert_eq!(plan.to, text(&["/", ".pmbs", "1970", "0"]));
    assert_eq!(plan.command, text(&["/sbin/btrfs", "subvol", "snapshot", "-r", "/"]));
    assert_eq!(plan.latest_tmp, text(&["/", ".pmbs", "latest.0"]));
}

#[test]
fn no_plan_behind_the_last_second() {
    let env = ConfigEnv::new(None, None, None);
    assert!(make_snapshot(&env, "/home", LAST_SECOND).is_some());
    assert!(make_snapshot(&env, "/home", LAST_SECOND + 1).is_none());
    assert!(make_snapshot(&env, "/home", u64::MAX).is_none());
}

#[test]
fn names_of_the_catalog() {
    assert_eq!(DIR_PMBS, ".pmbs");
    assert_eq!(SYMLINK_LATEST, "latest");
}

fn snapshot(t: u64) -> Snapshot {
    Snapshot {
        path: format!("2025/{}", t),
        year: 2025,
        t,
        latest: false,
        p: format!("/home/.pmbs/2025/{}", t),
    }
}

#[test]
fn newer_snapshot_shows_a_clock_set_back() {
    let list = vec![snapshot(1756392923), snapshot(1756399999), snapshot(1756392983)];
    assert_eq!(newer_snapshot(&list, 1756392983), Some(1756399999));
    assert_eq!(newer_snapshot(&list, 1756399998), Some(1756399999));
    assert_eq!(newer_snapshot(&list, 1756399999), None);
    assert_eq!(newer_snapshot(&list, 1756400000), None);
    assert_eq!(newer_snapshot(&Vec::new(), 0), None);
}

#[test]
fn numbers_in_decimal() {
    assert_eq!(decimal_text(0), "0");
    assert_eq!(decimal_text(7), "7");
    assert_eq!(decimal_text(10), "10");
    assert_eq!(decimal_text(1756392923), "1756392923");
    assert_eq!(decimal_text(u64::MAX), "18446744073709551615");
}

#[test]
fn clock_reads_a_time_of_ten_digits() {
    let t = get_t().unwrap();
    assert!(t >= 1_000_000_000);
    assert!(t <= LAST_SECOND);
    assert!(get_t().unwrap() + 60 > t);
}

#[test]
fn timestamp_as_text() {
    assert_eq!(format_t(0), "1970-01-01T00:00:00Z");
    assert_eq!(format_t(1756392923), "2025-08-28T14:55:23Z");
    assert_eq!(format_t(253_402_300_799), "9999-12-31T23:59:59Z");
    assert_eq!(format_t(253_402_300_800), "+10000-01-01T00:00:00Z");
    assert_eq!(format_t(LAST_SECOND), "+262142-12-31T23:59:59Z");
}

#[test]
fn catalog_lists_no_snapshot_twice() {
    let years = vec![
        year("2024", true, &[("1706745600", true), ("1706745660", true)]),
        year("2025", true, &[("1706745600", true), ("1756392923", true)]),
        year("20251", true, &[("706745600", true), ("7067456001", true)]),
    ];
    let list = ls_snapshot(None, years);
    let mut paths: Vec<String> = list.snapshots.iter().map(|s| s.path.clone()).collect();
    assert_eq!(
        paths,
        vec![
            "2024/1706745600",
            "2024/1706745660",
            "2025/1706745600",
            "2025/1756392923",
            "20251/7067456001"
        ]
    );
    paths.sort();
    paths.dedup();
    assert_eq!(paths.len(), 5);
}
