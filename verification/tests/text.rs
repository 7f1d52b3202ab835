use pmbs::clean::order::stands_before;
use pmbs::clean::{reversed, Snapshot};
use pmbs::config::{blank, config_name, copy_rules, is_white_space, PmbsConfigKeep};
use pmbs::text::{char_is_digit, chars_of, digit_of, number_at, number_name_at, Pattern};

fn chars(s: &str) -> Vec<char> {
    s.chars().collect()
}

#[test]
fn chars_of_a_string() {
    assert_eq!(chars_of(""), Vec::<char>::new());
    assert_eq!(chars_of("2025"), vec!['2', '0', '2', '5']);
    assert_eq!(chars_of("/données/快照"), chars("/données/快照"));
    assert_eq!(chars_of("a\u{10ffff}b").len(), 3);
}

#[test]
fn digits_are_the_ten_of_ascii() {
    for c in "0123456789".chars() {
        assert!(char_is_digit(c));
    }
    for c in "/:aZ _-.+٣３\u{0}".chars() {
        assert!(!char_is_digit(c), "{:?}", c);
    }
}

#[test]
fn digits_stand_for_their_numbers() {
    for (k, c) in "0123456789".chars().enumerate() {
        assert_eq!(digit_of(c), k as u64);
    }
}

#[test]
fn number_names_within_a_text() {
    let v = chars("x/2025/1756392923");
    assert_eq!(number_name_at(&v, 2, 6, 4), true);
    assert_eq!(number_name_at(&v, 2, 6, 5), false);
    assert_eq!(number_name_at(&v, 2, 7, 4), false);
    assert_eq!(number_name_at(&v, 1, 6, 4), false);
    assert_eq!(number_name_at(&v, 3, 6, 1), false);
    assert_eq!(number_name_at(&v, 7, 17, 10), true);
    assert_eq!(number_name_at(&v, 7, 16, 10), false);
    assert_eq!(number_name_at(&v, 4, 4, 0), false);
    assert_eq!(number_name_at(&v, 2, 3, 0), true);
}

#[test]
fn numbers_within_a_text() {
    let v = chars("007/18446744073709551615/18446744073709551616");
    assert_eq!(number_at(&v, 0, 3), Some(7));
    assert_eq!(number_at(&v, 0, 0), Some(0));
    assert_eq!(number_at(&v, 4, 24), Some(u64::MAX));
    assert_eq!(number_at(&v, 4, 23), Some(1844674407370955161));
    assert_eq!(number_at(&v, 25, 45), None);
    assert_eq!(number_at(&v, 25, 44), Some(1844674407370955161));
    let v = chars("00000000000000000000000000000000000042");
    assert_eq!(number_at(&v, 0, v.len()), Some(42));
    let v = chars("99999999999999999999999999999999999999");
    assert_eq!(number_at(&v, 0, v.len()), None);
}

#[test]
fn patterns_match_their_shapes() {
    assert!(Pattern::Year.is_match("2025"));
    assert!(!Pattern::Year.is_match("1756392923x"));
    assert!(Pattern::Timestamp.is_match("1756392923"));
    assert!(!Pattern::Timestamp.is_match("2025"));
    assert!(Pattern::SnapshotPath.is_match("/.pmbs/2025/1756392923"));
    assert!(!Pattern::SnapshotPath.is_match("2025"));
    assert!(Pattern::KeepTime.is_match("20m"));
    assert!(!Pattern::KeepTime.is_match("2025"));
}

#[test]
fn blank_texts() {
    assert!(blank(""));
    assert!(blank(" "));
    assert!(blank(" \t\r\n\u{b}\u{c}"));
    assert!(blank("\u{85}\u{a0}\u{1680}\u{2003}\u{2028}\u{2029}\u{202f}\u{205f}\u{3000}"));
    assert!(!blank("/"));
    assert!(!blank("  x  "));
    assert!(!blank("\u{200b}"));
    assert!(!blank("_"));
}

#[test]
fn names_of_configuration_files() {
    assert!(config_name("home.toml"));
    assert!(config_name(".toml"));
    assert!(config_name("快照.toml"));
    assert!(!config_name(""));
    assert!(!config_name("toml"));
    assert!(!config_name("home.toml "));
    assert!(!config_name("home.tom"));
    assert!(!config_name("home.Toml"));
    assert!(!config_name("home_toml"));
}

#[test]
fn copy_of_rules() {
    let rules = vec![
        PmbsConfigKeep {
            time: "5m".to_string(),
            n: 12,
            s: 300,
        },
        PmbsConfigKeep::new_sn(3600, 24),
    ];
    let copy = copy_rules(&rules);
    assert_eq!(copy.len(), 2);
    assert_eq!(copy[0].time, "5m");
    assert_eq!(copy[0].n, 12);
    assert_eq!(copy[0].s, 300);
    assert_eq!(copy[1].time, "");
    assert_eq!(copy[1].n, 24);
    assert_eq!(copy[1].s, 3600);
    assert!(copy_rules(&Vec::new()).is_empty());
}

fn snapshot(t: u64) -> Snapshot {
    Snapshot {
        path: format!("2025/{}", t),
        year: 2025,
        t,
        latest: false,
        p: format!("/home/.pmbs/2025/{}", t),
    }
}

#[test]
fn reversed_list() {
    let list = vec![snapshot(1), snapshot(3), snapshot(2)];
    let back: Vec<u64> = reversed(list).iter().map(|s| s.t).collect();
    assert_eq!(back, vec![2, 3, 1]);
    assert!(reversed(Vec::new()).is_empty());
}

#[test]
fn which_snapshot_stands_in_front() {
    let old = snapshot(1756392923);
    let new = snapshot(1756392983);
    assert_eq!(stands_before(&new, &old, true), true);
    assert_eq!(stands_before(&old, &new, true), false);
    assert_eq!(stands_before(&old, &new, false), true);
    assert_eq!(stands_before(&new, &old, false), false);
    assert_eq!(stands_before(&old, &old, true), false);
    assert_eq!(stands_before(&old, &old, false), false);
}

#[test]
fn white_space_is_what_the_standard_library_takes_for_it() {
    let mut count = 0;
    for code in 0..=0x10ffff_u32 {
        if let Some(c) = char::from_u32(code) {
            assert_eq!(is_white_space(c), c.is_whitespace(), "{:?}", c);
            if is_white_space(c) {
                count += 1;
            }
        }
    }
    assert_eq!(count, 25);
}
