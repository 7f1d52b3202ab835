use pmbs::clean::{get_re_t, get_re_year};
use regex::Regex;

// matches
#[test]
fn re_year_should_match() {
    let re = get_re_year();

    assert_eq!(re.is_match("2025"), true);
    assert_eq!(re.is_match("9999"), true);
    assert_eq!(re.is_match("10000"), true);
}

#[test]
fn re_t_should_match() {
    let re = get_re_t();

    assert_eq!(re.is_match("1756392923"), true);
    assert_eq!(re.is_match("1999999999"), true);
    assert_eq!(re.is_match("20000000000"), true);
}

// no match: empty
#[test]
fn re_year_should_not_match_empty() {
    let re = get_re_year();

    assert_eq!(re.is_match(""), false);
}

#[test]
fn re_t_should_not_match_empty() {
    let re = get_re_t();

    assert_eq!(re.is_match(""), false);
}

// no match: too short
#[test]
fn re_year_should_not_match_short() {
    let re = get_re_year();

    assert_eq!(re.is_match("1"), false);
    assert_eq!(re.is_match("23"), false);
    assert_eq!(re.is_match("456"), false);
    assert_eq!(re.is_match("0789"), false);
}

#[test]
fn re_t_should_not_match_short() {
    let re = get_re_t();

    assert_eq!(re.is_match("175639292"), false);
    assert_eq!(re.is_match("0756392923"), false);
    assert_eq!(re.is_match("1"), false);
    assert_eq!(re.is_match("17"), false);
    assert_eq!(re.is_match("56392923"), false);
}

// no match: not a digit
#[test]
fn re_year_should_not_match_char() {
    let re = get_re_year();

    assert_eq!(re.is_match("202a"), false);
    assert_eq!(re.is_match("X025"), false);
    assert_eq!(re.is_match("202/"), false);
    assert_eq!(re.is_match("/2025"), false);
    assert_eq!(re.is_match("2_25"), false);
    assert_eq!(re.is_match("202-5"), false);
    assert_eq!(re.is_match("202."), false);
    assert_eq!(re.is_match(".2025"), false);
    assert_eq!(re.is_match("20p5"), false);
}

#[test]
fn re_t_should_not_match_char() {
    let re = get_re_t();

    assert_eq!(re.is_match("175639292C"), false);
    assert_eq!(re.is_match("a175639292"), false);
    assert_eq!(re.is_match("175639292/"), false);
    assert_eq!(re.is_match("/1756392923"), false);
    assert_eq!(re.is_match("1_756392923"), false);
    assert_eq!(re.is_match("1756392923-"), false);
    assert_eq!(re.is_match(".1756392923"), false);
    assert_eq!(re.is_match("1756392.923"), false);
    assert_eq!(re.is_match("17563m2923"), false);
}

#[test]
fn names_with_other_digits_or_line_ends_do_not_match() {
    let year = get_re_year();
    let t = get_re_t();

    // digits outside ASCII
    assert_eq!(year.is_match("２０２５"), false);
    assert_eq!(year.is_match("202５"), false);
    assert_eq!(t.is_match("175639292３"), false);
    // a line end behind the number
    assert_eq!(year.is_match("2025\n"), false);
    assert_eq!(t.is_match("1756392923\n"), false);
    assert_eq!(year.is_match("+2025"), false);
    assert_eq!(year.is_match(" 2025"), false);
}

const NAMES: [&str; 40] = [
    "", "0", "1", "23", "456", "0789", "1000", "2025", "9999", "10000", "00000", "202a", "X025",
    "202/", "/2025", "2_25", "202-5", "202.", ".2025", "20p5", "2025\n", "\n2025", "２０２５",
    "175639292", "0756392923", "1756392923", "1999999999", "20000000000", "175639292C",
    "a175639292", "1_756392923", "1756392923-", "1756392.923", "17563m2923", "1756392923\n",
    "99999999999999999999999999", "١٧٥٦٣٩٢٩٢٣", "2025 ", "1756392923/", "12345678901234567890",
];

#[test]
fn year_names_are_those_of_the_regular_expression() {
    let expected = Regex::new(r"^[1-9][0-9]{3,}$").unwrap();
    let re = get_re_year();
    for name in NAMES {
        assert_eq!(re.is_match(name), expected.is_match(name), "{:?}", name);
    }
}

#[test]
fn timestamp_names_are_those_of_the_regular_expression() {
    let expected = Regex::new(r"^[1-9][0-9]{9,}$").unwrap();
    let re = get_re_t();
    for name in NAMES {
        assert_eq!(re.is_match(name), expected.is_match(name), "{:?}", name);
    }
}
