//! Characters, decimal digits and the values they denote.

use vstd::prelude::*;
use vstd::string::StringExecFns;

verus! {

/// An ASCII decimal digit.
pub open spec fn is_digit(c: char) -> bool {
    '0' <= c && c <= '9'
}

/// An ASCII decimal digit other than `0`.
pub open spec fn is_nonzero_digit(c: char) -> bool {
    '1' <= c && c <= '9'
}

/// Every character of `s` is an ASCII decimal digit.
pub open spec fn all_digits(s: Seq<char>) -> bool {
    forall|i: int| 0 <= i < s.len() ==> is_digit(#[trigger] s[i])
}

/// The number a digit stands for.
pub open spec fn digit_value(c: char) -> nat {
    (c as nat - '0' as nat) as nat
}

/// The number that a sequence of decimal digits denotes, most significant
/// digit first. The empty sequence denotes zero.
pub open spec fn decimal_value(s: Seq<char>) -> nat
    decreases s.len(),
{
    if s.len() == 0 {
        0
    } else {
        10 * decimal_value(s.drop_last()) + digit_value(s.last())
    }
}

/// The texts of `s` as sequences of characters.
pub open spec fn texts(s: Seq<String>) -> Seq<Seq<char>> {
    s.map_values(|x: String| x@)
}

/// Tells whether `c` is an ASCII decimal digit.
pub fn char_is_digit(c: char) -> (b: bool)
    ensures
        b == is_digit(c),
{
    '0' <= c && c <= '9'
}

/// The characters of a string, in order.
pub fn chars_of(s: &str) -> (v: Vec<char>)
    ensures
        v@ == s@,
{
    let mut v: Vec<char> = Vec::new();
    for c in it: s.chars()
        invariant
            it.seq() == s@,
            v@ == it.seq().take(it.index() as int),
    {
        v.push(c);
    }
    v
}

/// `s` is a decimal number of at least `min` digits whose first digit is not
/// zero.
pub open spec fn is_number_name(s: Seq<char>, min: nat) -> bool {
    &&& s.len() >= 1
    &&& s.len() >= min
    &&& is_nonzero_digit(s[0])
    &&& all_digits(s)
}

/// The name of a year directory: four or more digits, the first not zero.
pub open spec fn is_year_name(s: Seq<char>) -> bool {
    is_number_name(s, 4)
}

/// The name of a snapshot directory: a timestamp of ten or more digits, the
/// first not zero.
pub open spec fn is_timestamp_name(s: Seq<char>) -> bool {
    is_number_name(s, 10)
}

/// The name of the directory under a volume's root that holds its snapshots,
/// between two slashes.
pub open spec fn catalog_segment() -> Seq<char> {
    seq!['/', '.', 'p', 'm', 'b', 's', '/']
}

/// From `i` on, `s` holds the catalog directory between two slashes, then a
/// year up to the slash at `j`, then a timestamp up to its end.
pub open spec fn is_snapshot_path_at(s: Seq<char>, i: int, j: int) -> bool {
    &&& 0 <= i
    &&& i + 7 <= j
    &&& j < s.len()
    &&& s.subrange(i, i + 7) == catalog_segment()
    &&& is_year_name(s.subrange(i + 7, j))
    &&& s[j] == '/'
    &&& is_timestamp_name(s.subrange(j + 1, s.len() as int))
}

/// `s` ends in the catalog directory, a year and a timestamp, each behind a
/// slash, and in nothing more.
pub open spec fn is_snapshot_path(s: Seq<char>) -> bool {
    exists|i: int, j: int| is_snapshot_path_at(s, i, j)
}

/// One of the units in which an interval is written.
pub open spec fn is_time_unit(c: char) -> bool {
    c == 'm' || c == 'h' || c == 'd'
}

/// `s` is written like an interval: a digit other than zero, then digits and
/// underscores, then a unit.
pub open spec fn is_keep_time(s: Seq<char>) -> bool {
    &&& s.len() >= 2
    &&& is_nonzero_digit(s[0])
    &&& forall|i: int| 1 <= i < s.len() - 1 ==> is_digit(#[trigger] s[i]) || s[i] == '_'
    &&& is_time_unit(s[s.len() - 1])
}

/// The shapes of the names and paths that this crate recognises.
#[derive(Debug, Clone, Copy)]
pub enum Pattern {
    /// The name of a year directory.
    Year,
    /// The name of a snapshot directory.
    Timestamp,
    /// The path of a snapshot, from anywhere down to its timestamp.
    SnapshotPath,
    /// An interval of a keep rule as it is written.
    KeepTime,
}

impl Pattern {
    /// `s` has the shape that `self` stands for.
    pub open spec fn matches(self, s: Seq<char>) -> bool {
        match self {
            Pattern::Year => is_year_name(s),
            Pattern::Timestamp => is_timestamp_name(s),
            Pattern::SnapshotPath => is_snapshot_path(s),
            Pattern::KeepTime => is_keep_time(s),
        }
    }

    /// Tells whether `text` has the shape that `self` stands for.
    pub fn is_match(&self, text: &str) -> (b: bool)
        ensures
            b == self.matches(text@),
    {
        let v = chars_of(text);
        let n = v.len();
        proof {
            assert(v@.subrange(0, n as int) =~= text@);
        }
        match self {
            Pattern::Year => number_name_at(&v, 0, n, 4),
            Pattern::Timestamp => number_name_at(&v, 0, n, 10),
            Pattern::SnapshotPath => snapshot_path(&v),
            Pattern::KeepTime => keep_time(&v),
        }
    }
}

/// Tells whether the characters of `v` from `from` up to `to` are a number of
/// at least `min` digits whose first digit is not zero.
pub fn number_name_at(v: &Vec<char>, from: usize, to: usize, min: usize) -> (b: bool)
    requires
        from <= to <= v@.len(),
    ensures
        b == is_number_name(v@.subrange(from as int, to as int), min as nat),
{
    let ghost s = v@.subrange(from as int, to as int);
    if to - from < 1 || to - from < min {
        return false;
    }
    if !('1' <= v[from] && v[from] <= '9') {
        assert(s[0] == v@[from as int]);
        return false;
    }
    let mut i: usize = from + 1;
    while i < to
        invariant
            from < i <= to <= v@.len(),
            s == v@.subrange(from as int, to as int),
            forall|k: int| 0 <= k < i - from ==> is_digit(#[trigger] s[k]),
        decreases to - i,
    {
        if !char_is_digit(v[i]) {
            assert(s[i - from] == v@[i as int]);
            return false;
        }
        i = i + 1;
    }
    true
}

/// The last slash in front of `end`, if there is one.
fn last_slash(v: &Vec<char>, end: usize) -> (r: Option<usize>)
    requires
        end <= v@.len(),
    ensures
        r matches Some(k) ==> k < end && v@[k as int] == '/' && forall|m: int|
            k < m < end ==> v@[m] != '/',
        r.is_none() ==> forall|m: int| 0 <= m < end ==> v@[m] != '/',
{
    let mut k: usize = end;
    while k > 0
        invariant
            k <= end <= v@.len(),
            forall|m: int| k <= m < end ==> v@[m] != '/',
        decreases k,
    {
        k = k - 1;
        if v[k] == '/' {
            return Some(k);
        }
    }
    None
}

/// A digit is no slash, so a number holds none.
proof fn lemma_number_has_no_slash(s: Seq<char>, min: nat)
    requires
        is_number_name(s, min),
    ensures
        forall|k: int| 0 <= k < s.len() ==> s[k] != '/',
{
    assert forall|k: int| 0 <= k < s.len() implies s[k] != '/' by {
        assert(is_digit(s[k]));
    }
}

/// Tells whether `v` is the path of a snapshot.
fn snapshot_path(v: &Vec<char>) -> (b: bool)
    ensures
        b == is_snapshot_path(v@),
{
    let n = v.len();
    let ghost s = v@;
    // what a path of that shape has behind its last two slashes
    proof {
        if is_snapshot_path(s) {
            let (i, j) = choose|i: int, j: int| is_snapshot_path_at(s, i, j);
            lemma_number_has_no_slash(s.subrange(j + 1, s.len() as int), 10);
            lemma_number_has_no_slash(s.subrange(i + 7, j), 4);
            assert forall|m: int| j < m < s.len() implies s[m] != '/' by {
                assert(s[m] == s.subrange(j + 1, s.len() as int)[m - j - 1]);
            }
            assert forall|m: int| i + 6 < m < j implies s[m] != '/' by {
                assert(s[m] == s.subrange(i + 7, j)[m - i - 7]);
            }
            assert(s[i + 6] == s.subrange(i, i + 7)[6]);
        }
    }
    let j = match last_slash(v, n) {
        Some(j) => j,
        None => {
            return false;
        },
    };
    if !number_name_at(v, j + 1, n, 10) {
        return false;
    }
    let i6 = match last_slash(v, j) {
        Some(k) => k,
        None => {
            return false;
        },
    };
    if !number_name_at(v, i6 + 1, j, 4) {
        return false;
    }
    if i6 < 6 {
        return false;
    }
    let i = i6 - 6;
    let found = v[i] == '/' && v[i + 1] == '.' && v[i + 2] == 'p' && v[i + 3] == 'm' && v[i + 4]
        == 'b' && v[i + 5] == 's';
    proof {
        let seg = s.subrange(i as int, i + 7);
        if found {
            assert(seg =~= catalog_segment());
            assert(is_snapshot_path_at(s, i as int, j as int));
        } else {
            assert(seg[0] == s[i as int] && seg[1] == s[i + 1] && seg[2] == s[i + 2] && seg[3]
                == s[i + 3] && seg[4] == s[i + 4] && seg[5] == s[i + 5]);
        }
    }
    found
}

/// Tells whether `v` is written like an interval.
fn keep_time(v: &Vec<char>) -> (b: bool)
    ensures
        b == is_keep_time(v@),
{
    let n = v.len();
    if n < 2 {
        return false;
    }
    if !('1' <= v[0] && v[0] <= '9') {
        return false;
    }
    let unit = v[n - 1];
    if !(unit == 'm' || unit == 'h' || unit == 'd') {
        return false;
    }
    let mut i: usize = 1;
    while i < n - 1
        invariant
            1 <= i <= n - 1,
            n == v@.len(),
            forall|k: int| 1 <= k < i ==> is_digit(#[trigger] v@[k]) || v@[k] == '_',
        decreases n - i,
    {
        if !(char_is_digit(v[i]) || v[i] == '_') {
            return false;
        }
        i = i + 1;
    }
    true
}

/// The number that the digit `c` stands for.
pub fn digit_of(c: char) -> (d: u64)
    requires
        is_digit(c),
    ensures
        d == digit_value(c),
        d <= 9,
{
    (c as u32 - '0' as u32) as u64
}

/// The first digits of a number denote no more than the whole number does.
pub proof fn lemma_decimal_value_grows(s: Seq<char>, k: int)
    requires
        0 <= k <= s.len(),
    ensures
        decimal_value(s.take(k)) <= decimal_value(s),
    decreases s.len(),
{
    if k == s.len() {
        assert(s.take(k) =~= s);
    } else {
        lemma_decimal_value_grows(s.drop_last(), k);
        assert(s.drop_last().take(k) =~= s.take(k));
    }
}

/// The number that the digits of `v` from `from` up to `to` denote, or `None`
/// where it is too large for a `u64`.
pub fn number_at(v: &Vec<char>, from: usize, to: usize) -> (r: Option<u64>)
    requires
        from <= to <= v@.len(),
        all_digits(v@.subrange(from as int, to as int)),
    ensures
        r == if decimal_value(v@.subrange(from as int, to as int)) <= u64::MAX {
            Some(decimal_value(v@.subrange(from as int, to as int)) as u64)
        } else {
            None
        },
{
    let ghost s = v@.subrange(from as int, to as int);
    let mut acc: u64 = 0;
    let mut i: usize = from;
    proof {
        assert(s.take(0) =~= Seq::<char>::empty());
    }
    while i < to
        invariant
            from <= i <= to <= v@.len(),
            s == v@.subrange(from as int, to as int),
            all_digits(s),
            acc == decimal_value(s.take(i - from)),
        decreases to - i,
    {
        let c = v[i];
        proof {
            assert(c == s[i - from]);
            assert(s.take(i - from + 1).drop_last() =~= s.take(i - from));
            assert(s.take(i - from + 1).last() == c);
            lemma_decimal_value_grows(s, i - from + 1);
        }
        let d = digit_of(c);
        if acc > (u64::MAX - d) / 10 {
            return None;
        }
        acc = acc * 10 + d;
        i = i + 1;
    }
    proof {
        assert(s.take(to - from) =~= s);
    }
    Some(acc)
}

/// The character that stands for the number `d`, which is below ten.
pub open spec fn digit_char(d: nat) -> char {
    (d + '0' as nat) as char
}

/// The decimal digits of `n`, most significant first, without a leading zero
/// unless `n` is zero.
pub open spec fn decimal_digits(n: nat) -> Seq<char>
    decreases n,
{
    if n < 10 {
        seq![digit_char(n)]
    } else {
        decimal_digits(n / 10).push(digit_char(n % 10))
    }
}

/// The digits of a number denote that number, and they are at least as many
/// as those of a smaller number.
pub proof fn lemma_decimal_digits(n: nat)
    ensures
        all_digits(decimal_digits(n)),
        decimal_digits(n).len() >= 1,
        decimal_value(decimal_digits(n)) == n,
        n >= 1 ==> is_nonzero_digit(decimal_digits(n)[0]),
    decreases n,
{
    let s = decimal_digits(n);
    if n < 10 {
        assert(s.drop_last() =~= Seq::<char>::empty());
        assert(decimal_value(s.drop_last()) == 0);
    } else {
        lemma_decimal_digits(n / 10);
        assert(s.drop_last() =~= decimal_digits(n / 10));
        assert(s[0] == decimal_digits(n / 10)[0]);
    }
}

/// Ten to the power of `k`.
pub open spec fn ten_to(k: nat) -> nat
    decreases k,
{
    if k == 0 {
        1
    } else {
        10 * ten_to((k - 1) as nat)
    }
}

/// A number that is ten to the power of `k` at least has more than `k`
/// digits.
pub proof fn lemma_decimal_digits_len(n: nat, k: nat)
    requires
        n >= ten_to(k),
    ensures
        decimal_digits(n).len() > k,
    decreases k,
{
    if k > 0 {
        lemma_decimal_digits_len(n / 10, (k - 1) as nat);
    }
}

/// The text of one digit.
fn digit_text(d: u64) -> (r: &'static str)
    requires
        d < 10,
    ensures
        r@ == seq![digit_char(d as nat)],
{
    proof {
        reveal_strlit("0");
        reveal_strlit("1");
        reveal_strlit("2");
        reveal_strlit("3");
        reveal_strlit("4");
        reveal_strlit("5");
        reveal_strlit("6");
        reveal_strlit("7");
        reveal_strlit("8");
        reveal_strlit("9");
    }
    let r = if d == 0 {
        "0"
    } else if d == 1 {
        "1"
    } else if d == 2 {
        "2"
    } else if d == 3 {
        "3"
    } else if d == 4 {
        "4"
    } else if d == 5 {
        "5"
    } else if d == 6 {
        "6"
    } else if d == 7 {
        "7"
    } else if d == 8 {
        "8"
    } else {
        "9"
    };
    assert(r@ =~= seq![digit_char(d as nat)]);
    r
}

/// The number `n` written in decimal digits.
pub fn decimal_text(n: u64) -> (r: String)
    ensures
        r@ == decimal_digits(n as nat),
    decreases n,
{
    if n < 10 {
        String::from_str(digit_text(n))
    } else {
        let mut r = decimal_text(n / 10);
        r.append(digit_text(n % 10));
        assert(r@ =~= decimal_digits(n as nat));
        r
    }
}

} // verus!
