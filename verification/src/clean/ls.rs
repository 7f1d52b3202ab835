//! Snapshots and the names of the directories that hold them.

use vstd::prelude::*;
use vstd::string::StringExecFns;

use crate::text::{
    chars_of, decimal_value, is_timestamp_name, is_year_name, number_at, number_name_at, texts,
    Pattern,
};

verus! {

/// The shape of the name of a year directory, such as `2025`.
pub fn get_re_year() -> (r: Pattern)
    ensures
        r == Pattern::Year,
        forall|s: Seq<char>| r.matches(s) == is_year_name(s),
{
    Pattern::Year
}

/// The shape of the name of a snapshot directory, such as `1756392923`.
pub fn get_re_t() -> (r: Pattern)
    ensures
        r == Pattern::Timestamp,
        forall|s: Seq<char>| r.matches(s) == is_timestamp_name(s),
{
    Pattern::Timestamp
}

/// One snapshot found on disk.
#[derive(Debug, Clone)]
pub struct Snapshot {
    /// Year and timestamp joined by a slash, as in `2025/1756392923`. This is
    /// the snapshot's identity within its catalog.
    pub path: String,
    /// The year directory that the snapshot lies in.
    pub year: i32,
    /// When the snapshot was taken, in seconds since the epoch.
    pub t: u64,
    /// Whether the marker of the latest snapshot points at this one.
    pub latest: bool,
    /// Where the snapshot lies in the filesystem.
    pub p: String,
}

/// What a snapshot is, as plain values.
pub struct SnapshotView {
    pub relative_path: Seq<char>,
    pub year: int,
    pub timestamp: nat,
    pub is_latest: bool,
    pub full_path: Seq<char>,
}

impl View for Snapshot {
    type V = SnapshotView;

    open spec fn view(&self) -> SnapshotView {
        SnapshotView {
            relative_path: self.path@,
            year: self.year as int,
            timestamp: self.t as nat,
            is_latest: self.latest,
            full_path: self.p@,
        }
    }
}

/// The snapshots of `s` as plain values.
pub open spec fn views(s: Seq<Snapshot>) -> Seq<SnapshotView> {
    s.map_values(|x: Snapshot| x@)
}

/// One entry of a directory, as it was read.
#[derive(Debug, Clone)]
pub struct DirEntry {
    /// The entry's name within its directory.
    pub name: String,
    /// Whether the entry is a directory.
    pub is_dir: bool,
    /// The entry's path in the filesystem.
    pub path: String,
}

/// One entry of the catalog directory, with the entries that lie in it.
#[derive(Debug, Clone)]
pub struct YearDir {
    /// The entry's name within the catalog directory.
    pub name: String,
    /// Whether the entry is a directory.
    pub is_dir: bool,
    /// The entry's path in the filesystem.
    pub path: String,
    /// What lies in the entry. Empty unless it is a directory named like a
    /// year.
    pub entries: Vec<DirEntry>,
}

/// What a catalog holds.
#[derive(Debug, Clone)]
pub struct Listing {
    /// The snapshots, in the order in which their entries were given.
    pub snapshots: Vec<Snapshot>,
    /// The paths of the entries that are named like a year or a snapshot but
    /// are no directories.
    pub not_dirs: Vec<String>,
    /// The paths of the directories that are named like a year or a snapshot
    /// but with a number that is too large to be one.
    pub out_of_range: Vec<String>,
}

/// The entry is a year directory: it is named like a year, the year can be
/// held, and it is a directory.
pub open spec fn is_year_dir(y: YearDir) -> bool {
    is_year_name(y.name@) && decimal_value(y.name@) <= i32::MAX && y.is_dir
}

/// The entry is a snapshot directory: it is named like a timestamp, the
/// timestamp can be held, and it is a directory.
pub open spec fn is_snapshot_dir(e: DirEntry) -> bool {
    is_timestamp_name(e.name@) && decimal_value(e.name@) <= u64::MAX && e.is_dir
}

/// The relative path of the snapshot `name` in the year directory `year`.
pub open spec fn relative_path(year: Seq<char>, name: Seq<char>) -> Seq<char> {
    year + seq!['/'] + name
}

/// The snapshot that the entry `e` of the year directory `y` stands for.
/// `latest` is what the marker of the latest snapshot points at.
pub open spec fn snapshot_of(latest: Option<Seq<char>>, y: YearDir, e: DirEntry) -> SnapshotView {
    SnapshotView {
        relative_path: relative_path(y.name@, e.name@),
        year: decimal_value(y.name@) as int,
        timestamp: decimal_value(e.name@),
        is_latest: latest == Some(relative_path(y.name@, e.name@)),
        full_path: e.path@,
    }
}

/// `s` is a snapshot as a catalog holds it: its relative path is made of the
/// names of a year directory and of a snapshot directory, and its year and
/// timestamp are the numbers that the two names denote.
pub open spec fn is_catalog_snapshot(s: SnapshotView) -> bool {
    exists|year: Seq<char>, name: Seq<char>|
        is_year_name(year) && is_timestamp_name(name) && #[trigger] relative_path(year, name)
            == s.relative_path && s.year == decimal_value(year) && s.timestamp == decimal_value(
            name,
        )
}

/// The snapshots among the first `k` entries of the year directory `y`.
pub open spec fn year_snapshots(latest: Option<Seq<char>>, y: YearDir, k: nat) -> Seq<
    SnapshotView,
>
    decreases k,
{
    if k == 0 || k > y.entries@.len() {
        Seq::empty()
    } else {
        let front = year_snapshots(latest, y, (k - 1) as nat);
        let e = y.entries@[k - 1];
        if is_snapshot_dir(e) {
            front.push(snapshot_of(latest, y, e))
        } else {
            front
        }
    }
}

/// The snapshots in the first `n` entries of a catalog directory.
pub open spec fn listed(latest: Option<Seq<char>>, years: Seq<YearDir>, n: nat) -> Seq<
    SnapshotView,
>
    decreases n,
{
    if n == 0 || n > years.len() {
        Seq::empty()
    } else {
        let front = listed(latest, years, (n - 1) as nat);
        let y = years[n - 1];
        if is_year_dir(y) {
            front + year_snapshots(latest, y, y.entries@.len())
        } else {
            front
        }
    }
}

/// Among the first `k` entries of the year directory `y`, the paths of those
/// that are named like a snapshot but are no directories.
pub open spec fn year_not_dirs(y: YearDir, k: nat) -> Seq<Seq<char>>
    decreases k,
{
    if k == 0 || k > y.entries@.len() {
        Seq::empty()
    } else {
        let front = year_not_dirs(y, (k - 1) as nat);
        let e = y.entries@[k - 1];
        if is_timestamp_name(e.name@) && !e.is_dir {
            front.push(e.path@)
        } else {
            front
        }
    }
}

/// In the first `n` entries of a catalog directory, the paths of the entries
/// that are named like a year or a snapshot but are no directories.
pub open spec fn not_dirs(years: Seq<YearDir>, n: nat) -> Seq<Seq<char>>
    decreases n,
{
    if n == 0 || n > years.len() {
        Seq::empty()
    } else {
        let front = not_dirs(years, (n - 1) as nat);
        let y = years[n - 1];
        if is_year_dir(y) {
            front + year_not_dirs(y, y.entries@.len())
        } else if is_year_name(y.name@) && !y.is_dir {
            front.push(y.path@)
        } else {
            front
        }
    }
}

/// Among the first `k` entries of the year directory `y`, the paths of the
/// directories that are named like a snapshot but with a number that is too
/// large to be a timestamp.
pub open spec fn year_out_of_range(y: YearDir, k: nat) -> Seq<Seq<char>>
    decreases k,
{
    if k == 0 || k > y.entries@.len() {
        Seq::empty()
    } else {
        let front = year_out_of_range(y, (k - 1) as nat);
        let e = y.entries@[k - 1];
        if is_timestamp_name(e.name@) && e.is_dir && decimal_value(e.name@) > u64::MAX {
            front.push(e.path@)
        } else {
            front
        }
    }
}

/// In the first `n` entries of a catalog directory, the paths of the
/// directories that are named like a year or a snapshot but with a number
/// that is too large to be one. What lies in such a year directory is not
/// looked at.
pub open spec fn out_of_range(years: Seq<YearDir>, n: nat) -> Seq<Seq<char>>
    decreases n,
{
    if n == 0 || n > years.len() {
        Seq::empty()
    } else {
        let front = out_of_range(years, (n - 1) as nat);
        let y = years[n - 1];
        if is_year_dir(y) {
            front + year_out_of_range(y, y.entries@.len())
        } else if is_year_name(y.name@) && y.is_dir {
            front.push(y.path@)
        } else {
            front
        }
    }
}

/// The view of what a marker points at, if there is one.
pub open spec fn target(latest: Option<String>) -> Option<Seq<char>> {
    match latest {
        Some(p) => Some(p@),
        None => None,
    }
}

/// `s` is a snapshot as a catalog holds it, and it is marked as the latest
/// where the marker points at it and nowhere else.
pub open spec fn is_listed_rightly(latest: Option<Seq<char>>, s: SnapshotView) -> bool {
    is_catalog_snapshot(s) && s.is_latest == (latest == Some(s.relative_path))
}

/// Every snapshot that a year directory holds is listed rightly.
pub proof fn lemma_year_snapshots(latest: Option<Seq<char>>, y: YearDir, k: nat)
    requires
        is_year_dir(y),
    ensures
        forall|j: int|
            0 <= j < year_snapshots(latest, y, k).len() ==> is_listed_rightly(
                latest,
                #[trigger] year_snapshots(latest, y, k)[j],
            ),
    decreases k,
{
    if k == 0 || k > y.entries@.len() {
    } else {
        let front = year_snapshots(latest, y, (k - 1) as nat);
        let all = year_snapshots(latest, y, k);
        lemma_year_snapshots(latest, y, (k - 1) as nat);
        let e = y.entries@[k - 1];
        assert forall|j: int| 0 <= j < all.len() implies is_listed_rightly(
            latest,
            #[trigger] all[j],
        ) by {
            if j < front.len() {
                assert(all[j] == front[j]);
            } else {
                assert(all[j] == snapshot_of(latest, y, e));
                assert(relative_path(y.name@, e.name@) == all[j].relative_path);
            }
        }
    }
}

/// Every snapshot that is listed is listed rightly: it is named as the
/// catalog names its snapshots, and it is marked as the latest where the
/// marker points at it and nowhere else. Without a marker none is marked.
pub proof fn lemma_listed(latest: Option<Seq<char>>, years: Seq<YearDir>, n: nat)
    ensures
        forall|j: int|
            0 <= j < listed(latest, years, n).len() ==> is_listed_rightly(
                latest,
                #[trigger] listed(latest, years, n)[j],
            ),
        latest.is_none() ==> forall|j: int|
            0 <= j < listed(latest, years, n).len() ==> !(#[trigger] listed(
                latest,
                years,
                n,
            )[j]).is_latest,
    decreases n,
{
    let all = listed(latest, years, n);
    if n == 0 || n > years.len() {
    } else {
        let front = listed(latest, years, (n - 1) as nat);
        lemma_listed(latest, years, (n - 1) as nat);
        let y = years[n - 1];
        if is_year_dir(y) {
            let more = year_snapshots(latest, y, y.entries@.len());
            lemma_year_snapshots(latest, y, y.entries@.len());
            assert forall|j: int| 0 <= j < all.len() implies is_listed_rightly(
                latest,
                #[trigger] all[j],
            ) by {
                if j < front.len() {
                    assert(all[j] == front[j]);
                } else {
                    assert(all[j] == more[j - front.len()]);
                }
            }
        }
    }
    assert forall|j: int| 0 <= j < all.len() && latest.is_none() implies !(#[trigger] all[j])
        .is_latest by {
        assert(is_listed_rightly(latest, all[j]));
    }
}

/// A relative path tells the names that it is made of: two snapshots with
/// the same relative path lie in year directories of the same name, in
/// directories of the same name.
pub proof fn lemma_relative_path_tells_names(
    year1: Seq<char>,
    name1: Seq<char>,
    year2: Seq<char>,
    name2: Seq<char>,
)
    requires
        is_year_name(year1),
        is_year_name(year2),
        relative_path(year1, name1) == relative_path(year2, name2),
    ensures
        year1 == year2,
        name1 == name2,
{
    let p1 = relative_path(year1, name1);
    let p2 = relative_path(year2, name2);
    if year1.len() < year2.len() {
        assert(p1[year1.len() as int] == '/');
        assert(p2[year1.len() as int] == year2[year1.len() as int]);
        assert(crate::text::is_digit(year2[year1.len() as int]));
    }
    if year2.len() < year1.len() {
        assert(p2[year2.len() as int] == '/');
        assert(p1[year2.len() as int] == year1[year2.len() as int]);
        assert(crate::text::is_digit(year1[year2.len() as int]));
    }
    assert(year1 =~= p1.subrange(0, year1.len() as int));
    assert(year2 =~= p2.subrange(0, year2.len() as int));
    assert(name1 =~= p1.subrange(year1.len() as int + 1, p1.len() as int));
    assert(name2 =~= p2.subrange(year2.len() as int + 1, p2.len() as int));
}

/// No two entries of the year directory have the same name.
pub open spec fn distinct_entries(y: YearDir) -> bool {
    forall|a: int, b: int|
        0 <= a < y.entries@.len() && 0 <= b < y.entries@.len() && a != b ==> (
        #[trigger] y.entries@[a]).name@ != (#[trigger] y.entries@[b]).name@
}

/// No two entries of the catalog directory have the same name, and no two
/// entries of any one of them have. This holds of what is read from
/// directories.
pub open spec fn distinct_names(years: Seq<YearDir>) -> bool {
    &&& forall|a: int, b: int|
        0 <= a < years.len() && 0 <= b < years.len() && a != b ==> (#[trigger] years[a]).name@
            != (#[trigger] years[b]).name@
    &&& forall|a: int| 0 <= a < years.len() ==> distinct_entries(#[trigger] years[a])
}

/// The snapshot `s` lies in the year directory `y`, in one of its first `k`
/// entries.
pub open spec fn lies_in(latest: Option<Seq<char>>, y: YearDir, k: nat, s: SnapshotView) -> bool {
    exists|b: int|
        0 <= b < k && b < y.entries@.len() && is_snapshot_dir(#[trigger] y.entries@[b]) && s
            == snapshot_of(latest, y, y.entries@[b])
}

/// The snapshots of a year directory lie in it, and none of them is listed
/// twice where no two entries have the same name.
pub proof fn lemma_year_snapshots_once(latest: Option<Seq<char>>, y: YearDir, k: nat)
    requires
        is_year_dir(y),
        distinct_entries(y),
    ensures
        forall|j: int|
            0 <= j < year_snapshots(latest, y, k).len() ==> lies_in(
                latest,
                y,
                k,
                #[trigger] year_snapshots(latest, y, k)[j],
            ),
        forall|i: int, j: int|
            0 <= i < j < year_snapshots(latest, y, k).len() ==> (#[trigger] year_snapshots(
                latest,
                y,
                k,
            )[i]).relative_path != (#[trigger] year_snapshots(latest, y, k)[j]).relative_path,
    decreases k,
{
    if k == 0 || k > y.entries@.len() {
    } else {
        let front = year_snapshots(latest, y, (k - 1) as nat);
        let all = year_snapshots(latest, y, k);
        lemma_year_snapshots_once(latest, y, (k - 1) as nat);
        let e = y.entries@[k - 1];
        assert forall|j: int| 0 <= j < all.len() implies lies_in(latest, y, k, #[trigger] all[j]) by {
            if j < front.len() {
                assert(all[j] == front[j]);
                assert(lies_in(latest, y, (k - 1) as nat, front[j]));
                let b = choose|b: int|
                    0 <= b < k - 1 && b < y.entries@.len() && is_snapshot_dir(
                        #[trigger] y.entries@[b],
                    ) && front[j] == snapshot_of(latest, y, y.entries@[b]);
                assert(is_snapshot_dir(y.entries@[b]));
            } else {
                assert(all[j] == snapshot_of(latest, y, e));
                assert(is_snapshot_dir(y.entries@[k - 1]));
            }
        }
        assert forall|i: int, j: int| 0 <= i < j < all.len() implies (#[trigger] all[i]).relative_path
            != (#[trigger] all[j]).relative_path by {
            if j < front.len() {
                assert(all[i] == front[i] && all[j] == front[j]);
            } else {
                assert(all[i] == front[i]);
                assert(lies_in(latest, y, (k - 1) as nat, front[i]));
                let b = choose|b: int|
                    0 <= b < k - 1 && b < y.entries@.len() && is_snapshot_dir(
                        #[trigger] y.entries@[b],
                    ) && front[i] == snapshot_of(latest, y, y.entries@[b]);
                assert(y.entries@[b].name@ != y.entries@[k - 1].name@);
                if all[i].relative_path == all[j].relative_path {
                    lemma_relative_path_tells_names(
                        y.name@,
                        y.entries@[b].name@,
                        y.name@,
                        e.name@,
                    );
                }
            }
        }
    }
}

/// The snapshot `s` lies in one of the first `n` entries of the catalog
/// directory, which is a year directory.
pub open spec fn lies_in_catalog(
    latest: Option<Seq<char>>,
    years: Seq<YearDir>,
    n: nat,
    s: SnapshotView,
) -> bool {
    exists|a: int|
        0 <= a < n && a < years.len() && is_year_dir(#[trigger] years[a]) && lies_in(
            latest,
            years[a],
            years[a].entries@.len(),
            s,
        )
}

/// No snapshot is listed twice: where no two directories beside each other
/// have the same name, no two snapshots that are listed have the same
/// relative path.
pub proof fn lemma_listed_once(latest: Option<Seq<char>>, years: Seq<YearDir>, n: nat)
    requires
        distinct_names(years),
    ensures
        forall|j: int|
            0 <= j < listed(latest, years, n).len() ==> lies_in_catalog(
                latest,
                years,
                n,
                #[trigger] listed(latest, years, n)[j],
            ),
        forall|i: int, j: int|
            0 <= i < j < listed(latest, years, n).len() ==> (#[trigger] listed(
                latest,
                years,
                n,
            )[i]).relative_path != (#[trigger] listed(latest, years, n)[j]).relative_path,
    decreases n,
{
    let all = listed(latest, years, n);
    if n == 0 || n > years.len() {
    } else {
        let front = listed(latest, years, (n - 1) as nat);
        lemma_listed_once(latest, years, (n - 1) as nat);
        let y = years[n - 1];
        assert forall|j: int| 0 <= j < front.len() implies lies_in_catalog(
            latest,
            years,
            n,
            #[trigger] front[j],
        ) by {
            assert(lies_in_catalog(latest, years, (n - 1) as nat, front[j]));
            let a = choose|a: int|
                0 <= a < n - 1 && a < years.len() && is_year_dir(#[trigger] years[a]) && lies_in(
                    latest,
                    years[a],
                    years[a].entries@.len(),
                    front[j],
                );
            assert(is_year_dir(years[a]));
        }
        if is_year_dir(y) {
            let more = year_snapshots(latest, y, y.entries@.len());
            assert(distinct_entries(years[n - 1]));
            lemma_year_snapshots_once(latest, y, y.entries@.len());
            assert forall|j: int| 0 <= j < all.len() implies lies_in_catalog(
                latest,
                years,
                n,
                #[trigger] all[j],
            ) by {
                if j < front.len() {
                    assert(all[j] == front[j]);
                } else {
                    assert(all[j] == more[j - front.len()]);
                    assert(is_year_dir(years[n - 1]));
                }
            }
            assert forall|i: int, j: int| 0 <= i < j < all.len() implies (#[trigger] all[i])
                .relative_path != (#[trigger] all[j]).relative_path by {
                if j < front.len() {
                    assert(all[i] == front[i] && all[j] == front[j]);
                } else if i >= front.len() {
                    assert(all[i] == more[i - front.len()] && all[j] == more[j - front.len()]);
                } else {
                    assert(all[i] == front[i] && all[j] == more[j - front.len()]);
                    assert(lies_in_catalog(latest, years, (n - 1) as nat, front[i]));
                    let a = choose|a: int|
                        0 <= a < n - 1 && a < years.len() && is_year_dir(#[trigger] years[a])
                            && lies_in(latest, years[a], years[a].entries@.len(), front[i]);
                    let b = choose|b: int|
                        0 <= b < years[a].entries@.len() && is_snapshot_dir(
                            #[trigger] years[a].entries@[b],
                        ) && front[i] == snapshot_of(latest, years[a], years[a].entries@[b]);
                    assert(lies_in(latest, y, y.entries@.len(), more[j - front.len()]));
                    let d = choose|d: int|
                        0 <= d < y.entries@.len() && is_snapshot_dir(#[trigger] y.entries@[d])
                            && more[j - front.len()] == snapshot_of(latest, y, y.entries@[d]);
                    assert(years[a].name@ != years[n - 1].name@);
                    if all[i].relative_path == all[j].relative_path {
                        lemma_relative_path_tells_names(
                            years[a].name@,
                            years[a].entries@[b].name@,
                            y.name@,
                            y.entries@[d].name@,
                        );
                    }
                }
            }
        }
    }
}

/// Lists the snapshots of a catalog from the entries of its directory.
///
/// `latest` is what the marker of the latest snapshot points at, if the
/// marker is there; `years` holds the entries of the catalog directory. An
/// entry counts where its name has the shape of a year and it is a
/// directory, and in it an entry counts where its name has the shape of a
/// timestamp and it is a directory. Every other entry is passed over, and
/// the listing goes on. Of those passed over, the ones with a name of the
/// right shape are reported: those that are no directories, and those whose
/// number is too large.
pub fn ls_snapshot(latest: Option<String>, years: Vec<YearDir>) -> (r: Listing)
    ensures
        views(r.snapshots@) == listed(target(latest), years@, years@.len()),
        texts(r.not_dirs@) == not_dirs(years@, years@.len()),
        texts(r.out_of_range@) == out_of_range(years@, years@.len()),
        forall|j: int|
            0 <= j < r.snapshots@.len() ==> is_listed_rightly(
                target(latest),
                (#[trigger] r.snapshots@[j])@,
            ),
        distinct_names(years@) ==> forall|i: int, j: int|
            0 <= i < j < r.snapshots@.len() ==> (#[trigger] r.snapshots@[i]).path@ != (
            #[trigger] r.snapshots@[j]).path@,
{
    let mut snapshots: Vec<Snapshot> = Vec::new();
    let mut odd: Vec<String> = Vec::new();
    let mut large: Vec<String> = Vec::new();
    let ghost mark = target(latest);
    let mut i: usize = 0;
    while i < years.len()
        invariant
            i <= years@.len(),
            mark == target(latest),
            views(snapshots@) == listed(mark, years@, i as nat),
            texts(odd@) == not_dirs(years@, i as nat),
            texts(large@) == out_of_range(years@, i as nat),
        decreases years@.len() - i,
    {
        let y = &years[i];
        let year_chars = chars_of(y.name.as_str());
        proof {
            assert(year_chars@.subrange(0, year_chars@.len() as int) =~= y.name@);
        }
        if number_name_at(&year_chars, 0, year_chars.len(), 4) {
            if !y.is_dir {
                push_text(&mut odd, &y.path);
            } else {
                match year_number(&year_chars) {
                    Some(year) => {
                        let ghost before = snapshots@;
                        let ghost odd_before = odd@;
                        let ghost large_before = large@;
                        let mut k: usize = 0;
                        while k < y.entries.len()
                            invariant
                                k <= y.entries@.len(),
                                i < years@.len(),
                                *y == years@[i as int],
                                is_year_dir(*y),
                                year == decimal_value(y.name@),
                                mark == target(latest),
                                views(snapshots@) == views(before) + year_snapshots(
                                    mark,
                                    *y,
                                    k as nat,
                                ),
                                texts(odd@) == texts(odd_before) + year_not_dirs(*y, k as nat),
                                texts(large@) == texts(large_before) + year_out_of_range(
                                    *y,
                                    k as nat,
                                ),
                            decreases y.entries@.len() - k,
                        {
                            let e = &y.entries[k];
                            let name_chars = chars_of(e.name.as_str());
                            proof {
                                assert(name_chars@.subrange(0, name_chars@.len() as int)
                                    =~= e.name@);
                            }
                            if number_name_at(&name_chars, 0, name_chars.len(), 10) {
                                if !e.is_dir {
                                    push_text(&mut odd, &e.path);
                                    assert(texts(odd_before) + year_not_dirs(*y, k as nat).push(
                                        e.path@,
                                    ) =~= (texts(odd_before) + year_not_dirs(*y, k as nat)).push(
                                        e.path@,
                                    ));
                                } else {
                                    match number_at(&name_chars, 0, name_chars.len()) {
                                        Some(t) => {
                                            let found = snapshot_at(&latest, y, e, year, t);
                                            proof {
                                                assert(views(snapshots@.push(found)) =~= views(
                                                    snapshots@,
                                                ).push(found@));
                                                assert(views(before) + year_snapshots(
                                                    mark,
                                                    *y,
                                                    k as nat,
                                                ).push(found@) =~= (views(before)
                                                    + year_snapshots(mark, *y, k as nat)).push(
                                                    found@,
                                                ));
                                            }
                                            snapshots.push(found);
                                        },
                                        None => {
                                            push_text(&mut large, &e.path);
                                            assert(texts(large_before) + year_out_of_range(
                                                *y,
                                                k as nat,
                                            ).push(e.path@) =~= (texts(large_before)
                                                + year_out_of_range(*y, k as nat)).push(e.path@));
                                        },
                                    }
                                }
                            }
                            k = k + 1;
                        }
                    },
                    None => {
                        push_text(&mut large, &y.path);
                    },
                }
            }
        }
        i = i + 1;
    }
    proof {
        lemma_listed(mark, years@, years@.len());
        assert forall|j: int| 0 <= j < snapshots@.len() implies is_listed_rightly(
            mark,
            (#[trigger] snapshots@[j])@,
        ) by {
            assert(views(snapshots@)[j] == snapshots@[j]@);
        }
    }
    proof {
        if distinct_names(years@) {
            lemma_listed_once(mark, years@, years@.len());
            assert forall|i: int, j: int| 0 <= i < j < snapshots@.len() implies (
            #[trigger] snapshots@[i]).path@ != (#[trigger] snapshots@[j]).path@ by {
                assert(views(snapshots@)[i] == snapshots@[i]@);
                assert(views(snapshots@)[j] == snapshots@[j]@);
            }
        }
    }
    Listing { snapshots, not_dirs: odd, out_of_range: large }
}

/// Puts a copy of `text` behind the texts of `list`.
fn push_text(list: &mut Vec<String>, text: &String)
    ensures
        texts(final(list)@) == texts(old(list)@).push(text@),
{
    let copy = text.clone();
    proof {
        assert(texts(list@.push(copy)) =~= texts(list@).push(copy@));
    }
    list.push(copy);
}

/// The year that the digits of `name` denote, or `None` where it is too
/// large to be held.
fn year_number(name: &Vec<char>) -> (r: Option<i32>)
    requires
        crate::text::all_digits(name@),
    ensures
        r == if decimal_value(name@) <= i32::MAX {
            Some(decimal_value(name@) as i32)
        } else {
            None
        },
{
    proof {
        assert(name@.subrange(0, name@.len() as int) =~= name@);
    }
    match number_at(name, 0, name.len()) {
        Some(v) => if v > 0x7fff_ffff {
            None
        } else {
            Some(v as i32)
        },
        None => None,
    }
}

/// The snapshot in the directory `e` of the year directory `y`, whose names
/// denote the year `year` and the timestamp `t`.
fn snapshot_at(latest: &Option<String>, y: &YearDir, e: &DirEntry, year: i32, t: u64) -> (r:
    Snapshot)
    requires
        year == decimal_value(y.name@),
        t == decimal_value(e.name@),
    ensures
        r@ == snapshot_of(target(*latest), *y, *e),
{
    let mut path = y.name.clone();
    path.append("/");
    path.append(e.name.as_str());
    proof {
        reveal_strlit("/");
        assert("/"@ =~= seq!['/']);
        assert(path@ == relative_path(y.name@, e.name@));
    }
    let is_latest = match latest {
        Some(p) => path == *p,
        None => false,
    };
    Snapshot { path, year, t, latest: is_latest, p: e.path.clone() }
}

} // verus!
