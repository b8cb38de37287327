//! The text of the report.

use crate::error::Error;
use crate::readme::{Summary, Totals};
use crate::text::{append_decimal, append_padded, append_two_digits, decimal, pad_left, two_digits};
use crate::util::{calendar_date_text, day_text, iso, rfc3339_text, writable, MAX_TIMESTAMP, MIN_TIMESTAMP};
use vstd::prelude::*;
use vstd::string::*;

verus! {

pub const REPORT_HEAD: &'static str =
    "# BLAZECTL\n\n> A minimal, fast, CLI-based time tracker for disciplined solo work.\n    Run `start` / `stop` commands, store logs in JSONL, auto-generate README stats,\n    and track your **Train** and **Battle** hours with streaks and activity charts.\n\n## Field Report\n\n";

pub const TABLE_HEAD: &'static str =
    "## Daily (last 7 days)\n| Date       | Train | Battle | Total |\n|------------|-------|--------|-------|\n";

pub const REPORT_TAIL: &'static str =
    "\n## Activity Graph\n![Activity Graph](assets/activity.svg)\n(Total hours per day for the last 75 days)\n\n## Installation\n1. **Install Rust**\n   ```bash\n   curl --proto '=https' --tlsv1.2 -sSf https://sh.rustup.rs | sh\n   ```\n2. **Clone the repository**\n   ```bash\n   git clone https://github.com/0xh4ty/blazectl.git\n   cd blazectl\n   # Remove any old tracking data\n   rm -rf ~/.blaze\n   ```\n3. **Build and install**\n   ```bash\n   cargo install --path .\n   ```\n\n## Usage\nStart/stop sessions:\n```bash\nblazectl start train\nblazectl stop  train\nblazectl start battle\nblazectl stop  battle\n```\nOther commands:\n```bash\nblazectl status\nblazectl render-readme\n```\nData is stored in `.blaze/track-YYYY-MM.jsonl` (UTC timestamps, ISO-8601 durations).\nConfigure keybindings externally (WM/OS).\n\n## License\nBLAZECTL is open-source under the [MIT License](LICENSE).\n\n---\n\nGenerated by **blazectl v0.1.0**.\nCreated by [0xh4ty](https://github.com/0xh4ty) for fellow warriors.\n";

/// A duration as hours and minutes: `<h>h <mm>m`, seconds dropped.
pub open spec fn hm_text(secs: u64) -> Seq<char> {
    decimal((secs / 3600) as nat) + "h "@ + two_digits(((secs % 3600) / 60) as nat) + "m"@
}

/// The two lines that give the seconds of each activity.
pub open spec fn tag_lines(t: Totals) -> Seq<char> {
    "- Train: "@ + hm_text(t.train) + "\n- Battle: "@ + hm_text(t.battle) + "\n\n"@
}

/// The lines on the totals of all time.
pub open spec fn all_time_lines(t: Totals) -> Seq<char> {
    "- **All-time (Total):** "@ + hm_text(t.sum()) + "\n- **All-time (Train):** "@ + hm_text(
        t.train,
    ) + "\n- **All-time (Battle):** "@ + hm_text(t.battle) + "\n\n"@
}

/// The lines on the three streaks.
pub open spec fn streak_lines(any: u32, train: u32, battle: u32) -> Seq<char> {
    "## Streaks (days)\n- Any: "@ + decimal(any as nat) + "\n- Train: "@ + decimal(train as nat)
        + "\n- Battle: "@ + decimal(battle as nat) + "\n\n"@
}

/// The row of the table for one day. The columns are as wide as their headings at least.
pub open spec fn row_text(day: i64, t: Totals) -> Seq<char> {
    "| "@ + calendar_date_text((day * 86_400) as i64) + " | "@ + pad_left(hm_text(t.train), 5)
        + " | "@ + pad_left(hm_text(t.battle), 6) + " | "@ + pad_left(hm_text(t.sum()), 5)
        + " |\n"@
}

/// The rows of the table, in the order given.
pub open spec fn rows_text(rows: Seq<(i64, Totals)>) -> Seq<char>
    decreases rows.len(),
{
    if rows.len() == 0 {
        Seq::empty()
    } else {
        rows_text(rows.drop_last()) + row_text(rows.last().0, rows.last().1)
    }
}

/// Whether the rows stand in the order of their days, oldest first.
pub open spec fn ascending(rows: Seq<(i64, Totals)>) -> bool {
    forall|i: int, j: int|
        #![trigger rows[i], rows[j]]
        0 <= i < j < rows.len() ==> rows[i].0 <= rows[j].0
}

/// Whether the rows stand in the order of their days and no day comes twice.
pub open spec fn strictly_ascending(rows: Seq<(i64, Totals)>) -> bool {
    forall|i: int, j: int|
        #![trigger rows[i], rows[j]]
        0 <= i < j < rows.len() ==> rows[i].0 < rows[j].0
}

/// Whether no two rows are of one day.
pub open spec fn distinct_days(rows: Seq<(i64, Totals)>) -> bool {
    forall|i: int, j: int|
        #![trigger rows[i], rows[j]]
        0 <= i < j < rows.len() ==> rows[i].0 != rows[j].0
}

/// Where a row of `day` goes among the first `n` rows: behind the last of
/// them that is not of a later day.
pub open spec fn place(rows: Seq<(i64, Totals)>, n: int, day: i64) -> int
    decreases n,
{
    if n <= 0 {
        0
    } else if rows[n - 1].0 <= day {
        n
    } else {
        place(rows, n - 1, day)
    }
}

/// The rows in the order of their days, oldest first; rows of one day keep
/// the order in which they came.
pub open spec fn sorted_rows(rows: Seq<(i64, Totals)>) -> Seq<(i64, Totals)>
    decreases rows.len(),
{
    if rows.len() == 0 {
        rows
    } else {
        let before = sorted_rows(rows.drop_last());
        before.insert(place(before, before.len() as int, rows.last().0), rows.last())
    }
}

/// The text of the report made at `now` from the figures `s`. The rows of the
/// table stand in the order of their days, whatever their order in `s`.
pub open spec fn report_text(now: i64, s: Summary) -> Seq<char> {
    REPORT_HEAD@ + "- **Updated (UTC):** "@ + rfc3339_text(now) + "\n"@ + all_time_lines(s.all_time)
        + "## Per-tag (last 7d)\n"@ + tag_lines(s.last7) + "## Per-tag (last 30d)\n"@ + tag_lines(
        s.last30,
    ) + "## Per-tag (last 75d)\n"@ + tag_lines(s.last75) + streak_lines(
        s.streak_any,
        s.streak_train,
        s.streak_battle,
    ) + TABLE_HEAD@ + rows_text(sorted_rows(s.daily7@)) + REPORT_TAIL@
}

/// Whether the date of each row can be written.
pub open spec fn rows_writable(rows: Seq<(i64, Totals)>) -> bool {
    forall|i: int|
        0 <= i < rows.len() ==> MIN_TIMESTAMP <= (#[trigger] rows[i]).0 * 86_400 <= MAX_TIMESTAMP
}

/// Where a row goes: all rows from there on are of later days, and the row
/// before is not.
pub proof fn lemma_place(rows: Seq<(i64, Totals)>, n: int, day: i64)
    requires
        0 <= n <= rows.len(),
    ensures
        0 <= place(rows, n, day) <= n,
        forall|k: int| place(rows, n, day) <= k < n ==> (#[trigger] rows[k]).0 > day,
        place(rows, n, day) > 0 ==> rows[place(rows, n, day) - 1].0 <= day,
    decreases n,
{
    if n > 0 && rows[n - 1].0 > day {
        lemma_place(rows, n - 1, day);
    }
}

/// Sorting keeps every row, once each, and puts the rows in the order of their days.
pub proof fn lemma_sorted_rows(rows: Seq<(i64, Totals)>)
    ensures
        sorted_rows(rows).len() == rows.len(),
        sorted_rows(rows).to_multiset() == rows.to_multiset(),
        ascending(sorted_rows(rows)),
        rows_writable(sorted_rows(rows)) == rows_writable(rows),
    decreases rows.len(),
{
    broadcast use vstd::seq_lib::group_to_multiset_ensures;

    if rows.len() > 0 {
        let rest = rows.drop_last();
        let x = rows.last();
        let before = sorted_rows(rest);
        lemma_sorted_rows(rest);
        let p = place(before, before.len() as int, x.0);
        lemma_place(before, before.len() as int, x.0);
        let after = before.insert(p, x);
        assert(after == sorted_rows(rows));
        assert(rows =~= rest.push(x));
        assert(after.to_multiset() =~= rows.to_multiset());
        assert forall|i: int, j: int| 0 <= i < j < after.len() implies (#[trigger] after[i]).0 <= (
        #[trigger] after[j]).0 by {
            if j < p {
                assert(after[i] == before[i] && after[j] == before[j]);
            } else if j == p {
                assert(after[i] == before[i]);
                if i < p - 1 {
                    assert(before[i].0 <= before[p - 1].0);
                }
            } else if i < p {
                assert(after[i] == before[i] && after[j] == before[j - 1]);
            } else if i == p {
                assert(after[j] == before[j - 1]);
            } else {
                assert(after[i] == before[i - 1] && after[j] == before[j - 1]);
            }
        }
        if rows_writable(rows) {
            assert forall|k: int| 0 <= k < rest.len() implies MIN_TIMESTAMP <= (#[trigger] rest[k]).0
                * 86_400 <= MAX_TIMESTAMP by {
                assert(rest[k] == rows[k]);
            }
            assert(rows[rows.len() - 1] == x);
            assert forall|k: int| 0 <= k < after.len() implies MIN_TIMESTAMP <= (#[trigger] after[k]).0
                * 86_400 <= MAX_TIMESTAMP by {
                if k < p {
                    assert(after[k] == before[k]);
                } else if k > p {
                    assert(after[k] == before[k - 1]);
                }
            }
        }
        if rows_writable(after) {
            assert forall|k: int| 0 <= k < before.len() implies MIN_TIMESTAMP <= (
            #[trigger] before[k]).0 * 86_400 <= MAX_TIMESTAMP by {
                if k < p {
                    assert(after[k] == before[k]);
                } else {
                    assert(after[k + 1] == before[k]);
                }
            }
            assert(after[p] == x);
            assert forall|k: int| 0 <= k < rows.len() implies MIN_TIMESTAMP <= (#[trigger] rows[k]).0
                * 86_400 <= MAX_TIMESTAMP by {
                if k < rest.len() {
                    assert(rest[k] == rows[k]);
                }
            }
        }
    }
}

/// Rows of different days come out with each day before the next.
pub proof fn lemma_sorted_rows_strict(rows: Seq<(i64, Totals)>)
    requires
        distinct_days(rows),
    ensures
        strictly_ascending(sorted_rows(rows)),
{
    let sorted = sorted_rows(rows);
    lemma_sorted_rows(rows);
    assert forall|i: int, j: int| 0 <= i < j < sorted.len() implies (#[trigger] sorted[i]).0 < (
    #[trigger] sorted[j]).0 by {
        if sorted[i].0 == sorted[j].0 {
            lemma_same_day_twice(sorted, rows, i, j);
        }
    }
}

/// Two rows of one day in a list are two rows of one day in every list of the same rows.
proof fn lemma_same_day_twice(a: Seq<(i64, Totals)>, b: Seq<(i64, Totals)>, i: int, j: int)
    requires
        a.to_multiset() == b.to_multiset(),
        0 <= i < j < a.len(),
        a[i].0 == a[j].0,
    ensures
        !distinct_days(b),
{
    broadcast use vstd::multiset::group_multiset_axioms;

    let x = a[i];
    let y = a[j];
    vstd::seq_lib::to_multiset_contains(a, x);
    vstd::seq_lib::to_multiset_contains(a, y);
    vstd::seq_lib::to_multiset_contains(b, x);
    vstd::seq_lib::to_multiset_contains(b, y);
    assert(a.contains(x) && a.contains(y));
    assert(b.contains(x) && b.contains(y));
    let k = choose|k: int| 0 <= k < b.len() && b[k] == x;
    if x == y {
        let less = a.remove(j);
        assert(less[i] == x);
        assert(less.contains(x));
        vstd::seq_lib::to_multiset_contains(less, x);
        vstd::seq_lib::to_multiset_remove(a, j);
        assert(a.to_multiset().count(x) >= 2);
        let rest = b.remove(k);
        vstd::seq_lib::to_multiset_remove(b, k);
        vstd::seq_lib::to_multiset_contains(rest, x);
        assert(rest.to_multiset().count(x) >= 1);
        assert(rest.contains(x));
        let m = choose|m: int| 0 <= m < rest.len() && rest[m] == x;
        if m < k {
            assert(b[m] == x);
            assert(b[m].0 == b[k].0);
        } else {
            assert(b[m + 1] == x);
            assert(b[k].0 == b[m + 1].0);
        }
    } else {
        let m = choose|m: int| 0 <= m < b.len() && b[m] == y;
        assert(k != m);
        if k < m {
            assert(b[k].0 == b[m].0);
        } else {
            assert(b[m].0 == b[k].0);
        }
    }
}

/// Rows that stand in the order of their days stay as they are.
pub proof fn lemma_sorted_rows_of_ascending(rows: Seq<(i64, Totals)>)
    requires
        ascending(rows),
    ensures
        sorted_rows(rows) == rows,
    decreases rows.len(),
{
    if rows.len() > 0 {
        let rest = rows.drop_last();
        assert forall|i: int, j: int| 0 <= i < j < rest.len() implies (#[trigger] rest[i]).0 <= (
        #[trigger] rest[j]).0 by {
            assert(rest[i] == rows[i] && rest[j] == rows[j]);
        }
        lemma_sorted_rows_of_ascending(rest);
        if rest.len() > 0 {
            assert(rest[rest.len() - 1] == rows[rows.len() - 2]);
            assert(rows[rows.len() - 2].0 <= rows[rows.len() - 1].0);
        }
        assert(place(rest, rest.len() as int, rows.last().0) == rest.len());
        assert(rest.insert(rest.len() as int, rows.last()) =~= rows);
    }
}

/// Puts rows in the order of their days, oldest first.
pub fn sort_rows(rows: &Vec<(i64, Totals)>) -> (res: Vec<(i64, Totals)>)
    ensures
        res@ == sorted_rows(rows@),
{
    let mut res: Vec<(i64, Totals)> = Vec::new();
    let mut i: usize = 0;
    assert(rows@.take(0) =~= Seq::<(i64, Totals)>::empty());
    while i < rows.len()
        invariant
            i <= rows.len(),
            res@ == sorted_rows(rows@.take(i as int)),
            res.len() == i,
        decreases rows.len() - i,
    {
        let row = rows[i];
        let mut at: usize = res.len();
        while at > 0 && res[at - 1].0 > row.0
            invariant
                at <= res.len(),
                place(res@, res.len() as int, row.0) == place(res@, at as int, row.0),
            decreases at,
        {
            at -= 1;
        }
        proof {
            let next = rows@.take(i + 1);
            assert(next.drop_last() =~= rows@.take(i as int));
            assert(next.last() == row);
            assert(place(res@, at as int, row.0) == at);
            lemma_sorted_rows(rows@.take(i as int));
        }
        res.insert(at, row);
        i += 1;
    }
    assert(rows@.take(i as int) =~= rows@);
    res
}

fn append_hm(out: &mut String, secs: u64)
    ensures
        final(out)@ == old(out)@ + hm_text(secs),
{
    append_decimal(out, secs / 3600);
    out.append("h ");
    append_two_digits(out, (secs % 3600) / 60);
    out.append("m");
    assert(out@ =~= old(out)@ + hm_text(secs));
}

/// A duration as hours and minutes.
pub fn hm(secs: u64) -> (res: String)
    ensures
        res@ == hm_text(secs),
{
    let mut out = String::new();
    append_hm(&mut out, secs);
    assert(out@ =~= hm_text(secs));
    out
}

fn append_tag_lines(out: &mut String, t: &Totals)
    ensures
        final(out)@ == old(out)@ + tag_lines(*t),
{
    out.append("- Train: ");
    append_hm(out, t.train);
    out.append("\n- Battle: ");
    append_hm(out, t.battle);
    out.append("\n\n");
    assert(out@ =~= old(out)@ + tag_lines(*t));
}

fn append_all_time(out: &mut String, t: &Totals)
    ensures
        final(out)@ == old(out)@ + all_time_lines(*t),
{
    out.append("- **All-time (Total):** ");
    append_hm(out, t.total());
    out.append("\n- **All-time (Train):** ");
    append_hm(out, t.train);
    out.append("\n- **All-time (Battle):** ");
    append_hm(out, t.battle);
    out.append("\n\n");
    assert(out@ =~= old(out)@ + all_time_lines(*t));
}

fn append_streaks(out: &mut String, any: u32, train: u32, battle: u32)
    ensures
        final(out)@ == old(out)@ + streak_lines(any, train, battle),
{
    out.append("## Streaks (days)\n- Any: ");
    append_decimal(out, any as u64);
    out.append("\n- Train: ");
    append_decimal(out, train as u64);
    out.append("\n- Battle: ");
    append_decimal(out, battle as u64);
    out.append("\n\n");
    assert(out@ =~= old(out)@ + streak_lines(any, train, battle));
}

fn append_row(out: &mut String, day: i64, t: &Totals) -> (res: Result<(), Error>)
    ensures
        res is Ok <==> MIN_TIMESTAMP <= day * 86_400 <= MAX_TIMESTAMP,
        res is Ok ==> final(out)@ == old(out)@ + row_text(day, *t),
        res is Err ==> res == Err::<(), Error>(Error::OutOfRange),
{
    let date = match day_text(day) {
        Ok(date) => date,
        Err(err) => {
            return Err(err);
        },
    };
    out.append("| ");
    out.append(date.as_str());
    out.append(" | ");
    append_padded(out, hm(t.train).as_str(), 5);
    out.append(" | ");
    append_padded(out, hm(t.battle).as_str(), 6);
    out.append(" | ");
    append_padded(out, hm(t.total()).as_str(), 5);
    out.append(" |\n");
    assert(out@ =~= old(out)@ + row_text(day, *t));
    Ok(())
}

/// Writes the report made at `now` from the figures `s`. The rows of the
/// table are put in the order of their days.
pub fn render_md(now: i64, s: &Summary) -> (res: Result<String, Error>)
    ensures
        res is Ok <==> writable(now) && rows_writable(s.daily7@),
        res matches Ok(text) ==> text@ == report_text(now, *s),
        res is Err ==> res == Err::<String, Error>(Error::OutOfRange),
{
    let stamp = match iso(now) {
        Ok(stamp) => stamp,
        Err(err) => {
            return Err(err);
        },
    };
    let rows = sort_rows(&s.daily7);
    proof {
        lemma_sorted_rows(s.daily7@);
    }
    let mut out = String::from_str(REPORT_HEAD);
    out.append("- **Updated (UTC):** ");
    out.append(stamp.as_str());
    out.append("\n");
    append_all_time(&mut out, &s.all_time);
    out.append("## Per-tag (last 7d)\n");
    append_tag_lines(&mut out, &s.last7);
    out.append("## Per-tag (last 30d)\n");
    append_tag_lines(&mut out, &s.last30);
    out.append("## Per-tag (last 75d)\n");
    append_tag_lines(&mut out, &s.last75);
    append_streaks(&mut out, s.streak_any, s.streak_train, s.streak_battle);
    out.append(TABLE_HEAD);
    let ghost before = out@;
    let mut i: usize = 0;
    assert(rows@.take(0) =~= Seq::<(i64, Totals)>::empty());
    assert(out@ =~= before + rows_text(rows@.take(0)));
    while i < rows.len()
        invariant
            i <= rows.len(),
            out@ == before + rows_text(rows@.take(i as int)),
            rows_writable(rows@.take(i as int)),
            rows_writable(rows@) == rows_writable(s.daily7@),
        decreases rows.len() - i,
    {
        let (day, t) = rows[i];
        match append_row(&mut out, day, &t) {
            Ok(()) => {},
            Err(err) => {
                assert(!rows_writable(rows@)) by {
                    assert(rows@[i as int].0 == day);
                }
                return Err(err);
            },
        }
        proof {
            let next = rows@.take(i + 1);
            assert(next.drop_last() =~= rows@.take(i as int));
            assert(next.last() == rows@[i as int]);
            assert(out@ =~= before + rows_text(next));
            assert forall|k: int| 0 <= k < next.len() implies MIN_TIMESTAMP <= (#[trigger] next[k]).0
                * 86_400 <= MAX_TIMESTAMP by {
                if k < i {
                    assert(rows@.take(i as int)[k] == next[k]);
                }
            }
        }
        i += 1;
    }
    assert(rows@.take(i as int) =~= rows@);
    out.append(REPORT_TAIL);
    assert(out@ =~= report_text(now, *s));
    Ok(out)
}

} // verus!
