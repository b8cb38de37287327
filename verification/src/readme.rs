//! The report: per-day totals, rolling windows and streaks over all records.
//!
//! Every figure is defined over the sequence of records as a sum of natural
//! numbers. The executable code keeps sums in 64 bits and lets them stop at
//! the largest value: what it reports is the true sum cut off there (`clip`).

use crate::chart::{area_chart, ascii_area};
use crate::curve::{is_curve, trend_curve, trend_points, Knot};
use crate::error::Error;
use crate::report::{
    ascending, lemma_sorted_rows_of_ascending, render_md, report_text, rows_writable, sorted_rows,
    strictly_ascending,
};
use crate::store::{Entry, Tag};
use crate::trend::{
    axis_range, cuts, daily_minutes, series_max, series_min, trend_buckets, trend_width, y_domain,
    Bucket,
};
use crate::util::{day_of, utc_day, writable, MIN_TIMESTAMP};
use std::collections::HashMap;
use vstd::prelude::*;
use vstd::std_specs::hash::*;

verus! {

/// Seconds of each activity.
#[derive(Clone, Copy, Debug, PartialEq, Eq, Structural)]
pub struct Totals {
    pub train: u64,
    pub battle: u64,
}

/// A sum as 64 bits hold it: itself, or the largest value where it is larger.
pub open spec fn clip(n: int) -> u64 {
    if n > u64::MAX {
        u64::MAX
    } else if n < 0 {
        0
    } else {
        n as u64
    }
}

impl Totals {
    pub open spec fn of(self, tag: Tag) -> u64 {
        match tag {
            Tag::Train => self.train,
            Tag::Battle => self.battle,
        }
    }

    /// The totals after `secs` more seconds of an activity.
    pub open spec fn plus(self, tag: Tag, secs: u64) -> Totals {
        match tag {
            Tag::Train => Totals { train: clip(self.train + secs), battle: self.battle },
            Tag::Battle => Totals { train: self.train, battle: clip(self.battle + secs) },
        }
    }

    /// Both activities together.
    pub open spec fn sum(self) -> u64 {
        clip(self.train + self.battle)
    }

    pub fn zero() -> (res: Totals)
        ensures
            res == (Totals { train: 0, battle: 0 }),
    {
        Totals { train: 0, battle: 0 }
    }

    pub fn add(&mut self, tag: Tag, secs: u64)
        ensures
            *final(self) == old(self).plus(tag, secs),
    {
        match tag {
            Tag::Train => {
                self.train = self.train.saturating_add(secs);
            },
            Tag::Battle => {
                self.battle = self.battle.saturating_add(secs);
            },
        }
    }

    pub fn total(&self) -> (res: u64)
        ensures
            res == self.sum(),
    {
        self.train.saturating_add(self.battle)
    }
}

/// The UTC day on which a record's session began. A session counts on that day
/// in full, also where it ran past midnight.
pub open spec fn entry_day(e: Entry) -> int {
    utc_day(e.start as int)
}

/// What a record adds to the seconds of `tag` on the days `lo` to `hi`.
pub open spec fn counted(e: Entry, lo: int, hi: int, tag: Tag) -> nat {
    if e.activity == tag && lo <= entry_day(e) <= hi {
        e.duration as nat
    } else {
        0
    }
}

/// The seconds of `tag` in the records that began on the days `lo` to `hi`, both included.
pub open spec fn seconds_in(entries: Seq<Entry>, lo: int, hi: int, tag: Tag) -> nat
    decreases entries.len(),
{
    if entries.len() == 0 {
        0
    } else {
        seconds_in(entries.drop_last(), lo, hi, tag) + counted(entries.last(), lo, hi, tag)
    }
}

/// The seconds of `tag` in the records that began on one day.
pub open spec fn seconds_on(entries: Seq<Entry>, day: int, tag: Tag) -> nat {
    seconds_in(entries, day, day, tag)
}

/// The seconds of `tag` in all records.
pub open spec fn seconds_ever(entries: Seq<Entry>, tag: Tag) -> nat
    decreases entries.len(),
{
    if entries.len() == 0 {
        0
    } else {
        seconds_ever(entries.drop_last(), tag) + (if entries.last().activity == tag {
            entries.last().duration as nat
        } else {
            0
        })
    }
}

/// The totals of the days `lo` to `hi`, as reported.
pub open spec fn window_totals(entries: Seq<Entry>, lo: int, hi: int) -> Totals {
    Totals {
        train: clip(seconds_in(entries, lo, hi, Tag::Train) as int),
        battle: clip(seconds_in(entries, lo, hi, Tag::Battle) as int),
    }
}

/// The totals of one day, as reported.
pub open spec fn day_totals(entries: Seq<Entry>, day: int) -> Totals {
    window_totals(entries, day, day)
}

/// The totals of all records, as reported.
pub open spec fn all_time_totals(entries: Seq<Entry>) -> Totals {
    Totals {
        train: clip(seconds_ever(entries, Tag::Train) as int),
        battle: clip(seconds_ever(entries, Tag::Battle) as int),
    }
}

/// What a per-day table holds for a day: nothing recorded counts as zero.
pub open spec fn tallied(per_day: Map<i64, Totals>, day: i64) -> Totals {
    if per_day.contains_key(day) {
        per_day[day]
    } else {
        Totals { train: 0, battle: 0 }
    }
}

/// Whether a per-day table holds the totals of the records, day by day.
pub open spec fn tallies(per_day: Map<i64, Totals>, entries: Seq<Entry>) -> bool {
    forall|day: i64| #[trigger] tallied(per_day, day) == day_totals(entries, day as int)
}

/// The order of the records does not matter to the seconds of any span of days.
pub proof fn lemma_order_independent(a: Seq<Entry>, b: Seq<Entry>, lo: int, hi: int, tag: Tag)
    requires
        a.to_multiset() == b.to_multiset(),
    ensures
        seconds_in(a, lo, hi, tag) == seconds_in(b, lo, hi, tag),
    decreases a.len(),
{
    broadcast use vstd::seq_lib::group_to_multiset_ensures;

    a.to_multiset_ensures();
    b.to_multiset_ensures();
    if a.len() == 0 {
        assert(b.len() == 0);
    } else {
        let x = a.last();
        assert(a.contains(x)) by {
            assert(a[a.len() - 1] == x);
        }
        assert(b.to_multiset().count(x) > 0);
        assert(b.contains(x));
        let i = choose|i: int| 0 <= i < b.len() && b[i] == x;
        let rest = b.remove(i);
        assert(a.drop_last() =~= a.remove(a.len() - 1));
        assert(a.drop_last().to_multiset() =~= rest.to_multiset());
        lemma_order_independent(a.drop_last(), rest, lo, hi, tag);
        lemma_seconds_remove(b, i, lo, hi, tag);
    }
}

/// Taking one record out takes out what it counted.
pub proof fn lemma_seconds_remove(s: Seq<Entry>, i: int, lo: int, hi: int, tag: Tag)
    requires
        0 <= i < s.len(),
    ensures
        seconds_in(s, lo, hi, tag) == seconds_in(s.remove(i), lo, hi, tag) + counted(
            s[i],
            lo,
            hi,
            tag,
        ),
    decreases s.len(),
{
    if i == s.len() - 1 {
        assert(s.remove(i) =~= s.drop_last());
    } else {
        lemma_seconds_remove(s.drop_last(), i, lo, hi, tag);
        assert(s.remove(i).drop_last() =~= s.drop_last().remove(i));
        assert(s.remove(i).last() == s.last());
    }
}

/// Records read in two parts give the seconds of the parts together, whichever part comes first.
pub proof fn lemma_seconds_concat(a: Seq<Entry>, b: Seq<Entry>, lo: int, hi: int, tag: Tag)
    ensures
        seconds_in(a + b, lo, hi, tag) == seconds_in(a, lo, hi, tag) + seconds_in(b, lo, hi, tag),
        seconds_in(a + b, lo, hi, tag) == seconds_in(b + a, lo, hi, tag),
    decreases b.len(),
{
    lemma_seconds_add(a, b, lo, hi, tag);
    lemma_seconds_add(b, a, lo, hi, tag);
}

proof fn lemma_seconds_add(a: Seq<Entry>, b: Seq<Entry>, lo: int, hi: int, tag: Tag)
    ensures
        seconds_in(a + b, lo, hi, tag) == seconds_in(a, lo, hi, tag) + seconds_in(b, lo, hi, tag),
    decreases b.len(),
{
    if b.len() == 0 {
        assert(a + b =~= a);
    } else {
        assert((a + b).drop_last() =~= a + b.drop_last());
        assert((a + b).last() == b.last());
        lemma_seconds_add(a, b.drop_last(), lo, hi, tag);
    }
}

/// The per-day totals, and with them every figure of the report, are the same
/// for any two orders of the same records.
pub proof fn lemma_totals_order_independent(a: Seq<Entry>, b: Seq<Entry>)
    requires
        a.to_multiset() == b.to_multiset(),
    ensures
        forall|day: int| #[trigger] day_totals(a, day) == day_totals(b, day),
        forall|lo: int, hi: int| #[trigger] window_totals(a, lo, hi) == window_totals(b, lo, hi),
        all_time_totals(a) == all_time_totals(b),
{
    assert forall|lo: int, hi: int| #[trigger] window_totals(a, lo, hi) == window_totals(b, lo, hi) by {
        lemma_order_independent(a, b, lo, hi, Tag::Train);
        lemma_order_independent(a, b, lo, hi, Tag::Battle);
    }
    assert forall|day: int| #[trigger] day_totals(a, day) == day_totals(b, day) by {
        assert(window_totals(a, day, day) == window_totals(b, day, day));
    }
    lemma_ever_is_window(a, Tag::Train);
    lemma_ever_is_window(a, Tag::Battle);
    lemma_ever_is_window(b, Tag::Train);
    lemma_ever_is_window(b, Tag::Battle);
    lemma_order_independent(a, b, i64::MIN as int, i64::MAX as int, Tag::Train);
    lemma_order_independent(a, b, i64::MIN as int, i64::MAX as int, Tag::Battle);
}

/// All records lie in the span of all days.
pub proof fn lemma_ever_is_window(entries: Seq<Entry>, tag: Tag)
    ensures
        seconds_ever(entries, tag) == seconds_in(entries, i64::MIN as int, i64::MAX as int, tag),
    decreases entries.len(),
{
    if entries.len() > 0 {
        lemma_ever_is_window(entries.drop_last(), tag);
    }
}

/// A span of days on which no record began has zero seconds of either activity.
pub proof fn lemma_empty_window(entries: Seq<Entry>, lo: int, hi: int)
    requires
        forall|i: int| 0 <= i < entries.len() ==> !(lo <= entry_day(#[trigger] entries[i]) <= hi),
    ensures
        seconds_in(entries, lo, hi, Tag::Train) == 0,
        seconds_in(entries, lo, hi, Tag::Battle) == 0,
        window_totals(entries, lo, hi) == (Totals { train: 0, battle: 0 }),
    decreases entries.len(),
{
    if entries.len() > 0 {
        assert(!(lo <= entry_day(entries[entries.len() - 1]) <= hi));
        lemma_empty_window(entries.drop_last(), lo, hi);
    }
}

/// A span of days is its last day and the days before it.
pub proof fn lemma_window_last_day(entries: Seq<Entry>, lo: int, hi: int, tag: Tag)
    requires
        lo <= hi,
    ensures
        seconds_in(entries, lo, hi, tag) == seconds_in(entries, lo, hi - 1, tag) + seconds_on(
            entries,
            hi,
            tag,
        ),
    decreases entries.len(),
{
    if entries.len() > 0 {
        lemma_window_last_day(entries.drop_last(), lo, hi, tag);
    }
}

/// The totals of all records.
pub fn all_time(entries: &Vec<Entry>) -> (res: Totals)
    ensures
        res == all_time_totals(entries@),
{
    let mut res = Totals::zero();
    let mut i: usize = 0;
    while i < entries.len()
        invariant
            i <= entries.len(),
            res == all_time_totals(entries@.take(i as int)),
        decreases entries.len() - i,
    {
        let e = entries[i];
        proof {
            let next = entries@.take(i + 1);
            assert(next.drop_last() =~= entries@.take(i as int));
            assert(next.last() == e);
        }
        res.add(e.activity, e.duration);
        i += 1;
    }
    assert(entries@.take(i as int) =~= entries@);
    res
}

/// The table of totals by the UTC day on which each session began.
pub fn per_day_totals(entries: &Vec<Entry>) -> (per_day: HashMap<i64, Totals>)
    ensures
        tallies(per_day@, entries@),
{
    broadcast use vstd::std_specs::hash::group_hash_axioms;

    let mut per_day: HashMap<i64, Totals> = HashMap::new();
    let mut i: usize = 0;
    while i < entries.len()
        invariant
            i <= entries.len(),
            tallies(per_day@, entries@.take(i as int)),
        decreases entries.len() - i,
    {
        let e = entries[i];
        let day = day_of(e.start);
        let mut t = match per_day.get(&day) {
            Some(t) => *t,
            None => Totals::zero(),
        };
        let ghost before = per_day@;
        assert(t == tallied(before, day));
        t.add(e.activity, e.duration);
        per_day.insert(day, t);
        proof {
            let prev = entries@.take(i as int);
            let next = entries@.take(i + 1);
            assert(next.drop_last() =~= prev);
            assert(next.last() == e);
            assert forall|d: i64| #[trigger] tallied(per_day@, d) == day_totals(next, d as int) by {
                assert(tallied(before, d) == day_totals(prev, d as int));
            }
        }
        i += 1;
    }
    assert(entries@.take(i as int) =~= entries@);
    per_day
}

/// What a streak counts.
#[derive(Clone, Copy, Debug, PartialEq, Eq, Structural)]
pub enum Streak {
    /// Days with any tracked time.
    Any,
    /// Days with time of `train`.
    Train,
    /// Days with time of `battle`.
    Battle,
}

/// The longest streak that is counted: the walk back from today ends there.
pub const STREAK_CAP: u32 = 365;

/// Whether a day with these totals counts for a streak.
pub open spec fn counts_for(t: Totals, kind: Streak) -> bool {
    match kind {
        Streak::Any => t.sum() > 0,
        Streak::Train => t.train > 0,
        Streak::Battle => t.battle > 0,
    }
}

/// Whether the records make `day` count for a streak.
pub open spec fn active_on(entries: Seq<Entry>, day: int, kind: Streak) -> bool {
    match kind {
        Streak::Any => seconds_on(entries, day, Tag::Train) + seconds_on(entries, day, Tag::Battle)
            > 0,
        Streak::Train => seconds_on(entries, day, Tag::Train) > 0,
        Streak::Battle => seconds_on(entries, day, Tag::Battle) > 0,
    }
}

/// Whether `n` is the streak that ends on `today`: the `n` days up to `today`
/// all count, and the day before them does not, unless the cap is reached.
pub open spec fn is_streak(entries: Seq<Entry>, today: int, kind: Streak, n: int) -> bool {
    &&& 0 <= n <= STREAK_CAP
    &&& forall|k: int| 0 <= k < n ==> #[trigger] active_on(entries, today - k, kind)
    &&& n < STREAK_CAP ==> !active_on(entries, today - n, kind)
}

/// The same, read from a per-day table.
pub open spec fn is_table_streak(per_day: Map<i64, Totals>, today: int, kind: Streak, n: int) -> bool {
    &&& 0 <= n <= STREAK_CAP
    &&& forall|k: int|
        0 <= k < n ==> counts_for(#[trigger] tallied(per_day, (today - k) as i64), kind)
    &&& n < STREAK_CAP ==> !counts_for(tallied(per_day, (today - n) as i64), kind)
}

/// At most one number is the streak.
pub proof fn lemma_streak_unique(entries: Seq<Entry>, today: int, kind: Streak, n: int, m: int)
    requires
        is_streak(entries, today, kind, n),
        is_streak(entries, today, kind, m),
    ensures
        n == m,
{
    if n < m {
        assert(active_on(entries, today - n, kind));
    } else if m < n {
        assert(active_on(entries, today - m, kind));
    }
}

/// A day counts by the table exactly if it counts by the records.
pub proof fn lemma_counts(per_day: Map<i64, Totals>, entries: Seq<Entry>, day: i64, kind: Streak)
    requires
        tallies(per_day, entries),
    ensures
        counts_for(tallied(per_day, day), kind) == active_on(entries, day as int, kind),
{
    assert(tallied(per_day, day) == day_totals(entries, day as int));
}

/// A streak read from the table of some records is the streak of the records.
pub proof fn lemma_table_streak(
    per_day: Map<i64, Totals>,
    entries: Seq<Entry>,
    today: i64,
    kind: Streak,
    n: int,
)
    requires
        tallies(per_day, entries),
        is_table_streak(per_day, today as int, kind, n),
        today - STREAK_CAP >= i64::MIN,
    ensures
        is_streak(entries, today as int, kind, n),
{
    assert forall|k: int| 0 <= k < n implies #[trigger] active_on(entries, today - k, kind) by {
        assert(counts_for(tallied(per_day, (today - k) as i64), kind));
        lemma_counts(per_day, entries, (today - k) as i64, kind);
    }
    if n < STREAK_CAP {
        lemma_counts(per_day, entries, (today - n) as i64, kind);
    }
}

fn counts(t: &Totals, kind: Streak) -> (res: bool)
    ensures
        res == counts_for(*t, kind),
{
    match kind {
        Streak::Any => t.total() > 0,
        Streak::Train => t.train > 0,
        Streak::Battle => t.battle > 0,
    }
}

/// What the table holds for a day.
pub fn lookup(per_day: &HashMap<i64, Totals>, day: i64) -> (res: Totals)
    ensures
        res == tallied(per_day@, day),
{
    broadcast use vstd::std_specs::hash::group_hash_axioms;

    match per_day.get(&day) {
        Some(t) => *t,
        None => Totals::zero(),
    }
}

/// The streak that ends on the UTC day of `now`: how many days in a row, back
/// from that day, count for `kind`; at most `STREAK_CAP`.
pub fn streak_days(per_day: &HashMap<i64, Totals>, now: i64, kind: Streak) -> (count: u32)
    ensures
        is_table_streak(per_day@, utc_day(now as int), kind, count as int),
{
    let today = day_of(now);
    let mut count: u32 = 0;
    while count < STREAK_CAP
        invariant
            today == utc_day(now as int),
            0 <= count <= STREAK_CAP,
            forall|k: int|
                0 <= k < count ==> counts_for(
                    #[trigger] tallied(per_day@, (today - k) as i64),
                    kind,
                ),
        decreases STREAK_CAP - count,
    {
        let t = lookup(per_day, today - count as i64);
        if !counts(&t, kind) {
            return count;
        }
        count += 1;
    }
    count
}

/// The `n` UTC days up to the day of `now`, oldest first.
pub fn days_back(now: i64, n: u32) -> (days: Vec<i64>)
    ensures
        days.len() == n,
        forall|i: int| 0 <= i < n ==> #[trigger] days[i] == utc_day(now as int) - (n - 1 - i),
{
    let today = day_of(now);
    let mut days: Vec<i64> = Vec::new();
    let mut i: u32 = 0;
    while i < n
        invariant
            i <= n,
            today == utc_day(now as int),
            days.len() == i,
            forall|k: int| 0 <= k < i ==> #[trigger] days[k] == today - (n - 1 - k),
        decreases n - i,
    {
        days.push(today - (n - 1 - i) as i64);
        i += 1;
    }
    days
}

/// The seconds of `tag` that the table holds for the listed days, added up.
pub open spec fn listed_seconds(per_day: Map<i64, Totals>, days: Seq<i64>, tag: Tag) -> nat
    decreases days.len(),
{
    if days.len() == 0 {
        0
    } else {
        listed_seconds(per_day, days.drop_last(), tag) + tallied(per_day, days.last()).of(tag) as nat
    }
}

/// The totals of the listed days.
pub fn sum_over(per_day: &HashMap<i64, Totals>, days: &Vec<i64>) -> (res: Totals)
    ensures
        res.train == clip(listed_seconds(per_day@, days@, Tag::Train) as int),
        res.battle == clip(listed_seconds(per_day@, days@, Tag::Battle) as int),
{
    let mut res = Totals::zero();
    let mut i: usize = 0;
    while i < days.len()
        invariant
            i <= days.len(),
            res.train == clip(listed_seconds(per_day@, days@.take(i as int), Tag::Train) as int),
            res.battle == clip(listed_seconds(per_day@, days@.take(i as int), Tag::Battle) as int),
        decreases days.len() - i,
    {
        let t = lookup(per_day, days[i]);
        proof {
            let next = days@.take(i + 1);
            assert(next.drop_last() =~= days@.take(i as int));
            assert(next.last() == days@[i as int]);
        }
        res.add(Tag::Train, t.train);
        res.add(Tag::Battle, t.battle);
        i += 1;
    }
    assert(days@.take(i as int) =~= days@);
    res
}

/// Whether `days` lists the days `lo` to `hi` one by one, in order.
pub open spec fn lists_days(days: Seq<i64>, lo: int, hi: int) -> bool {
    &&& days.len() == hi - lo + 1
    &&& forall|i: int| 0 <= i < days.len() ==> #[trigger] days[i] == lo + i
}

/// The totals of a list of days in a row, taken from the table of some
/// records, are the totals of the records that began on those days.
pub proof fn lemma_listed_is_window(
    per_day: Map<i64, Totals>,
    entries: Seq<Entry>,
    days: Seq<i64>,
    lo: int,
    hi: int,
    tag: Tag,
)
    requires
        tallies(per_day, entries),
        lists_days(days, lo, hi),
        lo <= hi + 1,
    ensures
        clip(listed_seconds(per_day, days, tag) as int) == clip(
            seconds_in(entries, lo, hi, tag) as int,
        ),
    decreases days.len(),
{
    if days.len() == 0 {
        lemma_window_void(entries, lo, hi, tag);
    } else {
        let rest = days.drop_last();
        assert(lists_days(rest, lo, hi - 1));
        lemma_listed_is_window(per_day, entries, rest, lo, hi - 1, tag);
        lemma_window_last_day(entries, lo, hi, tag);
        assert(days.last() == hi);
        assert(tallied(per_day, days.last()) == day_totals(entries, hi));
    }
}

/// A span that ends before it begins holds nothing.
pub proof fn lemma_window_void(entries: Seq<Entry>, lo: int, hi: int, tag: Tag)
    requires
        hi < lo,
    ensures
        seconds_in(entries, lo, hi, tag) == 0,
    decreases entries.len(),
{
    if entries.len() > 0 {
        lemma_window_void(entries.drop_last(), lo, hi, tag);
    }
}

/// Whole minutes in a number of seconds.
pub fn minutes(secs: u64) -> (res: u64)
    ensures
        res == secs / 60,
{
    secs / 60
}

/// The figures of the report.
#[derive(Clone, Debug, PartialEq, Eq)]
pub struct Summary {
    pub all_time: Totals,
    pub last7: Totals,
    pub last30: Totals,
    pub last75: Totals,
    /// The last seven days with their totals, oldest first.
    pub daily7: Vec<(i64, Totals)>,
    pub streak_any: u32,
    pub streak_train: u32,
    pub streak_battle: u32,
}

/// Whether `s` holds the figures of the records for a report made on `today`.
pub open spec fn is_summary(s: Summary, entries: Seq<Entry>, today: int) -> bool {
    &&& s.all_time == all_time_totals(entries)
    &&& s.last7 == window_totals(entries, today - 6, today)
    &&& s.last30 == window_totals(entries, today - 29, today)
    &&& s.last75 == window_totals(entries, today - 74, today)
    &&& s.daily7.len() == 7
    &&& forall|i: int|
        0 <= i < 7 ==> #[trigger] s.daily7[i] == (
            (today - 6 + i) as i64,
            day_totals(entries, today - 6 + i),
        )
    &&& is_streak(entries, today, Streak::Any, s.streak_any as int)
    &&& is_streak(entries, today, Streak::Train, s.streak_train as int)
    &&& is_streak(entries, today, Streak::Battle, s.streak_battle as int)
}

/// The rows of a summary stand in the order of their days, each day once, so
/// that the report shows them as they are.
pub proof fn lemma_summary_rows(s: Summary, entries: Seq<Entry>, today: int)
    requires
        is_summary(s, entries, today),
        i64::MIN <= today - 6,
        today <= i64::MAX,
    ensures
        strictly_ascending(s.daily7@),
        sorted_rows(s.daily7@) == s.daily7@,
{
    assert forall|i: int, j: int| 0 <= i < j < s.daily7@.len() implies (#[trigger] s.daily7@[i]).0 < (
    #[trigger] s.daily7@[j]).0 by {
        assert(s.daily7[i] == ((today - 6 + i) as i64, day_totals(entries, today - 6 + i)));
        assert(s.daily7[j] == ((today - 6 + j) as i64, day_totals(entries, today - 6 + j)));
    }
    assert(ascending(s.daily7@));
    lemma_sorted_rows_of_ascending(s.daily7@);
}

/// The figures of a report do not depend on the order in which the records
/// were read: two summaries of the same records for the same day agree.
pub proof fn lemma_summary_order_independent(
    s1: Summary,
    s2: Summary,
    a: Seq<Entry>,
    b: Seq<Entry>,
    today: int,
)
    requires
        a.to_multiset() == b.to_multiset(),
        is_summary(s1, a, today),
        is_summary(s2, b, today),
    ensures
        s1.all_time == s2.all_time,
        s1.last7 == s2.last7,
        s1.last30 == s2.last30,
        s1.last75 == s2.last75,
        s1.daily7@ == s2.daily7@,
        s1.streak_any == s2.streak_any,
        s1.streak_train == s2.streak_train,
        s1.streak_battle == s2.streak_battle,
{
    lemma_totals_order_independent(a, b);
    assert(s1.last7 == window_totals(a, today - 6, today));
    assert(s1.last30 == window_totals(a, today - 29, today));
    assert(s1.last75 == window_totals(a, today - 74, today));
    assert forall|i: int| 0 <= i < 7 implies s1.daily7@[i] == s2.daily7@[i] by {
        assert(s1.daily7[i] == ((today - 6 + i) as i64, day_totals(a, today - 6 + i)));
        assert(s2.daily7[i] == ((today - 6 + i) as i64, day_totals(b, today - 6 + i)));
    }
    assert(s1.daily7@ =~= s2.daily7@);
    lemma_streak_order_independent(a, b, today, Streak::Any, s1.streak_any as int);
    lemma_streak_unique(b, today, Streak::Any, s1.streak_any as int, s2.streak_any as int);
    lemma_streak_order_independent(a, b, today, Streak::Train, s1.streak_train as int);
    lemma_streak_unique(b, today, Streak::Train, s1.streak_train as int, s2.streak_train as int);
    lemma_streak_order_independent(a, b, today, Streak::Battle, s1.streak_battle as int);
    lemma_streak_unique(b, today, Streak::Battle, s1.streak_battle as int, s2.streak_battle as int);
}

/// A streak of some records is the streak of the same records in any other order.
pub proof fn lemma_streak_order_independent(
    a: Seq<Entry>,
    b: Seq<Entry>,
    today: int,
    kind: Streak,
    n: int,
)
    requires
        a.to_multiset() == b.to_multiset(),
        is_streak(a, today, kind, n),
    ensures
        is_streak(b, today, kind, n),
{
    assert forall|day: int| active_on(a, day, kind) == active_on(b, day, kind) by {
        lemma_order_independent(a, b, day, day, Tag::Train);
        lemma_order_independent(a, b, day, day, Tag::Battle);
    }
    assert forall|k: int| 0 <= k < n implies #[trigger] active_on(b, today - k, kind) by {
        assert(active_on(a, today - k, kind));
    }
}

/// The totals of the last `n` days up to the day of `now`, from the table of the records.
fn window(per_day: &HashMap<i64, Totals>, now: i64, n: u32, Ghost(entries): Ghost<Seq<Entry>>) -> (res:
    Totals)
    requires
        tallies(per_day@, entries),
        n >= 1,
    ensures
        res == window_totals(entries, utc_day(now as int) - (n - 1), utc_day(now as int)),
{
    let days = days_back(now, n);
    let res = sum_over(per_day, &days);
    proof {
        let today = utc_day(now as int);
        assert(lists_days(days@, today - (n - 1), today));
        lemma_listed_is_window(per_day@, entries, days@, today - (n - 1), today, Tag::Train);
        lemma_listed_is_window(per_day@, entries, days@, today - (n - 1), today, Tag::Battle);
    }
    res
}

/// Computes the figures of the report from all records, for the UTC day of `now`.
pub fn summarize(entries: &Vec<Entry>, now: i64) -> (res: Summary)
    ensures
        is_summary(res, entries@, utc_day(now as int)),
{
    let per_day = per_day_totals(entries);
    let all = all_time(entries);
    let last7 = window(&per_day, now, 7, Ghost(entries@));
    let last30 = window(&per_day, now, 30, Ghost(entries@));
    let last75 = window(&per_day, now, 75, Ghost(entries@));
    let days = days_back(now, 7);
    let ghost today = utc_day(now as int);
    let mut daily7: Vec<(i64, Totals)> = Vec::new();
    let mut i: usize = 0;
    while i < 7
        invariant
            i <= 7,
            days.len() == 7,
            daily7.len() == i,
            today == utc_day(now as int),
            tallies(per_day@, entries@),
            forall|k: int| 0 <= k < 7 ==> #[trigger] days[k] == today - (7 - 1 - k),
            forall|k: int|
                0 <= k < i ==> #[trigger] daily7[k] == (
                    (today - 6 + k) as i64,
                    day_totals(entries@, today - 6 + k),
                ),
        decreases 7 - i,
    {
        let day = days[i];
        let t = lookup(&per_day, day);
        proof {
            assert(tallied(per_day@, day) == day_totals(entries@, day as int));
        }
        daily7.push((day, t));
        i += 1;
    }
    let streak_any = streak_days(&per_day, now, Streak::Any);
    let streak_train = streak_days(&per_day, now, Streak::Train);
    let streak_battle = streak_days(&per_day, now, Streak::Battle);
    proof {
        lemma_table_streak(per_day@, entries@, today as i64, Streak::Any, streak_any as int);
        lemma_table_streak(per_day@, entries@, today as i64, Streak::Train, streak_train as int);
        lemma_table_streak(per_day@, entries@, today as i64, Streak::Battle, streak_battle as int);
    }
    Summary { all_time: all, last7, last30, last75, daily7, streak_any, streak_train, streak_battle }
}

/// The days that the chart covers, up to today.
pub const CHART_DAYS: u32 = 75;

/// The rows of the character chart.
pub const ASCII_ROWS: usize = 12;

/// What the activity chart shows.
#[derive(Clone, Debug, PartialEq, Eq)]
pub struct ChartData {
    /// The minutes of each of the last `CHART_DAYS` days, oldest first.
    pub minutes: Vec<u64>,
    /// The bottom of the value axis, in hundredths of a minute.
    pub y_low: u128,
    /// The top of the value axis, in hundredths of a minute.
    pub y_high: u128,
    /// The buckets of the trend.
    pub trend: Vec<Bucket>,
    /// The trend line, in the units of `trend_curve`.
    pub curve: Vec<Knot>,
}

/// All that a report consists of.
#[derive(Clone, Debug, PartialEq, Eq)]
pub struct Rendered {
    pub summary: Summary,
    /// The text of the report.
    pub readme: String,
    pub chart: ChartData,
    /// The daily series drawn with characters.
    pub ascii: String,
}

/// Whether `chart` shows the records for a report made on `today`.
pub open spec fn is_chart(chart: ChartData, entries: Seq<Entry>, today: int) -> bool {
    &&& chart.minutes.len() == CHART_DAYS
    &&& forall|i: int|
        0 <= i < CHART_DAYS ==> #[trigger] chart.minutes[i] == day_totals(
            entries,
            today - 74 + i,
        ).sum() / 60
    &&& chart.y_low == axis_range(series_min(chart.minutes@), series_max(chart.minutes@)).0
    &&& chart.y_high == axis_range(series_min(chart.minutes@), series_max(chart.minutes@)).1
    &&& chart.y_low < chart.y_high
    &&& cuts(chart.trend@, chart.minutes@, trend_width(CHART_DAYS as int))
    &&& is_curve(chart.curve@, trend_points(chart.minutes@))
}

/// Whether the report of `now` can be written: `now` and the first of its last
/// seven days lie in the years 0000 to 9999.
pub open spec fn reportable(now: i64) -> bool {
    writable(now) && MIN_TIMESTAMP <= (utc_day(now as int) - 6) * 86_400
}

/// Makes the report of the time `now` from all records: the figures, the text
/// and what the chart shows.
pub fn render_all(entries: &Vec<Entry>, now: i64) -> (res: Result<Rendered, Error>)
    ensures
        res is Ok <==> reportable(now),
        res is Err ==> res == Err::<Rendered, Error>(Error::OutOfRange),
        res matches Ok(r) ==> {
            &&& is_summary(r.summary, entries@, utc_day(now as int))
            &&& r.readme@ == report_text(now, r.summary)
            &&& is_chart(r.chart, entries@, utc_day(now as int))
            &&& r.ascii@ == area_chart(r.chart.minutes@, ASCII_ROWS)
        },
{
    let summary = summarize(entries, now);
    let ghost today = utc_day(now as int);
    proof {
        assert forall|i: int| 0 <= i < 7 implies (#[trigger] summary.daily7@[i]).0 == today - 6 + i by {
            assert(summary.daily7[i] == ((today - 6 + i) as i64, day_totals(entries@, today - 6 + i)));
        }
        if writable(now) {
            if MIN_TIMESTAMP <= (today - 6) * 86_400 {
                assert(rows_writable(summary.daily7@));
            } else {
                assert(summary.daily7@[0].0 == today - 6);
                assert(!rows_writable(summary.daily7@));
            }
        }
    }
    let readme = match render_md(now, &summary) {
        Ok(text) => text,
        Err(err) => {
            return Err(err);
        },
    };
    let per_day = per_day_totals(entries);
    let days = days_back(now, CHART_DAYS);
    let minutes = daily_minutes(&per_day, &days);
    proof {
        assert forall|i: int| 0 <= i < CHART_DAYS implies #[trigger] minutes[i] == day_totals(
            entries@,
            today - 74 + i,
        ).sum() / 60 by {
            assert(days[i] == today - (75 - 1 - i));
            assert(tallied(per_day@, days[i]) == day_totals(entries@, days[i] as int));
        }
    }
    let (y_low, y_high) = y_domain(&minutes).unwrap();
    let trend = trend_buckets(&minutes);
    let curve = trend_curve(&minutes);
    let ascii = ascii_area(&minutes, ASCII_ROWS);
    Ok(Rendered { summary, readme, chart: ChartData { minutes, y_low, y_high, trend, curve }, ascii })
}

} // verus!
