use blazectl::chart::ascii_area;
use blazectl::error::Error;
use blazectl::gitops::{auto_commit_if_due, now_ts};
use blazectl::readme::{
    all_time, days_back, lookup, minutes, per_day_totals, render_all, streak_days, sum_over,
    summarize, Streak, Totals, STREAK_CAP,
};
use blazectl::report::{hm, render_md, sort_rows};
use blazectl::store::{Entry, Tag};
use blazectl::trend::{buckets, daily_minutes, trend_buckets, y_domain, Bucket};
use blazectl::util::{MAX_TIMESTAMP, MIN_TIMESTAMP};

const NEW_YEAR_2024: i64 = 1_704_067_200;
const DAY: i64 = 86_400;
const TODAY: i64 = 19_723;

fn session(tag: Tag, start: i64, secs: u64) -> Entry {
    Entry { activity: tag, start, end: start + secs as i64, duration: secs }
}

/// One train session per day, of the given minutes; the last value is today's.
fn history(daily_minutes: &[u64], now: i64) -> Vec<Entry> {
    let n = daily_minutes.len() as i64;
    let mut entries = Vec::new();
    for (i, m) in daily_minutes.iter().enumerate() {
        if *m > 0 {
            entries.push(session(Tag::Train, now - (n - 1 - i as i64) * DAY, m * 60));
        }
    }
    entries
}

#[test]
fn streak_ends_at_today_without_activity() {
    let now = NEW_YEAR_2024 + 3_600;
    let per_day = per_day_totals(&history(&[5, 0, 3, 3, 0], now));
    assert_eq!(streak_days(&per_day, now, Streak::Any), 0);
    assert_eq!(streak_days(&per_day, now, Streak::Train), 0);
    assert_eq!(streak_days(&per_day, now, Streak::Battle), 0);
}

#[test]
fn streak_stops_at_first_day_without_activity() {
    let now = NEW_YEAR_2024 + 3_600;
    let per_day = per_day_totals(&history(&[0, 3, 3, 5], now));
    assert_eq!(streak_days(&per_day, now, Streak::Any), 3);
    let per_day = per_day_totals(&history(&[7, 0, 3, 3, 5], now));
    assert_eq!(streak_days(&per_day, now, Streak::Any), 3);
    let per_day = per_day_totals(&history(&[1, 3, 3, 5], now));
    assert_eq!(streak_days(&per_day, now, Streak::Any), 4);
}

#[test]
fn streaks_by_activity() {
    let now = NEW_YEAR_2024 + 10;
    let entries = vec![
        session(Tag::Train, now, 60),
        session(Tag::Battle, now - DAY, 60),
        session(Tag::Train, now - 2 * DAY, 60),
        session(Tag::Battle, now - 2 * DAY, 60),
        session(Tag::Train, now - 4 * DAY, 60),
    ];
    let per_day = per_day_totals(&entries);
    assert_eq!(streak_days(&per_day, now, Streak::Any), 3);
    assert_eq!(streak_days(&per_day, now, Streak::Train), 1);
    assert_eq!(streak_days(&per_day, now, Streak::Battle), 0);
    assert_eq!(streak_days(&per_day, now - DAY, Streak::Battle), 2);
}

#[test]
fn streak_is_capped() {
    let now = NEW_YEAR_2024;
    let mut entries = Vec::new();
    for k in 0..400i64 {
        entries.push(session(Tag::Battle, now - k * DAY, 1));
    }
    let per_day = per_day_totals(&entries);
    assert_eq!(STREAK_CAP, 365);
    assert_eq!(streak_days(&per_day, now, Streak::Any), 365);
    assert_eq!(streak_days(&per_day, now, Streak::Battle), 365);
    assert_eq!(streak_days(&per_day, now, Streak::Train), 0);
    entries.truncate(364);
    let per_day = per_day_totals(&entries);
    assert_eq!(streak_days(&per_day, now, Streak::Any), 364);
}

#[test]
fn session_counts_on_the_day_it_began() {
    let late = session(Tag::Train, NEW_YEAR_2024 - 60, 7_200);
    let per_day = per_day_totals(&vec![late]);
    assert_eq!(lookup(&per_day, TODAY - 1), Totals { train: 7_200, battle: 0 });
    assert_eq!(lookup(&per_day, TODAY), Totals { train: 0, battle: 0 });
}

#[test]
fn per_day_totals_do_not_depend_on_order() {
    let a = session(Tag::Train, NEW_YEAR_2024, 100);
    let b = session(Tag::Battle, NEW_YEAR_2024 + 50, 30);
    let c = session(Tag::Train, NEW_YEAR_2024 + DAY, 7);
    let d = session(Tag::Train, NEW_YEAR_2024 + 99, 1);
    let orders = vec![
        vec![a, b, c, d],
        vec![d, c, b, a],
        vec![c, a, d, b],
        vec![b, d, a, c],
    ];
    for order in &orders {
        let per_day = per_day_totals(order);
        assert_eq!(lookup(&per_day, TODAY), Totals { train: 101, battle: 30 });
        assert_eq!(lookup(&per_day, TODAY + 1), Totals { train: 7, battle: 0 });
        assert_eq!(lookup(&per_day, TODAY + 2), Totals { train: 0, battle: 0 });
        assert_eq!(all_time(order), Totals { train: 108, battle: 30 });
        assert_eq!(summarize(order, NEW_YEAR_2024 + DAY), summarize(&orders[0], NEW_YEAR_2024 + DAY));
    }
}

#[test]
fn window_without_records_is_zero() {
    let old = vec![session(Tag::Train, NEW_YEAR_2024 - 100 * DAY, 500), session(Tag::Battle, NEW_YEAR_2024 + DAY, 9)];
    let s = summarize(&old, NEW_YEAR_2024);
    assert_eq!(s.last7, Totals { train: 0, battle: 0 });
    assert_eq!(s.last30, Totals { train: 0, battle: 0 });
    assert_eq!(s.last75, Totals { train: 0, battle: 0 });
    assert_eq!(s.all_time, Totals { train: 500, battle: 9 });
    let s = summarize(&Vec::new(), NEW_YEAR_2024);
    assert_eq!(s.all_time, Totals { train: 0, battle: 0 });
    assert_eq!(s.last7, Totals { train: 0, battle: 0 });
    assert_eq!((s.streak_any, s.streak_train, s.streak_battle), (0, 0, 0));
    assert_eq!(s.daily7.len(), 7);
    let per_day = per_day_totals(&Vec::new());
    assert_eq!(sum_over(&per_day, &days_back(NEW_YEAR_2024, 30)), Totals { train: 0, battle: 0 });
    assert_eq!(sum_over(&per_day, &Vec::new()), Totals { train: 0, battle: 0 });
}

#[test]
fn windows_span_their_days_exactly() {
    let now = NEW_YEAR_2024 + 12 * 3_600;
    let mut entries = Vec::new();
    for k in 0..80i64 {
        entries.push(session(Tag::Train, NEW_YEAR_2024 - k * DAY, 1));
        entries.push(session(Tag::Battle, NEW_YEAR_2024 - k * DAY + DAY - 1, 10));
    }
    entries.push(session(Tag::Train, NEW_YEAR_2024 + DAY, 1_000));
    let s = summarize(&entries, now);
    assert_eq!(s.last7, Totals { train: 7, battle: 70 });
    assert_eq!(s.last30, Totals { train: 30, battle: 300 });
    assert_eq!(s.last75, Totals { train: 75, battle: 750 });
    assert_eq!(s.all_time, Totals { train: 1_080, battle: 800 });
    assert_eq!(days_back(now, 7), vec![TODAY - 6, TODAY - 5, TODAY - 4, TODAY - 3, TODAY - 2, TODAY - 1, TODAY]);
    assert_eq!(days_back(-1, 2), vec![-2, -1]);
    assert_eq!(days_back(now, 0), Vec::<i64>::new());
    for (i, row) in s.daily7.iter().enumerate() {
        assert_eq!(*row, (TODAY - 6 + i as i64, Totals { train: 1, battle: 10 }));
    }
    assert_eq!(s.streak_any, 80);
}

#[test]
fn sums_stop_at_the_largest_value() {
    let mut t = Totals::zero();
    t.add(Tag::Train, u64::MAX - 1);
    t.add(Tag::Train, 5);
    t.add(Tag::Battle, 3);
    assert_eq!(t, Totals { train: u64::MAX, battle: 3 });
    assert_eq!(t.total(), u64::MAX);
    let entries = vec![session(Tag::Battle, 0, u64::MAX), session(Tag::Battle, 0, 1), session(Tag::Train, 0, 2)];
    assert_eq!(all_time(&entries), Totals { train: 2, battle: u64::MAX });
    assert_eq!(lookup(&per_day_totals(&entries), 0), Totals { train: 2, battle: u64::MAX });
}

#[test]
fn hours_and_minutes() {
    assert_eq!(hm(5_400), "1h 30m");
    assert_eq!(hm(0), "0h 00m");
    assert_eq!(hm(59), "0h 00m");
    assert_eq!(hm(60), "0h 01m");
    assert_eq!(hm(3_599), "0h 59m");
    assert_eq!(hm(3_600), "1h 00m");
    assert_eq!(hm(360_000 + 34 * 60 + 7), "100h 34m");
    assert_eq!(minutes(5_400), 90);
    assert_eq!(minutes(59), 0);
}

#[test]
fn report_of_ninety_minutes_of_train() {
    let entries = vec![session(Tag::Train, NEW_YEAR_2024, 5_400)];
    let r = render_all(&entries, NEW_YEAR_2024 + 7_200).unwrap();
    assert!(r.readme.contains("| 2024-01-01 | 1h 30m | 0h 00m | 1h 30m |\n"));
    assert!(r.readme.contains("| 2023-12-31 | 0h 00m | 0h 00m | 0h 00m |\n"));
    assert!(r.readme.contains("- **Updated (UTC):** 2024-01-01T02:00:00Z\n"));
    assert!(r.readme.contains("- **All-time (Total):** 1h 30m\n- **All-time (Train):** 1h 30m\n- **All-time (Battle):** 0h 00m\n"));
    assert!(r.readme.contains("## Per-tag (last 30d)\n- Train: 1h 30m\n- Battle: 0h 00m\n"));
    assert!(r.readme.contains("## Streaks (days)\n- Any: 1\n- Train: 1\n- Battle: 0\n"));
    assert!(r.readme.starts_with("# BLAZECTL\n\n> A minimal, fast"));
    assert!(r.readme.ends_with("for fellow warriors.\n"));
    assert_eq!(r.readme, render_md(NEW_YEAR_2024 + 7_200, &r.summary).unwrap());
    assert_eq!(r.summary, summarize(&entries, NEW_YEAR_2024 + 7_200));
    assert_eq!(r.chart.minutes.len(), 75);
    assert_eq!(r.chart.minutes[74], 90);
    assert_eq!(r.chart.minutes[73], 0);
    assert_eq!((r.chart.y_low, r.chart.y_high), (0, 9_000 + 630));
    assert_eq!(r.chart.trend.len(), 10);
    assert_eq!(r.chart.trend[9], Bucket { first: 72, last: 74, sum: 90 });
    assert_eq!(r.ascii, ascii_area(&r.chart.minutes, 12));
}

#[test]
fn table_rows_are_in_order_of_days() {
    let entries = vec![
        session(Tag::Battle, NEW_YEAR_2024 - 6 * DAY, 60),
        session(Tag::Train, NEW_YEAR_2024 - 3 * DAY, 120),
    ];
    let r = render_all(&entries, NEW_YEAR_2024).unwrap();
    let table = "| 2023-12-26 | 0h 00m | 0h 01m | 0h 01m |\n| 2023-12-27 | 0h 00m | 0h 00m | 0h 00m |\n| 2023-12-28 | 0h 00m | 0h 00m | 0h 00m |\n| 2023-12-29 | 0h 02m | 0h 00m | 0h 02m |\n| 2023-12-30 | 0h 00m | 0h 00m | 0h 00m |\n| 2023-12-31 | 0h 00m | 0h 00m | 0h 00m |\n| 2024-01-01 | 0h 00m | 0h 00m | 0h 00m |\n\n## Activity Graph\n";
    assert!(r.readme.contains(table));
}

#[test]
fn table_rows_are_sorted_by_day() {
    let entries = vec![
        session(Tag::Battle, NEW_YEAR_2024 - 6 * DAY, 60),
        session(Tag::Train, NEW_YEAR_2024 - 3 * DAY, 120),
        session(Tag::Train, NEW_YEAR_2024, 5_400),
    ];
    let sorted = summarize(&entries, NEW_YEAR_2024);
    let wanted = render_md(NEW_YEAR_2024, &sorted).unwrap();
    let mut shuffled = sorted.clone();
    shuffled.daily7.reverse();
    assert_eq!(render_md(NEW_YEAR_2024, &shuffled).unwrap(), wanted);
    shuffled.daily7.swap(0, 4);
    shuffled.daily7.swap(2, 6);
    assert_eq!(render_md(NEW_YEAR_2024, &shuffled).unwrap(), wanted);
    assert!(wanted.contains("| 2023-12-26 | 0h 00m | 0h 01m | 0h 01m |\n| 2023-12-27 |"));
    assert!(wanted.contains("| 2023-12-31 | 0h 00m | 0h 00m | 0h 00m |\n| 2024-01-01 | 1h 30m | 0h 00m | 1h 30m |\n\n## Activity Graph"));
    assert_eq!(wanted.matches("\n| 20").count(), 7);
}

#[test]
fn rows_in_order_of_days() {
    let t = |n: u64| Totals { train: n, battle: 0 };
    assert_eq!(sort_rows(&Vec::new()), Vec::new());
    assert_eq!(sort_rows(&vec![(5, t(1))]), vec![(5, t(1))]);
    assert_eq!(
        sort_rows(&vec![(3, t(1)), (1, t(2)), (2, t(3)), (-7, t(4)), (i64::MAX, t(5)), (i64::MIN, t(6))]),
        vec![(i64::MIN, t(6)), (-7, t(4)), (1, t(2)), (2, t(3)), (3, t(1)), (i64::MAX, t(5))]
    );
    // Rows of one day keep the order in which they came.
    assert_eq!(
        sort_rows(&vec![(2, t(1)), (1, t(2)), (2, t(3)), (1, t(4)), (2, t(5))]),
        vec![(1, t(2)), (1, t(4)), (2, t(1)), (2, t(3)), (2, t(5))]
    );
    let rows: Vec<(i64, Totals)> = (0..50).map(|i| ((i * 37) % 50, t(i as u64))).collect();
    let sorted = sort_rows(&rows);
    for (i, row) in sorted.iter().enumerate() {
        assert_eq!(row.0, i as i64);
    }
    assert_eq!(sort_rows(&sorted), sorted);
}

#[test]
fn report_out_of_range() {
    assert_eq!(render_all(&Vec::new(), MAX_TIMESTAMP + 1), Err(Error::OutOfRange));
    assert_eq!(render_all(&Vec::new(), MIN_TIMESTAMP), Err(Error::OutOfRange));
    assert_eq!(render_all(&Vec::new(), MIN_TIMESTAMP + 6 * DAY - 1), Err(Error::OutOfRange));
    assert!(render_all(&Vec::new(), MIN_TIMESTAMP + 6 * DAY).is_ok());
    assert!(render_all(&Vec::new(), MAX_TIMESTAMP).is_ok());
    let s = summarize(&Vec::new(), i64::MIN);
    assert_eq!(render_md(0, &s), Err(Error::OutOfRange));
    let mut s = summarize(&Vec::new(), NEW_YEAR_2024);
    s.daily7[3].0 = 2_932_897;
    assert_eq!(render_md(0, &s), Err(Error::OutOfRange));
    s.daily7[3].0 = 2_932_896;
    assert!(render_md(0, &s).unwrap().contains("| 2024-01-01 | 0h 00m | 0h 00m | 0h 00m |\n| 9999-12-31 | 0h 00m | 0h 00m | 0h 00m |\n\n"));
}

#[test]
fn empty_history_gives_flat_chart() {
    let r = render_all(&Vec::new(), NEW_YEAR_2024).unwrap();
    assert_eq!(r.chart.minutes, vec![0u64; 75]);
    assert_eq!((r.chart.y_low, r.chart.y_high), (0, 3_000));
    assert_eq!(r.ascii.chars().count(), 75);
    assert!(r.ascii.chars().all(|c| c == '\u{2581}'));
    for b in &r.chart.trend {
        assert_eq!(b.sum, 0);
    }
}

#[test]
fn uniform_days_give_flat_trend() {
    let now = NEW_YEAR_2024 + 100;
    let r = render_all(&history(&[42; 75], now), now).unwrap();
    assert_eq!(r.chart.minutes, vec![42u64; 75]);
    assert_eq!(r.chart.trend.len(), 10);
    for (k, b) in r.chart.trend.iter().enumerate() {
        assert_eq!(b.first, 8 * k);
        assert_eq!(b.last, if k == 9 { 74 } else { 8 * k + 7 });
        assert_eq!(b.sum, 42 * (b.last - b.first + 1) as u128);
    }
    assert_eq!((r.chart.y_low, r.chart.y_high), (0, 4_200));
    assert!(r.chart.y_low < r.chart.y_high);
}

#[test]
fn buckets_of_a_series() {
    let vals: Vec<u64> = (1..=10).collect();
    assert_eq!(
        buckets(&vals, 4),
        vec![
            Bucket { first: 0, last: 3, sum: 10 },
            Bucket { first: 4, last: 7, sum: 26 },
            Bucket { first: 8, last: 9, sum: 19 },
        ]
    );
    assert_eq!(buckets(&vals, 10), vec![Bucket { first: 0, last: 9, sum: 55 }]);
    assert_eq!(buckets(&vals, 11), vec![Bucket { first: 0, last: 9, sum: 55 }]);
    assert_eq!(buckets(&Vec::new(), 8), Vec::<Bucket>::new());
    assert_eq!(buckets(&vec![u64::MAX, u64::MAX], 2), vec![Bucket { first: 0, last: 1, sum: 2 * (u64::MAX as u128) }]);
    assert_eq!(trend_buckets(&vals).len(), 3);
    assert_eq!(trend_buckets(&vals)[0], Bucket { first: 0, last: 3, sum: 10 });
    assert_eq!(trend_buckets(&vec![1, 2]), vec![Bucket { first: 0, last: 1, sum: 3 }]);
    assert_eq!(trend_buckets(&vec![5u64; 16]).len(), 4);
    assert_eq!(trend_buckets(&vec![5u64; 17]).len(), 3);
    assert_eq!(trend_buckets(&vec![5u64; 17])[2], Bucket { first: 16, last: 16, sum: 5 });
    assert_eq!(trend_buckets(&vec![5u64; 3]), vec![Bucket { first: 0, last: 2, sum: 15 }]);
}

#[test]
fn range_of_the_axis() {
    assert_eq!(y_domain(&Vec::new()), None);
    assert_eq!(y_domain(&vec![0, 0]), Some((0, 3_000)));
    assert_eq!(y_domain(&vec![29]), Some((0, 3_000)));
    assert_eq!(y_domain(&vec![31, 31, 31]), Some((0, 3_100)));
    assert_eq!(y_domain(&vec![60, 120]), Some((5_580, 12_420)));
    assert_eq!(y_domain(&vec![120, 90, 60]), Some((5_580, 12_420)));
    assert_eq!(y_domain(&vec![1, 100]), Some((0, 10_693)));
    assert_eq!(y_domain(&vec![u64::MAX, 0]), Some((0, 107 * (u64::MAX as u128))));
}

#[test]
fn minutes_of_listed_days() {
    let entries = vec![session(Tag::Train, 0, 119), session(Tag::Battle, 10, 1), session(Tag::Battle, DAY, 59)];
    let per_day = per_day_totals(&entries);
    assert_eq!(daily_minutes(&per_day, &vec![-1, 0, 1, 0]), vec![0, 2, 0, 2]);
}

#[test]
fn chart_of_characters() {
    assert_eq!(ascii_area(&Vec::new(), 12), "");
    assert_eq!(ascii_area(&vec![1, 2], 0), "");
    assert_eq!(ascii_area(&vec![5, 5, 5], 4), "\u{2581}\u{2581}\u{2581}");
    assert_eq!(ascii_area(&vec![0, 10], 3), " \u{2588}\n \u{2588}\n\u{2588}\u{2588}\n|-");
    assert_eq!(
        ascii_area(&vec![0, 5, 10, 2, 3, 7], 3),
        "  \u{2588}   \n \u{2588}\u{2588} \u{2588}\u{2588}\n\u{2588}\u{2588}\u{2588}\u{2588}\u{2588}\u{2588}\n|----|"
    );
    assert_eq!(ascii_area(&vec![3, 9], 1), "\u{2588}\u{2588}\n|-");
}

#[test]
fn commit_once_a_day() {
    assert_eq!(
        auto_commit_if_due(None, NEW_YEAR_2024),
        Ok(Some("blazectl: update (2024-01-01 UTC)".to_string()))
    );
    assert_eq!(
        auto_commit_if_due(Some(NEW_YEAR_2024 - 1 - DAY), NEW_YEAR_2024 - 1),
        Ok(Some("blazectl: update (2023-12-31 UTC)".to_string()))
    );
    assert_eq!(auto_commit_if_due(Some(NEW_YEAR_2024 - DAY + 1), NEW_YEAR_2024), Ok(None));
    assert_eq!(auto_commit_if_due(Some(NEW_YEAR_2024 + DAY), NEW_YEAR_2024), Ok(None));
    assert_eq!(auto_commit_if_due(Some(i64::MAX), i64::MIN), Ok(None));
    assert_eq!(auto_commit_if_due(Some(i64::MIN), i64::MAX), Err(Error::OutOfRange));
    assert_eq!(auto_commit_if_due(None, MAX_TIMESTAMP + 1), Err(Error::OutOfRange));
    assert!(now_ts() > NEW_YEAR_2024);
}
