use blazectl::duration::{format_duration, parse_duration_seconds};
use blazectl::error::Error;
use blazectl::store::{
    append_entry, elapsed, entry_line, entry_of, is_partition_name, month_file, parse_line,
    parse_tag, read_all_entries, Entry, Tag,
};
use blazectl::util::{
    check_timestamp, day_of, day_start, day_text, iso, month_of, now_utc, parse_iso,
    read_timestamp, MAX_TIMESTAMP, MIN_TIMESTAMP,
};

const NEW_YEAR_2024: i64 = 1_704_067_200;

fn sample() -> Entry {
    Entry { activity: Tag::Train, start: NEW_YEAR_2024, end: NEW_YEAR_2024 + 5_400, duration: 5_400 }
}

#[test]
fn duration_text_of_ninety_minutes() {
    assert_eq!(format_duration(5_400), "PT1H30M0S");
    assert_eq!(format_duration(0), "PT0H0M0S");
    assert_eq!(format_duration(59), "PT0H0M59S");
    assert_eq!(format_duration(3_661), "PT1H1M1S");
    assert_eq!(format_duration(u64::MAX), "PT5124095576030431H0M15S");
}

#[test]
fn duration_text_is_read_back() {
    for secs in [0u64, 1, 59, 60, 3_599, 3_600, 5_400, 86_399, 86_400, 1_000_000_007, u64::MAX] {
        assert_eq!(parse_duration_seconds(&format_duration(secs)), Some(secs));
    }
}

#[test]
fn duration_reading() {
    assert_eq!(parse_duration_seconds("PT1H30M0S"), Some(5_400));
    assert_eq!(parse_duration_seconds("PT0S"), Some(0));
    assert_eq!(parse_duration_seconds("PT5M"), Some(300));
    assert_eq!(parse_duration_seconds("PT2H"), Some(7_200));
    assert_eq!(parse_duration_seconds("PT2H7S"), Some(7_207));
    assert_eq!(parse_duration_seconds("PT"), Some(0));
    assert_eq!(parse_duration_seconds("PT007M"), Some(420));
    assert_eq!(parse_duration_seconds(""), None);
    assert_eq!(parse_duration_seconds("P"), None);
    assert_eq!(parse_duration_seconds("1H"), None);
    assert_eq!(parse_duration_seconds("PT1S1H"), None);
    assert_eq!(parse_duration_seconds("PT1H1H"), None);
    assert_eq!(parse_duration_seconds("PT5"), None);
    assert_eq!(parse_duration_seconds("PTH"), None);
    assert_eq!(parse_duration_seconds("PT1D"), None);
    assert_eq!(parse_duration_seconds("PT-1S"), None);
    assert_eq!(parse_duration_seconds(" PT1S"), None);
    assert_eq!(parse_duration_seconds("PT1S "), None);
    assert_eq!(parse_duration_seconds("pt1s"), None);
}

#[test]
fn duration_too_large_is_refused() {
    assert_eq!(parse_duration_seconds("PT18446744073709551615S"), Some(u64::MAX));
    assert_eq!(parse_duration_seconds("PT18446744073709551616S"), None);
    assert_eq!(parse_duration_seconds("PT5124095576030431H0M15S"), Some(u64::MAX));
    assert_eq!(parse_duration_seconds("PT5124095576030431H0M16S"), None);
    assert_eq!(parse_duration_seconds("PT5124095576030432H"), None);
    assert_eq!(parse_duration_seconds("PT99999999999999999999999999H"), None);
    assert_eq!(parse_duration_seconds("PT307445734561825861M"), None);
}

#[test]
fn elapsed_seconds() {
    assert_eq!(elapsed(0, 90), 90);
    assert_eq!(elapsed(90, 0), 0);
    assert_eq!(elapsed(-5, 5), 10);
    assert_eq!(elapsed(-10, -4), 6);
    assert_eq!(elapsed(i64::MIN, i64::MAX), u64::MAX);
    assert_eq!(elapsed(i64::MIN, 0), 1u64 << 63);
    assert_eq!(elapsed(i64::MAX, i64::MIN), 0);
}

#[test]
fn tags() {
    assert_eq!(parse_tag("train"), Some(Tag::Train));
    assert_eq!(parse_tag("battle"), Some(Tag::Battle));
    assert_eq!(parse_tag("trainer"), None);
    assert_eq!(parse_tag("TRAIN"), None);
    assert_eq!(parse_tag(Tag::Train.as_str()), Some(Tag::Train));
    assert_eq!(parse_tag(Tag::Battle.as_str()), Some(Tag::Battle));
    assert_eq!(Tag::Train.counterpart(), Tag::Battle);
    assert_eq!(Tag::Battle.counterpart(), Tag::Train);
}

#[test]
fn timestamps_as_text() {
    assert_eq!(iso(NEW_YEAR_2024).unwrap(), "2024-01-01T00:00:00Z");
    assert_eq!(iso(NEW_YEAR_2024 + 5_400).unwrap(), "2024-01-01T01:30:00Z");
    assert_eq!(iso(0).unwrap(), "1970-01-01T00:00:00Z");
    assert_eq!(iso(-1).unwrap(), "1969-12-31T23:59:59Z");
    assert_eq!(iso(MIN_TIMESTAMP).unwrap(), "0000-01-01T00:00:00Z");
    assert_eq!(iso(MAX_TIMESTAMP).unwrap(), "9999-12-31T23:59:59Z");
    assert_eq!(iso(MIN_TIMESTAMP - 1), Err(Error::OutOfRange));
    assert_eq!(iso(MAX_TIMESTAMP + 1), Err(Error::OutOfRange));
    assert_eq!(iso(i64::MIN), Err(Error::OutOfRange));
    assert_eq!(iso(i64::MAX), Err(Error::OutOfRange));
}

#[test]
fn timestamps_from_text() {
    assert_eq!(parse_iso("2024-01-01T00:00:00Z"), Ok(NEW_YEAR_2024));
    assert_eq!(parse_iso("2024-01-01T01:30:00Z"), Ok(NEW_YEAR_2024 + 5_400));
    assert_eq!(parse_iso("2024-01-01T02:30:00+01:00"), Ok(NEW_YEAR_2024 + 5_400));
    assert_eq!(parse_iso("2024-01-01T00:00:00.75Z"), Ok(NEW_YEAR_2024));
    assert_eq!(parse_iso("2024-01-01"), Err(Error::Parse));
    assert_eq!(parse_iso(""), Err(Error::Parse));
    assert_eq!(parse_iso("0000-01-01T00:00:00+00:01"), Err(Error::OutOfRange));
    assert_eq!(read_timestamp("0000-01-01T00:00:00+00:01"), Some(MIN_TIMESTAMP - 60));
    assert_eq!(read_timestamp("soon"), None);
    assert_eq!(check_timestamp(Some(5)), Ok(5));
    assert_eq!(check_timestamp(Some(MAX_TIMESTAMP + 1)), Err(Error::OutOfRange));
    assert_eq!(check_timestamp(None), Err(Error::Parse));
    for secs in [MIN_TIMESTAMP, -1, 0, NEW_YEAR_2024, MAX_TIMESTAMP] {
        assert_eq!(parse_iso(&iso(secs).unwrap()), Ok(secs));
    }
}

#[test]
fn the_clock_can_be_written() {
    let now = now_utc();
    assert!(now > NEW_YEAR_2024);
    assert!(iso(now).is_ok());
}

#[test]
fn days_of_timestamps() {
    assert_eq!(day_of(0), 0);
    assert_eq!(day_of(86_399), 0);
    assert_eq!(day_of(86_400), 1);
    assert_eq!(day_of(-1), -1);
    assert_eq!(day_of(-86_400), -1);
    assert_eq!(day_of(-86_401), -2);
    assert_eq!(day_of(NEW_YEAR_2024), 19_723);
    assert_eq!(day_of(NEW_YEAR_2024 - 1), 19_722);
    assert_eq!(day_of(i64::MIN), -106_751_991_167_301);
    assert_eq!(day_of(i64::MAX), 106_751_991_167_300);
    assert_eq!(day_start(19_723), Some(NEW_YEAR_2024));
    assert_eq!(day_start(-719_528), Some(MIN_TIMESTAMP));
    assert_eq!(day_start(-719_529), None);
    assert_eq!(day_start(2_932_896), Some(MAX_TIMESTAMP - 86_399));
    assert_eq!(day_start(2_932_897), None);
}

#[test]
fn dates_as_text() {
    assert_eq!(day_text(19_723).unwrap(), "2024-01-01");
    assert_eq!(day_text(0).unwrap(), "1970-01-01");
    assert_eq!(day_text(-1).unwrap(), "1969-12-31");
    assert_eq!(day_text(-719_528).unwrap(), "0000-01-01");
    assert_eq!(day_text(2_932_896).unwrap(), "9999-12-31");
    assert_eq!(day_text(2_932_897), Err(Error::OutOfRange));
    assert_eq!(day_text(-719_529), Err(Error::OutOfRange));
}

#[test]
fn months_and_partitions() {
    assert_eq!(month_of(NEW_YEAR_2024), Ok((2024, 1)));
    assert_eq!(month_of(NEW_YEAR_2024 - 1), Ok((2023, 12)));
    assert_eq!(month_of(MIN_TIMESTAMP), Ok((0, 1)));
    assert_eq!(month_of(MAX_TIMESTAMP + 1), Err(Error::OutOfRange));
    assert_eq!(month_file(NEW_YEAR_2024).unwrap(), ".blaze/track-2024-01.jsonl");
    assert_eq!(month_file(NEW_YEAR_2024 - 1).unwrap(), ".blaze/track-2023-12.jsonl");
    assert_eq!(month_file(MIN_TIMESTAMP).unwrap(), ".blaze/track-0-01.jsonl");
    assert_eq!(month_file(MIN_TIMESTAMP - 1), Err(Error::OutOfRange));
    assert!(is_partition_name("track-2024-01.jsonl"));
    assert!(is_partition_name("track-.jsonl"));
    assert!(!is_partition_name("track-2024-01.json"));
    assert!(!is_partition_name("rack-2024-01.jsonl"));
    assert!(!is_partition_name("active.json"));
    assert!(!is_partition_name(""));
    assert!(!is_partition_name("track.jsonl"));
}

#[test]
fn record_as_line() {
    assert_eq!(
        entry_line(&sample()).unwrap(),
        "{\"activity\":\"train\",\"start\":\"2024-01-01T00:00:00Z\",\"end\":\"2024-01-01T01:30:00Z\",\"duration\":\"PT1H30M0S\"}"
    );
    let bad = Entry { activity: Tag::Battle, start: MIN_TIMESTAMP - 1, end: 0, duration: 0 };
    assert_eq!(entry_line(&bad), Err(Error::OutOfRange));
    let bad = Entry { activity: Tag::Battle, start: 0, end: MAX_TIMESTAMP + 1, duration: 0 };
    assert_eq!(entry_line(&bad), Err(Error::OutOfRange));
}

#[test]
fn record_line_agrees_with_serde_json() {
    let mut object = serde_json::Map::new();
    object.insert("activity".to_string(), serde_json::Value::String("train".to_string()));
    object.insert("start".to_string(), serde_json::Value::String("2024-01-01T00:00:00Z".to_string()));
    object.insert("end".to_string(), serde_json::Value::String("2024-01-01T01:30:00Z".to_string()));
    object.insert("duration".to_string(), serde_json::Value::String("PT1H30M0S".to_string()));
    let wanted = serde_json::Value::Object(object);
    let line = entry_line(&sample()).unwrap();
    let read: serde_json::Value = serde_json::from_str(&line).unwrap();
    assert_eq!(read, wanted);
}

#[test]
fn record_round_trip() {
    for e in [
        sample(),
        Entry { activity: Tag::Battle, start: -86_400, end: 86_400, duration: 172_800 },
        Entry { activity: Tag::Train, start: MIN_TIMESTAMP, end: MAX_TIMESTAMP, duration: u64::MAX },
        Entry { activity: Tag::Battle, start: 100, end: 50, duration: 0 },
    ] {
        let line = entry_line(&e).unwrap();
        assert_eq!(parse_line(&line), Ok(e));
    }
}

#[test]
fn record_from_fields() {
    assert_eq!(entry_of("train", Some(NEW_YEAR_2024), Some(NEW_YEAR_2024 + 5_400), "PT1H30M0S"), Ok(sample()));
    assert_eq!(entry_of("rest", Some(0), Some(1), "PT1S"), Err(Error::Parse));
    assert_eq!(entry_of("train", None, Some(1), "PT1S"), Err(Error::Parse));
    assert_eq!(entry_of("train", Some(0), None, "PT1S"), Err(Error::Parse));
    assert_eq!(entry_of("train", Some(0), Some(1), "1S"), Err(Error::Parse));
    assert_eq!(entry_of("train", Some(MAX_TIMESTAMP + 1), Some(1), "PT1S"), Err(Error::Parse));
    assert_eq!(
        entry_of("battle", Some(0), Some(1), "PT2H"),
        Ok(Entry { activity: Tag::Battle, start: 0, end: 1, duration: 7_200 })
    );
}

#[test]
fn malformed_lines() {
    assert_eq!(parse_line(""), Err(Error::Parse));
    assert_eq!(parse_line("{"), Err(Error::Parse));
    assert_eq!(parse_line("[]"), Err(Error::Parse));
    assert_eq!(parse_line("{\"activity\":\"train\"}"), Err(Error::Parse));
    assert_eq!(
        parse_line("{\"activity\":\"train\",\"start\":\"2024-01-01T00:00:00Z\",\"end\":\"2024-01-01T01:30:00Z\",\"duration\":5400}"),
        Err(Error::Parse)
    );
    assert_eq!(
        parse_line("{\"activity\":\"nap\",\"start\":\"2024-01-01T00:00:00Z\",\"end\":\"2024-01-01T01:30:00Z\",\"duration\":\"PT1H\"}"),
        Err(Error::Parse)
    );
    assert_eq!(
        parse_line("{\"activity\":\"train\",\"start\":\"2024-01-01\",\"end\":\"2024-01-01T01:30:00Z\",\"duration\":\"PT1H\"}"),
        Err(Error::Parse)
    );
    assert_eq!(
        parse_line("{\"duration\":\"PT1H\",\"end\":\"2024-01-01T01:30:00Z\",\"start\":\"2024-01-01T00:00:00Z\",\"activity\":\"battle\",\"note\":7}"),
        Ok(Entry { activity: Tag::Battle, start: NEW_YEAR_2024, end: NEW_YEAR_2024 + 5_400, duration: 3_600 })
    );
}

#[test]
fn what_is_appended() {
    let (path, line) = append_entry(&sample(), NEW_YEAR_2024 + 5_400).unwrap();
    assert_eq!(path, ".blaze/track-2024-01.jsonl");
    assert_eq!(line, format!("{}\n", entry_line(&sample()).unwrap()));
    let (path, _) = append_entry(&sample(), NEW_YEAR_2024 + 40 * 86_400).unwrap();
    assert_eq!(path, ".blaze/track-2024-02.jsonl");
    assert_eq!(append_entry(&sample(), MAX_TIMESTAMP + 1), Err(Error::OutOfRange));
    let bad = Entry { activity: Tag::Train, start: i64::MIN, end: 0, duration: 0 };
    assert_eq!(append_entry(&bad, 0), Err(Error::OutOfRange));
}

#[test]
fn partition_text_is_read_tolerantly() {
    let a = sample();
    let b = Entry { activity: Tag::Battle, start: NEW_YEAR_2024 + 86_400, end: NEW_YEAR_2024 + 86_460, duration: 60 };
    let text = format!(
        "{}\n\n   \nnot a record\n{}\r\n{{\"activity\":\"train\"}}\n{}",
        entry_line(&a).unwrap(),
        entry_line(&b).unwrap(),
        entry_line(&a).unwrap()
    );
    let mut entries = vec![b];
    let dropped = read_all_entries(&text, &mut entries);
    assert_eq!(entries, vec![b, a, b, a]);
    assert_eq!(dropped, 2);
    let mut none: Vec<Entry> = Vec::new();
    assert_eq!(read_all_entries("", &mut none), 0);
    assert_eq!(read_all_entries("\n\n", &mut none), 0);
    assert_eq!(read_all_entries("x", &mut none), 1);
    assert!(none.is_empty());
}

#[test]
fn appended_then_read_all() {
    let mut file = String::new();
    let mut written = Vec::new();
    for k in 0..5i64 {
        let e = Entry {
            activity: if k % 2 == 0 { Tag::Train } else { Tag::Battle },
            start: NEW_YEAR_2024 + k * 1_000,
            end: NEW_YEAR_2024 + k * 1_000 + 90 * k,
            duration: (90 * k) as u64,
        };
        let (_, line) = append_entry(&e, e.end).unwrap();
        file.push_str(&line);
        written.push(e);
    }
    let mut read = Vec::new();
    assert_eq!(read_all_entries(&file, &mut read), 0);
    assert_eq!(read, written);
}
