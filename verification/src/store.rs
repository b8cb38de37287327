//! Session records and the lines of the monthly log partitions.

use crate::duration::{duration_text, format_duration, parse_duration_seconds, parsed_duration};
use crate::error::Error;
use crate::json::{json_document, json_string_text, parse_document, quote, string_member};
use crate::text::{
    append_signed, append_two_digits, begins_with, blank_between, chars_of, ends_with, is_blank,
    same_text, signed_decimal, two_digits,
};
use crate::util::{
    calendar_month, check_timestamp, checked_timestamp, iso, month_of, read_timestamp,
    rfc3339_seconds, rfc3339_text, writable,
};
use vstd::prelude::*;
use vstd::string::*;

verus! {

/// The directory that holds the active-session file and the log partitions.
pub const STORE_DIR: &'static str = ".blaze";

/// One of the two tracked activities.
#[derive(Clone, Copy, Debug, PartialEq, Eq, Structural)]
pub enum Tag {
    Train,
    Battle,
}

impl Tag {
    /// The name under which the activity is given on the command line and stored.
    pub open spec fn name(self) -> Seq<char> {
        match self {
            Tag::Train => "train"@,
            Tag::Battle => "battle"@,
        }
    }

    pub open spec fn other(self) -> Tag {
        match self {
            Tag::Train => Tag::Battle,
            Tag::Battle => Tag::Train,
        }
    }

    pub fn as_str(&self) -> (r: &'static str)
        ensures
            r@ == self.name(),
    {
        match self {
            Tag::Train => "train",
            Tag::Battle => "battle",
        }
    }
}

/// The activity that a name stands for.
pub open spec fn tag_of(name: Seq<char>) -> Option<Tag> {
    if name == "train"@ {
        Some(Tag::Train)
    } else if name == "battle"@ {
        Some(Tag::Battle)
    } else {
        None
    }
}

/// Reads an activity name; only `train` and `battle` are names.
pub fn parse_tag(name: &str) -> (res: Option<Tag>)
    ensures
        res == tag_of(name@),
{
    if same_text(name, "train") {
        Some(Tag::Train)
    } else if same_text(name, "battle") {
        Some(Tag::Battle)
    } else {
        None
    }
}

/// Each activity is read back from its own name.
pub proof fn lemma_tag_round_trip(tag: Tag)
    ensures
        tag_of(tag.name()) == Some(tag),
{
    reveal_strlit("train");
    reveal_strlit("battle");
    assert("train"@.len() != "battle"@.len());
}

/// One completed session.
#[derive(Clone, Copy, Debug, PartialEq, Eq, Structural)]
pub struct Entry {
    pub activity: Tag,
    /// When the session began, in seconds since 1970-01-01T00:00:00Z.
    pub start: i64,
    /// When the session ended.
    pub end: i64,
    /// Elapsed whole seconds.
    pub duration: u64,
}

/// The seconds from `start` to `end`, zero where `end` lies before `start`.
pub open spec fn elapsed_seconds(start: i64, end: i64) -> u64 {
    if end >= start {
        (end - start) as u64
    } else {
        0
    }
}

pub fn elapsed(start: i64, end: i64) -> (d: u64)
    ensures
        d == elapsed_seconds(start, end),
{
    if end >= start {
        if start >= 0 {
            (end - start) as u64
        } else if end < 0 {
            (end - start) as u64
        } else {
            let below: u64 = (-(start + 1)) as u64 + 1;
            end as u64 + below
        }
    } else {
        0
    }
}

/// The record that four fields of a line stand for. The timestamps come as they
/// were read; a field that is missing or cannot be read makes the line malformed.
pub open spec fn entry_from(
    activity: Seq<char>,
    start: Option<i64>,
    end: Option<i64>,
    duration: Seq<char>,
) -> Result<Entry, Error> {
    match (tag_of(activity), checked_timestamp(start), checked_timestamp(end), parsed_duration(duration)) {
        (Some(t), Ok(s), Ok(e), Some(d)) => Ok(Entry { activity: t, start: s, end: e, duration: d }),
        _ => Err(Error::Parse),
    }
}

/// Builds a record from the fields of a line, the timestamps as they were read.
pub fn entry_of(activity: &str, start: Option<i64>, end: Option<i64>, duration: &str) -> (res: Result<Entry, Error>)
    ensures
        res == entry_from(activity@, start, end, duration@),
{
    let tag = parse_tag(activity);
    let s = check_timestamp(start);
    let e = check_timestamp(end);
    let d = parse_duration_seconds(duration);
    match (tag, s, e, d) {
        (Some(t), Ok(s), Ok(e), Some(d)) => Ok(Entry { activity: t, start: s, end: e, duration: d }),
        _ => Err(Error::Parse),
    }
}

/// The record that a line of a partition stands for: the line is a JSON object
/// whose members `activity`, `start`, `end` and `duration` are strings that can be read.
pub open spec fn line_entry(line: Seq<char>) -> Result<Entry, Error> {
    match json_document(line) {
        Some((strings, absent, object)) => {
            if strings.contains_key("activity"@) && strings.contains_key("start"@)
                && strings.contains_key("end"@) && strings.contains_key("duration"@) {
                entry_from(
                    strings["activity"@],
                    rfc3339_seconds(strings["start"@]),
                    rfc3339_seconds(strings["end"@]),
                    strings["duration"@],
                )
            } else {
                Err(Error::Parse)
            }
        },
        None => Err(Error::Parse),
    }
}

/// Reads one line of a partition.
pub fn parse_line(line: &str) -> (res: Result<Entry, Error>)
    ensures
        res == line_entry(line@),
{
    let doc = match parse_document(line) {
        Some(doc) => doc,
        None => {
            return Err(Error::Parse);
        },
    };
    let activity = string_member(&doc, "activity");
    let start = string_member(&doc, "start");
    let end = string_member(&doc, "end");
    let duration = string_member(&doc, "duration");
    match (activity, start, end, duration) {
        (Some(a), Some(s), Some(e), Some(d)) => {
            let started = read_timestamp(s.as_str());
            let ended = read_timestamp(e.as_str());
            entry_of(a.as_str(), started, ended, d.as_str())
        },
        _ => Err(Error::Parse),
    }
}

/// The line that stands for a record: a JSON object with the members `activity`,
/// `start`, `end` and `duration`, in this order.
pub open spec fn entry_line_text(e: Entry) -> Seq<char> {
    "{\"activity\":"@ + json_string_text(e.activity.name()) + ",\"start\":"@ + json_string_text(
        rfc3339_text(e.start),
    ) + ",\"end\":"@ + json_string_text(rfc3339_text(e.end)) + ",\"duration\":"@
        + json_string_text(duration_text(e.duration as nat)) + "}"@
}

/// Writes a record as one line, without the line feed.
pub fn entry_line(e: &Entry) -> (res: Result<String, Error>)
    ensures
        res is Ok <==> writable(e.start) && writable(e.end),
        res matches Ok(line) ==> line@ == entry_line_text(*e),
        res is Err ==> res == Err::<String, Error>(Error::OutOfRange),
{
    let start = match iso(e.start) {
        Ok(s) => s,
        Err(err) => {
            return Err(err);
        },
    };
    let end = match iso(e.end) {
        Ok(s) => s,
        Err(err) => {
            return Err(err);
        },
    };
    let duration = format_duration(e.duration);
    let mut out = String::from_str("{\"activity\":");
    out.append(quote(e.activity.as_str()).unwrap().as_str());
    out.append(",\"start\":");
    out.append(quote(start.as_str()).unwrap().as_str());
    out.append(",\"end\":");
    out.append(quote(end.as_str()).unwrap().as_str());
    out.append(",\"duration\":");
    out.append(quote(duration.as_str()).unwrap().as_str());
    out.append("}");
    Ok(out)
}

/// A record whose fields are written out and read again is the same record, given
/// that its timestamps are read back as they were written.
pub proof fn lemma_fields_round_trip(e: Entry)
    requires
        writable(e.start),
        writable(e.end),
    ensures
        entry_from(e.activity.name(), Some(e.start), Some(e.end), duration_text(e.duration as nat))
            == Ok::<Entry, Error>(e),
{
    lemma_tag_round_trip(e.activity);
    crate::duration::lemma_duration_round_trip(e.duration as nat);
}

/// The path of the partition of a calendar month, below the working directory.
pub open spec fn partition_path(year: int, month: nat) -> Seq<char> {
    ".blaze/track-"@ + signed_decimal(year) + "-"@ + two_digits(month) + ".jsonl"@
}

/// The path of the partition that holds the records of the UTC month of `secs`.
pub fn month_file(secs: i64) -> (res: Result<String, Error>)
    ensures
        res is Ok <==> writable(secs),
        res matches Ok(path) ==> path@ == partition_path(
            calendar_month(secs).0 as int,
            calendar_month(secs).1 as nat,
        ),
        res is Err ==> res == Err::<String, Error>(Error::OutOfRange),
{
    let (year, month) = match month_of(secs) {
        Ok(pair) => pair,
        Err(err) => {
            return Err(err);
        },
    };
    let mut out = String::from_str(".blaze/track-");
    append_signed(&mut out, year as i64);
    out.append("-");
    append_two_digits(&mut out, month as u64);
    out.append(".jsonl");
    Ok(out)
}

/// Whether a file name is that of a partition: it begins with `track-` and ends with `.jsonl`.
pub open spec fn is_partition(name: Seq<char>) -> bool {
    "track-"@.is_prefix_of(name) && ".jsonl"@.is_suffix_of(name)
}

pub fn is_partition_name(name: &str) -> (r: bool)
    ensures
        r == is_partition(name@),
{
    let v = chars_of(name);
    let head = chars_of("track-");
    let tail = chars_of(".jsonl");
    begins_with(&v, &head) && ends_with(&v, &tail)
}

/// What is to be appended for a record at the time `now`: the path of the
/// partition of the current month, and the record's line with its line feed.
pub fn append_entry(e: &Entry, now: i64) -> (res: Result<(String, String), Error>)
    ensures
        res is Ok <==> writable(now) && writable(e.start) && writable(e.end),
        res matches Ok(pair) ==> pair.0@ == partition_path(
            calendar_month(now).0 as int,
            calendar_month(now).1 as nat,
        ) && pair.1@ == entry_line_text(*e) + "\n"@,
        res is Err ==> res == Err::<(String, String), Error>(Error::OutOfRange),
{
    let path = match month_file(now) {
        Ok(path) => path,
        Err(err) => {
            return Err(err);
        },
    };
    let mut line = match entry_line(e) {
        Ok(line) => line,
        Err(err) => {
            return Err(err);
        },
    };
    line.append("\n");
    Ok((path, line))
}

/// How many characters stand from `from` on before the next line feed or the end.
pub open spec fn line_len(s: Seq<char>, from: int) -> nat
    decreases s.len() - from,
{
    if 0 <= from < s.len() && s[from] != '\n' {
        1 + line_len(s, from + 1)
    } else {
        0
    }
}

/// What one line adds to the records read: itself where it can be read, nothing
/// where it is blank or malformed.
pub open spec fn line_yield(line: Seq<char>) -> Seq<Entry> {
    if is_blank(line) {
        Seq::empty()
    } else {
        match line_entry(line) {
            Ok(e) => seq![e],
            Err(_) => Seq::empty(),
        }
    }
}

/// Whether a line is dropped as malformed: it is not blank and cannot be read.
pub open spec fn line_dropped(line: Seq<char>) -> bool {
    !is_blank(line) && line_entry(line) is Err
}

/// Where the line after the one at `from` begins, or the end of the text.
pub open spec fn next_line(s: Seq<char>, from: int) -> int {
    let after = from + line_len(s, from) + 1;
    if after <= s.len() {
        after
    } else {
        s.len() as int
    }
}

/// The records of the lines of `s` from position `from` on, in order. Lines end at a line feed.
pub open spec fn entries_from(s: Seq<char>, from: int) -> Seq<Entry>
    decreases s.len() - from,
{
    if 0 <= from < s.len() {
        let n = line_len(s, from);
        line_yield(s.subrange(from, from + n)) + entries_from(s, next_line(s, from))
    } else {
        Seq::empty()
    }
}

/// How many lines of `s` from position `from` on are dropped as malformed.
pub open spec fn dropped_from(s: Seq<char>, from: int) -> nat
    decreases s.len() - from,
{
    if 0 <= from < s.len() {
        let n = line_len(s, from);
        let here: nat = if line_dropped(s.subrange(from, from + n)) {
            1
        } else {
            0
        };
        here + dropped_from(s, next_line(s, from))
    } else {
        0
    }
}

/// The records that the text of a partition holds.
pub open spec fn text_entries(s: Seq<char>) -> Seq<Entry> {
    entries_from(s, 0)
}

/// Reads the text of one partition and adds its records to `entries`, in the
/// order of the lines. Blank lines are passed over; a line that cannot be read
/// is dropped and counted. Returns the count of dropped lines.
pub fn read_all_entries(text: &str, entries: &mut Vec<Entry>) -> (dropped: usize)
    ensures
        final(entries)@ == old(entries)@ + text_entries(text@),
        dropped == dropped_from(text@, 0),
{
    let v = chars_of(text);
    let mut pos: usize = 0;
    let mut dropped: usize = 0;
    assert(entries@ =~= old(entries)@ + Seq::<Entry>::empty());
    while pos < v.len()
        invariant
            v@ == text@,
            old(entries)@ + entries_from(v@, 0) == entries@ + entries_from(v@, pos as int),
            dropped_from(v@, 0) == dropped + dropped_from(v@, pos as int),
            dropped <= pos,
        decreases v.len() - pos,
    {
        let mut end: usize = pos;
        while end < v.len() && v[end] != '\n'
            invariant
                pos <= end <= v.len(),
                line_len(v@, pos as int) == (end - pos) + line_len(v@, end as int),
            decreases v.len() - end,
        {
            end += 1;
        }
        assert(line_len(v@, end as int) == 0);
        let ghost before = entries@;
        let ghost line_view = v@.subrange(pos as int, end as int);
        if !blank_between(&v, pos, end) {
            let line = text.substring_char(pos, end);
            match parse_line(line) {
                Ok(e) => {
                    entries.push(e);
                },
                Err(_) => {
                    dropped += 1;
                },
            }
        }
        let next: usize = if end == v.len() {
            end
        } else {
            end + 1
        };
        proof {
            assert(next == next_line(v@, pos as int));
            assert(entries@ =~= before + line_yield(line_view));
            assert(before + entries_from(v@, pos as int) =~= entries@ + entries_from(v@, next as int));
            assert(dropped_from(v@, pos as int) == (if line_dropped(line_view) {
                1nat
            } else {
                0nat
            }) + dropped_from(v@, next as int));
        }
        pos = next;
    }
    assert(entries_from(v@, pos as int) =~= Seq::<Entry>::empty());
    dropped
}

/// Whether a text is empty or ends with a line feed, as a partition does to
/// which whole lines only were appended.
pub open spec fn ends_lines(s: Seq<char>) -> bool {
    s.len() == 0 || s.last() == '\n'
}

/// Whether no line feed stands in a text.
pub open spec fn one_line(s: Seq<char>) -> bool {
    forall|i: int| 0 <= i < s.len() ==> #[trigger] s[i] != '\n'
}

proof fn lemma_line_within(old: Seq<char>, more: Seq<char>, p: int)
    requires
        0 <= p < old.len(),
        old.last() == '\n',
    ensures
        line_len(old + more, p) == line_len(old, p),
        p + line_len(old, p) < old.len(),
    decreases old.len() - p,
{
    assert((old + more)[p] == old[p]);
    if old[p] != '\n' {
        assert(old[old.len() - 1] == '\n');
        lemma_line_within(old, more, p + 1);
    }
}

proof fn lemma_line_run(s: Seq<char>, from: int, to: int)
    requires
        0 <= from <= to <= s.len(),
        forall|k: int| from <= k < to ==> #[trigger] s[k] != '\n',
        to < s.len() ==> s[to] == '\n',
    ensures
        line_len(s, from) == to - from,
    decreases to - from,
{
    if from < to {
        lemma_line_run(s, from + 1, to);
    }
}

proof fn lemma_appended_from(old: Seq<char>, line: Seq<char>, p: int)
    requires
        ends_lines(old),
        one_line(line),
        0 <= p <= old.len(),
    ensures
        entries_from(old + line + seq!['\n'], p) == entries_from(old, p) + line_yield(line),
        dropped_from(old + line + seq!['\n'], p) == dropped_from(old, p) + (if line_dropped(line) {
            1nat
        } else {
            0nat
        }),
    decreases old.len() - p,
{
    let more = line + seq!['\n'];
    let all = old + line + seq!['\n'];
    assert(all =~= old + more);
    if p < old.len() {
        lemma_line_within(old, more, p);
        let n = line_len(old, p);
        assert(all.subrange(p, p + n) =~= old.subrange(p, p + n));
        assert(next_line(all, p) == p + n + 1);
        assert(next_line(old, p) == p + n + 1);
        lemma_appended_from(old, line, p + n + 1);
        assert(entries_from(all, p) =~= entries_from(old, p) + line_yield(line));
        assert(dropped_from(all, p) == (if line_dropped(all.subrange(p, p + n)) {
            1nat
        } else {
            0nat
        }) + dropped_from(all, next_line(all, p)));
        assert(dropped_from(old, p) == (if line_dropped(old.subrange(p, p + n)) {
            1nat
        } else {
            0nat
        }) + dropped_from(old, next_line(old, p)));
    } else {
        let end = p + line.len();
        assert forall|k: int| p <= k < end implies #[trigger] all[k] != '\n' by {
            assert(all[k] == line[k - p]);
        }
        assert(all[end] == '\n');
        lemma_line_run(all, p, end);
        assert(all.subrange(p, end) =~= line);
        assert(next_line(all, p) == all.len());
        assert(entries_from(all, all.len() as int) =~= Seq::<Entry>::empty());
        assert(entries_from(all, p) =~= line_yield(line));
        assert(entries_from(old, p) =~= Seq::<Entry>::empty());
        assert(dropped_from(all, all.len() as int) == 0);
        assert(dropped_from(old, p) == 0);
        assert(dropped_from(all, p) == (if line_dropped(all.subrange(p, end)) {
            1nat
        } else {
            0nat
        }) + dropped_from(all, next_line(all, p)));
    }
}

/// A line appended to a partition adds what it yields and leaves the records
/// before it as they were: the text then holds the records it held, followed
/// by the record of the line if the line can be read.
pub proof fn lemma_appended_line(old: Seq<char>, line: Seq<char>)
    requires
        ends_lines(old),
        one_line(line),
    ensures
        text_entries(old + line + seq!['\n']) == text_entries(old) + line_yield(line),
        dropped_from(old + line + seq!['\n'], 0) == dropped_from(old, 0) + (if line_dropped(line) {
            1nat
        } else {
            0nat
        }),
{
    lemma_appended_from(old, line, 0);
}

} // verus!
