//! The open sessions: at most one per activity, started and stopped by hand.
//!
//! The state is a plain value. A transition takes the state and the current
//! time and changes the state; reading and writing the state file is left to
//! the caller, who gets the file's text from `save` and hands it to `load`.

use crate::error::Error;
use crate::json::{
    is_object, json_absent, json_document, json_string_text, json_strings, member_absent,
    parse_document, quote, string_member,
};
use crate::store::{elapsed, elapsed_seconds, parse_tag, tag_of, Entry, Tag};
use crate::text::{blank, is_blank};
use crate::util::{
    check_timestamp, checked_timestamp, iso, read_timestamp, rfc3339_seconds, rfc3339_text,
    writable,
};
use serde_json::Value;
use vstd::prelude::*;
use vstd::string::*;

verus! {

/// When each activity was started, if it is running.
#[derive(Clone, Copy, Debug, PartialEq, Eq, Structural)]
pub struct Active {
    pub train: Option<i64>,
    pub battle: Option<i64>,
}

impl Active {
    /// The start of the open session of an activity.
    pub open spec fn started(self, tag: Tag) -> Option<i64> {
        match tag {
            Tag::Train => self.train,
            Tag::Battle => self.battle,
        }
    }

    /// The state with the session of one activity replaced.
    pub open spec fn with(self, tag: Tag, since: Option<i64>) -> Active {
        match tag {
            Tag::Train => Active { train: since, battle: self.battle },
            Tag::Battle => Active { train: self.train, battle: since },
        }
    }

    /// The state in which nothing runs.
    pub fn idle() -> (res: Active)
        ensures
            res == (Active { train: None, battle: None }),
    {
        Active { train: None, battle: None }
    }

    pub fn get(&self, tag: Tag) -> (res: Option<i64>)
        ensures
            res == self.started(tag),
    {
        match tag {
            Tag::Train => self.train,
            Tag::Battle => self.battle,
        }
    }

    pub fn set(&mut self, tag: Tag, since: Option<i64>)
        ensures
            *final(self) == old(self).with(tag, since),
    {
        match tag {
            Tag::Train => {
                self.train = since;
            },
            Tag::Battle => {
                self.battle = since;
            },
        }
    }
}

impl Tag {
    pub fn counterpart(&self) -> (res: Tag)
        ensures
            res == self.other(),
    {
        match self {
            Tag::Train => Tag::Battle,
            Tag::Battle => Tag::Train,
        }
    }
}

/// What `start` did.
#[derive(Clone, Copy, Debug, PartialEq, Eq, Structural)]
pub enum Started {
    /// A session was opened. `other_running` says that the other activity has
    /// an open session too, which is left as it is: the caller should advise
    /// the operator to stop it.
    Begun { other_running: bool },
    /// The activity was running already, since the given time. Nothing changed.
    AlreadyRunning { since: i64 },
}

/// The state after `start`, and what is reported.
pub open spec fn start_of(state: Active, tag: Tag, now: i64) -> (Active, Started) {
    match state.started(tag) {
        Some(since) => (state, Started::AlreadyRunning { since }),
        None => (
            state.with(tag, Some(now)),
            Started::Begun { other_running: state.started(tag.other()) is Some },
        ),
    }
}

/// The state after `stop`, and the record of the session that ended, if one was open.
pub open spec fn stop_of(state: Active, tag: Tag, now: i64) -> (Active, Option<Entry>) {
    match state.started(tag) {
        Some(since) => (
            state.with(tag, None),
            Some(
                Entry {
                    activity: tag,
                    start: since,
                    end: now,
                    duration: elapsed_seconds(since, now),
                },
            ),
        ),
        None => (state, None),
    }
}

/// What `status` reports: the running activity and its start, `train` before `battle`.
pub open spec fn status_of(state: Active) -> Option<(Tag, i64)> {
    match state.train {
        Some(since) => Some((Tag::Train, since)),
        None => match state.battle {
            Some(since) => Some((Tag::Battle, since)),
            None => None,
        },
    }
}

/// Opens a session of the named activity at the time `now`. An unknown name is
/// refused and an activity that runs already is left alone.
pub fn start(state: &mut Active, tag: &str, now: i64) -> (res: Result<Started, Error>)
    ensures
        match tag_of(tag@) {
            Some(t) => *final(state) == start_of(*old(state), t, now).0 && res == Ok::<
                Started,
                Error,
            >(start_of(*old(state), t, now).1),
            None => *final(state) == *old(state) && res == Err::<Started, Error>(Error::InvalidTag),
        },
{
    let t = match parse_tag(tag) {
        Some(t) => t,
        None => {
            return Err(Error::InvalidTag);
        },
    };
    match state.get(t) {
        Some(since) => Ok(Started::AlreadyRunning { since }),
        None => {
            let other_running = state.get(t.counterpart()).is_some();
            state.set(t, Some(now));
            Ok(Started::Begun { other_running })
        },
    }
}

/// Closes the session of the named activity at the time `now` and gives its
/// record. Where none is open nothing changes and no record is given.
pub fn stop(state: &mut Active, tag: &str, now: i64) -> (res: Result<Option<Entry>, Error>)
    ensures
        match tag_of(tag@) {
            Some(t) => *final(state) == stop_of(*old(state), t, now).0 && res == Ok::<
                Option<Entry>,
                Error,
            >(stop_of(*old(state), t, now).1),
            None => *final(state) == *old(state) && res == Err::<Option<Entry>, Error>(
                Error::InvalidTag,
            ),
        },
{
    let t = match parse_tag(tag) {
        Some(t) => t,
        None => {
            return Err(Error::InvalidTag);
        },
    };
    match state.get(t) {
        Some(since) => {
            state.set(t, None);
            Ok(Some(Entry { activity: t, start: since, end: now, duration: elapsed(since, now) }))
        },
        None => Ok(None),
    }
}

/// The running activity and when it started. Where both run, `train` is reported.
pub fn status(state: &Active) -> (res: Option<(Tag, i64)>)
    ensures
        res == status_of(*state),
{
    match state.train {
        Some(since) => Some((Tag::Train, since)),
        None => match state.battle {
            Some(since) => Some((Tag::Battle, since)),
            None => None,
        },
    }
}

/// A session that is stopped right after it was started gives a record that
/// runs from the start to the stop, and whose duration is their difference
/// where the clock did not go back.
pub proof fn lemma_stop_after_start(state: Active, tag: Tag, t0: i64, t1: i64)
    requires
        state.started(tag) is None,
    ensures
        ({
            let begun = start_of(state, tag, t0).0;
            let (after, record) = stop_of(begun, tag, t1);
            &&& after == state
            &&& record matches Some(e)
            &&& e.activity == tag && e.start == t0 && e.end == t1
            &&& e.duration >= 0
            &&& t0 <= t1 ==> e.duration == t1 - t0
        }),
{
}

/// Whatever the state before, `stop` after `start` gives a record that ends at
/// the stop, and whose duration is end minus start where the clock did not go back.
pub proof fn lemma_stop_after_start_any(state: Active, tag: Tag, t0: i64, t1: i64)
    ensures
        ({
            let begun = start_of(state, tag, t0).0;
            let (after, record) = stop_of(begun, tag, t1);
            &&& after.started(tag) is None
            &&& after.started(tag.other()) == state.started(tag.other())
            &&& record matches Some(e)
            &&& e.activity == tag && e.end == t1
            &&& e.start == (match state.started(tag) {
                Some(since) => since,
                None => t0,
            })
            &&& e.start <= e.end ==> e.duration == e.end - e.start
        }),
{
}

/// Starting an activity a second time changes nothing: the state keeps the
/// first start, which is what the second call reports.
pub proof fn lemma_start_twice(state: Active, tag: Tag, t0: i64, t1: i64)
    ensures
        ({
            let once = start_of(state, tag, t0).0;
            let (twice, report) = start_of(once, tag, t1);
            &&& twice == once
            &&& once.started(tag) is Some
            &&& report == (Started::AlreadyRunning { since: once.started(tag)->0 })
        }),
{
}

/// Stopping an activity that was not started gives no record and changes nothing.
pub proof fn lemma_stop_without_start(state: Active, tag: Tag, now: i64)
    requires
        state.started(tag) is None,
    ensures
        stop_of(state, tag, now) == (state, None::<Entry>),
{
}

/// Starting or stopping one activity leaves the other as it was.
pub proof fn lemma_activities_independent(state: Active, tag: Tag, now: i64)
    ensures
        start_of(state, tag, now).0.started(tag.other()) == state.started(tag.other()),
        stop_of(state, tag, now).0.started(tag.other()) == state.started(tag.other()),
{
}

/// Where the state is kept, below the working directory.
pub fn path() -> (res: &'static str)
    ensures
        res@ == ".blaze/active.json"@,
{
    ".blaze/active.json"
}

/// The text of the state file: a JSON object that names each running activity
/// with the RFC 3339 text of its start, `train` before `battle`.
pub open spec fn state_text(state: Active) -> Seq<char> {
    match (state.train, state.battle) {
        (None, None) => "{}"@,
        (Some(t), None) => "{\n  \"train\": "@ + json_string_text(rfc3339_text(t)) + "\n}"@,
        (None, Some(b)) => "{\n  \"battle\": "@ + json_string_text(rfc3339_text(b)) + "\n}"@,
        (Some(t), Some(b)) => "{\n  \"train\": "@ + json_string_text(rfc3339_text(t))
            + ",\n  \"battle\": "@ + json_string_text(rfc3339_text(b)) + "\n}"@,
    }
}

/// Whether each start in the state can be written as text.
pub open spec fn state_writable(state: Active) -> bool {
    &&& state.train matches Some(t) ==> writable(t)
    &&& state.battle matches Some(b) ==> writable(b)
}

/// The text to write to the state file for a state.
pub fn save(state: &Active) -> (res: Result<String, Error>)
    ensures
        res is Ok <==> state_writable(*state),
        res matches Ok(text) ==> text@ == state_text(*state),
        res is Err ==> res == Err::<String, Error>(Error::OutOfRange),
{
    let train = match state.train {
        Some(t) => match iso(t) {
            Ok(text) => Some(quote(text.as_str()).unwrap()),
            Err(err) => {
                return Err(err);
            },
        },
        None => None,
    };
    let battle = match state.battle {
        Some(b) => match iso(b) {
            Ok(text) => Some(quote(text.as_str()).unwrap()),
            Err(err) => {
                return Err(err);
            },
        },
        None => None,
    };
    let mut out = String::from_str("");
    proof {
        reveal_strlit("");
    }
    assert(out@ =~= Seq::<char>::empty());
    match (train, battle) {
        (None, None) => {
            out.append("{}");
            assert(out@ =~= state_text(*state));
        },
        (Some(t), None) => {
            out.append("{\n  \"train\": ");
            out.append(t.as_str());
            out.append("\n}");
            assert(out@ =~= state_text(*state));
        },
        (None, Some(b)) => {
            out.append("{\n  \"battle\": ");
            out.append(b.as_str());
            out.append("\n}");
            assert(out@ =~= state_text(*state));
        },
        (Some(t), Some(b)) => {
            out.append("{\n  \"train\": ");
            out.append(t.as_str());
            out.append(",\n  \"battle\": ");
            out.append(b.as_str());
            out.append("\n}");
            assert(out@ =~= state_text(*state));
        },
    }
    Ok(out)
}

/// The start that one member of the state file stands for. `found` is the
/// timestamp read from the member where it holds a string; `absent` says that
/// the file holds nothing under the name. A member of another kind is malformed.
pub open spec fn member_session(found: Option<Option<i64>>, absent: bool) -> Result<
    Option<i64>,
    Error,
> {
    match found {
        Some(read) => match checked_timestamp(read) {
            Ok(secs) => Ok(Some(secs)),
            Err(err) => Err(err),
        },
        None => if absent {
            Ok(None)
        } else {
            Err(Error::Parse)
        },
    }
}

/// Judges one member of the state file from what was found under its name.
pub fn session_of(found: Option<Option<i64>>, absent: bool) -> (res: Result<Option<i64>, Error>)
    ensures
        res == member_session(found, absent),
{
    match found {
        Some(read) => match check_timestamp(read) {
            Ok(secs) => Ok(Some(secs)),
            Err(err) => Err(err),
        },
        None => {
            if absent {
                Ok(None)
            } else {
                Err(Error::Parse)
            }
        },
    }
}

/// The start recorded under a name in a document that was read.
pub open spec fn document_session(
    strings: Map<Seq<char>, Seq<char>>,
    absent: Set<Seq<char>>,
    name: Seq<char>,
) -> Result<Option<i64>, Error> {
    member_session(
        if strings.contains_key(name) {
            Some(rfc3339_seconds(strings[name]))
        } else {
            None
        },
        absent.contains(name),
    )
}

/// The state that the text of the state file stands for. A blank text is the
/// idle state; otherwise the text must be a JSON object, in which each of
/// `train` and `battle` is either absent or holds a timestamp.
pub open spec fn state_of(text: Seq<char>) -> Result<Active, Error> {
    if is_blank(text) {
        Ok(Active { train: None, battle: None })
    } else {
        match json_document(text) {
            Some((strings, absent, object)) => if !object {
                Err(Error::Parse)
            } else {
                match document_session(strings, absent, "train"@) {
                    Ok(train) => match document_session(strings, absent, "battle"@) {
                        Ok(battle) => Ok(Active { train, battle }),
                        Err(err) => Err(err),
                    },
                    Err(err) => Err(err),
                }
            },
            None => Err(Error::Parse),
        }
    }
}

fn read_member(doc: &Value, name: &str) -> (res: Result<Option<i64>, Error>)
    ensures
        res == document_session(json_strings(*doc), json_absent(*doc), name@),
{
    let found = match string_member(doc, name) {
        Some(text) => Some(read_timestamp(text.as_str())),
        None => None,
    };
    session_of(found, member_absent(doc, name))
}

/// Reads the text of the state file.
pub fn load(text: &str) -> (res: Result<Active, Error>)
    ensures
        res == state_of(text@),
{
    if blank(text) {
        return Ok(Active::idle());
    }
    let doc = match parse_document(text) {
        Some(doc) => doc,
        None => {
            return Err(Error::Parse);
        },
    };
    if !is_object(&doc) {
        return Err(Error::Parse);
    }
    let train = match read_member(&doc, "train") {
        Ok(train) => train,
        Err(err) => {
            return Err(err);
        },
    };
    let battle = match read_member(&doc, "battle") {
        Ok(battle) => battle,
        Err(err) => {
            return Err(err);
        },
    };
    Ok(Active { train, battle })
}

/// A state whose starts are read back from the file as they were written is
/// itself read back: what `save` can write, `load` accepts member by member.
pub proof fn lemma_member_round_trip(since: Option<i64>)
    requires
        since matches Some(secs) ==> writable(secs),
    ensures
        member_session(
            match since {
                Some(secs) => Some(Some(secs)),
                None => None,
            },
            since is None,
        ) == Ok::<Option<i64>, Error>(since),
{
}

} // verus!
