//! When the report is committed to version control: once a day at most.
//!
//! Only the decision and the message are made here. Running the commands is
//! left to the caller, who also finds out when the last commit was made.

use crate::error::Error;
use crate::util::{now_utc, writable, MAX_TIMESTAMP, MIN_TIMESTAMP};
use vstd::prelude::*;
use vstd::string::*;

verus! {

/// The seconds that must have passed since the last commit.
pub const COMMIT_INTERVAL: i64 = 86_400;

/// What is staged for the commit, in this order.
pub const STAGED_REPORT: &'static str = "README.md";

pub const STAGED_STATE: &'static str = ".blaze/active.json";

pub const STAGED_STORE: &'static str = ".blaze/";

/// The text `<year>-<month>-<day> UTC` that `chrono` writes for the UTC date of a timestamp.
pub uninterp spec fn commit_date_text(secs: i64) -> Seq<char>;

/// `chrono::DateTime::from_timestamp`, then `format` with `%Y-%m-%d UTC` and `to_string`.
/// Trusted: inside the years 0000 to 9999 the conversion succeeds, and the text is
/// a function of the timestamp alone.
#[verifier::external_body]
fn format_commit_date(secs: i64) -> (res: Option<String>)
    requires
        writable(secs),
    ensures
        res is Some,
        res matches Some(s) ==> s@ == commit_date_text(secs),
{
    Some(chrono::DateTime::from_timestamp(secs, 0)?.format("%Y-%m-%d UTC").to_string())
}

/// Whether a commit is due at `now`: there is no commit yet, or the last one is a day old.
pub open spec fn commit_due(last_commit: Option<i64>, now: i64) -> bool {
    match last_commit {
        Some(ts) => now - ts >= COMMIT_INTERVAL,
        None => true,
    }
}

/// The message of the commit made at `now`.
pub open spec fn commit_message(now: i64) -> Seq<char> {
    "blazectl: update ("@ + commit_date_text(now) + ")"@
}

/// The current time in whole seconds, for the comparison with the last commit.
pub fn now_ts() -> i64 {
    now_utc()
}

/// Decides whether the report is committed at `now`, given the time of the
/// last commit, and gives the message of the commit if it is.
pub fn auto_commit_if_due(last_commit: Option<i64>, now: i64) -> (res: Result<Option<String>, Error>)
    ensures
        !commit_due(last_commit, now) ==> res == Ok::<Option<String>, Error>(None),
        commit_due(last_commit, now) && !writable(now) ==> res == Err::<Option<String>, Error>(
            Error::OutOfRange,
        ),
        commit_due(last_commit, now) && writable(now) ==> (res matches Ok(Some(message))
            && message@ == commit_message(now)),
{
    let due = match last_commit {
        Some(ts) => now as i128 - ts as i128 >= COMMIT_INTERVAL as i128,
        None => true,
    };
    if !due {
        return Ok(None);
    }
    if now < MIN_TIMESTAMP || now > MAX_TIMESTAMP {
        return Err(Error::OutOfRange);
    }
    let date = format_commit_date(now).unwrap();
    let mut message = String::from_str("blazectl: update (");
    message.append(date.as_str());
    message.append(")");
    Ok(Some(message))
}

} // verus!
