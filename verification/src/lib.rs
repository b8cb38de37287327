//! A time tracker for two activities, `train` and `battle`.
//!
//! Sessions are started and stopped by hand. Each completed session becomes a
//! record, one line of a monthly log; a report sums the records by UTC day,
//! over rolling windows and as streaks, and holds the figures of a chart.
//!
//! The library computes and decides; it does not touch the file system. A
//! caller reads the files, hands their text over, and writes what comes back.
//! Every function is verified against its contract. What is taken on trust
//! are the calls into `time`, `serde_json` and `chrono`, each behind a private
//! function whose comment says what is assumed of it.

pub mod active;
pub mod chart;
pub mod curve;
pub mod duration;
pub mod error;
pub mod gitops;
pub mod json;
pub mod readme;
pub mod report;
pub mod store;
pub mod text;
pub mod trend;
pub mod util;
