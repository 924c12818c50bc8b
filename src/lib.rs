//! Per-domain server-error rates over access logs, restricted to a time window.
//!
//! A log line is `timestamp|...|domain|...|status` (at least five `|`-separated
//! fields). Lines whose timestamp falls in the half-open window `[start, end)` are
//! eligible; a [`Tally`] counts them, and per domain the eligible ones whose status
//! is a server error (500 or above). Tallies of several files merge additively,
//! in any order.
pub mod aggregate;
pub mod number;
pub mod record;
pub mod report;
pub mod tally;
pub mod text;
pub mod time;

pub use aggregate::{merge_all, parse_bytes};
pub use number::{parse_status, parse_timestamp, Stamp};
pub use record::{eligible, LineError};
pub use report::{percent_of, percentages, ReportError};
pub use tally::Tally;
pub use text::split_fields;
pub use time::{str_to_unix, TimeError};
