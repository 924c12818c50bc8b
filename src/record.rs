//! One log line: its fields, and whether it is an eligible record.
use vstd::prelude::*;
use crate::number::{parse_status, parse_timestamp, status_value, timestamp_of, Stamp};
use crate::text::{split_on, trim, trimmed, views};

verus! {

/// Why a line is not a record.
#[derive(Debug, Clone, Copy, PartialEq, Eq, Structural)]
pub enum LineError {
    /// Fewer than five `|`-separated fields.
    MissingFields,
    /// The first field is not a floating-point number.
    MalformedTimestamp,
    /// The line is in the window, and its fifth field is not a status code.
    MalformedStatus,
}

/// The half-open window `[start, end)` holds `t`.
pub open spec fn in_window(t: int, start: int, end: int) -> bool {
    start <= t < end
}

/// What the fields of a line give: the domain (third field) and status (fifth)
/// of a record in the window, `None` for one outside it, or why the line is no
/// record. Fields are read with surrounding white space trimmed.
pub open spec fn record_of(fields: Seq<Seq<char>>, start: i64, end: i64) -> Result<
    Option<(Seq<char>, u32)>,
    LineError,
> {
    if fields.len() < 5 {
        Err(LineError::MissingFields)
    } else {
        match timestamp_of(trimmed(fields[0])) {
            None => Err(LineError::MalformedTimestamp),
            Some(Stamp::Secs(t)) => if !in_window(t as int, start as int, end as int) {
                Ok(None)
            } else {
                match status_value(trimmed(fields[4])) {
                    None => Err(LineError::MalformedStatus),
                    Some(status) => Ok(Some((trimmed(fields[2]), status))),
                }
            },
            Some(_) => Ok(None),
        }
    }
}

/// What a whole line gives.
pub open spec fn line_record(line: Seq<char>, start: i64, end: i64) -> Result<
    Option<(Seq<char>, u32)>,
    LineError,
> {
    record_of(split_on(line, '|'), start, end)
}

pub open spec fn record_view(r: Result<Option<(String, u32)>, LineError>) -> Result<
    Option<(Seq<char>, u32)>,
    LineError,
> {
    match r {
        Ok(Some((domain, status))) => Ok(Some((domain@, status))),
        Ok(None) => Ok(None),
        Err(e) => Err(e),
    }
}

/// Reads the domain and status of a line's fields where its timestamp lies in
/// `[start, end)`.
pub fn eligible(log: Vec<&str>, start: i64, end: i64) -> (r: Result<Option<(String, u32)>, LineError>)
    ensures
        record_view(r) == record_of(views(log@), start, end),
{
    let ghost fields = views(log@);
    if log.len() < 5 {
        return Err(LineError::MissingFields);
    }
    assert(fields[0] == log@[0]@ && fields[2] == log@[2]@ && fields[4] == log@[4]@);
    let timestamp = match parse_timestamp(trim(log[0])) {
        Some(Stamp::Secs(t)) => t,
        Some(_) => {
            return Ok(None);
        },
        None => {
            return Err(LineError::MalformedTimestamp);
        },
    };
    if !(start <= timestamp && timestamp < end) {
        return Ok(None);
    }
    let domain = trim(log[2]).to_owned();
    match parse_status(trim(log[4])) {
        Some(status) => Ok(Some((domain, status))),
        None => Err(LineError::MalformedStatus),
    }
}

/// A timestamp equal to `start` is in the window, and one equal to `end` is not.
pub proof fn lemma_window_bounds(fields: Seq<Seq<char>>, start: i64, end: i64)
    requires
        start < end,
        fields.len() >= 5,
        status_value(trimmed(fields[4])) is Some,
    ensures
        timestamp_of(trimmed(fields[0])) == Some(Stamp::Secs(start)) ==> record_of(fields, start, end) == Ok::<
            Option<(Seq<char>, u32)>,
            LineError,
        >(Some((trimmed(fields[2]), status_value(trimmed(fields[4]))->0))),
        timestamp_of(trimmed(fields[0])) == Some(Stamp::Secs(end)) ==> record_of(fields, start, end) == Ok::<
            Option<(Seq<char>, u32)>,
            LineError,
        >(None),
{
}

} // verus!
