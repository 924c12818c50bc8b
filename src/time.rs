//! Date-times written with a UTC offset, as epoch seconds.
use vstd::prelude::*;

verus! {

#[verifier::external_type_specification]
#[verifier::external_body]
pub struct ExParseError(chrono::ParseError);

/// The epoch seconds of a date-time `YYYY-MM-DD HH:MM:SS ±HH:MM` or `±HHMM` (chrono's
/// `%Y-%m-%d %H:%M:%S %z`), or `None` where `s` is not one.
pub uninterp spec fn unix_time_of(s: Seq<char>) -> Option<int>;

/// Relies on chrono's `DateTime::parse_from_str` with the format
/// `%Y-%m-%d %H:%M:%S %z`, and `DateTime::timestamp` for the seconds since the
/// epoch; the result depends on the text alone.
#[verifier::external_body]
fn parse_offset_datetime(time: &str) -> (r: Result<i64, chrono::ParseError>)
    ensures
        match r {
            Ok(v) => unix_time_of(time@) == Some(v as int),
            Err(_) => unix_time_of(time@) is None,
        },
{
    match chrono::DateTime::parse_from_str(time, "%Y-%m-%d %H:%M:%S %z") {
        Ok(d) => Ok(d.timestamp()),
        Err(e) => Err(e),
    }
}

/// Why a date-time was refused.
#[derive(Debug, Clone, Copy, PartialEq, Eq, Structural)]
pub enum TimeError {
    /// The text is not a date-time with a UTC offset.
    Unparsable,
}

/// The epoch seconds of a date-time with a UTC offset.
pub fn str_to_unix(time: &str) -> (r: Result<i64, TimeError>)
    ensures
        match r {
            Ok(v) => unix_time_of(time@) == Some(v as int),
            Err(e) => e == TimeError::Unparsable && unix_time_of(time@) is None,
        },
{
    match parse_offset_datetime(time) {
        Ok(v) => Ok(v),
        Err(_) => Err(TimeError::Unparsable),
    }
}

} // verus!
