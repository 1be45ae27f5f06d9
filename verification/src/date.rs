//! Calendar dates of Unix timestamps, through `chrono`.

use vstd::prelude::*;

verus! {

/// The `YYYY-MM-DD` (UTC) date of a Unix timestamp in seconds, or the empty
/// text where chrono cannot represent the timestamp.
pub uninterp spec fn iso_date_of(ts: i64) -> Seq<char>;

/// `chrono::DateTime::from_timestamp(ts, 0)` formatted with `%Y-%m-%d`, or
/// the empty string when chrono returns `None`. The result is named
/// `iso_date_of`: it depends on `ts` alone (UTC, no time zone); the calendar
/// arithmetic itself is not stated here.
#[verifier::external_body]
pub(crate) fn iso_date(ts: i64) -> (s: String)
    ensures
        s@ == iso_date_of(ts),
{
    match chrono::DateTime::from_timestamp(ts, 0) {
        Some(dt) => dt.format("%Y-%m-%d").to_string(),
        None => String::new(),
    }
}

} // verus!
