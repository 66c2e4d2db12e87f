//! The machine's clock and time zone, read through chrono.

use chrono::{Local, TimeZone};
use vstd::prelude::*;

verus! {

/// How the expiration of a credential is written: local time, to the second.
pub const STAMP_FORMAT: &'static str = "%Y-%m-%d %H:%M:%S";

/// The whole seconds from now until the local time that `stamp` gives, read
/// by `chrono::TimeZone::datetime_from_str` on `chrono::Local` and measured
/// against `chrono::Local::now`; `None` where chrono cannot read the stamp in
/// this format or finds no single instant for it in the local time zone.
/// Nothing is claimed of the number: it depends on the clock and on the time
/// zone of the machine.
#[verifier::external_body]
#[allow(deprecated)]
pub(crate) fn seconds_until(stamp: &str, format: &str) -> (r: Option<i64>) {
    match Local.datetime_from_str(stamp, format) {
        Ok(at) => Some(at.signed_duration_since(Local::now()).num_seconds()),
        Err(_) => None,
    }
}

/// The local time at `seconds` after the start of 1970 (UTC), written by
/// `chrono::DateTime::format` in `STAMP_FORMAT`; `None` where
/// `chrono::TimeZone::timestamp_opt` finds the number out of range.
/// Nothing is claimed of the text: it depends on the time zone of the machine.
#[verifier::external_body]
pub(crate) fn local_stamp(seconds: i64, format: &str) -> (r: Option<String>)
    requires
        format@ == STAMP_FORMAT@,
{
    match Local.timestamp_opt(seconds, 0).single() {
        Some(at) => Some(at.format(format).to_string()),
        None => None,
    }
}

} // verus!
