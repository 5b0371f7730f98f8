//! Reading the clock: nanoseconds since the Unix epoch for the book's
//! stamp, and the FIX UTCTimestamp text for SendingTime.

use std::fmt::Write;
use std::time::{Duration, SystemTime, SystemTimeError};
use vstd::prelude::*;
use crate::decimal::is_digit;

verus! {

#[verifier::external_type_specification]
#[verifier::external_body]
pub struct ExSystemTime(SystemTime);

#[verifier::external_type_specification]
#[verifier::external_body]
pub struct ExSystemTimeError(SystemTimeError);

/// Calls `std::time::SystemTime::now`. The reading depends on the clock,
/// so nothing is stated of it.
#[verifier::external_body]
pub(crate) fn system_now() -> SystemTime {
    SystemTime::now()
}

/// Calls `SystemTime::duration_since` with the Unix epoch. Whether it fails
/// depends on the clock's reading, so nothing is stated of the result.
#[verifier::external_body]
pub(crate) fn since_unix_epoch(t: &SystemTime) -> Result<Duration, SystemTimeError> {
    t.duration_since(std::time::UNIX_EPOCH)
}

/// Calls `Duration::as_nanos`. `Duration` is opaque here, so nothing is
/// stated of the count.
#[verifier::external_body]
pub(crate) fn duration_nanos(d: &Duration) -> u128 {
    d.as_nanos()
}

/// Calls `Duration::as_secs`. `Duration` is opaque here, so nothing is
/// stated of the count.
#[verifier::external_body]
fn duration_secs(d: &Duration) -> u64 {
    d.as_secs()
}

/// Calls `Duration::subsec_nanos`, which std documents as the fractional
/// part of the duration in nanoseconds, always below one billion.
#[verifier::external_body]
fn duration_subsec_nanos(d: &Duration) -> (n: u32)
    ensures
        n < 1_000_000_000,
{
    d.subsec_nanos()
}

/// What chrono writes for the UTC instant `secs` seconds and `nanos`
/// nanoseconds after the Unix epoch, formatted with the strftime `pattern`;
/// `None` where chrono has no such instant or cannot format it.
pub uninterp spec fn chrono_utc_format(secs: i64, nanos: u32, pattern: Seq<char>) -> Option<Seq<u8>>;

/// Calls chrono's `DateTime::from_timestamp` (`None` out of its range) and
/// formats the instant with `DateTime::format`, writing it with `write!`
/// so that a format error gives `None`. Claimed: the result is
/// `chrono_utc_format` of the arguments, a function of them alone (UTC, no
/// locale).
#[verifier::external_body]
fn format_utc(secs: i64, nanos: u32, pattern: &str) -> (r: Option<Vec<u8>>)
    ensures
        match r {
            Some(t) => chrono_utc_format(secs, nanos, pattern@) == Some(t@),
            None => chrono_utc_format(secs, nanos, pattern@) is None,
        },
{
    let instant = chrono::DateTime::from_timestamp(secs, nanos)?;
    let mut out = String::new();
    write!(out, "{}", instant.format(pattern)).ok()?;
    Some(out.into_bytes())
}

/// A byte of a FIX UTCTimestamp: a digit, '+', '-', ':' or '.'.
pub open spec fn is_timestamp_byte(b: u8) -> bool {
    is_digit(b) || b == 43 || b == 45 || b == 58 || b == 46
}

/// A non-empty text of timestamp bytes: never a field separator.
pub open spec fn is_timestamp_text(t: Seq<u8>) -> bool {
    t.len() > 0 && forall|i: int| 0 <= i < t.len() ==> is_timestamp_byte(#[trigger] t[i])
}

/// The strftime pattern of a FIX UTCTimestamp with milliseconds.
pub open spec fn sending_time_pattern() -> Seq<char> {
    "%Y%m%d-%H:%M:%S%.3f"@
}

/// The SendingTime text for the instant `secs` seconds and `nanos`
/// nanoseconds after the Unix epoch: chrono's UTC text of it with the FIX
/// UTCTimestamp pattern (`YYYYMMDD-HH:MM:SS.sss`). `None` when `secs` does
/// not fit an `i64`, chrono has no such instant or cannot format it, or the
/// text is not made of timestamp bytes.
pub open spec fn sending_time_text(secs: u64, nanos: u32) -> Option<Seq<u8>> {
    if secs <= i64::MAX {
        match chrono_utc_format(secs as i64, nanos, sending_time_pattern()) {
            Some(t) => if is_timestamp_text(t) {
                Some(t)
            } else {
                None
            },
            None => None,
        }
    } else {
        None
    }
}

/// The SendingTime text for a clock reading (see `sending_time_text`).
pub fn sending_time_at(secs: u64, nanos: u32) -> (r: Option<Vec<u8>>)
    ensures
        match sending_time_text(secs, nanos) {
            Some(t) => r matches Some(v) && v@ == t,
            None => r is None,
        },
{
    if secs > 0x7fff_ffff_ffff_ffff {
        return None;
    }
    let pattern = "%Y%m%d-%H:%M:%S%.3f";
    let text = match format_utc(secs as i64, nanos, pattern) {
        Some(t) => t,
        None => return None,
    };
    if text.len() == 0 {
        return None;
    }
    assert(chrono_utc_format(secs as i64, nanos, sending_time_pattern()) == Some(text@));
    let mut i: usize = 0;
    while i < text.len()
        invariant
            i <= text@.len(),
            text@.len() > 0,
            secs <= i64::MAX,
            chrono_utc_format(secs as i64, nanos, sending_time_pattern()) == Some(text@),
            forall|k: int| 0 <= k < i ==> is_timestamp_byte(#[trigger] text@[k]),
        decreases text@.len() - i,
    {
        let b = text[i];
        if !((48 <= b && b <= 57) || b == 43 || b == 45 || b == 58 || b == 46) {
            assert(!is_timestamp_text(text@));
            return None;
        }
        i += 1;
    }
    Some(text)
}

/// The clock's reading as whole seconds and the nanoseconds past them since
/// the Unix epoch; `None` when the clock reads before the epoch. The
/// reading itself depends on the clock, so only the range of the
/// nanoseconds is stated.
pub(crate) fn clock_reading() -> (r: Option<(u64, u32)>)
    ensures
        r matches Some(p) ==> p.1 < 1_000_000_000,
{
    let now = system_now();
    let elapsed = match since_unix_epoch(&now) {
        Ok(d) => d,
        Err(_) => return None,
    };
    Some((duration_secs(&elapsed), duration_subsec_nanos(&elapsed)))
}

} // verus!
