//! Instants passed between the session layer, which counts in `time`'s
//! `OffsetDateTime`, and the database rows, which count in `chrono`: as
//! nanoseconds since the Unix epoch one way, as seconds and nanoseconds the
//! other way.
use vstd::prelude::*;

use time::error::ComponentRange;
use time::OffsetDateTime;

verus! {

/// `time`'s date and time at an offset from UTC.
#[verifier::external_type_specification]
#[verifier::external_body]
pub struct ExOffsetDateTime(OffsetDateTime);

/// `time`'s error for a value out of range.
#[verifier::external_type_specification]
#[verifier::external_body]
pub struct ExComponentRange(ComponentRange);

/// An instant that one of the two crates cannot represent; the message says
/// which conversion failed.
#[derive(Debug, Clone, PartialEq)]
pub struct DatetimeError {
    pub message: String,
}

/// The instant a `time` value stands for, as nanoseconds since the Unix
/// epoch (`OffsetDateTime::unix_timestamp_nanos`, which the crate computes
/// as the whole seconds times a billion plus the nanosecond).
pub uninterp spec fn unix_nanos(value: OffsetDateTime) -> int;

/// `OffsetDateTime::from_unix_timestamp_nanos`: the instant `nanos`
/// nanoseconds after the Unix epoch, in UTC.  It succeeds for every instant
/// from the start of year -9999 to the end of year 9999 (the crate's range
/// without its `large-dates` feature), and the instant it builds is `nanos`:
/// the crate takes the floor of `nanos` over a billion as the seconds and the
/// Euclidean remainder as the nanosecond.
#[verifier::external_body]
fn offset_from_unix_nanos(nanos: i128) -> (out: Result<OffsetDateTime, ComponentRange>)
    ensures
        -377_705_116_800_000_000_000 <= nanos <= 253_402_300_799_999_999_999 ==> out is Ok,
        out matches Ok(t) ==> unix_nanos(t) == nanos,
{
    OffsetDateTime::from_unix_timestamp_nanos(nanos)
}

/// `ComponentRange`'s message, as `to_string` writes it.  Its text is not
/// stated.
#[verifier::external_body]
fn component_range_message(error: &ComponentRange) -> (out: String) {
    format!("{error}")
}

/// `OffsetDateTime::unix_timestamp`: whole seconds since the Unix epoch,
/// the floor of the instant's nanoseconds over a billion.  A value of the
/// crate lies between the years -9999 and 9999 at an offset of less than 26
/// hours, which bounds the result.
#[verifier::external_body]
fn time_unix_timestamp(value: &OffsetDateTime) -> (out: i64)
    ensures
        -400_000_000_000 <= out <= 400_000_000_000,
        out == unix_nanos(*value) / 1_000_000_000,
{
    value.unix_timestamp()
}

/// `OffsetDateTime::nanosecond`: the nanoseconds past the second, always
/// below one billion: the Euclidean remainder of the instant's nanoseconds
/// by a billion.
#[verifier::external_body]
fn time_nanosecond(value: &OffsetDateTime) -> (out: u32)
    ensures
        out < 1_000_000_000,
        out == unix_nanos(*value) % 1_000_000_000,
{
    value.nanosecond()
}

/// The message for a `chrono` instant outside `i64` nanoseconds.
pub open spec fn invalid_chrono_message() -> Seq<char> {
    "invalid chrono timestamp"@
}

/// The message for a `time` instant that `chrono` cannot hold.
pub open spec fn invalid_time_message() -> Seq<char> {
    "invalid time timestamp"@
}

/// The `time` instant that `chrono` counted as `nanos` nanoseconds since the
/// Unix epoch; `None` stands for an instant `chrono` could not count in
/// `i64` nanoseconds, and is the only failure: every such count lies within
/// `time`'s range.
pub fn time_from_chrono_nanos(nanos: Option<i64>) -> (out: Result<OffsetDateTime, DatetimeError>)
    ensures
        nanos is None <==> out is Err,
        out matches Err(e) ==> e.message@ == invalid_chrono_message(),
        nanos matches Some(n) ==> (out matches Ok(t) && unix_nanos(t) == n),
{
    match nanos {
        None => Err(DatetimeError { message: "invalid chrono timestamp".to_string() }),
        Some(n) => match offset_from_unix_nanos(n as i128) {
            Ok(t) => Ok(t),
            Err(e) => Err(DatetimeError { message: component_range_message(&e) }),
        },
    }
}

/// The seconds and nanoseconds since the Unix epoch at which `chrono`
/// rebuilds a `time` instant: the floor of the instant's nanoseconds over a
/// billion, and their Euclidean remainder by a billion.  The nanoseconds stay
/// below one billion and the seconds within 400 billion of the epoch, where
/// `chrono` can build every instant.
pub fn unix_timestamp_parts(value: &OffsetDateTime) -> (out: (i64, u32))
    ensures
        -400_000_000_000 <= out.0 <= 400_000_000_000,
        out.1 < 1_000_000_000,
        out.0 == unix_nanos(*value) / 1_000_000_000,
        out.1 == unix_nanos(*value) % 1_000_000_000,
{
    (time_unix_timestamp(value), time_nanosecond(value))
}

/// The instant `chrono` rebuilt, or the error for one it could not.
pub fn chrono_instant<T>(instant: Option<T>) -> (out: Result<T, DatetimeError>)
    ensures
        match instant {
            Some(x) => out == Ok::<T, DatetimeError>(x),
            None => (out matches Err(e) && e.message@ == invalid_time_message()),
        },
{
    match instant {
        Some(x) => Ok(x),
        None => Err(DatetimeError { message: "invalid time timestamp".to_string() }),
    }
}

/// An instant written as nanoseconds and read back as seconds and
/// nanoseconds is the same instant: the parts rebuild the count, and an
/// instant built from `n` nanoseconds has the parts of `n`.
pub proof fn lemma_instant_round_trip(value: OffsetDateTime, n: int)
    requires
        unix_nanos(value) == n,
    ensures
        (n / 1_000_000_000) * 1_000_000_000 + n % 1_000_000_000 == n,
        0 <= n % 1_000_000_000 < 1_000_000_000,
        unix_nanos(value) / 1_000_000_000 == n / 1_000_000_000,
        unix_nanos(value) % 1_000_000_000 == n % 1_000_000_000,
{
    vstd::arithmetic::div_mod::lemma_fundamental_div_mod(n, 1_000_000_000);
    vstd::arithmetic::div_mod::lemma_mod_bound(n, 1_000_000_000);
}

} // verus!
