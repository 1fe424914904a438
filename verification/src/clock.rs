//! The wall clock, read as milliseconds since the Unix epoch.

use std::time::{Duration, SystemTime, SystemTimeError, UNIX_EPOCH};
use vstd::prelude::*;
use crate::text::{decimal, decimal_string, decimal_value, is_timestamp, lemma_decimal_round_trip};

verus! {

#[verifier::external_type_specification]
#[verifier::external_body]
pub struct ExSystemTime(SystemTime);

#[verifier::external_type_specification]
#[verifier::external_body]
pub struct ExSystemTimeError(SystemTimeError);

/// `SystemTime::now`: what the machine's clock reads. Nothing is stated of
/// it.
#[verifier::external_body]
fn system_now() -> SystemTime {
    SystemTime::now()
}

/// `SystemTime::duration_since` from `UNIX_EPOCH`: the time elapsed since
/// the epoch, or an error when `t` lies before it. Which comes back depends
/// on the clock's reading, so nothing is stated.
#[verifier::external_body]
fn since_unix_epoch(t: &SystemTime) -> Result<Duration, SystemTimeError> {
    t.duration_since(UNIX_EPOCH)
}

/// `Duration::as_millis`: the whole milliseconds of a duration. The
/// duration comes from the clock, so nothing is stated of the number.
#[verifier::external_body]
fn duration_millis(d: &Duration) -> u128 {
    d.as_millis()
}

/// The current time as the decimal numeral of the milliseconds since the
/// Unix epoch; nothing when the clock reads a time before the epoch.
pub fn current_timestamp() -> (s: Option<String>)
    ensures
        s matches Some(t) ==> is_timestamp(t@),
{
    let now = system_now();
    match since_unix_epoch(&now) {
        Ok(elapsed) => {
            let ms = duration_millis(&elapsed);
            let s = decimal_string(ms);
            assert(s@ == decimal(ms as nat));
            Some(s)
        },
        Err(_) => None,
    }
}

/// Timestamps read back in the order of the clock readings they render:
/// when the clock read `c1` milliseconds and later `c2`, with `c1 <= c2`,
/// the second timestamp reads as a number no smaller than the first. (The
/// wall clock itself may be set back between two readings.)
pub proof fn lemma_timestamps_follow_the_clock(c1: nat, c2: nat)
    requires
        c1 <= c2,
    ensures
        decimal_value(decimal(c1)) <= decimal_value(decimal(c2)),
{
    lemma_decimal_round_trip(c1);
    lemma_decimal_round_trip(c2);
}

} // verus!
