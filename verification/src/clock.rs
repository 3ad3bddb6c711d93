//! The clock and the local calendar.

use crate::scheduler::Time;
use chrono::{DateTime, Days, Local, NaiveTime, Utc};
use std::time::Instant;
use vstd::prelude::*;

verus! {

/// Calls `chrono::Utc::now` and gives the instant in whole seconds. Nothing
/// is claimed of what the clock shows. The call panics where the clock of
/// the machine shows a time before 1970, which no precondition can leave out.
#[verifier::external_body]
fn utc_now() -> Time {
    Utc::now().timestamp()
}

/// Whether `now` is what the clock showed when it was read.
pub closed spec fn clock_shows(now: Time) -> bool {
    call_ensures(utc_now, (), now)
}

/// Reads a clock.
fn read<C: Fn() -> Time>(clock: C) -> (now: Time)
    requires
        call_requires(clock, ()),
    ensures
        call_ensures(clock, (), now),
{
    clock()
}

/// Reads the clock: the instant that it shows, in whole seconds.
pub(crate) fn read_clock() -> (now: Time)
    ensures
        clock_shows(now),
{
    read(utc_now)
}

/// Calls `chrono::DateTime::with_time` in the local time zone: the instant on
/// the local day of `at` at which the local clock shows `second_of_day`
/// seconds after midnight. `None` where there is no such time of day, where
/// the local clock shows it never or twice on that day, or where an instant
/// is out of the range of `chrono`. Nothing else is claimed: the answer
/// depends on the time zone of the machine, whose data `chrono` expects to be
/// sound.
#[verifier::external_body]
pub(crate) fn local_with_time(at: Time, second_of_day: u32) -> Option<Time> {
    let time = NaiveTime::from_num_seconds_from_midnight_opt(second_of_day, 0)?;
    let local = DateTime::from_timestamp(at, 0)?.with_timezone(&Local);
    match local.with_time(time).single() {
        Some(moved) => Some(moved.timestamp()),
        None => None,
    }
}

/// Calls `chrono::DateTime::checked_add_days` in the local time zone: the
/// instant `days` local days after `at`, at the same time of day. `None`
/// where the local clock shows that time never or twice on that day, or where
/// an instant is out of the range of `chrono`. Nothing else is claimed: the
/// answer depends on the time zone of the machine, whose data `chrono`
/// expects to be sound.
#[verifier::external_body]
pub(crate) fn local_add_days(at: Time, days: u64) -> Option<Time> {
    let local = DateTime::from_timestamp(at, 0)?.with_timezone(&Local);
    match local.checked_add_days(Days::new(days)) {
        Some(moved) => Some(moved.timestamp()),
        None => None,
    }
}

/// A reading of the monotonic clock of `std`.
#[verifier::external_type_specification]
#[verifier::external_body]
pub struct ExInstant(Instant);

/// `std::time::Instant::now` reads the monotonic clock. Nothing is claimed of
/// the reading.
pub assume_specification[ Instant::now ]() -> (now: Instant)
;

/// Calls `std::time::Instant::elapsed` and gives the time that has passed
/// since the reading in whole milliseconds. Nothing is claimed of it.
#[verifier::external_body]
pub(crate) fn elapsed_millis(since: &Instant) -> u128 {
    since.elapsed().as_millis()
}

} // verus!
