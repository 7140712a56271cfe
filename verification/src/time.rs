//! Ages of visits, in whole seconds and in words.

use vstd::prelude::*;

verus! {

pub const SECONDS_PER_MINUTE: u64 = 60;

pub const SECONDS_PER_HOUR: u64 = 3600;

pub const SECONDS_PER_DAY: u64 = 86400;

/// The time from a visit to now, in seconds; none if the visit lies ahead.
pub open spec fn age_of(last_access: int, now: int) -> int {
    if now > last_access {
        now - last_access
    } else {
        0
    }
}

/// An age as it is told: in the largest unit of which it holds at least one.
#[derive(Clone, Copy, Debug, PartialEq, Eq, Structural)]
pub enum TimeAgo {
    Days(u64),
    Hours(u64),
    Minutes(u64),
    JustNow,
}

/// How an age of so many seconds is told.
pub open spec fn told(age: int) -> TimeAgo {
    if age >= SECONDS_PER_DAY {
        TimeAgo::Days((age / SECONDS_PER_DAY as int) as u64)
    } else if age >= SECONDS_PER_HOUR {
        TimeAgo::Hours((age / SECONDS_PER_HOUR as int) as u64)
    } else if age >= SECONDS_PER_MINUTE {
        TimeAgo::Minutes((age / SECONDS_PER_MINUTE as int) as u64)
    } else {
        TimeAgo::JustNow
    }
}

/// The age of a visit at time `now`, in seconds: zero for a visit that lies
/// ahead of `now`.
pub fn age_seconds(last_access: i64, now: i64) -> (age: u64)
    ensures
        age == age_of(last_access as int, now as int),
{
    if now > last_access {
        let span: i128 = now as i128 - last_access as i128;
        span as u64
    } else {
        0
    }
}

/// How long ago a visit was, as it is told.
pub fn time_ago(last_access: i64, now: i64) -> (r: TimeAgo)
    ensures
        r == told(age_of(last_access as int, now as int)),
{
    let age = age_seconds(last_access, now);
    if age >= SECONDS_PER_DAY {
        TimeAgo::Days(age / SECONDS_PER_DAY)
    } else if age >= SECONDS_PER_HOUR {
        TimeAgo::Hours(age / SECONDS_PER_HOUR)
    } else if age >= SECONDS_PER_MINUTE {
        TimeAgo::Minutes(age / SECONDS_PER_MINUTE)
    } else {
        TimeAgo::JustNow
    }
}

} // verus!
