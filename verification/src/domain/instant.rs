//! Moments of transactions, and what is read off them.

use vstd::prelude::*;

use chrono::{DateTime, Datelike, Timelike};

verus! {

/// A moment in UTC: whole seconds since 1970, and the nanoseconds since then.
/// A second with a leap second in it has more than 10^9 of them.
#[derive(Debug, Clone, Copy, PartialEq, Eq, Structural)]
pub struct Instant {
    pub secs: i64,
    pub nanos: u32,
}

pub const NANOS_PER_SEC: u32 = 1_000_000_000;

/// The first second of the calendar: of the year -262143.
pub const FIRST_SECOND: i64 = -8_334_601_228_800;

/// The last second of the calendar: of the year 262142.
pub const LAST_SECOND: i64 = 8_210_266_876_799;

impl Instant {
    /// The moment lies within the calendar, and a leap second can be only at
    /// the end of a minute.
    pub open spec fn wf(&self) -> bool {
        &&& FIRST_SECOND <= self.secs <= LAST_SECOND
        &&& self.nanos < 2 * NANOS_PER_SEC
        &&& self.nanos >= NANOS_PER_SEC ==> self.secs % 60 == 59
    }

    /// Whether the moment lies in a leap second.
    pub open spec fn in_leap_second(&self) -> bool {
        self.nanos >= NANOS_PER_SEC
    }

    /// Whether the moment is one of the calendar.
    pub fn is_well_formed(&self) -> (r: bool)
        ensures
            r == self.wf(),
    {
        if self.secs < FIRST_SECOND || self.secs > LAST_SECOND || self.nanos >= 2 * NANOS_PER_SEC {
            return false;
        }
        if self.nanos < NANOS_PER_SEC {
            return true;
        }
        let shifted: i64 = self.secs + 8_334_601_228_800;
        assert(shifted % 60 == self.secs % 60);
        shifted % 60 == 59
    }
}

/// The second of the day.
pub open spec fn second_of_day(t: Instant) -> int {
    t.secs as int % 86400
}

/// The hour of the day.
pub open spec fn hour_of(t: Instant) -> int {
    second_of_day(t) / 3600
}

/// The weekday, Monday being 0: the first of January 1970 was a Thursday.
pub open spec fn weekday_of(t: Instant) -> int {
    (t.secs as int / 86400 + 3) % 7
}

/// The nanoseconds from `b` to `a`. A leap second counts where it lies between
/// the two times of day.
pub open spec fn nanos_between(a: Instant, b: Instant) -> int {
    let leap = if second_of_day(a) > second_of_day(b) && b.in_leap_second() {
        1int
    } else if second_of_day(a) < second_of_day(b) && a.in_leap_second() {
        -1int
    } else {
        0int
    };
    (a.secs - b.secs + leap) * NANOS_PER_SEC + (a.nanos - b.nanos)
}

/// `x` over `d`, what is left over dropped.
pub open spec fn quotient(x: int, d: int) -> int {
    if x >= 0 {
        x / d
    } else {
        -((-x) / d)
    }
}

/// The whole minutes from `b` to `a`.
pub open spec fn minutes_between(a: Instant, b: Instant) -> int {
    quotient(nanos_between(a, b), 60 * NANOS_PER_SEC)
}

/// `chrono::Timelike::hour` of a moment in UTC gives the hour of its day.
#[verifier::external_body]
pub(crate) fn utc_hour(t: Instant) -> (r: u32)
    requires
        t.wf(),
    ensures
        r == hour_of(t),
{
    DateTime::from_timestamp(t.secs, t.nanos).unwrap().hour()
}

/// `chrono::Datelike::weekday` of a moment in UTC, counted from Monday with
/// `chrono::Weekday::num_days_from_monday`, gives the weekday of its day.
#[verifier::external_body]
pub(crate) fn utc_weekday(t: Instant) -> (r: u32)
    requires
        t.wf(),
    ensures
        r == weekday_of(t),
{
    DateTime::from_timestamp(t.secs, t.nanos).unwrap().weekday().num_days_from_monday()
}

/// `chrono::DateTime::signed_duration_since` gives the time from the second
/// moment to the first, a leap second among it counted where it lies between
/// the two times of day; `chrono::TimeDelta::num_minutes` gives the whole
/// minutes of that, without what is left over.
#[verifier::external_body]
pub(crate) fn utc_minutes_between(a: Instant, b: Instant) -> (r: i64)
    requires
        a.wf(),
        b.wf(),
    ensures
        r == minutes_between(a, b),
{
    let later = DateTime::from_timestamp(a.secs, a.nanos).unwrap();
    let earlier = DateTime::from_timestamp(b.secs, b.nanos).unwrap();
    later.signed_duration_since(earlier).num_minutes()
}

/// An hour is one of 24, and a weekday one of seven.
pub proof fn hours_and_weekdays_are_in_range(t: Instant)
    ensures
        0 <= hour_of(t) < 24,
        0 <= weekday_of(t) < 7,
{
}

/// A week later it is the same hour of the same weekday.
pub proof fn weeks_repeat(t: Instant, u: Instant)
    requires
        u.secs == t.secs + 604800,
    ensures
        hour_of(u) == hour_of(t),
        weekday_of(u) == weekday_of(t),
{
}

/// No time passes between a moment and itself, and where neither lies in a
/// leap second, as much passes one way as the other.
pub proof fn minutes_are_symmetric(a: Instant, b: Instant)
    ensures
        minutes_between(a, a) == 0,
        !a.in_leap_second() && !b.in_leap_second() ==> minutes_between(a, b) == -minutes_between(
            b,
            a,
        ),
{
    if !a.in_leap_second() && !b.in_leap_second() {
        assert(nanos_between(a, b) == -nanos_between(b, a));
    }
}

/// A moment `d` days, `h` hours and less than an hour after the start of Thursday,
/// the first of January 1970, lies in hour `h` of its day, and `d` weekdays after
/// Thursday.
pub proof fn days_have_hours_and_weekdays(t: Instant, d: int, h: int, s: int)
    requires
        t.secs == 86400 * d + 3600 * h + s,
        0 <= h < 24,
        0 <= s < 3600,
    ensures
        hour_of(t) == h,
        weekday_of(t) == (d + 3) % 7,
{
    assert(t.secs as int % 86400 == 3600 * h + s && t.secs as int / 86400 == d);
    assert((3600 * h + s) / 3600 == h);
}

/// Between two moments of which the one is `m` minutes and less than a minute after
/// the other, and none in a leap second, `m` whole minutes pass.
pub proof fn whole_minutes_pass(a: Instant, b: Instant, m: int, rest: int)
    requires
        !a.in_leap_second(),
        !b.in_leap_second(),
        0 <= m,
        0 <= rest < 60_000_000_000,
        1_000_000_000 * a.secs + a.nanos == 1_000_000_000 * b.secs + b.nanos + 60_000_000_000 * m
            + rest,
    ensures
        minutes_between(a, b) == m,
        minutes_between(b, a) == -m,
{
    assert(nanos_between(a, b) == 60_000_000_000 * m + rest);
    assert(nanos_between(b, a) == -(60_000_000_000 * m + rest));
    assert((60_000_000_000 * m + rest) / 60_000_000_000 == m);
    if m == 0 && rest == 0 {
        assert(quotient(0, 60_000_000_000) == 0);
    }
}

} // verus!
