//! Dates of request timestamps: day numbers, weekdays and differences.

use vstd::prelude::*;

verus! {

/// A date and time to the minute, as a timestamp spells it.
#[derive(Debug, Clone, Copy, PartialEq, Eq, Structural)]
pub struct Moment {
    pub year: u16,
    pub month: u8,
    pub day: u8,
    pub hour: u8,
    pub minute: u8,
}

/// The Julian day number of a Gregorian date. January and February count as
/// months 13 and 14 of the year before.
pub open spec fn day_number(y: int, mo: int, d: int) -> int {
    let yy = if mo <= 2 {
        y - 1
    } else {
        y
    };
    let mm = if mo <= 2 {
        mo + 12
    } else {
        mo
    };
    let century = if yy < 0 {
        0
    } else {
        yy / 100
    };
    1461 * (yy + 4716) / 4 + 306001 * (mm + 1) / 10000 + d + (2 - century + century / 4) - 1524
}

/// Whether a year has a 29th of February.
pub open spec fn is_leap(y: int) -> bool {
    y % 4 == 0 && (y % 100 != 0 || y % 400 == 0)
}

/// How many days a month has.
pub open spec fn month_length(y: int, mo: int) -> int {
    if mo == 2 {
        if is_leap(y) {
            29
        } else {
            28
        }
    } else if mo == 4 || mo == 6 || mo == 9 || mo == 11 {
        30
    } else {
        31
    }
}

impl Moment {
    /// Whether the date is one of the calendar, and the time one of the clock.
    pub open spec fn is_real(self) -> bool {
        &&& 1 <= self.month <= 12
        &&& 1 <= self.day <= month_length(self.year as int, self.month as int)
        &&& self.hour < 24
        &&& self.minute < 60
    }

    /// Whether there is such a moment.
    pub fn is_possible(&self) -> (r: bool)
        ensures
            r == self.is_real(),
    {
        let leap = self.year % 4 == 0 && (self.year % 100 != 0 || self.year % 400 == 0);
        let days: u8 = if self.month == 2 {
            if leap {
                29
            } else {
                28
            }
        } else if self.month == 4 || self.month == 6 || self.month == 9 || self.month == 11 {
            30
        } else {
            31
        };
        1 <= self.month && self.month <= 12 && 1 <= self.day && self.day <= days && self.hour < 24
            && self.minute < 60
    }
}

/// The offset that Sakamoto's rule adds for a month.
pub open spec fn month_offset(mo: int) -> int {
    if mo == 1 {
        0
    } else if mo == 2 {
        3
    } else if mo == 3 {
        2
    } else if mo == 4 {
        5
    } else if mo == 5 {
        0
    } else if mo == 6 {
        3
    } else if mo == 7 {
        5
    } else if mo == 8 {
        1
    } else if mo == 9 {
        4
    } else if mo == 10 {
        6
    } else if mo == 11 {
        2
    } else {
        4
    }
}

/// The weekday of a date, Monday being 0: Sakamoto's rule.
pub open spec fn weekday(y: int, mo: int, d: int) -> int {
    let yy = if mo < 3 {
        y - 1
    } else {
        y
    };
    ((yy + yy / 4 - yy / 100 + yy / 400 + month_offset(mo) + d) % 7 + 6) % 7
}

/// Whether a date has a weekday here: a month from 1 to 12, and not before
/// March of the year 0.
pub open spec fn has_weekday(y: int, mo: int) -> bool {
    1 <= mo <= 12 && (mo >= 3 || y >= 1)
}

/// The minutes from `prev` to `cur`, negative where `prev` is the later one.
pub open spec fn minutes_from(prev: Moment, cur: Moment) -> int {
    (day_number(cur.year as int, cur.month as int, cur.day as int) - day_number(
        prev.year as int,
        prev.month as int,
        prev.day as int,
    )) * 1440 + ((cur.hour * 60 + cur.minute) - (prev.hour * 60 + prev.minute))
}

/// The day number of a date; the month and the day need not be of the calendar.
pub fn days_since_epoch(y: u16, mo: u8, d: u8) -> (r: u32)
    ensures
        r == day_number(y as int, mo as int, d as int),
{
    let yy: i32 = if mo <= 2 {
        y as i32 - 1
    } else {
        y as i32
    };
    let mm: i32 = if mo <= 2 {
        mo as i32 + 12
    } else {
        mo as i32
    };
    let a: i32 = if yy < 0 {
        0
    } else {
        yy / 100
    };
    let b: i32 = 2 - a + a / 4;
    let days: i32 = 1461 * (yy + 4716) / 4 + 306001 * (mm + 1) / 10000 + d as i32 + b - 1524;
    days as u32
}

/// The minutes from `prev` to `cur`.
pub fn minutes_between(cur: Moment, prev: Moment) -> (r: i64)
    ensures
        r == minutes_from(prev, cur),
        cur.year == prev.year && cur.month == prev.month && cur.day == prev.day ==> r == (cur.hour
            - prev.hour) * 60 + (cur.minute - prev.minute),
{
    let dc: i64 = days_since_epoch(cur.year, cur.month, cur.day) as i64;
    let dp: i64 = days_since_epoch(prev.year, prev.month, prev.day) as i64;
    let mc: i64 = cur.hour as i64 * 60 + cur.minute as i64;
    let mp: i64 = prev.hour as i64 * 60 + prev.minute as i64;
    (dc - dp) * 1440 + (mc - mp)
}

/// The weekday of a date, Monday being 0.
pub fn date_weekday(y: u16, mo: u8, d: u8) -> (r: u8)
    requires
        has_weekday(y as int, mo as int),
    ensures
        r == weekday(y as int, mo as int, d as int),
        r < 7,
{
    let t: [u8; 12] = [0, 3, 2, 5, 0, 3, 5, 1, 4, 6, 2, 4];
    let yy: u32 = if mo < 3 {
        (y - 1) as u32
    } else {
        y as u32
    };
    let dow_sun0: u32 = (yy + yy / 4 - yy / 100 + yy / 400 + t[(mo - 1) as usize] as u32
        + d as u32) % 7;
    ((dow_sun0 + 6) % 7) as u8
}

/// The two rules agree: the weekday is the day number modulo seven.
pub proof fn weekday_follows_the_day_number(y: int, mo: int, d: int)
    requires
        has_weekday(y, mo),
        y >= 0,
    ensures
        weekday(y, mo, d) == day_number(y, mo, d) % 7,
{
    let yy = if mo <= 2 {
        y - 1
    } else {
        y
    };
    let mm = if mo <= 2 {
        mo + 12
    } else {
        mo
    };
    let months = 306001 * (mm + 1) / 10000;
    let x = yy + yy / 4 - yy / 100 + yy / 400 + d;
    assert(1461 * (yy + 4716) / 4 == 365 * yy + yy / 4 + 1722519);
    assert((yy / 100) / 4 == yy / 400);
    assert(day_number(y, mo, d) == x + 364 * yy + months + 1720997);
    let weeks = (months + 1720991 - month_offset(mo)) / 7;
    assert(months + 1720991 - month_offset(mo) == 7 * weeks);
    assert(day_number(y, mo, d) == (x + month_offset(mo) + 6) + 7 * (52 * yy + weeks));
}

/// What a year adds to the parts of a day number that count years.
proof fn lemma_year(y: int)
    requires
        y >= 1,
    ensures
        1461 * (y + 4716) / 4 == 1461 * (y - 1 + 4716) / 4 + 365 + (if y % 4 == 0 {
            1int
        } else {
            0int
        }),
        y / 100 == (y - 1) / 100 + (if y % 100 == 0 {
            1int
        } else {
            0int
        }),
        y / 100 / 4 == (y - 1) / 100 / 4 + (if y % 400 == 0 {
            1int
        } else {
            0int
        }),
{
    assert(y / 100 / 4 == y / 400);
    assert((y - 1) / 100 / 4 == (y - 1) / 400);
}

/// The first of the next month comes as many days later as the month is long.
#[verifier::spinoff_prover]
pub proof fn months_follow_each_other(y: int, mo: int)
    requires
        y >= 1 || (y == 0 && mo >= 3),
        1 <= mo <= 12,
    ensures
        mo < 12 ==> day_number(y, mo + 1, 1) == day_number(y, mo, 1) + month_length(y, mo),
        mo == 12 ==> day_number(y + 1, 1, 1) == day_number(y, 12, 1) + month_length(y, 12),
{
    if mo == 2 {
        lemma_year(y);
        assert(306001 * 15 / 10000 == 459 && 306001 * 4 / 10000 == 122);
    } else if mo == 1 {
        assert(306001 * 14 / 10000 == 428 && 306001 * 15 / 10000 == 459);
    } else if mo == 12 {
        assert(306001 * 13 / 10000 == 397 && 306001 * 14 / 10000 == 428);
    } else {
        assert(306001 * (mo + 2) / 10000 - 306001 * (mo + 1) / 10000 == month_length(y, mo));
    }
}

/// Within a month, the day number counts the days.
pub proof fn days_follow_each_other(y: int, mo: int, d: int, n: int)
    ensures
        day_number(y, mo, d + n) == day_number(y, mo, d) + n,
{
}

/// A difference in minutes is the opposite of the difference the other way
/// round, and differences over a third moment add up.
pub proof fn minutes_are_a_difference(a: Moment, b: Moment, c: Moment)
    ensures
        minutes_from(a, a) == 0,
        minutes_from(a, b) == -minutes_from(b, a),
        minutes_from(a, b) + minutes_from(b, c) == minutes_from(a, c),
{
}

/// Clock times count up by the clock: between two moments of one date there
/// pass sixty minutes an hour.
pub proof fn clocks_count_the_minutes_of_a_day(prev: Moment, cur: Moment)
    requires
        prev.year == cur.year,
        prev.month == cur.month,
        prev.day == cur.day,
    ensures
        minutes_from(prev, cur) == (cur.hour - prev.hour) * 60 + (cur.minute - prev.minute),
{
}

/// Between the same time of day on two dates there pass 1440 minutes a day.
pub proof fn days_count_the_minutes_between_dates(prev: Moment, cur: Moment)
    requires
        prev.hour == cur.hour,
        prev.minute == cur.minute,
    ensures
        minutes_from(prev, cur) == 1440 * (day_number(
            cur.year as int,
            cur.month as int,
            cur.day as int,
        ) - day_number(prev.year as int, prev.month as int, prev.day as int)),
{
}

/// The weekday of the next day is the next weekday, after Sunday Monday, and so
/// from the last day of a month to the first of the next.
pub proof fn weekdays_follow_each_other(y: int, mo: int, d: int)
    requires
        has_weekday(y, mo),
        y >= 0,
    ensures
        0 <= weekday(y, mo, d) < 7,
        weekday(y, mo, d + 1) == (weekday(y, mo, d) + 1) % 7,
        mo < 12 ==> weekday(y, mo + 1, 1) == weekday(y, mo, month_length(y, mo) + 1),
        mo == 12 ==> weekday(y + 1, 1, 1) == weekday(y, 12, 32),
{
    weekday_follows_the_day_number(y, mo, d);
    weekday_follows_the_day_number(y, mo, d + 1);
    weekday_follows_the_day_number(y, mo, month_length(y, mo) + 1);
    months_follow_each_other(y, mo);
    days_follow_each_other(y, mo, d, 1);
    days_follow_each_other(y, mo, 1, month_length(y, mo));
    if mo < 12 {
        weekday_follows_the_day_number(y, mo + 1, 1);
    } else {
        weekday_follows_the_day_number(y + 1, 1, 1);
    }
}

/// The months' lengths are those of the Gregorian calendar: thirty days have
/// April, June, September and November, and February has 28, or 29 in every
/// fourth year but for the hundreds that are not four hundreds.
pub proof fn months_have_their_lengths(y: int, mo: int)
    requires
        1 <= mo <= 12,
    ensures
        mo == 4 || mo == 6 || mo == 9 || mo == 11 ==> month_length(y, mo) == 30,
        mo == 1 || mo == 3 || mo == 5 || mo == 7 || mo == 8 || mo == 10 || mo == 12
            ==> month_length(y, mo) == 31,
        mo == 2 && y % 4 != 0 ==> month_length(y, mo) == 28,
        mo == 2 && y % 4 == 0 && y % 100 != 0 ==> month_length(y, mo) == 29,
        mo == 2 && y % 100 == 0 && y % 400 != 0 ==> month_length(y, mo) == 28,
        mo == 2 && y % 400 == 0 ==> month_length(y, mo) == 29,
{
}

/// There is a moment exactly where its day is one of its month, its month one of
/// twelve, its hour one of 24 and its minute one of sixty.
pub proof fn real_moments(m: Moment)
    ensures
        m.is_real() <==> 1 <= m.month <= 12 && 1 <= m.day <= month_length(
            m.year as int,
            m.month as int,
        ) && m.hour <= 23 && m.minute <= 59,
{
}

} // verus!
