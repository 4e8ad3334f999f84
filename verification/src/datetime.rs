//! Calendar arithmetic: Unix time to civil date and time, NTP time conversion,
//! and the textual form of a date and time.

use vstd::prelude::*;
use crate::number::{dec_pad, push_dec_pad};

verus! {

broadcast use vstd::seq::group_seq_axioms;

/// A day of the week.
#[derive(Clone, Copy, Debug, PartialEq, Eq, Structural)]
pub enum DayOfWeek {
    Sunday,
    Monday,
    Tuesday,
    Wednesday,
    Thursday,
    Friday,
    Saturday,
}

/// A calendar date and time of day.
#[derive(Clone, Copy, Debug, PartialEq, Eq, Structural)]
pub struct DateTime {
    pub year: u16,
    /// 1..=12
    pub month: u8,
    /// 1..=31
    pub day: u8,
    pub day_of_week: DayOfWeek,
    /// 0..=23
    pub hour: u8,
    /// 0..=59
    pub minute: u8,
    /// 0..=59
    pub second: u8,
}

/// Gregorian leap year.
pub open spec fn is_leap(y: int) -> bool {
    (y % 4 == 0 && y % 100 != 0) || y % 400 == 0
}

pub open spec fn year_days(y: int) -> nat {
    if is_leap(y) {
        366
    } else {
        365
    }
}

/// Days from 1970-01-01 to January 1st of year `y` (for `y >= 1970`).
pub open spec fn days_before_year(y: int) -> nat
    decreases y - 1970,
{
    if y <= 1970 {
        0
    } else {
        days_before_year(y - 1) + year_days(y - 1)
    }
}

/// Length of month `m` (1..=12).
pub open spec fn month_days(m: int, leap: bool) -> nat {
    if m == 2 {
        if leap {
            29
        } else {
            28
        }
    } else if m == 4 || m == 6 || m == 9 || m == 11 {
        30
    } else if 1 <= m <= 12 {
        31
    } else {
        0
    }
}

/// Days of the year before the first of month `m`.
pub open spec fn days_before_month(m: int, leap: bool) -> nat
    decreases m,
{
    if m <= 1 {
        0
    } else {
        days_before_month(m - 1, leap) + month_days(m - 1, leap)
    }
}

/// Days since 1970-01-01 of a civil date.
pub open spec fn days_from_civil(y: int, m: int, d: int) -> int {
    days_before_year(y) + days_before_month(m, is_leap(y)) + d - 1
}

/// The day of the week of the day `days` after 1970-01-01 (a Thursday).
pub open spec fn weekday_of(days: int) -> DayOfWeek {
    let w = ((days as u64) + 4) % 7;
    if w == 0 {
        DayOfWeek::Sunday
    } else if w == 1 {
        DayOfWeek::Monday
    } else if w == 2 {
        DayOfWeek::Tuesday
    } else if w == 3 {
        DayOfWeek::Wednesday
    } else if w == 4 {
        DayOfWeek::Thursday
    } else if w == 5 {
        DayOfWeek::Friday
    } else {
        DayOfWeek::Saturday
    }
}

/// A real date on or after 1970-01-01 with a consistent day of the week.
pub open spec fn valid_civil(dt: DateTime) -> bool {
    &&& dt.year >= 1970
    &&& 1 <= dt.month <= 12
    &&& 1 <= dt.day <= month_days(dt.month as int, is_leap(dt.year as int))
    &&& dt.hour < 24
    &&& dt.minute < 60
    &&& dt.second < 60
    &&& dt.day_of_week == weekday_of(
        days_from_civil(dt.year as int, dt.month as int, dt.day as int),
    )
}

/// Seconds since 1970-01-01T00:00:00 of a date and time.
pub open spec fn unix_seconds(dt: DateTime) -> int {
    days_from_civil(dt.year as int, dt.month as int, dt.day as int) * 86400 + dt.hour * 3600
        + dt.minute * 60 + dt.second
}

proof fn lemma_days_before_year_grows(y: int)
    requires
        y >= 1970,
    ensures
        days_before_year(y) >= 365 * (y - 1970),
    decreases y - 1970,
{
    if y > 1970 {
        lemma_days_before_year_grows(y - 1);
    }
}

proof fn lemma_days_before_year_step(y: int)
    requires
        y >= 1970,
    ensures
        days_before_year(y + 1) == days_before_year(y) + year_days(y),
{
}

proof fn lemma_full_year(leap: bool)
    ensures
        days_before_month(13, leap) == if leap { 366nat } else { 365nat },
{
    reveal_with_fuel(days_before_month, 13);
}

fn year_length(y: u32) -> (r: u32)
    ensures
        r == year_days(y as int),
{
    if leap_year(y) {
        366
    } else {
        365
    }
}

fn leap_year(y: u32) -> (r: bool)
    ensures
        r == is_leap(y as int),
{
    (y % 4 == 0 && y % 100 != 0) || (y % 400 == 0)
}

fn month_length(m: u32, leap: bool) -> (r: u32)
    ensures
        r == month_days(m as int, leap),
{
    if m == 2 {
        if leap {
            29
        } else {
            28
        }
    } else if m == 4 || m == 6 || m == 9 || m == 11 {
        30
    } else if 1 <= m && m <= 12 {
        31
    } else {
        0
    }
}

fn weekday(days: u32) -> (r: DayOfWeek)
    ensures
        r == weekday_of(days as int),
{
    let w = ((days as u64) + 4) % 7;
    if w == 0 {
        DayOfWeek::Sunday
    } else if w == 1 {
        DayOfWeek::Monday
    } else if w == 2 {
        DayOfWeek::Tuesday
    } else if w == 3 {
        DayOfWeek::Wednesday
    } else if w == 4 {
        DayOfWeek::Thursday
    } else if w == 5 {
        DayOfWeek::Friday
    } else {
        DayOfWeek::Saturday
    }
}

/// The civil date and time (UTC) of a Unix timestamp.
///
/// Always returns a value: the unique valid date and time whose Unix time is `t`.
pub fn unix_to_datetime(t: u32) -> (r: Option<DateTime>)
    ensures
        r matches Some(dt) && valid_civil(dt) && unix_seconds(dt) == t,
{
    let seconds = t % 60;
    let minutes = (t / 60) % 60;
    let hours = (t / 3600) % 24;
    let days_since_epoch = t / 86400;

    let mut year: u32 = 1970;
    let mut days_remaining: u32 = days_since_epoch;
    while days_remaining >= year_length(year)
        invariant
            year >= 1970,
            days_remaining as int + days_before_year(year as int) == days_since_epoch as int,
            days_since_epoch <= 49710,
        decreases days_remaining,
    {
        let days_in_year: u32 = year_length(year);
        proof {
            lemma_days_before_year_grows(year as int);
            lemma_days_before_year_step(year as int);
        }
        days_remaining = days_remaining - days_in_year;
        year = year + 1;
    }
    proof {
        lemma_days_before_year_grows(year as int);
    }
    assert(year <= 2107);

    let leap = leap_year(year);
    let ghost doy = days_remaining;
    proof {
        lemma_full_year(leap);
    }
    let mut month: u32 = 1;
    while month <= 12 && days_remaining >= month_length(month, leap)
        invariant
            1 <= month <= 13,
            days_remaining as int + days_before_month(month as int, leap) == doy as int,
            doy < year_days(year as int),
            leap == is_leap(year as int),
            days_before_month(13, leap) == year_days(year as int),
        decreases 13 - month,
    {
        days_remaining = days_remaining - month_length(month, leap);
        month = month + 1;
    }
    assert(month <= 12);
    let day = days_remaining + 1;
    let dow = weekday(days_since_epoch);
    let dt = DateTime {
        year: year as u16,
        month: month as u8,
        day: day as u8,
        day_of_week: dow,
        hour: hours as u8,
        minute: minutes as u8,
        second: seconds as u8,
    };
    assert(days_from_civil(year as int, month as int, day as int) == days_since_epoch);
    assert(t == days_since_epoch * 86400 + hours * 3600 + minutes * 60 + seconds) by (nonlinear_arith)
        requires
            seconds == t % 60,
            minutes == (t / 60) % 60,
            hours == (t / 3600) % 24,
            days_since_epoch == t / 86400,
    ;
    Some(dt)
}

proof fn lemma_days_before_month_mono(m1: int, m2: int, leap: bool)
    requires
        1 <= m1 <= m2,
    ensures
        days_before_month(m1, leap) <= days_before_month(m2, leap),
    decreases m2 - m1,
{
    if m1 < m2 {
        lemma_days_before_month_mono(m1, m2 - 1, leap);
    }
}

proof fn lemma_days_before_year_mono(y1: int, y2: int)
    requires
        1970 <= y1 <= y2,
    ensures
        days_before_year(y1) <= days_before_year(y2),
    decreases y2 - y1,
{
    if y1 < y2 {
        lemma_days_before_year_mono(y1, y2 - 1);
    }
}

/// The day of a valid date within its year lies before the year's end.
proof fn lemma_day_in_year(dt: DateTime)
    requires
        valid_civil(dt),
    ensures
        days_before_month(dt.month as int, is_leap(dt.year as int)) + dt.day - 1 < year_days(
            dt.year as int,
        ),
{
    let leap = is_leap(dt.year as int);
    lemma_days_before_month_mono(dt.month + 1, 13, leap);
    lemma_full_year(leap);
}

proof fn lemma_date_unique(a: DateTime, b: DateTime)
    requires
        valid_civil(a),
        valid_civil(b),
        days_from_civil(a.year as int, a.month as int, a.day as int) == days_from_civil(
            b.year as int,
            b.month as int,
            b.day as int,
        ),
    ensures
        a.year == b.year,
        a.month == b.month,
        a.day == b.day,
{
    lemma_day_in_year(a);
    lemma_day_in_year(b);
    if a.year < b.year {
        lemma_days_before_year_mono(a.year + 1, b.year as int);
        lemma_days_before_year_step(a.year as int);
    }
    if b.year < a.year {
        lemma_days_before_year_mono(b.year + 1, a.year as int);
        lemma_days_before_year_step(b.year as int);
    }
    let leap = is_leap(a.year as int);
    if a.month < b.month {
        lemma_days_before_month_mono(a.month + 1, b.month as int, leap);
    }
    if b.month < a.month {
        lemma_days_before_month_mono(b.month + 1, a.month as int, leap);
    }
}

proof fn lemma_split_unique(d1: int, s1: int, d2: int, s2: int, unit: int)
    requires
        unit > 0,
        0 <= s1 < unit,
        0 <= s2 < unit,
        d1 * unit + s1 == d2 * unit + s2,
    ensures
        d1 == d2,
        s1 == s2,
{
    if d1 < d2 {
        assert(d2 * unit >= (d1 + 1) * unit) by (nonlinear_arith)
            requires
                d1 < d2,
                unit > 0,
        ;
        assert((d1 + 1) * unit == d1 * unit + unit) by (nonlinear_arith);
    }
    if d2 < d1 {
        assert(d1 * unit >= (d2 + 1) * unit) by (nonlinear_arith)
            requires
                d2 < d1,
                unit > 0,
        ;
        assert((d2 + 1) * unit == d2 * unit + unit) by (nonlinear_arith);
    }
}

/// A valid date and time is determined by its Unix time: the result of `unix_to_datetime`
/// is the only one its contract admits.
pub proof fn lemma_unix_seconds_injective(a: DateTime, b: DateTime)
    requires
        valid_civil(a),
        valid_civil(b),
        unix_seconds(a) == unix_seconds(b),
    ensures
        a == b,
{
    let da = days_from_civil(a.year as int, a.month as int, a.day as int);
    let db = days_from_civil(b.year as int, b.month as int, b.day as int);
    let sa = a.hour * 3600 + a.minute * 60 + a.second;
    let sb = b.hour * 3600 + b.minute * 60 + b.second;
    lemma_split_unique(da, sa, db, sb, 86400);
    let ma = a.hour * 60 + a.minute;
    let mb = b.hour * 60 + b.minute;
    lemma_split_unique(ma, a.second as int, mb, b.second as int, 60);
    lemma_split_unique(a.hour as int, a.minute as int, b.hour as int, b.minute as int, 60);
    lemma_date_unique(a, b);
}

/// `a` comes before `b` in the order of year, month, day, hour, minute, second.
pub open spec fn datetime_before(a: DateTime, b: DateTime) -> bool {
    if a.year != b.year {
        a.year < b.year
    } else if a.month != b.month {
        a.month < b.month
    } else if a.day != b.day {
        a.day < b.day
    } else if a.hour != b.hour {
        a.hour < b.hour
    } else if a.minute != b.minute {
        a.minute < b.minute
    } else {
        a.second < b.second
    }
}

/// The day count of a valid date grows with the date.
proof fn lemma_days_ordered(a: DateTime, b: DateTime)
    requires
        valid_civil(a),
        valid_civil(b),
        a.year < b.year || (a.year == b.year && (a.month < b.month || (a.month == b.month
            && a.day < b.day))),
    ensures
        days_from_civil(a.year as int, a.month as int, a.day as int) < days_from_civil(
            b.year as int,
            b.month as int,
            b.day as int,
        ),
{
    lemma_day_in_year(a);
    if a.year < b.year {
        lemma_days_before_year_mono(a.year + 1, b.year as int);
        lemma_days_before_year_step(a.year as int);
    } else if a.month < b.month {
        lemma_days_before_month_mono(a.month + 1, b.month as int, is_leap(a.year as int));
    }
}

proof fn lemma_later_day_later_second(da: int, sa: int, db: int, sb: int)
    requires
        da < db,
        0 <= sa < 86400,
        0 <= sb,
    ensures
        da * 86400 + sa < db * 86400 + sb,
{
    assert(db * 86400 >= (da + 1) * 86400) by (nonlinear_arith)
        requires
            da < db,
    ;
}

/// Later times give later dates: for valid dates and times, the Unix time is smaller exactly
/// when the fields (year, month, day, hour, minute, second) come first.
pub proof fn lemma_unix_seconds_ordered(a: DateTime, b: DateTime)
    requires
        valid_civil(a),
        valid_civil(b),
    ensures
        unix_seconds(a) < unix_seconds(b) <==> datetime_before(a, b),
{
    let da = days_from_civil(a.year as int, a.month as int, a.day as int);
    let db = days_from_civil(b.year as int, b.month as int, b.day as int);
    let sa = a.hour * 3600 + a.minute * 60 + a.second;
    let sb = b.hour * 3600 + b.minute * 60 + b.second;
    assert(0 <= sa < 86400);
    assert(0 <= sb < 86400);
    let same_date = a.year == b.year && a.month == b.month && a.day == b.day;
    if !same_date {
        if datetime_before(a, b) {
            lemma_days_ordered(a, b);
            lemma_later_day_later_second(da, sa, db, sb);
        } else {
            lemma_days_ordered(b, a);
            lemma_later_day_later_second(db, sb, da, sa);
        }
    } else {
        assert(da == db);
        if a.hour != b.hour {
            if a.hour < b.hour {
                assert(sa < sb);
            } else {
                assert(sb < sa);
            }
        } else if a.minute != b.minute {
            if a.minute < b.minute {
                assert(sa < sb);
            } else {
                assert(sb < sa);
            }
        }
    }
}

/// The day of the week after `w`, in the cycle Sunday, Monday, ..., Saturday, Sunday.
pub open spec fn next_weekday(w: DayOfWeek) -> DayOfWeek {
    match w {
        DayOfWeek::Sunday => DayOfWeek::Monday,
        DayOfWeek::Monday => DayOfWeek::Tuesday,
        DayOfWeek::Tuesday => DayOfWeek::Wednesday,
        DayOfWeek::Wednesday => DayOfWeek::Thursday,
        DayOfWeek::Thursday => DayOfWeek::Friday,
        DayOfWeek::Friday => DayOfWeek::Saturday,
        DayOfWeek::Saturday => DayOfWeek::Sunday,
    }
}

/// Weekdays follow the calendar: 1970-01-01 (day 0) is a Thursday and each day is the
/// weekday after the one before it.
pub proof fn lemma_weekday_cycle(d: int)
    requires
        0 <= d < 0xFFFF_FFFF_FFFF_FFFF,
    ensures
        weekday_of(0) == DayOfWeek::Thursday,
        weekday_of(d + 1) == next_weekday(weekday_of(d)),
{
    let w = ((d as u64) + 4) % 7;
    assert((((d + 1) as u64) + 4) % 7 == (w + 1) % 7);
}

/// The first valid date is a Thursday, and a date and time exactly one day later falls on
/// the next weekday.
pub proof fn lemma_weekday_next_day(a: DateTime, b: DateTime)
    requires
        valid_civil(a),
        valid_civil(b),
        unix_seconds(b) == unix_seconds(a) + 86400,
    ensures
        b.day_of_week == next_weekday(a.day_of_week),
        (a.year == 1970 && a.month == 1 && a.day == 1) ==> a.day_of_week == DayOfWeek::Thursday,
{
    let da = days_from_civil(a.year as int, a.month as int, a.day as int);
    let db = days_from_civil(b.year as int, b.month as int, b.day as int);
    let sa = a.hour * 3600 + a.minute * 60 + a.second;
    let sb = b.hour * 3600 + b.minute * 60 + b.second;
    assert(da * 86400 + sa + 86400 == (da + 1) * 86400 + sa) by (nonlinear_arith);
    lemma_split_unique(db, sb, da + 1, sa, 86400);
    assert(da >= 0 && da < 0xFFFF_FFFF_FFFF_FFFF) by {
        assert(0 <= unix_seconds(a) < 0x1_0000_0000_0000_0000) by {
            lemma_unix_nonneg(a);
        }
        assert(da * 86400 <= unix_seconds(a));
        assert(da < 0xFFFF_FFFF_FFFF_FFFF) by (nonlinear_arith)
            requires
                da * 86400 <= unix_seconds(a),
                unix_seconds(a) < 0x1_0000_0000_0000_0000,
                da >= 0,
        ;
    }
    lemma_weekday_cycle(da);
    if a.year == 1970 && a.month == 1 && a.day == 1 {
        assert(days_before_year(1970) == 0);
        assert(days_before_month(1, is_leap(1970)) == 0);
    }
}

proof fn lemma_unix_nonneg(a: DateTime)
    requires
        valid_civil(a),
    ensures
        days_from_civil(a.year as int, a.month as int, a.day as int) >= 0,
        0 <= unix_seconds(a) < 0x1_0000_0000_0000_0000,
{
    let da = days_from_civil(a.year as int, a.month as int, a.day as int);
    lemma_day_in_year(a);
    lemma_days_before_year_upper(a.year as int);
    assert(da < 366 * 65536);
    assert(da * 86400 < 366 * 65536 * 86400) by (nonlinear_arith)
        requires
            da < 366 * 65536,
    ;
}

proof fn lemma_days_before_year_upper(y: int)
    requires
        1970 <= y <= 65535,
    ensures
        days_before_year(y) <= 366 * (y - 1970),
    decreases y - 1970,
{
    if y > 1970 {
        lemma_days_before_year_upper(y - 1);
    }
}

/// Month lengths of the Gregorian calendar, by the arithmetic rule: February has 28 days
/// (29 in a leap year); every other month has 30 + (m + m / 8) % 2 days, which gives 31 for
/// January, March, May, July, August, October and December and 30 for April, June,
/// September and November.
pub proof fn lemma_month_lengths(m: int, leap: bool)
    requires
        1 <= m <= 12,
    ensures
        m == 2 ==> month_days(m, leap) == if leap { 29nat } else { 28nat },
        m != 2 ==> month_days(m, leap) == 30 + (m + m / 8) % 2,
        days_before_month(13, leap) == if leap { 366nat } else { 365nat },
{
    lemma_full_year(leap);
}

// ---------------------------------------------------------------------------
// Text form
// ---------------------------------------------------------------------------

/// `YYYY-MM-DD hh:mm:ss`, each field zero-padded to its width.
pub open spec fn datetime_text(dt: DateTime) -> Seq<char> {
    dec_pad(dt.year as nat, 4) + seq!['-'] + dec_pad(dt.month as nat, 2) + seq!['-'] + dec_pad(
        dt.day as nat,
        2,
    ) + seq![' '] + dec_pad(dt.hour as nat, 2) + seq![':'] + dec_pad(dt.minute as nat, 2)
        + seq![':'] + dec_pad(dt.second as nat, 2)
}

/// Appends `YYYY-MM-DD hh:mm:ss`.
pub fn push_datetime(out: &mut Vec<char>, dt: &DateTime)
    ensures
        final(out)@ == old(out)@ + datetime_text(*dt),
{
    push_dec_pad(out, dt.year as u64, 4);
    out.push('-');
    push_dec_pad(out, dt.month as u64, 2);
    out.push('-');
    push_dec_pad(out, dt.day as u64, 2);
    out.push(' ');
    push_dec_pad(out, dt.hour as u64, 2);
    out.push(':');
    push_dec_pad(out, dt.minute as u64, 2);
    out.push(':');
    push_dec_pad(out, dt.second as u64, 2);
    assert(out@ =~= old(out)@ + datetime_text(*dt));
}

// ---------------------------------------------------------------------------
// NTP time
// ---------------------------------------------------------------------------

/// Seconds from 1900-01-01 (the NTP epoch) to 1970-01-01.
pub const NTP_UNIX_OFFSET: u32 = 2208988800;

/// Local Unix time for an NTP transmit timestamp and an optional time-zone offset in minutes,
/// computed modulo 2^32 (32-bit wrapping arithmetic).
pub open spec fn ntp_local_time(ts: u32, tz: Option<i32>) -> Option<u32> {
    if ts <= NTP_UNIX_OFFSET {
        None
    } else {
        let unix = ts - NTP_UNIX_OFFSET;
        let shift: int = match tz {
            Some(m) => m * 60,
            None => 0,
        };
        Some(((unix + shift) % 0x1_0000_0000int) as u32)
    }
}

/// Converts an NTP timestamp to local Unix time; the flag tells whether a time-zone offset
/// was applied.  Returns `None` for timestamps not after 1970-01-01.
pub fn ntp_to_local(ts: u32, tz: Option<i32>) -> (r: Option<(u32, bool)>)
    ensures
        match r {
            Some((t, local)) => ntp_local_time(ts, tz) == Some(t) && local == tz is Some,
            None => ntp_local_time(ts, tz) is None,
        },
{
    if ts > NTP_UNIX_OFFSET {
        let unix = ts - NTP_UNIX_OFFSET;
        match tz {
            Some(m) => {
                let total: i64 = unix as i64 + (m as i64) * 60;
                let r: i64 = total % 0x1_0000_0000i64;
                let wrapped: i64 = if r < 0 {
                    r + 0x1_0000_0000i64
                } else {
                    r
                };
                assert(wrapped == (unix + m * 60) % 0x1_0000_0000int);
                Some((wrapped as u32, true))
            },
            None => {
                assert(unix == (unix + 0) % 0x1_0000_0000int);
                Some((unix, false))
            },
        }
    } else {
        None
    }
}

} // verus!
