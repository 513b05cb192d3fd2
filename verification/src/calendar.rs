//! The Gregorian calendar and ISO 8601 timestamps in UTC.

use vstd::prelude::*;

use crate::text;

verus! {

/// Whether year `y` has a 29 February.
pub open spec fn is_leap(y: int) -> bool {
    y % 4 == 0 && (y % 100 != 0 || y % 400 == 0)
}

/// The number of days in year `y`.
pub open spec fn year_length(y: int) -> int {
    if is_leap(y) {
        366
    } else {
        365
    }
}

/// The number of days in month `m` (1 is January) of year `y`.
pub open spec fn month_length(y: int, m: int) -> int {
    if m == 2 {
        if is_leap(y) {
            29
        } else {
            28
        }
    } else if m == 4 || m == 6 || m == 9 || m == 11 {
        30
    } else {
        31
    }
}

/// The number of days from 1 January 1970 to 1 January of year `y`.
pub open spec fn days_before_year(y: int) -> int
    decreases y - 1970,
{
    if y <= 1970 {
        0
    } else {
        days_before_year(y - 1) + year_length(y - 1)
    }
}

/// The number of days from 1 January to the first of month `m`, in year `y`.
pub open spec fn days_before_month(y: int, m: int) -> int
    decreases m,
{
    if m <= 1 {
        0
    } else {
        days_before_month(y, m - 1) + month_length(y, m - 1)
    }
}

/// Whether `y`-`m`-`d` is a date of the calendar, in 1970 or later.
pub open spec fn is_date(y: int, m: int, d: int) -> bool {
    &&& y >= 1970
    &&& 1 <= m <= 12
    &&& 1 <= d <= month_length(y, m)
}

/// The number of days from 1 January 1970 to the date `y`-`m`-`d`.
pub open spec fn day_number(y: int, m: int, d: int) -> int {
    days_before_year(y) + days_before_month(y, m) + d - 1
}

/// The number of leap years from year 1 to year `y`.
spec fn leaps(y: int) -> int {
    y / 4 - y / 100 + y / 400
}

/// The number of days from 1 March of year 0 to 1 March of year `y`.
spec fn march_first(y: int) -> int {
    365 * y + leaps(y)
}

proof fn lemma_leaps_step(y: int)
    ensures
        leaps(y) - leaps(y - 1) == (if is_leap(y) {
            1int
        } else {
            0int
        }),
{
}

proof fn lemma_days_before_year(y: int)
    requires
        y >= 1970,
    ensures
        days_before_year(y) == 365 * (y - 1970) + leaps(y - 1) - 477,
    decreases y,
{
    if y > 1970 {
        lemma_days_before_year(y - 1);
        lemma_leaps_step(y - 1);
    }
}

proof fn lemma_march_first(y: int)
    requires
        y >= 1969,
    ensures
        y >= 1970 ==> march_first(y) - 719468 == days_before_year(y) + days_before_month(y, 3),
        march_first(y) - 719468 + 306 == days_before_year(y + 1),
{
    reveal_with_fuel(days_before_month, 3);
    lemma_leaps_step(y);
    lemma_days_before_year(y + 1);
    if y >= 1970 {
        lemma_days_before_year(y);
    }
}

/// The year of the 400-year cycle that day `doe` of the cycle falls in.
proof fn lemma_year_of_era(doe: int, yoe: int)
    requires
        0 <= doe < 146097,
        yoe == (doe - doe / 1460 + doe / 36524 - doe / 146096) / 365,
    ensures
        0 <= yoe < 400,
        365 * yoe + yoe / 4 - yoe / 100 <= doe,
        doe < 365 * (yoe + 1) + (yoe + 1) / 4 - (yoe + 1) / 100 + (yoe + 1) / 400,
{
}

/// Day `doy` of the March-based year `400 * era + yoe`, seen from the epoch.
proof fn lemma_march_year(days: int, era: int, yoe: int, doy: int)
    requires
        days >= 0,
        era >= 0,
        0 <= yoe < 400,
        days + 719468 == 146097 * era + 365 * yoe + yoe / 4 - yoe / 100 + doy,
        0 <= doy,
        doy < 365 + (yoe + 1) / 4 - yoe / 4 - ((yoe + 1) / 100 - yoe / 100) + (yoe + 1) / 400,
    ensures
        march_first(400 * era + yoe) + doy == days + 719468,
        doy < year_length(400 * era + yoe + 1),
        400 * era + yoe >= 1969,
        400 * era + yoe == 1969 ==> doy >= 306,
{
    let y = 400 * era + yoe;
    assert(y / 400 == era && (y + 1) / 400 == era + (yoe + 1) / 400);
    assert(y / 100 == 4 * era + yoe / 100);
    assert(y / 4 == 100 * era + yoe / 4);
    assert((y + 1) / 100 == 4 * era + (yoe + 1) / 100);
    assert((y + 1) / 4 == 100 * era + (yoe + 1) / 4);
    lemma_leaps_step(y + 1);
}

/// Day `doy` of the March-based year `y` falls in its month `mp`, counted from March.
proof fn lemma_month_of_march_year(y: int, doy: int, mp: int)
    requires
        y >= 1969,
        0 <= doy < year_length(y + 1),
        y == 1969 ==> doy >= 306,
        mp == (5 * doy + 2) / 153,
    ensures
        0 <= mp < 12,
        0 <= doy - (153 * mp + 2) / 5 < 31,
        ({
            let m = if mp < 10 {
                mp + 3
            } else {
                mp - 9
            };
            let year = if m <= 2 {
                y + 1
            } else {
                y
            };
            let d = doy - (153 * mp + 2) / 5 + 1;
            &&& is_date(year, m, d)
            &&& day_number(year, m, d) == march_first(y) - 719468 + doy
        }),
{
    lemma_march_first(y);
    reveal_with_fuel(days_before_month, 13);
    assert(0 <= mp < 12);
    if mp == 0 {
    } else if mp == 1 {
    } else if mp == 2 {
    } else if mp == 3 {
    } else if mp == 4 {
    } else if mp == 5 {
    } else if mp == 6 {
    } else if mp == 7 {
    } else if mp == 8 {
    } else if mp == 9 {
    } else if mp == 10 {
    } else {
        assert(mp == 11);
    }
}

/// Days since 1 January 1970 as year, month and day.
pub fn days_since_epoch_to_ymd(days: u64) -> (r: (u64, u64, u64))
    requires
        days + 719468 <= u64::MAX,
    ensures
        is_date(r.0 as int, r.1 as int, r.2 as int),
        day_number(r.0 as int, r.1 as int, r.2 as int) == days,
{
    let z: u64 = days + 719468;
    let era: u64 = z / 146097;
    let doe: u64 = z % 146097;
    proof {
        lemma_year_of_era(
            doe as int,
            (doe - doe / 1460 + doe / 36524 - doe / 146096) as int / 365,
        );
    }
    let yoe: u64 = (doe - doe / 1460 + doe / 36524 - doe / 146096) / 365;
    let y: u64 = yoe + era * 400;
    let doy: u64 = doe - (365 * yoe + yoe / 4 - yoe / 100);
    let mp: u64 = (5 * doy + 2) / 153;
    let d: u64 = doy - (153 * mp + 2) / 5 + 1;
    let m: u64 = if mp < 10 {
        mp + 3
    } else {
        mp - 9
    };
    proof {
        lemma_march_year(days as int, era as int, yoe as int, doy as int);
        lemma_month_of_march_year(y as int, doy as int, mp as int);
    }
    let year: u64 = if m <= 2 {
        y + 1
    } else {
        y
    };
    (year, m, d)
}

/// A day count names one date: two dates with the same day number are the same date.
pub proof fn day_number_is_unique(y1: int, m1: int, d1: int, y2: int, m2: int, d2: int)
    requires
        is_date(y1, m1, d1),
        is_date(y2, m2, d2),
        day_number(y1, m1, d1) == day_number(y2, m2, d2),
    ensures
        y1 == y2,
        m1 == m2,
        d1 == d2,
{
    lemma_date_within_year(y1, m1, d1);
    lemma_date_within_year(y2, m2, d2);
    if y1 < y2 {
        lemma_years_ordered(y1, y2);
    } else if y2 < y1 {
        lemma_years_ordered(y2, y1);
    } else if m1 < m2 {
        lemma_months_ordered(y1, m1, m2);
    } else if m2 < m1 {
        lemma_months_ordered(y1, m2, m1);
    }
}

proof fn lemma_months_ordered(y: int, m1: int, m2: int)
    requires
        1 <= m1 < m2,
    ensures
        days_before_month(y, m1) + month_length(y, m1) <= days_before_month(y, m2),
    decreases m2,
{
    if m1 < m2 - 1 {
        lemma_months_ordered(y, m1, m2 - 1);
    }
}

proof fn lemma_years_ordered(y1: int, y2: int)
    requires
        1970 <= y1 < y2,
    ensures
        days_before_year(y1) + year_length(y1) <= days_before_year(y2),
    decreases y2,
{
    if y1 < y2 - 1 {
        lemma_years_ordered(y1, y2 - 1);
    }
}

proof fn lemma_date_within_year(y: int, m: int, d: int)
    requires
        is_date(y, m, d),
    ensures
        days_before_year(y) <= day_number(y, m, d) < days_before_year(y) + year_length(y),
{
    reveal_with_fuel(days_before_month, 14);
    lemma_months_ordered(y, m, 13);
    if m > 1 {
        lemma_months_ordered(y, 1, m);
    }
}

/// The date that is `days` days after 1 January 1970.
pub open spec fn civil_date(days: int) -> (int, int, int) {
    choose|date: (int, int, int)|
        is_date(date.0, date.1, date.2) && #[trigger] day_number(date.0, date.1, date.2) == days
}

/// The date that lies a date's own day number after the epoch is that date.
pub proof fn civil_date_inverts_day_number(y: int, m: int, d: int)
    requires
        is_date(y, m, d),
    ensures
        civil_date(day_number(y, m, d)) == (y, m, d),
{
    let date = (y, m, d);
    assert(is_date(date.0, date.1, date.2) && day_number(date.0, date.1, date.2) == day_number(
        y,
        m,
        d,
    ));
    let found = civil_date(day_number(y, m, d));
    day_number_is_unique(found.0, found.1, found.2, y, m, d);
}

/// The instant `secs` seconds after the epoch in the form `YYYY-MM-DDTHH:MM:SSZ`.
pub open spec fn iso8601(secs: u64) -> Seq<char> {
    let (y, m, d) = civil_date(secs as int / 86400);
    text::padded_decimal(y as nat, 4) + seq!['-'] + text::padded_decimal(m as nat, 2) + seq!['-']
        + text::padded_decimal(d as nat, 2) + seq!['T'] + text::padded_decimal(
        ((secs / 3600) % 24) as nat,
        2,
    ) + seq![':'] + text::padded_decimal(((secs / 60) % 60) as nat, 2) + seq![':']
        + text::padded_decimal((secs % 60) as nat, 2) + seq!['Z']
}

/// The instant `secs` seconds after the epoch in the form `YYYY-MM-DDTHH:MM:SSZ`.
pub fn iso8601_utc(secs: u64) -> (r: String)
    ensures
        r@ == iso8601(secs),
{
    let seconds: u64 = secs % 60;
    let minutes: u64 = (secs / 60) % 60;
    let hours: u64 = (secs / 3600) % 24;
    let (year, month, day) = days_since_epoch_to_ymd(secs / 86400);
    proof {
        civil_date_inverts_day_number(year as int, month as int, day as int);
        reveal_strlit("-");
        reveal_strlit("T");
        reveal_strlit(":");
        reveal_strlit("Z");
    }
    let mut r = text::padded_decimal_text(year as u128, 4);
    r.append("-");
    r.append(text::padded_decimal_text(month as u128, 2).as_str());
    r.append("-");
    r.append(text::padded_decimal_text(day as u128, 2).as_str());
    r.append("T");
    r.append(text::padded_decimal_text(hours as u128, 2).as_str());
    r.append(":");
    r.append(text::padded_decimal_text(minutes as u128, 2).as_str());
    r.append(":");
    r.append(text::padded_decimal_text(seconds as u128, 2).as_str());
    r.append("Z");
    assert(r@ =~= iso8601(secs));
    r
}

/// Up to the end of the year 9999 a timestamp has twenty characters, with the separators at
/// fixed places.
pub proof fn iso8601_has_fixed_shape(secs: u64)
    requires
        secs < 253402300800,
    ensures
        iso8601(secs).len() == 20,
        iso8601(secs)[4] == '-',
        iso8601(secs)[7] == '-',
        iso8601(secs)[10] == 'T',
        iso8601(secs)[13] == ':',
        iso8601(secs)[16] == ':',
        iso8601(secs)[19] == 'Z',
{
    let days = secs as int / 86400;
    let (y, m, d) = lemma_date_exists(days);
    civil_date_inverts_day_number(y, m, d);
    lemma_date_within_year(y, m, d);
    if y >= 10000 {
        lemma_days_before_year(y);
    }
    text::lemma_padded_length(y as nat, 4);
    text::lemma_padded_length(m as nat, 2);
    text::lemma_padded_length(d as nat, 2);
    text::lemma_padded_length(((secs / 3600) % 24) as nat, 2);
    text::lemma_padded_length(((secs / 60) % 60) as nat, 2);
    text::lemma_padded_length((secs % 60) as nat, 2);
}

/// Every day from the epoch on has a date.
pub proof fn lemma_date_exists(days: int) -> (date: (int, int, int))
    requires
        days >= 0,
    ensures
        is_date(date.0, date.1, date.2),
        day_number(date.0, date.1, date.2) == days,
{
    let z = days + 719468;
    let era = z / 146097;
    let doe = z % 146097;
    let yoe = (doe - doe / 1460 + doe / 36524 - doe / 146096) / 365;
    lemma_year_of_era(doe, yoe);
    let doy = doe - (365 * yoe + yoe / 4 - yoe / 100);
    let mp = (5 * doy + 2) / 153;
    lemma_march_year(days, era, yoe, doy);
    let y = 400 * era + yoe;
    lemma_month_of_march_year(y, doy, mp);
    let m = if mp < 10 {
        mp + 3
    } else {
        mp - 9
    };
    (if m <= 2 {
        y + 1
    } else {
        y
    }, m, doy - (153 * mp + 2) / 5 + 1)
}

proof fn lemma_months_repeat(y: int, m: int)
    ensures
        days_before_month(y + 400, m) == days_before_month(y, m),
    decreases m,
{
    if m > 1 {
        lemma_months_repeat(y, m - 1);
    }
}

/// The calendar repeats every four hundred years, which are 146097 days.
pub proof fn the_calendar_repeats(y: int, m: int, d: int)
    requires
        y >= 1970,
    ensures
        is_leap(y + 400) == is_leap(y),
        is_date(y + 400, m, d) == is_date(y, m, d),
        day_number(y + 400, m, d) == day_number(y, m, d) + 146097,
{
    lemma_months_repeat(y, m);
    lemma_days_before_year(y);
    lemma_days_before_year(y + 400);
}

/// The twelve months of a year have its days, and the next year starts on the day after its last.
pub proof fn years_are_made_of_months(y: int)
    requires
        y >= 1970,
    ensures
        days_before_month(y, 13) == year_length(y),
        day_number(1970, 1, 1) == 0,
        is_date(y, 12, 31),
        day_number(y + 1, 1, 1) == day_number(y, 12, 31) + 1,
{
    reveal_with_fuel(days_before_month, 14);
    reveal_with_fuel(days_before_year, 2);
}

/// A timestamp tells its instant: the date, then hours, minutes and seconds, each with its fixed
/// number of digits, and together they make up the seconds since the epoch.
pub proof fn timestamps_tell_their_instant(secs: u64)
    ensures
        exists|y: nat, m: nat, d: nat, hour: nat, minute: nat, second: nat|
            {
                &&& #[trigger] is_date(y as int, m as int, d as int)
                &&& hour < 24
                &&& minute < 60
                &&& second < 60
                &&& secs == 86400 * day_number(y as int, m as int, d as int) + 3600 * hour + 60
                    * minute + second
                &&& iso8601(secs) == #[trigger] stamp(y, m, d, hour, minute, second)
            },
{
    let days = secs as int / 86400;
    let (y, m, d) = lemma_date_exists(days);
    civil_date_inverts_day_number(y, m, d);
    let hour = ((secs / 3600) % 24) as nat;
    let minute = ((secs / 60) % 60) as nat;
    let second = (secs % 60) as nat;
    let (yn, mn, dn) = (y as nat, m as nat, d as nat);
    assert(is_date(yn as int, mn as int, dn as int));
    assert(secs == 86400 * days + 3600 * hour + 60 * minute + second);
    assert(iso8601(secs) =~= stamp(yn, mn, dn, hour, minute, second));
}

/// A date and a time of day in the form `YYYY-MM-DDTHH:MM:SSZ`.
pub open spec fn stamp(
    y: nat,
    m: nat,
    d: nat,
    hour: nat,
    minute: nat,
    second: nat,
) -> Seq<char> {
    let date = text::padded_decimal(y, 4) + seq!['-'] + text::padded_decimal(m, 2) + seq!['-']
        + text::padded_decimal(d, 2);
    let time = text::padded_decimal(hour, 2) + seq![':'] + text::padded_decimal(minute, 2) + seq![
        ':',
    ] + text::padded_decimal(second, 2);
    date + seq!['T'] + time + seq!['Z']
}

} // verus!
