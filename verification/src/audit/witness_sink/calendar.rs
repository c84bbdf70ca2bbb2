//! Civil dates of days, for timestamps in UTC.
use crate::text;
use vstd::prelude::*;

verus! {

/// A leap year of the Gregorian calendar.
pub open spec fn is_leap(y: int) -> bool {
    y % 4 == 0 && (y % 100 != 0 || y % 400 == 0)
}

/// The days of a month.
pub open spec fn month_len(y: int, m: int) -> int {
    if m == 2 {
        if is_leap(y) {
            29
        } else {
            28
        }
    } else if m == 4 || m == 6 || m == 9 || m == 11 {
        30
    } else {
        31
    }
}

/// The days of a year before a month.
pub open spec fn days_before_month(y: int, m: int) -> int
    decreases m,
{
    if m <= 1 {
        0
    } else {
        days_before_month(y, m - 1) + month_len(y, m - 1)
    }
}

/// The days from the start of year 0 to the start of year `y`: 365 each, and
/// one more for each leap year.
pub open spec fn days_before_year(y: int) -> int {
    365 * y + (y + 3) / 4 - (y + 99) / 100 + (y + 399) / 400
}

/// A day of a month of a year.
pub open spec fn is_date(y: int, m: int, d: int) -> bool {
    1 <= m <= 12 && 1 <= d <= month_len(y, m)
}

/// The days from the start of year 0 to a date.
pub open spec fn day_number(y: int, m: int, d: int) -> int {
    days_before_year(y) + days_before_month(y, m) + d - 1
}

/// A year is 365 days and one more if it is a leap year.
pub proof fn lemma_year_len(y: int)
    ensures
        days_before_year(y + 1) == days_before_year(y) + 365 + if is_leap(y) {
            1int
        } else {
            0int
        },
{
}

/// The year of a day within 400 years that start in March.
proof fn lemma_year_of_era(doe: int, yoe: int)
    requires
        0 <= doe < 146097,
        yoe == (doe - doe / 1460 + doe / 36524 - doe / 146096) / 365,
    ensures
        0 <= yoe < 400,
        0 <= doe - (365 * yoe + yoe / 4 - yoe / 100) <= 365,
        doe - (365 * yoe + yoe / 4 - yoe / 100) == 365 ==> is_leap(yoe + 1),
{
}

proof fn lemma_month_starts(y: int)
    ensures
        days_before_month(y, 1) == 0,
        days_before_month(y, 2) == 31,
        ({
            let f = month_len(y, 2);
            &&& days_before_month(y, 3) == 31 + f
            &&& days_before_month(y, 4) == 62 + f
            &&& days_before_month(y, 5) == 92 + f
            &&& days_before_month(y, 6) == 123 + f
            &&& days_before_month(y, 7) == 153 + f
            &&& days_before_month(y, 8) == 184 + f
            &&& days_before_month(y, 9) == 215 + f
            &&& days_before_month(y, 10) == 245 + f
            &&& days_before_month(y, 11) == 276 + f
            &&& days_before_month(y, 12) == 306 + f
        }),
{
    reveal_with_fuel(days_before_month, 13);
}

/// The month and day of a day of a year that starts in March.
proof fn lemma_month_of_year(doy: int, mp: int)
    requires
        0 <= doy <= 365,
        mp == (5 * doy + 2) / 153,
    ensures
        0 <= mp <= 11,
        1 <= doy - (153 * mp + 2) / 5 + 1 <= 31,
        mp == 1 || mp == 3 || mp == 6 || mp == 8 ==> doy - (153 * mp + 2) / 5 + 1 <= 30,
        mp == 11 ==> doy - (153 * mp + 2) / 5 + 1 <= 29,
        mp == 11 && doy < 365 ==> doy - (153 * mp + 2) / 5 + 1 <= 28,
{
}

/// The date that is `z` days after 1 March of year 0: year, month, day.
pub fn civil_from_days(z: i64) -> (r: (i64, u32, u32))
    requires
        -0x4000_0000_0000_0000 <= z <= 0x4000_0000_0000_0000,
    ensures
        is_date(r.0 as int, r.1 as int, r.2 as int),
        day_number(r.0 as int, r.1 as int, r.2 as int) == z + day_number(0, 3, 1),
{
    let era: i64 = if z >= 0 {
        z / 146_097
    } else {
        -((146_096 - z) / 146_097)
    };
    assert(era == z as int / 146_097);
    let doe: i64 = z - era * 146_097;
    assert(0 <= doe < 146_097);
    let yoe: i64 = (doe - doe / 1460 + doe / 36524 - doe / 146_096) / 365;
    proof {
        lemma_year_of_era(doe as int, yoe as int);
    }
    let doy: i64 = doe - (365 * yoe + yoe / 4 - yoe / 100);
    let mp: i64 = (5 * doy + 2) / 153;
    proof {
        lemma_month_of_year(doy as int, mp as int);
    }
    let d: i64 = doy - (153 * mp + 2) / 5 + 1;
    let m: i64 = if mp < 10 {
        mp + 3
    } else {
        mp - 9
    };
    let march_year: i64 = yoe + era * 400;
    let y: i64 = if m <= 2 {
        march_year + 1
    } else {
        march_year
    };
    proof {
        let a = march_year as int;
        lemma_year_len(a);
        lemma_month_starts(y as int);
        lemma_month_starts(0);
        lemma_march(era as int, yoe as int);
        assert(day_number(0, 3, 1) == 60);
        assert(is_leap(a + 1) == is_leap(yoe + 1));
    }
    (y, m as u32, d as u32)
}

/// The days from 1 March of year 0 to 1 March of a year, cut into eras of 400
/// years.
proof fn lemma_march(era: int, yoe: int)
    requires
        0 <= yoe < 400,
    ensures
        ({
            let a = yoe + era * 400;
            &&& days_before_year(a + 1) - 366 == 146_097 * era + 365 * yoe + yoe / 4 - yoe / 100
            &&& is_leap(a + 1) == is_leap(yoe + 1)
        }),
{
    let a = yoe + era * 400;
    lemma_shift(yoe + 4, 100 * era, 4);
    lemma_shift(yoe + 100, 4 * era, 100);
    lemma_shift(yoe + 400, era, 400);
    lemma_shift(yoe + 1, 100 * era, 4);
    lemma_shift(yoe + 1, 4 * era, 100);
    lemma_shift(yoe + 1, era, 400);
}

/// Whole multiples of the divisor add to the quotient only.
proof fn lemma_shift(x: int, k: int, d: int)
    requires
        d > 0,
    ensures
        (x + k * d) / d == x / d + k,
        (x + k * d) % d == x % d,
{
    vstd::arithmetic::div_mod::lemma_hoist_over_denominator(x, k, d as nat);
    vstd::arithmetic::div_mod::lemma_mod_multiples_vanish(k, x, d);
    assert(d * k + x == x + k * d) by (nonlinear_arith);
}

/// The time of day and date of a number of seconds since the start of 1970.
pub ghost struct UtcTime {
    pub year: int,
    pub month: int,
    pub day: int,
    pub hour: int,
    pub minute: int,
    pub second: int,
}

impl UtcTime {
    /// `secs` seconds since the start of 1970 make this time.
    pub open spec fn is_at(self, secs: u64) -> bool {
        &&& is_date(self.year, self.month, self.day)
        &&& 0 <= self.hour < 24
        &&& 0 <= self.minute < 60
        &&& 0 <= self.second < 60
        &&& secs == (day_number(self.year, self.month, self.day) - day_number(1970, 1, 1)) * 86400
            + self.hour * 3600 + self.minute * 60 + self.second
    }

    /// `YYYYMMDDTHHMMSSZ`.
    pub open spec fn basic(self) -> Seq<char> {
        text::padded_decimal(self.year as nat, 4) + text::padded_decimal(self.month as nat, 2)
            + text::padded_decimal(self.day as nat, 2) + "T"@ + text::padded_decimal(
            self.hour as nat,
            2,
        ) + text::padded_decimal(self.minute as nat, 2) + text::padded_decimal(
            self.second as nat,
            2,
        ) + "Z"@
    }
}

/// A timestamp has a date of at least eight characters.
pub proof fn lemma_basic_len(t: UtcTime)
    ensures
        t.basic().len() >= 16,
{
    reveal_strlit("T");
    reveal_strlit("Z");
    text::lemma_padded_decimal(t.year as nat, 4);
    text::lemma_padded_decimal(t.month as nat, 2);
    text::lemma_padded_decimal(t.day as nat, 2);
    text::lemma_padded_decimal(t.hour as nat, 2);
    text::lemma_padded_decimal(t.minute as nat, 2);
    text::lemma_padded_decimal(t.second as nat, 2);
}

/// Year, month, day, hour, minute and second of a number of seconds since the
/// start of 1970.
pub fn secs_to_utc(secs: u64) -> (r: (i64, u32, u32, u32, u32, u32))
    ensures
        (UtcTime {
            year: r.0 as int,
            month: r.1 as int,
            day: r.2 as int,
            hour: r.3 as int,
            minute: r.4 as int,
            second: r.5 as int,
        }).is_at(secs),
        r.0 >= 1970,
{
    let second: u32 = (secs % 60) as u32;
    let mins: u64 = secs / 60;
    let minute: u32 = (mins % 60) as u32;
    let hours: u64 = mins / 60;
    let hour: u32 = (hours % 24) as u32;
    let days: i64 = (hours / 24) as i64;
    let (y, m, d): (i64, u32, u32) = civil_from_days(days + 719_468);
    proof {
        lemma_month_starts(0);
        lemma_month_starts(1970);
        assert(day_number(1970, 1, 1) == 719_528);
        assert(day_number(0, 3, 1) == 60);
        lemma_month_starts(y as int);
        if y < 1970 {
            lemma_year_before(y as int, m as int, d as int);
        }
    }
    (y, m, d, hour, minute, second)
}

/// A date of a year before 1970 comes before 1970.
proof fn lemma_year_before(y: int, m: int, d: int)
    requires
        y < 1970,
        is_date(y, m, d),
    ensures
        day_number(y, m, d) < day_number(1970, 1, 1),
{
    lemma_month_starts(y);
    lemma_month_starts(1970);
    lemma_year_len(y);
    assert(days_before_year(y + 1) <= days_before_year(1970));
}

/// `YYYYMMDDTHHMMSSZ` of a number of seconds since the start of 1970.
pub fn utc_basic(secs: u64) -> (r: String)
    ensures
        exists|t: UtcTime| #[trigger] t.is_at(secs) && r@ == t.basic(),
{
    let (y, m, d, hh, mm, ss): (i64, u32, u32, u32, u32, u32) = secs_to_utc(secs);
    let ghost t = UtcTime {
        year: y as int,
        month: m as int,
        day: d as int,
        hour: hh as int,
        minute: mm as int,
        second: ss as int,
    };
    let mut s = text::padded_decimal_string(y as u64, 4);
    s.append(text::padded_decimal_string(m as u64, 2).as_str());
    s.append(text::padded_decimal_string(d as u64, 2).as_str());
    s.append("T");
    s.append(text::padded_decimal_string(hh as u64, 2).as_str());
    s.append(text::padded_decimal_string(mm as u64, 2).as_str());
    s.append(text::padded_decimal_string(ss as u64, 2).as_str());
    s.append("Z");
    assert(t.is_at(secs));
    s
}

/// A day has one date, and later days have later dates.
pub proof fn dates_ascend(y: int, m: int, d: int, y2: int, m2: int, d2: int)
    requires
        is_date(y, m, d),
        is_date(y2, m2, d2),
    ensures
        day_number(y, m, d) < day_number(y2, m2, d2) <==> y < y2 || (y == y2 && (m < m2 || (m == m2
            && d < d2))),
        day_number(y, m, d) == day_number(y2, m2, d2) <==> y == y2 && m == m2 && d == d2,
{
    lemma_month_starts(y);
    lemma_month_starts(y2);
    lemma_year_len(y);
    lemma_year_len(y2);
    if y < y2 {
        lemma_years_ascend(y + 1, y2);
    } else if y2 < y {
        lemma_years_ascend(y2 + 1, y);
    }
}

proof fn lemma_years_ascend(a: int, b: int)
    requires
        a <= b,
    ensures
        days_before_year(a) <= days_before_year(b),
    decreases b - a,
{
    if a < b {
        lemma_years_ascend(a, b - 1);
        lemma_year_len(b - 1);
    }
}

/// A timestamp is the year in four digits, then month, day, `T`, hour, minute
/// and second in two digits each, and `Z`: each stands where it should and
/// reads as its number.
pub proof fn timestamps_read_back(t: UtcTime, secs: u64)
    requires
        t.is_at(secs),
        0 <= t.year <= 9999,
    ensures
        ({
            let s = t.basic();
            &&& s.len() == 16
            &&& text::digits_value(s.subrange(0, 4)) == t.year
            &&& text::digits_value(s.subrange(4, 6)) == t.month
            &&& text::digits_value(s.subrange(6, 8)) == t.day
            &&& s[8] == 'T'
            &&& text::digits_value(s.subrange(9, 11)) == t.hour
            &&& text::digits_value(s.subrange(11, 13)) == t.minute
            &&& text::digits_value(s.subrange(13, 15)) == t.second
            &&& s[15] == 'Z'
        }),
{
    reveal_strlit("T");
    reveal_strlit("Z");
    lemma_width(t.year as nat, 4);
    lemma_width(t.month as nat, 2);
    lemma_width(t.day as nat, 2);
    lemma_width(t.hour as nat, 2);
    lemma_width(t.minute as nat, 2);
    lemma_width(t.second as nat, 2);
    let s = t.basic();
    assert(s.subrange(0, 4) =~= text::padded_decimal(t.year as nat, 4));
    assert(s.subrange(4, 6) =~= text::padded_decimal(t.month as nat, 2));
    assert(s.subrange(6, 8) =~= text::padded_decimal(t.day as nat, 2));
    assert(s.subrange(9, 11) =~= text::padded_decimal(t.hour as nat, 2));
    assert(s.subrange(11, 13) =~= text::padded_decimal(t.minute as nat, 2));
    assert(s.subrange(13, 15) =~= text::padded_decimal(t.second as nat, 2));
}

proof fn lemma_width(n: nat, width: nat)
    requires
        (width == 2 && n < 100) || (width == 4 && n < 10_000),
    ensures
        text::padded_decimal(n, width).len() == width,
        text::digits_value(text::padded_decimal(n, width)) == n,
{
    reveal_with_fuel(text::pow10, 5);
    text::lemma_padded_decimal(n, width);
    text::lemma_decimal_len(n, width);
}

/// A second of time has one date and time of day.
pub proof fn a_second_has_one_time(t: UtcTime, u: UtcTime, secs: u64)
    requires
        t.is_at(secs),
        u.is_at(secs),
    ensures
        t == u,
{
    let a = day_number(t.year, t.month, t.day) - day_number(1970, 1, 1);
    let b = day_number(u.year, u.month, u.day) - day_number(1970, 1, 1);
    assert(a == b);
    dates_ascend(t.year, t.month, t.day, u.year, u.month, u.day);
}

/// Days follow each other through the months and years: the next day of a
/// month, the first of the next month behind the last of one, and the first of
/// January behind the last of December. Time is counted from the start of
/// 1970.
pub proof fn days_follow_each_other(y: int, m: int, d: int)
    requires
        1 <= m <= 12,
    ensures
        day_number(y, m, d + 1) == day_number(y, m, d) + 1,
        m < 12 ==> day_number(y, m + 1, 1) == day_number(y, m, month_len(y, m)) + 1,
        day_number(y + 1, 1, 1) == day_number(y, 12, 31) + 1,
        (UtcTime { year: 1970, month: 1, day: 1, hour: 0, minute: 0, second: 0 }).is_at(0),
{
    lemma_month_starts(y);
    lemma_month_starts(y + 1);
    lemma_year_len(y);
}

/// The months have these lengths, February a day more in every fourth year but
/// for those centuries that four hundred does not divide.
pub proof fn months_have_these_lengths(y: int)
    ensures
        month_len(y, 1) == 31,
        month_len(y, 2) == if y % 4 != 0 || (y % 100 == 0 && y % 400 != 0) {
            28int
        } else {
            29int
        },
        month_len(y, 3) == 31,
        month_len(y, 4) == 30,
        month_len(y, 5) == 31,
        month_len(y, 6) == 30,
        month_len(y, 7) == 31,
        month_len(y, 8) == 31,
        month_len(y, 9) == 30,
        month_len(y, 10) == 31,
        month_len(y, 11) == 30,
        month_len(y, 12) == 31,
{
}

} // verus!
