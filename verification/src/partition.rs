//! Partitions of a table: directories named after a span of time.

use vstd::prelude::*;
use vstd::string::*;
use crate::text;
use crate::types::TimeType;

verus! {

/// Microseconds per day.
pub const US_PER_DAY: i64 = 86_400_000_000;

/// How a table is cut into partitions.
#[derive(Debug, Clone, Copy, PartialEq, Eq, Structural)]
pub enum PartitionScheme {
    /// Not at all: the table's directory holds the data.
    Unpartitioned,
    Year,
    Month,
    Date,
}

/// Whether a year has 366 days.
pub open spec fn leap(y: int) -> bool {
    y % 4 == 0 && (y % 100 != 0 || y % 400 == 0)
}

/// Days of a month.
pub open spec fn month_len(y: int, m: int) -> int {
    if m == 2 {
        if leap(y) {
            29
        } else {
            28
        }
    } else if m == 4 || m == 6 || m == 9 || m == 11 {
        30
    } else {
        31
    }
}

/// A day of the calendar.
pub open spec fn valid_date(y: int, m: int, d: int) -> bool {
    1 <= m <= 12 && 1 <= d <= month_len(y, m)
}

/// Days from 1970-01-01 to the given day.  Years are counted from March on, so that
/// the leap day is the last of its year; the day before March of year 0 is number
/// -719469.
pub open spec fn civil_days(y: int, m: int, d: int) -> int {
    let yy = if m <= 2 {
        y - 1
    } else {
        y
    };
    let mp = if m > 2 {
        m - 3
    } else {
        m + 9
    };
    year_start(yy) + (153 * mp + 2) / 5 + d - 1 - 719_468
}

/// Days before March of year `n`, counted from March of year 0.
pub open spec fn year_start(n: int) -> int {
    365 * n + n / 4 - n / 100 + n / 400
}

/// The day count is that of the calendar: 1970-01-01 is day 0, a month is followed by
/// the next after its days, and a year by the next after December.
pub proof fn law_calendar(y: int, m: int)
    requires
        1 <= m <= 12,
    ensures
        civil_days(1970, 1, 1) == 0,
        m < 12 ==> civil_days(y, m + 1, 1) == civil_days(y, m, 1) + month_len(y, m),
        civil_days(y + 1, 1, 1) == civil_days(y, 12, 1) + 31,
        civil_days(y + 1, 1, 1) == civil_days(y, 1, 1) + if leap(y) {
            366int
        } else {
            365
        },
{
    lemma_leap_step(y);
    assert(civil_days(1970, 1, 1) == 0);
    if m < 12 {
        lemma_month_step(y, m);
    }
}

/// How the count of leap days grows from one year to the next.
proof fn lemma_leap_step(y: int)
    ensures
        year_start(y) - year_start(y - 1) == if leap(y) {
            366int
        } else {
            365
        },
{
    lemma_quotient_step(y, 4);
    lemma_quotient_step(y, 100);
    lemma_quotient_step(y, 400);
    if y % 400 == 0 {
        lemma_multiple(y, 400, 100, 4);
    }
    if y % 100 == 0 {
        lemma_multiple(y, 100, 4, 25);
    }
}

proof fn lemma_quotient_step(y: int, k: int)
    requires
        k > 1,
    ensures
        y / k - (y - 1) / k == if y % k == 0 {
            1int
        } else {
            0
        },
{
    vstd::arithmetic::div_mod::lemma_fundamental_div_mod(y, k);
    if y % k == 0 {
        assert(y - 1 == (y / k - 1) * k + (k - 1)) by (nonlinear_arith)
            requires
                y == k * (y / k) + y % k,
                y % k == 0,
        ;
        vstd::arithmetic::div_mod::lemma_fundamental_div_mod_converse(y - 1, k, y / k - 1, k - 1);
    } else {
        assert(y - 1 == (y / k) * k + (y % k - 1)) by (nonlinear_arith)
            requires
                y == k * (y / k) + y % k,
        ;
        vstd::arithmetic::div_mod::lemma_fundamental_div_mod_converse(y - 1, k, y / k, y % k - 1);
    }
}

/// A multiple of `a * b` is one of `a`.
proof fn lemma_multiple(y: int, ab: int, a: int, b: int)
    requires
        a > 0,
        b > 0,
        ab == a * b,
        ab > 0,
        y % ab == 0,
    ensures
        y % a == 0,
{
    vstd::arithmetic::div_mod::lemma_fundamental_div_mod(y, ab);
    assert(y == (b * (y / ab)) * a) by (nonlinear_arith)
        requires
            y == ab * (y / ab) + y % ab,
            y % ab == 0,
            ab == a * b,
    ;
    vstd::arithmetic::div_mod::lemma_fundamental_div_mod_converse(y, a, b * (y / ab), 0);
}

proof fn lemma_month_step(y: int, m: int)
    requires
        1 <= m < 12,
    ensures
        civil_days(y, m + 1, 1) == civil_days(y, m, 1) + month_len(y, m),
{
    lemma_leap_step(y);
    let s = year_start(y);
    let t = year_start(y - 1);
    assert(civil_days(y, m, 1) == if m <= 2 {
        t
    } else {
        s
    } + (153 * (if m > 2 {
        m - 3
    } else {
        m + 9
    }) + 2) / 5 - 719_468);
    assert(m == 1 || m == 2 || m == 3 || m == 4 || m == 5 || m == 6 || m == 7 || m == 8 || m == 9
        || m == 10 || m == 11);
}

/// The quotient rounded down.
fn floor_div(a: i128, b: i128) -> (q: i128)
    requires
        0 < b <= 0xFFFF_FFFF_FFFF_FFFF,
        -0x1_0000_0000_0000_0000_0000_0000 <= a <= 0x1_0000_0000_0000_0000_0000_0000,
    ensures
        q == a as int / b as int,
{
    if a >= 0 {
        a / b
    } else {
        let up: i128 = (-a + (b - 1)) / b;
        proof {
            let (n, k) = (a as int, b as int);
            assert(-((-n + (k - 1)) / k) == n / k) by (nonlinear_arith)
                requires
                    k > 0,
            ;
        }
        -up
    }
}

fn civil_days_wide(y: i128, m: i128, d: i128) -> (days: i128)
    requires
        -0x1_0000_0000_0000_0000 <= y <= 0x1_0000_0000_0000_0000,
        0 <= m <= 0x1_0000_0000,
        0 <= d <= 0x1_0000_0000,
    ensures
        days == civil_days(y as int, m as int, d as int),
        -0x1000_0000_0000_0000_0000 <= days <= 0x1000_0000_0000_0000_0000,
{
    let yy: i128 = if m <= 2 {
        y - 1
    } else {
        y
    };
    let mp: i128 = if m > 2 {
        m - 3
    } else {
        m + 9
    };
    365 * yy + floor_div(yy, 4) - floor_div(yy, 100) + floor_div(yy, 400) + (153 * mp + 2) / 5 + d
        - 1 - 719_468
}

/// Days from 1970-01-01 to the given day.
pub fn days_from_civil(y: i64, m: u32, d: u32) -> (days: i64)
    requires
        i64::MIN <= civil_days(y as int, m as int, d as int) <= i64::MAX,
    ensures
        days == civil_days(y as int, m as int, d as int),
{
    civil_days_wide(y as i128, m as i128, d as i128) as i64
}

/// The year of a 400-year cycle that holds day `doe`.
proof fn lemma_year_of_cycle(doe: int, yoe: int)
    requires
        0 <= doe < 146_097,
        yoe == (doe - doe / 1460 + doe / 36_524 - doe / 146_096) / 365,
    ensures
        0 <= yoe < 400,
        year_start(yoe) <= doe < year_start(yoe + 1),
{
    let c = doe / 36_524;
    assert(0 <= c <= 4);
    if c == 0 {
    } else if c == 1 {
    } else if c == 2 {
    } else if c == 3 {
    } else {
    }
}

/// A cycle of 400 years has 146097 days.
proof fn lemma_cycle(era: int, n: int)
    ensures
        year_start(400 * era + n) == 146_097 * era + year_start(n),
{
    assert((400 * era + n) / 4 == 100 * era + n / 4);
    assert((400 * era + n) / 100 == 4 * era + n / 100);
    assert((400 * era + n) / 400 == era + n / 400);
}

/// Month and day of day `doy` of a year that begins in March.
proof fn lemma_month_of_year(doy: int, mp: int)
    requires
        0 <= doy <= 365,
        mp == (5 * doy + 2) / 153,
    ensures
        0 <= mp <= 11,
        (153 * mp + 2) / 5 <= doy,
        mp < 11 ==> doy < (153 * (mp + 1) + 2) / 5,
{
    assert(0 <= mp <= 11);
    assert(mp == 0 || mp == 1 || mp == 2 || mp == 3 || mp == 4 || mp == 5 || mp == 6 || mp == 7
        || mp == 8 || mp == 9 || mp == 10 || mp == 11);
}

/// Day `doy` of year `yoe` of cycle `era` is a day of the calendar.
proof fn lemma_civil_back(era: int, yoe: int, doy: int, mp: int, y: int, m: int, d: int)
    requires
        0 <= yoe < 400,
        0 <= doy < year_start(yoe + 1) - year_start(yoe),
        mp == (5 * doy + 2) / 153,
        d == doy - (153 * mp + 2) / 5 + 1,
        m == if mp < 10 {
            mp + 3
        } else {
            mp - 9
        },
        y == yoe + era * 400 + if m <= 2 {
            1int
        } else {
            0
        },
    ensures
        valid_date(y, m, d),
        civil_days(y, m, d) == 146_097 * era + year_start(yoe) + doy - 719_468,
{
    lemma_leap_step(yoe + 1);
    lemma_month_of_year(doy, mp);
    lemma_cycle(era, yoe);
    if mp == 11 {
        lemma_leap_cycle(era, yoe + 1);
    }
    assert(mp == 0 || mp == 1 || mp == 2 || mp == 3 || mp == 4 || mp == 5 || mp == 6 || mp == 7
        || mp == 8 || mp == 9 || mp == 10 || mp == 11);
}

proof fn lemma_leap_cycle(era: int, n: int)
    ensures
        leap(400 * era + n) == leap(n),
{
    vstd::arithmetic::div_mod::lemma_mod_multiples_vanish(100 * era, n, 4);
    vstd::arithmetic::div_mod::lemma_mod_multiples_vanish(4 * era, n, 100);
    vstd::arithmetic::div_mod::lemma_mod_multiples_vanish(era, n, 400);
}

/// The day with the given number.
pub fn civil_from_days(days: i64) -> (date: (i64, u32, u32))
    requires
        days + 719_468 <= i64::MAX,
    ensures
        valid_date(date.0 as int, date.1 as int, date.2 as int),
        civil_days(date.0 as int, date.1 as int, date.2 as int) == days,
{
    let z: i64 = days + 719_468;
    let era: i64 = floor_div(z as i128, 146_097) as i64;
    let doe: i64 = (z as i128 - era as i128 * 146_097) as i64;
    assert(0 <= doe < 146_097);
    let (yoe, doy) = year_of_cycle(doe);
    let mp: i64 = (5 * doy + 2) / 153;
    proof {
        lemma_month_of_year(doy as int, mp as int);
    }
    let d: u32 = (doy - (153 * mp + 2) / 5 + 1) as u32;
    let m: u32 = if mp < 10 {
        (mp + 3) as u32
    } else {
        (mp - 9) as u32
    };
    let y: i64 = yoe + era * 400 + if m <= 2 {
        1
    } else {
        0
    };
    proof {
        lemma_civil_back(
            era as int,
            yoe as int,
            doy as int,
            mp as int,
            y as int,
            m as int,
            d as int,
        );
    }
    (y, m, d)
}

/// Year of a cycle and day of that year.
fn year_of_cycle(doe: i64) -> (r: (i64, i64))
    requires
        0 <= doe < 146_097,
    ensures
        0 <= r.0 < 400,
        r.1 == doe - year_start(r.0 as int),
        0 <= r.1 < year_start(r.0 + 1) - year_start(r.0 as int),
        r.1 <= 365,
{
    let yoe: i64 = (doe - doe / 1460 + doe / 36_524 - doe / 146_096) / 365;
    proof {
        lemma_year_of_cycle(doe as int, yoe as int);
        lemma_leap_step(yoe + 1);
    }
    let doy: i64 = doe - (365 * yoe + yoe / 4 - yoe / 100);
    (yoe, doy)
}

/// The year, counted from March on, in which a day lies.
spec fn march_year(y: int, m: int) -> int {
    if m <= 2 {
        y - 1
    } else {
        y
    }
}

proof fn lemma_year_start_grows(a: int, b: int)
    requires
        a <= b,
    ensures
        year_start(a) <= year_start(b),
    decreases b - a,
{
    if a < b {
        lemma_year_start_grows(a, b - 1);
        lemma_leap_step(b);
    }
}

proof fn lemma_day_in_year(y: int, m: int, d: int)
    requires
        valid_date(y, m, d),
    ensures
        year_start(march_year(y, m)) <= civil_days(y, m, d) + 719_468 < year_start(
            march_year(y, m) + 1,
        ),
{
    lemma_leap_step(march_year(y, m) + 1);
    assert(m == 1 || m == 2 || m == 3 || m == 4 || m == 5 || m == 6 || m == 7 || m == 8 || m == 9
        || m == 10 || m == 11 || m == 12);
}

/// A day number is that of one day of the calendar only.
pub proof fn law_civil_unique(y: int, m: int, d: int, y2: int, m2: int, d2: int)
    requires
        valid_date(y, m, d),
        valid_date(y2, m2, d2),
        civil_days(y, m, d) == civil_days(y2, m2, d2),
    ensures
        y == y2,
        m == m2,
        d == d2,
{
    lemma_day_in_year(y, m, d);
    lemma_day_in_year(y2, m2, d2);
    let (a, b) = (march_year(y, m), march_year(y2, m2));
    if a < b {
        lemma_year_start_grows(a + 1, b);
    }
    if b < a {
        lemma_year_start_grows(b + 1, a);
    }
    lemma_same_month(m, d, m2, d2, y, y2);
}

proof fn lemma_same_month(m: int, d: int, m2: int, d2: int, y: int, y2: int)
    requires
        valid_date(y, m, d),
        valid_date(y2, m2, d2),
        march_year(y, m) == march_year(y2, m2),
        civil_days(y, m, d) == civil_days(y2, m2, d2),
    ensures
        m == m2,
        d == d2,
{
    let mp = if m > 2 {
        m - 3
    } else {
        m + 9
    };
    let mp2 = if m2 > 2 {
        m2 - 3
    } else {
        m2 + 9
    };
    let g = (153 * mp + 2) / 5;
    let g2 = (153 * mp2 + 2) / 5;
    assert(g + d == g2 + d2);
    assert(mp < 11 ==> d <= (153 * (mp + 1) + 2) / 5 - g) by {
        assert(mp == 0 || mp == 1 || mp == 2 || mp == 3 || mp == 4 || mp == 5 || mp == 6 || mp == 7
            || mp == 8 || mp == 9 || mp == 10 || mp == 11);
    }
    assert(mp2 < 11 ==> d2 <= (153 * (mp2 + 1) + 2) / 5 - g2) by {
        assert(mp2 == 0 || mp2 == 1 || mp2 == 2 || mp2 == 3 || mp2 == 4 || mp2 == 5 || mp2 == 6
            || mp2 == 7 || mp2 == 8 || mp2 == 9 || mp2 == 10 || mp2 == 11);
    }
}

/// Days of a time value, rounded down.
pub open spec fn day_of(value: int, tt: TimeType) -> int {
    match tt {
        TimeType::Date32 => value,
        TimeType::TimestampUs => value / 86_400_000_000,
    }
}

pub fn value_to_days(value: i64, tt: TimeType) -> (days: i64)
    ensures
        days == day_of(value as int, tt),
{
    match tt {
        TimeType::Date32 => value,
        TimeType::TimestampUs => floor_div(value as i128, US_PER_DAY as i128) as i64,
    }
}

/// The first time value of a day.
pub open spec fn day_start(days: int, tt: TimeType) -> int {
    match tt {
        TimeType::Date32 => days,
        TimeType::TimestampUs => days * 86_400_000_000,
    }
}

pub fn days_to_value(days: i64, tt: TimeType) -> (value: i64)
    requires
        i64::MIN <= day_start(days as int, tt) <= i64::MAX,
    ensures
        value == day_start(days as int, tt),
{
    match tt {
        TimeType::Date32 => days,
        TimeType::TimestampUs => days * US_PER_DAY,
    }
}

/// A value lies on the day that its day number says: behind its start, and before the
/// next.
pub proof fn law_day_of_value(value: int, days: int, tt: TimeType)
    ensures
        day_of(value, tt) == days <==> day_start(days, tt) <= value < day_start(days + 1, tt),
        day_of(day_start(days, tt), tt) == days,
{
}

impl PartitionScheme {
    /// The scheme whose partitions are named like this: by what stands before the first
    /// equals sign.
    pub open spec fn named(name: Seq<char>) -> Option<PartitionScheme> {
        let prefix = name.take(text::find(name, '='));
        if prefix == "year"@ {
            Some(PartitionScheme::Year)
        } else if prefix == "month"@ {
            Some(PartitionScheme::Month)
        } else if prefix == "date"@ {
            Some(PartitionScheme::Date)
        } else {
            None
        }
    }

    pub fn from_partition_name(name: &str) -> (r: Option<Self>)
        ensures
            r == PartitionScheme::named(name@),
    {
        let chars = text::chars_of(name);
        let s = chars.as_slice();
        let prefix = vstd::slice::slice_subrange(s, 0, text::find_char(s, '='));
        assert(prefix@ =~= name@.take(text::find(name@, '=')));
        proof {
            reveal_strlit("year");
            reveal_strlit("month");
            reveal_strlit("date");
        }
        if text::spells(prefix, "year") {
            Some(PartitionScheme::Year)
        } else if text::spells(prefix, "month") {
            Some(PartitionScheme::Month)
        } else if text::spells(prefix, "date") {
            Some(PartitionScheme::Date)
        } else {
            None
        }
    }

    pub fn allows_partitions(self) -> (yes: bool)
        ensures
            yes == (self !is Unpartitioned),
    {
        self != PartitionScheme::Unpartitioned
    }

    /// The scheme's name in code.
    pub open spec fn variant_name(self) -> Seq<char> {
        match self {
            PartitionScheme::Unpartitioned => "None"@,
            PartitionScheme::Year => "Year"@,
            PartitionScheme::Month => "Month"@,
            PartitionScheme::Date => "Date"@,
        }
    }

    pub fn variant_str(self) -> (name: &'static str)
        ensures
            name@ == self.variant_name(),
    {
        match self {
            PartitionScheme::Unpartitioned => "None",
            PartitionScheme::Year => "Year",
            PartitionScheme::Month => "Month",
            PartitionScheme::Date => "Date",
        }
    }
}

/// The name of the partition of a day.
pub open spec fn name_of(scheme: PartitionScheme, y: int, m: int, d: int) -> Seq<char> {
    match scheme {
        PartitionScheme::Unpartitioned => Seq::empty(),
        PartitionScheme::Year => "year="@ + text::dec_int(y),
        PartitionScheme::Month => "month="@ + (text::dec_padded(y, 4) + seq!['-']
            + text::dec_padded(m, 2)),
        PartitionScheme::Date => "date="@ + (text::dec_padded(y, 4) + seq!['-'] + (text::dec_padded(
            m,
            2,
        ) + seq!['-'] + text::dec_padded(d, 2))),
    }
}

/// The name of the partition that holds a time value.
pub open spec fn names_value(
    scheme: PartitionScheme,
    name: Seq<char>,
    value: int,
    tt: TimeType,
) -> bool {
    exists|y: int, m: int, d: int|
        #[trigger] is_date_of(day_of(value, tt), y, m, d) && name == name_of(scheme, y, m, d)
}

/// The day with that number.
pub open spec fn is_date_of(days: int, y: int, m: int, d: int) -> bool {
    valid_date(y, m, d) && civil_days(y, m, d) == days
}

pub fn partition_name(scheme: PartitionScheme, value: i64, tt: TimeType) -> (name: String)
    requires
        day_of(value as int, tt) + 719_468 <= i64::MAX,
    ensures
        names_value(scheme, name@, value as int, tt),
{
    let (y, m, d) = civil_from_days(value_to_days(value, tt));
    proof {
        assert(is_date_of(day_of(value as int, tt), y as int, m as int, d as int));
    }
    let mut name = String::new();
    match scheme {
        PartitionScheme::Unpartitioned => {
            assert(name@ =~= name_of(scheme, y as int, m as int, d as int));
        },
        PartitionScheme::Year => {
            name.append("year=");
            text::push_dec_int(&mut name, y);
            assert(name@ =~= name_of(scheme, y as int, m as int, d as int));
        },
        PartitionScheme::Month => {
            name.append("month=");
            text::push_dec_padded(&mut name, y, 4);
            name.push('-');
            text::push_dec_padded(&mut name, m as i64, 2);
            assert(name@ =~= name_of(scheme, y as int, m as int, d as int));
        },
        PartitionScheme::Date => {
            name.append("date=");
            text::push_dec_padded(&mut name, y, 4);
            name.push('-');
            text::push_dec_padded(&mut name, m as i64, 2);
            name.push('-');
            text::push_dec_padded(&mut name, d as i64, 2);
            assert(name@ =~= name_of(scheme, y as int, m as int, d as int));
        },
    }
    name
}

/// A number that tells partitions apart: of the day, the month or the year.
pub open spec fn key_of(scheme: PartitionScheme, y: int, m: int, days: int) -> int {
    match scheme {
        PartitionScheme::Date => days,
        PartitionScheme::Year => y,
        PartitionScheme::Month => 12 * y + m - 1,
        PartitionScheme::Unpartitioned => 0,
    }
}

/// The key of a time value.
pub open spec fn keys_value(scheme: PartitionScheme, key: int, value: int, tt: TimeType) -> bool {
    exists|y: int, m: int, d: int|
        #[trigger] is_date_of(day_of(value, tt), y, m, d) && key == key_of(
            scheme,
            y,
            m,
            day_of(value, tt),
        )
}

/// Tells partitions apart without writing their names.
pub fn partition_key(scheme: PartitionScheme, value: i64, tt: TimeType) -> (key: i64)
    requires
        day_of(value as int, tt) + 719_468 <= i64::MAX,
    ensures
        keys_value(scheme, key as int, value as int, tt),
{
    let days: i64 = value_to_days(value, tt);
    let (y, m, d) = civil_from_days(days);
    proof {
        assert(is_date_of(day_of(value as int, tt), y as int, m as int, d as int));
        lemma_year_bound(y as int, m as int, d as int);
    }
    match scheme {
        PartitionScheme::Date => days,
        PartitionScheme::Year => y,
        PartitionScheme::Month => y * 12 + m as i64 - 1,
        PartitionScheme::Unpartitioned => 0,
    }
}

/// The years of days that an `i64` counts.
proof fn lemma_year_bound(y: int, m: int, d: int)
    requires
        valid_date(y, m, d),
        fits(civil_days(y, m, d)),
    ensures
        -30_000_000_000_000_000 <= y <= 30_000_000_000_000_000,
{
    let yy = march_year(y, m);
    lemma_day_in_year(y, m, d);
    lemma_leap_step(yy + 1);
    assert(yy >= 0 ==> yy / 4 - yy / 100 + yy / 400 >= 0);
    assert(yy < 0 ==> yy / 4 - yy / 100 + yy / 400 <= 0);
}

/// Time values with the same key are in the partition of the same name.
pub proof fn law_same_key_same_name(
    scheme: PartitionScheme,
    tt: TimeType,
    a: int,
    b: int,
    key: int,
    name_a: Seq<char>,
    name_b: Seq<char>,
)
    requires
        keys_value(scheme, key, a, tt),
        keys_value(scheme, key, b, tt),
        names_value(scheme, name_a, a, tt),
        names_value(scheme, name_b, b, tt),
    ensures
        name_a == name_b,
{
    let (days_a, days_b) = (day_of(a, tt), day_of(b, tt));
    let (ya, ma, da) = choose|y: int, m: int, d: int|
        #[trigger] is_date_of(days_a, y, m, d) && key == key_of(scheme, y, m, days_a);
    let (yb, mb, db) = choose|y: int, m: int, d: int|
        #[trigger] is_date_of(days_b, y, m, d) && key == key_of(scheme, y, m, days_b);
    lemma_name_by_date(scheme, days_a, ya, ma, da, name_a);
    lemma_name_by_date(scheme, days_b, yb, mb, db, name_b);
    if scheme is Date {
        law_civil_unique(ya, ma, da, yb, mb, db);
    }
    lemma_key_gives_name(scheme, ya, ma, da, days_a, yb, mb, db, days_b);
}

/// The name of the partition of a time value.
pub open spec fn name_for(scheme: PartitionScheme, value: int, tt: TimeType) -> Seq<char> {
    choose|name: Seq<char>| names_value(scheme, name, value, tt)
}

/// The key of the partition of a time value.
pub open spec fn key_for(scheme: PartitionScheme, value: int, tt: TimeType) -> int {
    choose|key: int| keys_value(scheme, key, value, tt)
}

/// Every number is that of a day.
pub proof fn law_every_day_has_a_date(days: int)
    ensures
        exists|y: int, m: int, d: int| is_date_of(days, y, m, d),
    decreases if days < 0 {
        -days
    } else {
        days
    },
{
    if days == 0 {
        law_calendar(1970, 1);
        assert(is_date_of(0, 1970, 1, 1));
    } else if days > 0 {
        let before = days - 1;
        law_every_day_has_a_date(before);
        let (y, m, d) = choose|y: int, m: int, d: int| is_date_of(before, y, m, d);
        law_calendar(y, m);
        if d < month_len(y, m) {
            assert(is_date_of(days, y, m, d + 1));
        } else if m < 12 {
            assert(is_date_of(days, y, m + 1, 1));
        } else {
            assert(is_date_of(days, y + 1, 1, 1));
        }
    } else {
        let after = days + 1;
        law_every_day_has_a_date(after);
        let (y, m, d) = choose|y: int, m: int, d: int| is_date_of(after, y, m, d);
        if d > 1 {
            assert(is_date_of(days, y, m, d - 1));
        } else if m > 1 {
            law_calendar(y, m - 1);
            assert(is_date_of(days, y, m - 1, month_len(y, m - 1)));
        } else {
            law_calendar(y - 1, 12);
            assert(is_date_of(days, y - 1, 12, 31));
        }
    }
}

/// Every time value has a name and a key.
pub proof fn lemma_has_partition(scheme: PartitionScheme, value: int, tt: TimeType)
    ensures
        names_value(scheme, name_for(scheme, value, tt), value, tt),
        keys_value(scheme, key_for(scheme, value, tt), value, tt),
{
    let days = day_of(value, tt);
    law_every_day_has_a_date(days);
    let (y, m, d) = choose|y: int, m: int, d: int| is_date_of(days, y, m, d);
    assert(names_value(scheme, name_of(scheme, y, m, d), value, tt));
    assert(keys_value(scheme, key_of(scheme, y, m, days), value, tt));
}

/// A time value has one name and one key.
pub proof fn law_one_partition(
    scheme: PartitionScheme,
    value: int,
    tt: TimeType,
    name: Seq<char>,
    key: int,
)
    ensures
        names_value(scheme, name, value, tt) ==> name == name_for(scheme, value, tt),
        keys_value(scheme, key, value, tt) ==> key == key_for(scheme, value, tt),
{
    let days = day_of(value, tt);
    if names_value(scheme, name, value, tt) {
        let other = name_for(scheme, value, tt);
        let (y, m, d) = choose|y: int, m: int, d: int|
            #[trigger] is_date_of(days, y, m, d) && name == name_of(scheme, y, m, d);
        lemma_name_by_date(scheme, days, y, m, d, other);
    }
    if keys_value(scheme, key, value, tt) {
        let other = key_for(scheme, value, tt);
        let (y, m, d) = choose|y: int, m: int, d: int|
            #[trigger] is_date_of(days, y, m, d) && key == key_of(scheme, y, m, days);
        let (y1, m1, d1) = choose|y: int, m: int, d: int|
            #[trigger] is_date_of(days, y, m, d) && other == key_of(scheme, y, m, days);
        law_civil_unique(y, m, d, y1, m1, d1);
    }
}

/// A name that is that of some date of a day is that of any.
proof fn lemma_name_by_date(
    scheme: PartitionScheme,
    days: int,
    y: int,
    m: int,
    d: int,
    name: Seq<char>,
)
    requires
        is_date_of(days, y, m, d),
        exists|y: int, m: int, d: int|
            #[trigger] is_date_of(days, y, m, d) && name == name_of(scheme, y, m, d),
    ensures
        name == name_of(scheme, y, m, d),
{
    let (y1, m1, d1) = choose|y: int, m: int, d: int|
        #[trigger] is_date_of(days, y, m, d) && name == name_of(scheme, y, m, d);
    law_civil_unique(y, m, d, y1, m1, d1);
}

proof fn lemma_key_gives_name(
    scheme: PartitionScheme,
    ya: int,
    ma: int,
    da: int,
    days_a: int,
    yb: int,
    mb: int,
    db: int,
    days_b: int,
)
    requires
        1 <= ma <= 12,
        1 <= mb <= 12,
        key_of(scheme, ya, ma, days_a) == key_of(scheme, yb, mb, days_b),
        scheme is Date ==> ya == yb && ma == mb && da == db,
    ensures
        name_of(scheme, ya, ma, da) == name_of(scheme, yb, mb, db),
{
}

/// The days of a partition, by its name: the first, and the one behind the last.
pub open spec fn range_days(scheme: PartitionScheme, name: Seq<char>) -> Option<(int, int)> {
    let i = text::find(name, '=');
    let prefix = name.take(i);
    let value = name.skip(i + 1);
    if i >= name.len() {
        None
    } else if scheme is Year && prefix == "year"@ {
        match year_number(value) {
            Some(y) => Some((civil_days(y, 1, 1), civil_days(y + 1, 1, 1))),
            None => None,
        }
    } else if scheme is Month && prefix == "month"@ {
        let j = text::find(value, '-');
        match (year_number(value.take(j)), small_number(value.skip(j + 1))) {
            (Some(y), Some(m)) if j < value.len() => Some(
                (
                    civil_days(y, m, 1),
                    if m == 12 {
                        civil_days(y + 1, 1, 1)
                    } else {
                        civil_days(y, m + 1, 1)
                    },
                ),
            ),
            _ => None,
        }
    } else if scheme is Date && prefix == "date"@ {
        let j = text::find(value, '-');
        let rest = value.skip(j + 1);
        let k = text::find(rest, '-');
        let last = rest.skip(k + 1);
        match (
            year_number(value.take(j)),
            small_number(rest.take(k)),
            small_number(last.take(text::find(last, '-'))),
        ) {
            (Some(y), Some(m), Some(d)) if j < value.len() && k < rest.len() => Some(
                (civil_days(y, m, d), civil_days(y, m, d) + 1),
            ),
            _ => None,
        }
    } else {
        None
    }
}

/// The year that a text spells, if an `i64` holds it.
pub open spec fn year_number(s: Seq<char>) -> Option<int> {
    match text::parse_int(s) {
        Some(v) if i64::MIN <= v <= i64::MAX => Some(v),
        _ => None,
    }
}

/// The month or day that a text spells, if a `u32` holds it.
pub open spec fn small_number(s: Seq<char>) -> Option<int> {
    match text::parse_nat(s) {
        Some(v) if v <= u32::MAX => Some(v as int),
        _ => None,
    }
}

/// An `i64` holds the number.
pub open spec fn fits(v: int) -> bool {
    i64::MIN <= v <= i64::MAX
}

/// The time values of a partition, by its name: the least, and the one behind the
/// greatest.  There are none where the name does not follow the scheme or an `i64` does
/// not hold the bounds.
pub open spec fn range_values(scheme: PartitionScheme, name: Seq<char>, tt: TimeType) -> Option<
    (int, int),
> {
    match range_days(scheme, name) {
        Some((lo, hi)) if fits(day_start(lo, tt)) && fits(day_start(hi, tt)) => Some(
            (day_start(lo, tt), day_start(hi, tt)),
        ),
        _ => None,
    }
}

pub fn partition_range(scheme: PartitionScheme, name: &str, tt: TimeType) -> (r: Option<(i64, i64)>)
    ensures
        match range_values(scheme, name@, tt) {
            Some((lo, hi)) => r matches Some((a, b)) && a == lo && b == hi,
            None => r is None,
        },
{
    match range_days_wide(scheme, name) {
        Some((lo, hi)) => {
            let unit: i128 = match tt {
                TimeType::Date32 => 1,
                TimeType::TimestampUs => US_PER_DAY as i128,
            };
            let (a, b) = (lo * unit, hi * unit);
            if a < i64::MIN as i128 || a > i64::MAX as i128 || b < i64::MIN as i128 || b
                > i64::MAX as i128 {
                None
            } else {
                Some((a as i64, b as i64))
            }
        },
        None => None,
    }
}

/// Reads the days of a partition from its name.
fn range_days_wide(scheme: PartitionScheme, name: &str) -> (r: Option<(i128, i128)>)
    ensures
        match range_days(scheme, name@) {
            Some((lo, hi)) => r matches Some((a, b)) && a == lo && b == hi,
            None => r is None,
        },
        r matches Some((a, b)) ==> -0x2000_0000_0000_0000_0000 <= a <= 0x2000_0000_0000_0000_0000
            && -0x2000_0000_0000_0000_0000 <= b <= 0x2000_0000_0000_0000_0000,
{
    let chars = text::chars_of(name);
    let s = chars.as_slice();
    let n: usize = s.len();
    let i: usize = text::find_char(s, '=');
    if i >= n {
        return None;
    }
    let prefix = vstd::slice::slice_subrange(s, 0, i);
    let value = vstd::slice::slice_subrange(s, i + 1, n);
    let len: usize = value.len();
    assert(prefix@ =~= name@.take(i as int));
    assert(value@ =~= name@.skip(i + 1));
    match scheme {
        PartitionScheme::Year => {
            if !text::spells(prefix, "year") {
                return None;
            }
            match text::read_i64(value) {
                Some(y) => Some(
                    (
                        civil_days_wide(y as i128, 1, 1),
                        civil_days_wide(y as i128 + 1, 1, 1),
                    ),
                ),
                None => None,
            }
        },
        PartitionScheme::Month => {
            let j: usize = text::find_char(value, '-');
            if !text::spells(prefix, "month") || j >= len {
                return None;
            }
            let head = vstd::slice::slice_subrange(value, 0, j);
            let tail = vstd::slice::slice_subrange(value, j + 1, len);
            assert(head@ =~= value@.take(j as int));
            assert(tail@ =~= value@.skip(j + 1));
            match (text::read_i64(head), text::read_u32(tail)) {
                (Some(y), Some(m)) => Some(
                    (
                        civil_days_wide(y as i128, m as i128, 1),
                        if m == 12 {
                            civil_days_wide(y as i128 + 1, 1, 1)
                        } else {
                            civil_days_wide(y as i128, m as i128 + 1, 1)
                        },
                    ),
                ),
                _ => None,
            }
        },
        PartitionScheme::Date => {
            let j: usize = text::find_char(value, '-');
            if !text::spells(prefix, "date") || j >= len {
                return None;
            }
            let head = vstd::slice::slice_subrange(value, 0, j);
            let rest = vstd::slice::slice_subrange(value, j + 1, len);
            assert(head@ =~= value@.take(j as int));
            assert(rest@ =~= value@.skip(j + 1));
            let left: usize = rest.len();
            let k: usize = text::find_char(rest, '-');
            if k >= left {
                return None;
            }
            let mid = vstd::slice::slice_subrange(rest, 0, k);
            let last = vstd::slice::slice_subrange(rest, k + 1, left);
            assert(mid@ =~= rest@.take(k as int));
            assert(last@ =~= rest@.skip(k + 1));
            let end = vstd::slice::slice_subrange(last, 0, text::find_char(last, '-'));
            assert(end@ =~= last@.take(text::find(last@, '-')));
            match (text::read_i64(head), text::read_u32(mid), text::read_u32(end)) {
                (Some(y), Some(m), Some(d)) => {
                    let day: i128 = civil_days_wide(y as i128, m as i128, d as i128);
                    Some((day, day + 1))
                },
                _ => None,
            }
        },
        PartitionScheme::Unpartitioned => None,
    }
}

/// A year as written in a name is read back.
proof fn lemma_year_read(y: int)
    requires
        fits(y),
    ensures
        year_number(text::dec_int(y)) == Some(y),
{
    let n = if y < 0 {
        -y
    } else {
        y
    } as nat;
    text::law_dec_read_back(n, 0);
    let s = text::dec_int(y);
    if y < 0 {
        assert(s.drop_first() =~= text::dec(n));
    } else {
        assert(text::is_digit(text::dec(n)[0]));
    }
}

/// A number as written in a name is read back, and holds no dash.
proof fn lemma_padded_read(n: int, width: int)
    requires
        0 <= n,
    ensures
        text::parse_nat(text::dec_padded(n, width)) == Some(n as nat),
        text::parse_int(text::dec_padded(n, width)) == Some(n),
        forall|i: int|
            0 <= i < text::dec_padded(n, width).len() ==> text::dec_padded(n, width)[i] != '-',
{
    let s = text::dec_padded(n, width);
    let d = text::dec(n as nat);
    let pad = width - d.len();
    text::law_dec_read_back(n as nat, pad);
    let z = text::zeros(pad);
    assert(s =~= z + d);
    assert forall|i: int| 0 <= i < s.len() implies text::is_digit(#[trigger] s[i]) by {
        if i >= z.len() {
            assert(s[i] == d[i - z.len()]);
        }
    }
    assert(text::is_digit(s[0]));
}

/// A number as written in a name, of either sign, is read back.
proof fn lemma_signed_read(n: int, width: int)
    ensures
        text::parse_int(text::dec_int(n)) == Some(n),
        text::parse_int(text::dec_padded(n, width)) == Some(n),
{
    let size = if n < 0 {
        -n
    } else {
        n
    } as nat;
    let d = text::dec(size);
    text::law_dec_read_back(size, 0);
    assert(text::is_digit(d[0]));
    if n < 0 {
        let pad = width - 1 - d.len();
        text::law_dec_read_back(size, pad);
        assert(text::dec_int(n).drop_first() =~= d);
        assert(text::dec_padded(n, width).drop_first() =~= text::zeros(pad) + d);
    } else {
        lemma_padded_read(n, width);
    }
}

/// A value is cut at its last dash in one way.
proof fn lemma_last_dash(a: Seq<char>, b: Seq<char>, c: Seq<char>, d: Seq<char>)
    requires
        a + seq!['-'] + b == c + seq!['-'] + d,
        forall|i: int| 0 <= i < b.len() ==> b[i] != '-',
        forall|i: int| 0 <= i < d.len() ==> d[i] != '-',
    ensures
        a == c,
        b == d,
{
    let (x, y) = (a + seq!['-'] + b, c + seq!['-'] + d);
    assert(x.len() == a.len() + 1 + b.len());
    assert(y.len() == c.len() + 1 + d.len());
    assert(x[a.len() as int] == '-');
    assert(y[c.len() as int] == '-');
    if a.len() < c.len() {
        assert(x[c.len() as int] == b[c.len() - a.len() - 1]);
    }
    if c.len() < a.len() {
        assert(y[a.len() as int] == d[a.len() - c.len() - 1]);
    }
    assert(x.take(a.len() as int) =~= a);
    assert(y.take(c.len() as int) =~= c);
    assert(x.skip(a.len() as int + 1) =~= b);
    assert(y.skip(c.len() as int + 1) =~= d);
}

/// Numbers that are written alike are equal.
proof fn lemma_written_alike(a: int, b: int, width: int)
    ensures
        text::dec_int(a) == text::dec_int(b) ==> a == b,
        text::dec_padded(a, width) == text::dec_padded(b, width) ==> a == b,
{
    lemma_signed_read(a, width);
    lemma_signed_read(b, width);
}

/// What stands behind a common head is common.
proof fn lemma_behind_head(head: Seq<char>, a: Seq<char>, b: Seq<char>)
    requires
        head + a == head + b,
    ensures
        a == b,
{
    assert((head + a).skip(head.len() as int) =~= a);
    assert((head + b).skip(head.len() as int) =~= b);
}

/// Days whose partitions have one name are of one year, month or date.
proof fn lemma_name_gives_date(
    scheme: PartitionScheme,
    y: int,
    m: int,
    d: int,
    y2: int,
    m2: int,
    d2: int,
)
    requires
        valid_date(y, m, d),
        valid_date(y2, m2, d2),
        name_of(scheme, y, m, d) == name_of(scheme, y2, m2, d2),
    ensures
        scheme !is Unpartitioned ==> y == y2,
        scheme is Month || scheme is Date ==> m == m2,
        scheme is Date ==> d == d2,
{
    match scheme {
        PartitionScheme::Year => {
            lemma_behind_head("year="@, text::dec_int(y), text::dec_int(y2));
            lemma_written_alike(y, y2, 0);
        },
        PartitionScheme::Month => {
            lemma_month_alike("month="@, y, m, y2, m2);
        },
        PartitionScheme::Date => {
            let dash = seq!['-'];
            let (a, b, c) = (
                text::dec_padded(y, 4),
                text::dec_padded(m, 2),
                text::dec_padded(d, 2),
            );
            let (a2, b2, c2) = (
                text::dec_padded(y2, 4),
                text::dec_padded(m2, 2),
                text::dec_padded(d2, 2),
            );
            lemma_behind_head("date="@, a + dash + (b + dash + c), a2 + dash + (b2 + dash + c2));
            assert(a + dash + (b + dash + c) =~= (a + dash + b) + dash + c);
            assert(a2 + dash + (b2 + dash + c2) =~= (a2 + dash + b2) + dash + c2);
            lemma_padded_read(d, 2);
            lemma_padded_read(d2, 2);
            lemma_last_dash(a + dash + b, c, a2 + dash + b2, c2);
            lemma_written_alike(d, d2, 2);
            lemma_month_alike(Seq::empty(), y, m, y2, m2);
        },
        PartitionScheme::Unpartitioned => {},
    }
}

/// Months that are written alike are the same month of the same year.
proof fn lemma_month_alike(head: Seq<char>, y: int, m: int, y2: int, m2: int)
    requires
        0 <= m,
        0 <= m2,
        head + (text::dec_padded(y, 4) + seq!['-'] + text::dec_padded(m, 2)) == head + (
        text::dec_padded(y2, 4) + seq!['-'] + text::dec_padded(m2, 2)),
    ensures
        y == y2,
        m == m2,
{
    let (a, b) = (text::dec_padded(y, 4), text::dec_padded(m, 2));
    let (a2, b2) = (text::dec_padded(y2, 4), text::dec_padded(m2, 2));
    lemma_behind_head(head, a + seq!['-'] + b, a2 + seq!['-'] + b2);
    lemma_padded_read(m, 2);
    lemma_padded_read(m2, 2);
    lemma_last_dash(a, b, a2, b2);
    lemma_written_alike(y, y2, 4);
    lemma_written_alike(m, m2, 2);
}

/// Time values in the partition of the same name have the same key.
pub proof fn law_same_name_same_key(
    scheme: PartitionScheme,
    tt: TimeType,
    a: int,
    b: int,
    name: Seq<char>,
    key_a: int,
    key_b: int,
)
    requires
        names_value(scheme, name, a, tt),
        names_value(scheme, name, b, tt),
        keys_value(scheme, key_a, a, tt),
        keys_value(scheme, key_b, b, tt),
    ensures
        key_a == key_b,
{
    let (days_a, days_b) = (day_of(a, tt), day_of(b, tt));
    let (ya, ma, da) = choose|y: int, m: int, d: int|
        #[trigger] is_date_of(days_a, y, m, d) && key_a == key_of(scheme, y, m, days_a);
    let (yb, mb, db) = choose|y: int, m: int, d: int|
        #[trigger] is_date_of(days_b, y, m, d) && key_b == key_of(scheme, y, m, days_b);
    lemma_name_by_date(scheme, days_a, ya, ma, da, name);
    lemma_name_by_date(scheme, days_b, yb, mb, db, name);
    lemma_name_gives_date(scheme, ya, ma, da, yb, mb, db);
}

/// The days of the year, the month or the date of a day: the first, and the one behind
/// the last.
pub open spec fn span_of(scheme: PartitionScheme, y: int, m: int, d: int) -> (int, int) {
    match scheme {
        PartitionScheme::Year => (civil_days(y, 1, 1), civil_days(y + 1, 1, 1)),
        PartitionScheme::Month => (civil_days(y, m, 1), civil_days(y, m, 1) + month_len(y, m)),
        PartitionScheme::Date => (civil_days(y, m, d), civil_days(y, m, d) + 1),
        PartitionScheme::Unpartitioned => (0, 0),
    }
}

/// The name of a day's partition gives back bounds around that day.
proof fn lemma_range_of_name(scheme: PartitionScheme, y: int, m: int, d: int)
    requires
        valid_date(y, m, d),
        fits(y),
        scheme !is Unpartitioned,
        scheme !is Year ==> 0 <= y,
    ensures
        range_days(scheme, name_of(scheme, y, m, d)) == Some(span_of(scheme, y, m, d)),
        span_of(scheme, y, m, d).0 <= civil_days(y, m, d) < span_of(scheme, y, m, d).1,
{
    let name = name_of(scheme, y, m, d);
    match scheme {
        PartitionScheme::Year => {
            reveal_strlit("year=");
            reveal_strlit("year");
            let tail = text::dec_int(y);
            assert("year="@ =~= "year"@.push('='));
            lemma_name_parts("year="@, "year"@, tail);
            lemma_year_read(y);
            lemma_day_of_calendar_year(y, m, d);
        },
        PartitionScheme::Month => {
            reveal_strlit("month=");
            reveal_strlit("month");
            let (a, b) = (text::dec_padded(y, 4), text::dec_padded(m, 2));
            assert("month="@ =~= "month"@.push('='));
            lemma_name_parts("month="@, "month"@, a + seq!['-'] + b);
            lemma_padded_read(y, 4);
            lemma_padded_read(m, 2);
            lemma_dash_parts(a, b);
            law_calendar(y, m);
        },
        PartitionScheme::Date => {
            reveal_strlit("date=");
            reveal_strlit("date");
            let (a, b, c) = (
                text::dec_padded(y, 4),
                text::dec_padded(m, 2),
                text::dec_padded(d, 2),
            );
            assert("date="@ =~= "date"@.push('='));
            lemma_name_parts("date="@, "date"@, a + seq!['-'] + (b + seq!['-'] + c));
            lemma_padded_read(y, 4);
            lemma_padded_read(m, 2);
            lemma_padded_read(d, 2);
            lemma_dash_parts(a, b + seq!['-'] + c);
            lemma_dash_parts(b, c);
            text::lemma_find_is(c, '-', c.len() as int);
            assert(c.take(c.len() as int) =~= c);
        },
        PartitionScheme::Unpartitioned => {},
    }
}

/// A name is cut at its first equals sign.
proof fn lemma_name_parts(head: Seq<char>, word: Seq<char>, tail: Seq<char>)
    requires
        head == word.push('='),
        forall|i: int| 0 <= i < word.len() ==> word[i] != '=',
    ensures
        text::find(head + tail, '=') == word.len(),
        (head + tail).take(word.len() as int) == word,
        (head + tail).skip(word.len() as int + 1) == tail,
        word.len() < (head + tail).len(),
{
    text::lemma_find_is(head + tail, '=', word.len() as int);
    assert((head + tail).take(word.len() as int) =~= word);
    assert((head + tail).skip(word.len() as int + 1) =~= tail);
}

/// A value is cut at its first dash.
proof fn lemma_dash_parts(a: Seq<char>, b: Seq<char>)
    requires
        forall|i: int| 0 <= i < a.len() ==> a[i] != '-',
    ensures
        text::find(a + seq!['-'] + b, '-') == a.len(),
        (a + seq!['-'] + b).take(a.len() as int) == a,
        (a + seq!['-'] + b).skip(a.len() as int + 1) == b,
        a.len() < (a + seq!['-'] + b).len(),
{
    text::lemma_find_is(a + seq!['-'] + b, '-', a.len() as int);
    assert((a + seq!['-'] + b).take(a.len() as int) =~= a);
    assert((a + seq!['-'] + b).skip(a.len() as int + 1) =~= b);
}

proof fn lemma_day_of_calendar_year(y: int, m: int, d: int)
    requires
        valid_date(y, m, d),
    ensures
        civil_days(y, 1, 1) <= civil_days(y, m, d) < civil_days(y + 1, 1, 1),
{
    lemma_leap_step(y);
    assert(m == 1 || m == 2 || m == 3 || m == 4 || m == 5 || m == 6 || m == 7 || m == 8 || m == 9
        || m == 10 || m == 11 || m == 12);
}

/// A time value lies within the bounds that the name of its partition gives.  Names of
/// months and days before year 0 cannot be read back and are left out.
pub proof fn law_partition_holds_value(
    scheme: PartitionScheme,
    name: Seq<char>,
    value: int,
    tt: TimeType,
)
    requires
        fits(value),
        scheme !is Unpartitioned,
        names_value(scheme, name, value, tt),
        scheme !is Year ==> civil_days(0, 1, 1) <= day_of(value, tt),
    ensures
        range_days(scheme, name) matches Some((lo, hi)) && day_start(lo, tt) <= value < day_start(
            hi,
            tt,
        ),
{
    let days = day_of(value, tt);
    let (y, m, d) = choose|y: int, m: int, d: int|
        #[trigger] is_date_of(days, y, m, d) && name == name_of(scheme, y, m, d);
    assert(fits(days));
    lemma_year_bound(y, m, d);
    if y < 0 {
        lemma_day_of_calendar_year(y, m, d);
        lemma_new_years_grow(y + 1, 0);
    }
    lemma_range_of_name(scheme, y, m, d);
    let (lo, hi) = range_days(scheme, name)->0;
    law_day_of_value(value, days, tt);
}

/// The months of a year follow each other.
proof fn lemma_months_grow(y: int, a: int, b: int)
    requires
        1 <= a < b <= 12,
    ensures
        civil_days(y, a, 1) + month_len(y, a) <= civil_days(y, b, 1),
    decreases b - a,
{
    law_calendar(y, b - 1);
    if a < b - 1 {
        lemma_months_grow(y, a, b - 1);
    }
}

/// A day within the span of another has the same name.
proof fn lemma_span_named(
    scheme: PartitionScheme,
    y: int,
    m: int,
    d: int,
    y2: int,
    m2: int,
    d2: int,
)
    requires
        valid_date(y, m, d),
        valid_date(y2, m2, d2),
        scheme !is Unpartitioned,
        span_of(scheme, y, m, d).0 <= civil_days(y2, m2, d2) < span_of(scheme, y, m, d).1,
    ensures
        name_of(scheme, y, m, d) == name_of(scheme, y2, m2, d2),
{
    if scheme is Date {
        law_civil_unique(y, m, d, y2, m2, d2);
    } else {
        lemma_day_of_calendar_year(y2, m2, d2);
        lemma_day_of_calendar_year(y, m, 1);
        lemma_day_of_calendar_year(y, m, month_len(y, m));
        if y2 < y {
            lemma_new_years_grow(y2 + 1, y);
        }
        if y < y2 {
            lemma_new_years_grow(y + 1, y2);
        }
        if scheme is Month && m2 < m {
            lemma_months_grow(y, m2, m);
        }
        if scheme is Month && m < m2 {
            lemma_months_grow(y, m, m2);
        }
    }
}

/// Every time value within the bounds that the name of a partition gives has that name.
pub proof fn law_partition_holds_only(
    scheme: PartitionScheme,
    name: Seq<char>,
    value: int,
    other: int,
    tt: TimeType,
)
    requires
        fits(value),
        scheme !is Unpartitioned,
        names_value(scheme, name, value, tt),
        scheme !is Year ==> civil_days(0, 1, 1) <= day_of(value, tt),
        range_days(scheme, name) matches Some((lo, hi)) && day_start(lo, tt) <= other < day_start(
            hi,
            tt,
        ),
    ensures
        names_value(scheme, name, other, tt),
{
    let days = day_of(value, tt);
    let (y, m, d) = choose|y: int, m: int, d: int|
        #[trigger] is_date_of(days, y, m, d) && name == name_of(scheme, y, m, d);
    assert(fits(days));
    lemma_year_bound(y, m, d);
    if y < 0 {
        lemma_day_of_calendar_year(y, m, d);
        lemma_new_years_grow(y + 1, 0);
    }
    lemma_range_of_name(scheme, y, m, d);
    let days2 = day_of(other, tt);
    law_day_of_value(other, days2, tt);
    law_every_day_has_a_date(days2);
    let (y2, m2, d2) = choose|y: int, m: int, d: int| is_date_of(days2, y, m, d);
    lemma_span_named(scheme, y, m, d, y2, m2, d2);
}

/// Partitions with different names share no time value.
pub proof fn law_partitions_apart(
    scheme: PartitionScheme,
    tt: TimeType,
    name_a: Seq<char>,
    a: int,
    name_b: Seq<char>,
    b: int,
)
    requires
        fits(a),
        fits(b),
        scheme !is Unpartitioned,
        names_value(scheme, name_a, a, tt),
        names_value(scheme, name_b, b, tt),
        scheme !is Year ==> civil_days(0, 1, 1) <= day_of(a, tt) && civil_days(0, 1, 1) <= day_of(
            b,
            tt,
        ),
        name_a != name_b,
    ensures
        range_days(scheme, name_a) matches Some((lo_a, hi_a)) && range_days(scheme, name_b) matches Some(
            (lo_b, hi_b),
        ) && (day_start(hi_a, tt) <= day_start(lo_b, tt) || day_start(hi_b, tt) <= day_start(
            lo_a,
            tt,
        )),
{
    law_partition_holds_value(scheme, name_a, a, tt);
    law_partition_holds_value(scheme, name_b, b, tt);
    law_range_not_empty(scheme, name_a, tt);
    law_range_not_empty(scheme, name_b, tt);
    let (lo_a, hi_a) = range_days(scheme, name_a)->0;
    let (lo_b, hi_b) = range_days(scheme, name_b)->0;
    if day_start(hi_a, tt) > day_start(lo_b, tt) && day_start(hi_b, tt) > day_start(lo_a, tt) {
        let first = if lo_a < lo_b {
            lo_b
        } else {
            lo_a
        };
        let t = day_start(first, tt);
        law_partition_holds_only(scheme, name_a, a, t, tt);
        law_partition_holds_only(scheme, name_b, b, t, tt);
        law_one_partition(scheme, t, tt, name_a, 0);
        law_one_partition(scheme, t, tt, name_b, 0);
    }
}

proof fn lemma_new_years_grow(a: int, b: int)
    requires
        a <= b,
    ensures
        civil_days(a, 1, 1) <= civil_days(b, 1, 1),
{
    lemma_year_start_grows(a - 1, b - 1);
}

/// A partition's name gives bounds that leave room for a time value.
pub proof fn law_range_not_empty(scheme: PartitionScheme, name: Seq<char>, tt: TimeType)
    ensures
        range_days(scheme, name) matches Some((lo, hi)) ==> lo < hi,
        range_values(scheme, name, tt) matches Some((lo, hi)) ==> lo < hi,
{
    let value = name.skip(text::find(name, '=') + 1);
    if range_days(scheme, name) is Some {
        if scheme is Year {
            law_calendar(year_number(value)->0, 1);
        } else if scheme is Month {
            let j = text::find(value, '-');
            let y = year_number(value.take(j))->0;
            let m = small_number(value.skip(j + 1))->0;
            if m == 12 || m == 2 {
                law_calendar(y, m);
            } else {
                let mp = if m > 2 {
                    m - 3
                } else {
                    m + 9
                };
                assert((153 * (mp + 1) + 2) / 5 > (153 * mp + 2) / 5);
            }
        }
    }
}

/// The days of the Gregorian calendar: each follows the one before it, months have 31, 30,
/// 29 or 28 of them, a year has 366 where it is a multiple of 4 but not of 100, or one of
/// 400, and else 365; day 0 is the first of 1970.
#[verifier::rlimit(40)]
pub proof fn law_gregorian(y: int, m: int, d: int)
    ensures
        civil_days(1970, 1, 1) == 0,
        civil_days(y, m, d + 1) == civil_days(y, m, d) + 1,
        civil_days(y + 1, 1, 1) - civil_days(y, 1, 1) == (if y % 400 == 0 || (y % 4 == 0 && y % 100
            != 0) {
            366int
        } else {
            365
        }),
        civil_days(y, 2, 1) - civil_days(y, 1, 1) == 31,
        civil_days(y, 3, 1) - civil_days(y, 2, 1) == (if y % 400 == 0 || (y % 4 == 0 && y % 100
            != 0) {
            29int
        } else {
            28
        }),
        m == 3 || m == 5 || m == 7 || m == 8 || m == 10 ==> civil_days(y, m + 1, 1) - civil_days(
            y,
            m,
            1,
        ) == 31,
        m == 4 || m == 6 || m == 9 || m == 11 ==> civil_days(y, m + 1, 1) - civil_days(y, m, 1)
            == 30,
        civil_days(y + 1, 1, 1) - civil_days(y, 12, 1) == 31,
        valid_date(y, m, d) <==> 1 <= m <= 12 && 1 <= d && (if m == 12 {
            d <= 31
        } else {
            civil_days(y, m, d) < civil_days(y, m + 1, 1)
        }),
{
    law_calendar(y, 1);
    law_calendar(y, 2);
    if 1 <= m <= 12 {
        law_calendar(y, m);
    }
}

/// A day of microseconds has 86,400 seconds of a million each; a day counted in days is one.
pub proof fn law_day_length(value: int, tt: TimeType)
    ensures
        tt is Date32 ==> day_of(value, tt) == value && day_start(value, tt) == value,
        tt is TimestampUs ==> {
            &&& day_of(value + 24 * 60 * 60 * 1_000_000, tt) == day_of(value, tt) + 1
            &&& day_start(value + 1, tt) - day_start(value, tt) == 24 * 60 * 60 * 1_000_000
            &&& day_start(0, tt) == 0
            &&& day_of(0, tt) == 0
            &&& day_of(-1, tt) == -1
        },
{
}

proof fn lemma_dates_in_order(y: int, m: int, d: int, y2: int, m2: int, d2: int)
    requires
        valid_date(y, m, d),
        valid_date(y2, m2, d2),
        civil_days(y, m, d) <= civil_days(y2, m2, d2),
    ensures
        12 * y + m <= 12 * y2 + m2,
        y <= y2,
{
    lemma_day_of_calendar_year(y, m, d);
    lemma_day_of_calendar_year(y2, m2, d2);
    if y > y2 {
        lemma_new_years_grow(y2 + 1, y);
    } else if y == y2 && m > m2 {
        lemma_months_grow(y, m2, m);
    }
}

/// The keys of times are in the order of the times.
pub proof fn law_keys_in_order(
    scheme: PartitionScheme,
    tt: TimeType,
    a: int,
    b: int,
    key_a: int,
    key_b: int,
)
    requires
        a <= b,
        keys_value(scheme, key_a, a, tt),
        keys_value(scheme, key_b, b, tt),
    ensures
        key_a <= key_b,
{
    let (y, m, d) = choose|y: int, m: int, d: int|
        #[trigger] is_date_of(day_of(a, tt), y, m, d) && key_a == key_of(
            scheme,
            y,
            m,
            day_of(a, tt),
        );
    let (y2, m2, d2) = choose|y: int, m: int, d: int|
        #[trigger] is_date_of(day_of(b, tt), y, m, d) && key_b == key_of(
            scheme,
            y,
            m,
            day_of(b, tt),
        );
    assert(day_of(a, tt) <= day_of(b, tt));
    lemma_dates_in_order(y, m, d, y2, m2, d2);
}

/// The key of a day is the day, that of a year the year, and that of a month the months
/// since the first of year 0; tables that are not split have one key.
pub proof fn law_keys_counted(scheme: PartitionScheme, y: int, m: int, d: int, days: int)
    requires
        is_date_of(days, y, m, d),
    ensures
        keys_value(PartitionScheme::Date, days, days, TimeType::Date32),
        keys_value(PartitionScheme::Year, y, days, TimeType::Date32),
        keys_value(PartitionScheme::Month, 12 * y + (m - 1), days, TimeType::Date32),
        keys_value(PartitionScheme::Unpartitioned, 0, days, TimeType::Date32),
{
    assert(day_of(days, TimeType::Date32) == days);
    assert(key_of(PartitionScheme::Date, y, m, days) == days);
    assert(key_of(PartitionScheme::Year, y, m, days) == y);
    assert(key_of(PartitionScheme::Month, y, m, days) == 12 * y + (m - 1));
    assert(key_of(PartitionScheme::Unpartitioned, y, m, days) == 0);
}

/// The name of a partition says which scheme it is of; that of a table that is not split is
/// empty.
pub proof fn law_name_tells_scheme(
    scheme: PartitionScheme,
    name: Seq<char>,
    value: int,
    tt: TimeType,
)
    requires
        names_value(scheme, name, value, tt),
    ensures
        scheme !is Unpartitioned ==> PartitionScheme::named(name) == Some(scheme),
        scheme is Unpartitioned ==> name.len() == 0,
        scheme is Year ==> "year="@.is_prefix_of(name),
        scheme is Month ==> "month="@.is_prefix_of(name),
        scheme is Date ==> "date="@.is_prefix_of(name),
{
    let (y, m, d) = choose|y: int, m: int, d: int|
        #[trigger] is_date_of(day_of(value, tt), y, m, d) && name == name_of(scheme, y, m, d);
    reveal_strlit("year");
    reveal_strlit("year=");
    reveal_strlit("month");
    reveal_strlit("month=");
    reveal_strlit("date");
    reveal_strlit("date=");
    assert("year="@ =~= "year"@.push('='));
    assert("month="@ =~= "month"@.push('='));
    assert("date="@ =~= "date"@.push('='));
    match scheme {
        PartitionScheme::Year => {
            let tail = text::dec_int(y);
            lemma_name_parts("year="@, "year"@, tail);
            assert("year="@.is_prefix_of("year="@ + tail));
        },
        PartitionScheme::Month => {
            let tail = text::dec_padded(y, 4) + seq!['-'] + text::dec_padded(m, 2);
            lemma_name_parts("month="@, "month"@, tail);
            assert("month"@.len() != "year"@.len());
            assert("month="@.is_prefix_of("month="@ + tail));
        },
        PartitionScheme::Date => {
            let tail = text::dec_padded(y, 4) + seq!['-'] + (text::dec_padded(m, 2) + seq!['-']
                + text::dec_padded(d, 2));
            lemma_name_parts("date="@, "date"@, tail);
            assert("date"@.len() != "month"@.len());
            assert("date"@[0] != "year"@[0]);
            assert("date="@.is_prefix_of("date="@ + tail));
        },
        PartitionScheme::Unpartitioned => {},
    }
}

/// The bounds of a partition in time values are its days, or the microseconds at which its
/// days start; there are none where they do not fit 64 bits.
pub proof fn law_range_in_values(scheme: PartitionScheme, name: Seq<char>, tt: TimeType)
    ensures
        range_days(scheme, name) is None ==> range_values(scheme, name, tt) is None,
        range_days(scheme, name) matches Some((lo, hi)) ==> {
            let unit: int = if tt is Date32 {
                1
            } else {
                86_400 * 1_000_000int
            };
            if i64::MIN <= lo * unit <= i64::MAX && i64::MIN <= hi * unit <= i64::MAX {
                range_values(scheme, name, tt) == Some((lo * unit, hi * unit))
            } else {
                range_values(scheme, name, tt) is None
            }
        },
{
}

} // verus!
