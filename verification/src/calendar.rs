//! The Gregorian calendar from 1970 on, counted off year by year and month by month.

use crate::text;
use vstd::prelude::*;

verus! {

pub open spec fn is_leap(y: int) -> bool {
    y % 4 == 0 && (y % 100 != 0 || y % 400 == 0)
}

pub open spec fn year_len(y: int) -> int {
    if is_leap(y) {
        366
    } else {
        365
    }
}

pub open spec fn month_len(y: int, m: int) -> int {
    if m == 2 {
        if is_leap(y) {
            29
        } else {
            28
        }
    } else if m == 4 || m == 6 || m == 9 || m == 11 {
        30
    } else {
        31
    }
}

/// Days from 1970-01-01 to the first day of year `y`.
pub open spec fn days_to_year(y: int) -> int
    decreases y,
{
    if y <= 1970 {
        0
    } else {
        days_to_year(y - 1) + year_len(y - 1)
    }
}

/// Days from the first day of year `y` to the first day of its month `m`.
pub open spec fn days_to_month(y: int, m: int) -> int
    decreases m,
{
    if m <= 1 {
        0
    } else {
        days_to_month(y, m - 1) + month_len(y, m - 1)
    }
}

/// A point in time, in UTC, to the second.
pub struct DateTime {
    pub year: int,
    pub month: int,
    pub day: int,
    pub hour: int,
    pub minute: int,
    pub second: int,
}

impl DateTime {
    pub open spec fn valid(self) -> bool {
        &&& 1970 <= self.year
        &&& 1 <= self.month <= 12
        &&& 1 <= self.day <= month_len(self.year, self.month)
        &&& 0 <= self.hour < 24
        &&& 0 <= self.minute < 60
        &&& 0 <= self.second < 60
    }

    /// Days since 1970-01-01.
    pub open spec fn days(self) -> int {
        days_to_year(self.year) + days_to_month(self.year, self.month) + self.day - 1
    }

    /// Seconds since 1970-01-01 00:00:00.
    pub open spec fn unix_secs(self) -> int {
        self.days() * 86_400 + self.hour * 3600 + self.minute * 60 + self.second
    }

    /// `YYYY-MM-DD HH:MM:SS.000`
    pub open spec fn text(self) -> Seq<char> {
        text::padded(self.year as nat, 4).push('-') + text::padded(self.month as nat, 2).push('-')
            + text::padded(self.day as nat, 2).push(' ') + text::padded(self.hour as nat, 2).push(
            ':',
        ) + text::padded(self.minute as nat, 2).push(':') + text::padded(self.second as nat, 2)
            + seq!['.', '0', '0', '0']
    }
}

/// The year that holds the day `rest` days behind the first day of year `y`.
pub open spec fn year_of(y: int, rest: int) -> int
    decreases rest,
{
    if rest < year_len(y) {
        y
    } else {
        year_of(y + 1, rest - year_len(y))
    }
}

/// The month that holds the day `rest` days behind the first day of month `m` of year `y`.
pub open spec fn month_of(y: int, m: int, rest: int) -> int
    decreases 12 - m,
{
    if m >= 12 || rest < month_len(y, m) {
        m
    } else {
        month_of(y, m + 1, rest - month_len(y, m))
    }
}

/// The date and time of a Unix timestamp.
pub open spec fn datetime_of(t: int) -> DateTime {
    let days = t / 86_400;
    let secs = t % 86_400;
    let year = year_of(1970, days);
    let in_year = days - days_to_year(year);
    let month = month_of(year, 1, in_year);
    DateTime {
        year,
        month,
        day: in_year - days_to_month(year, month) + 1,
        hour: secs / 3600,
        minute: secs % 3600 / 60,
        second: secs % 60,
    }
}

proof fn lemma_year_of(y: int, rest: int, target: int)
    requires
        1970 <= y <= target,
        days_to_year(target) <= days_to_year(y) + rest < days_to_year(target) + year_len(target),
    ensures
        year_of(y, rest) == target,
    decreases target - y,
{
    lemma_days_to_year_mono(y, target);
    if y < target {
        assert(days_to_year(y + 1) == days_to_year(y) + year_len(y));
        lemma_days_to_year_mono(y + 1, target);
        lemma_year_of(y + 1, rest - year_len(y), target);
    }
}

proof fn lemma_days_to_year_mono(y: int, z: int)
    requires
        1970 <= y <= z,
    ensures
        days_to_year(z) - days_to_year(y) >= 365 * (z - y),
    decreases z - y,
{
    if y < z {
        lemma_days_to_year_mono(y, z - 1);
    }
}

/// The lengths of the months, summed up.
pub proof fn lemma_days_to_month(y: int)
    ensures
        ({
            let l: int = if is_leap(y) {
                1
            } else {
                0
            };
            &&& days_to_month(y, 1) == 0
            &&& days_to_month(y, 2) == 31
            &&& days_to_month(y, 3) == 59 + l
            &&& days_to_month(y, 4) == 90 + l
            &&& days_to_month(y, 5) == 120 + l
            &&& days_to_month(y, 6) == 151 + l
            &&& days_to_month(y, 7) == 181 + l
            &&& days_to_month(y, 8) == 212 + l
            &&& days_to_month(y, 9) == 243 + l
            &&& days_to_month(y, 10) == 273 + l
            &&& days_to_month(y, 11) == 304 + l
            &&& days_to_month(y, 12) == 334 + l
        }),
{
    reveal_with_fuel(days_to_month, 13);
}

proof fn lemma_month_of(y: int, m: int, rest: int, target: int)
    requires
        1 <= m <= target <= 12,
        days_to_month(y, target) <= days_to_month(y, m) + rest < days_to_month(y, target)
            + month_len(y, target),
    ensures
        month_of(y, m, rest) == target,
    decreases target - m,
{
    if m < target {
        lemma_days_to_month(y);
        assert(days_to_month(y, m + 1) == days_to_month(y, m) + month_len(y, m));
        lemma_month_of(y, m + 1, rest - month_len(y, m), target);
    }
}

/// A timestamp determines its date and time, and back: `datetime_of` gives back every valid
/// date and time from its timestamp.
pub proof fn law_datetime_of_unix_secs(dt: DateTime)
    requires
        dt.valid(),
    ensures
        datetime_of(dt.unix_secs()) == dt,
        0 <= dt.unix_secs(),
{
    let days = dt.days();
    let t = dt.unix_secs();
    lemma_days_to_month(dt.year);
    lemma_days_to_year_mono(1970, dt.year);
    assert(days_to_year(1970) == 0);
    let in_year = days - days_to_year(dt.year);
    assert(0 <= in_year < year_len(dt.year));
    assert(t / 86_400 == days && t % 86_400 == dt.hour * 3600 + dt.minute * 60 + dt.second);
    lemma_year_of(1970, days, dt.year);
    lemma_month_of(dt.year, 1, in_year, dt.month);
}

/// Leap years up to and with `y`.
spec fn leaps(y: int) -> int {
    y / 4 - y / 100 + y / 400
}

/// A quotient grows where the divisor divides.
proof fn lemma_div_step(y: int, d: int)
    requires
        d > 0,
    ensures
        y / d == (y - 1) / d + if y % d == 0 {
            1int
        } else {
            0
        },
{
    vstd::arithmetic::div_mod::lemma_fundamental_div_mod(y, d);
    vstd::arithmetic::div_mod::lemma_mod_division_less_than_divisor(y, d);
    let q = y / d;
    let r = y % d;
    if r == 0 {
        assert(y - 1 == (q - 1) * d + (d - 1)) by (nonlinear_arith)
            requires
                y == d * q,
        ;
        vstd::arithmetic::div_mod::lemma_fundamental_div_mod_converse(y - 1, d, q - 1, d - 1);
    } else {
        assert(y - 1 == q * d + (r - 1)) by (nonlinear_arith)
            requires
                y == d * q + r,
        ;
        vstd::arithmetic::div_mod::lemma_fundamental_div_mod_converse(y - 1, d, q, r - 1);
    }
}

#[verifier::spinoff_prover]
proof fn lemma_leaps_step(y: int)
    ensures
        leaps(y) == leaps(y - 1) + (year_len(y) - 365),
{
    lemma_div_step(y, 4);
    lemma_div_step(y, 100);
    lemma_div_step(y, 400);
    assert(y % 100 == 0 ==> y % 4 == 0);
    assert(y % 400 == 0 ==> y % 100 == 0);
}

proof fn lemma_days_to_year(y: int)
    requires
        1970 <= y,
    ensures
        days_to_year(y) == 365 * (y - 1970) + leaps(y - 1) - 477,
    decreases y,
{
    if y > 1970 {
        lemma_days_to_year(y - 1);
        lemma_leaps_step(y - 1);
    }
}

// ---------------------------------------------------------------------------
// Dates from day counts, in constant time
// ---------------------------------------------------------------------------

/// The year within an era of 400 years, years beginning with March, of a day of the era.
spec fn year_of_era(doe: int) -> int {
    (doe - doe / 1460 + doe / 36524 - doe / 146096) / 365
}

/// Whether the year behind March-year `yoe` of an era ends with a 29th of February.
spec fn long_year(yoe: int) -> bool {
    yoe == 399 || ((yoe + 1) % 4 == 0 && (yoe + 1) % 100 != 0)
}

proof fn lemma_year_of_era(doe: int)
    requires
        0 <= doe < 146_097,
    ensures
        0 <= year_of_era(doe) < 400,
        ({
            let yoe = year_of_era(doe);
            let doy = doe - (365 * yoe + yoe / 4 - yoe / 100);
            0 <= doy <= if long_year(yoe) {
                365int
            } else {
                364
            }
        }),
{
    let century = doe / 36524;
    if century == 0 {
    } else if century == 1 {
    } else if century == 2 {
    } else if century == 3 {
    } else {
    }
}

/// A day of a March-year, as month and day of the month.
proof fn lemma_month_of_march_year(y: int, doy: int)
    requires
        0 <= doy <= if is_leap(y + 1) {
            365int
        } else {
            364
        },
    ensures
        ({
            let mp = (5 * doy + 2) / 153;
            let d = doy - (153 * mp + 2) / 5 + 1;
            &&& 0 <= mp <= 11
            &&& mp < 10 ==> 1 <= d <= month_len(y, mp + 3) && days_to_month(y, mp + 3) + d - 1
                == doy + days_to_month(y, 3)
            &&& mp >= 10 ==> 1 <= d <= month_len(y + 1, mp - 9) && days_to_month(y + 1, mp - 9) + d
                - 1 == doy - 306
        }),
{
    lemma_days_to_month(y);
    lemma_days_to_month(y + 1);
    let mp = (5 * doy + 2) / 153;
    if mp == 0 {
    } else if mp == 1 {
    } else if mp == 2 {
    } else if mp == 3 {
    } else if mp == 4 {
    } else if mp == 5 {
    } else if mp == 6 {
    } else if mp == 7 {
    } else if mp == 8 {
    } else if mp == 9 {
    } else if mp == 10 {
    } else {
        assert(mp == 11);
    }
}

/// Dividing a year by a divisor of 400 needs only the year within its era.
proof fn lemma_within_era(era: int, w: int)
    ensures
        (400 * era + w) / 4 == 100 * era + w / 4,
        (400 * era + w) / 100 == 4 * era + w / 100,
        (400 * era + w) / 400 == era + w / 400,
        (400 * era + w) % 4 == w % 4,
        (400 * era + w) % 100 == w % 100,
        (400 * era + w) % 400 == w % 400,
{
}

/// The first of March of March-year `400 * era + yoe`, as days since 1970.
proof fn lemma_first_of_march(era: int, yoe: int)
    requires
        0 <= yoe < 400,
        1969 <= 400 * era + yoe,
    ensures
        ({
            let y = 400 * era + yoe;
            let march = era * 146_097 + 365 * yoe + yoe / 4 - yoe / 100 - 719_468;
            &&& y >= 1970 ==> days_to_year(y) + days_to_month(y, 3) == march
            &&& days_to_year(y + 1) == march + 306
            &&& is_leap(y + 1) <==> long_year(yoe)
        }),
{
    let y = 400 * era + yoe;
    lemma_days_to_month(y);
    lemma_days_to_year(y + 1);
    lemma_leaps_step(y);
    lemma_within_era(era, yoe);
    lemma_within_era(era, yoe + 1);
    if y >= 1970 {
        lemma_days_to_year(y);
    }
    assert(leaps(y) == 97 * era + yoe / 4 - yoe / 100);
    assert(is_leap(y + 1) <==> long_year(yoe)) by {
        if yoe == 399 {
            assert((yoe + 1) % 400 == 0 && (yoe + 1) % 4 == 0);
        } else {
            assert((yoe + 1) % 400 != 0);
        }
    }
}

/// Year, month and day of the day that is `days` days behind 1970-01-01.
pub fn civil_from_days(days: u64) -> (date: (u64, u64, u64))
    requires
        days <= u64::MAX / 86_400,
    ensures
        ({
            let dt = datetime_of(days * 86_400);
            date.0 == dt.year && date.1 == dt.month && date.2 == dt.day
        }),
{
    let z: u64 = days + 719_468;
    let era: u64 = z / 146_097;
    let doe: u64 = z - era * 146_097;
    proof {
        lemma_year_of_era(doe as int);
    }
    let yoe: u64 = (doe - doe / 1460 + doe / 36524 - doe / 146_096) / 365;
    let y: u64 = yoe + era * 400;
    let doy: u64 = doe - (365 * yoe + yoe / 4 - yoe / 100);
    proof {
        assert(y >= 1969);
        lemma_first_of_march(era as int, yoe as int);
        lemma_month_of_march_year(y as int, doy as int);
    }
    let mp: u64 = (5 * doy + 2) / 153;
    let d: u64 = doy - (153 * mp + 2) / 5 + 1;
    let month: u64 = if mp < 10 {
        mp + 3
    } else {
        mp - 9
    };
    let year: u64 = if month <= 2 {
        y + 1
    } else {
        y
    };
    proof {
        let dt = DateTime {
            year: year as int,
            month: month as int,
            day: d as int,
            hour: 0,
            minute: 0,
            second: 0,
        };
        assert(dt.days() == days);
        law_datetime_of_unix_secs(dt);
    }
    (year, month, d)
}

// ---------------------------------------------------------------------------
// Laws
// ---------------------------------------------------------------------------

proof fn lemma_year_found(y: int, rest: int)
    requires
        1970 <= y,
        0 <= rest,
    ensures
        y <= year_of(y, rest),
        days_to_year(year_of(y, rest)) <= days_to_year(y) + rest,
        days_to_year(y) + rest < days_to_year(year_of(y, rest)) + year_len(year_of(y, rest)),
    decreases rest,
{
    if rest >= year_len(y) {
        assert(days_to_year(y + 1) == days_to_year(y) + year_len(y));
        lemma_year_found(y + 1, rest - year_len(y));
    }
}

proof fn lemma_month_found(y: int, m: int, rest: int)
    requires
        1 <= m <= 12,
        0 <= rest,
        days_to_month(y, m) + rest < year_len(y),
    ensures
        m <= month_of(y, m, rest) <= 12,
        days_to_month(y, month_of(y, m, rest)) <= days_to_month(y, m) + rest,
        days_to_month(y, m) + rest < days_to_month(y, month_of(y, m, rest)) + month_len(
            y,
            month_of(y, m, rest),
        ),
    decreases 12 - m,
{
    lemma_days_to_month(y);
    if m < 12 && rest >= month_len(y, m) {
        assert(days_to_month(y, m + 1) == days_to_month(y, m) + month_len(y, m));
        lemma_month_found(y, m + 1, rest - month_len(y, m));
    }
}

/// Every timestamp has a valid date and time, whose timestamp it is.
pub proof fn law_unix_secs_of_datetime(t: int)
    requires
        0 <= t,
    ensures
        datetime_of(t).valid(),
        datetime_of(t).unix_secs() == t,
{
    let days = t / 86_400;
    let secs = t % 86_400;
    lemma_year_found(1970, days);
    assert(days_to_year(1970) == 0);
    let year = year_of(1970, days);
    let in_year = days - days_to_year(year);
    assert(days_to_month(year, 1) == 0);
    lemma_month_found(year, 1, in_year);
    assert(secs == secs / 3600 * 3600 + secs % 3600 / 60 * 60 + secs % 60);
}

/// The fields of `a`, from the year down, are before those of `b`.
spec fn before(a: DateTime, b: DateTime) -> bool {
    ||| a.year < b.year
    ||| a.year == b.year && a.month < b.month
    ||| a.year == b.year && a.month == b.month && a.day < b.day
    ||| a.year == b.year && a.month == b.month && a.day == b.day && a.hour < b.hour
    ||| a.year == b.year && a.month == b.month && a.day == b.day && a.hour == b.hour && a.minute
        < b.minute
    ||| a.year == b.year && a.month == b.month && a.day == b.day && a.hour == b.hour && a.minute
        == b.minute && a.second < b.second
}

proof fn lemma_days_to_month_mono(y: int, m: int, k: int)
    requires
        1 <= m < k <= 12,
    ensures
        days_to_month(y, m) + month_len(y, m) <= days_to_month(y, k),
    decreases k,
{
    if m + 1 < k {
        lemma_days_to_month_mono(y, m, k - 1);
    }
}

proof fn lemma_before(a: DateTime, b: DateTime)
    requires
        a.valid(),
        b.valid(),
        before(a, b),
    ensures
        a.unix_secs() < b.unix_secs(),
{
    lemma_days_to_month(a.year);
    lemma_days_to_month(b.year);
    if a.year < b.year {
        lemma_days_to_year_mono(a.year + 1, b.year);
        assert(days_to_year(a.year + 1) == days_to_year(a.year) + year_len(a.year));
        assert(a.days() < b.days());
    } else if a.month < b.month {
        lemma_days_to_month_mono(a.year, a.month, b.month);
        assert(a.days() < b.days());
    }
}

/// Text `a` sorts in front of text `b`: they differ first in a smaller character of `a`.
pub open spec fn sorts_before(a: Seq<char>, b: Seq<char>) -> bool {
    exists|k: int|
        0 <= k < a.len() && k < b.len() && #[trigger] a[k] < b[k] && a.take(k) == b.take(k)
}

proof fn lemma_two_digits(n: nat)
    requires
        n < 100,
    ensures
        text::padded(n, 2) == seq![digit_at(n as int, 10), digit_at(n as int, 1)],
{
    reveal(digit_at);
    reveal_with_fuel(text::decimal, 3);
    if n < 10 {
        assert(text::padded(n, 2) =~= seq![text::digit(0), text::digit(n as int)]);
    } else {
        assert(text::decimal(n) =~= seq![text::digit(n as int / 10), text::digit(n as int % 10)]);
    }
}

proof fn lemma_four_digits(n: nat)
    requires
        1000 <= n < 10_000,
    ensures
        text::padded(n, 4) == seq![
            digit_at(n as int, 1000),
            digit_at(n as int, 100),
            digit_at(n as int, 10),
            digit_at(n as int, 1),
        ],
{
    reveal(digit_at);
    reveal_with_fuel(text::decimal, 5);
    assert(text::decimal(n / 1000) =~= seq![text::digit(n as int / 1000)]);
    assert(n / 100 / 10 == n / 1000 && n / 10 / 10 == n / 100);
    assert(text::decimal(n) =~= seq![
        text::digit(n as int / 1000),
        text::digit(n as int / 100 % 10),
        text::digit(n as int / 10 % 10),
        text::digit(n as int % 10),
    ]);
}

/// The digit with the given place value.
#[verifier::opaque]
spec fn digit_at(n: int, place: int) -> char {
    text::digit(n / place % 10)
}

spec fn text_chars(dt: DateTime) -> Seq<char> {
    seq![
        digit_at(dt.year, 1000),
        digit_at(dt.year, 100),
        digit_at(dt.year, 10),
        digit_at(dt.year, 1),
        '-',
        digit_at(dt.month, 10),
        digit_at(dt.month, 1),
        '-',
        digit_at(dt.day, 10),
        digit_at(dt.day, 1),
        ' ',
        digit_at(dt.hour, 10),
        digit_at(dt.hour, 1),
        ':',
        digit_at(dt.minute, 10),
        digit_at(dt.minute, 1),
        ':',
        digit_at(dt.second, 10),
        digit_at(dt.second, 1),
        '.',
        '0',
        '0',
        '0',
    ]
}

/// A text joined from the digits of six numbers.
proof fn lemma_joined(
    a: Seq<char>,
    b: Seq<char>,
    c: Seq<char>,
    d: Seq<char>,
    e: Seq<char>,
    f: Seq<char>,
)
    requires
        a.len() == 4,
        b.len() == 2,
        c.len() == 2,
        d.len() == 2,
        e.len() == 2,
        f.len() == 2,
    ensures
        a.push('-') + b.push('-') + c.push(' ') + d.push(':') + e.push(':') + f + seq![
            '.',
            '0',
            '0',
            '0',
        ] == seq![
            a[0],
            a[1],
            a[2],
            a[3],
            '-',
            b[0],
            b[1],
            '-',
            c[0],
            c[1],
            ' ',
            d[0],
            d[1],
            ':',
            e[0],
            e[1],
            ':',
            f[0],
            f[1],
            '.',
            '0',
            '0',
            '0',
        ],
{
    let day = seq![a[0], a[1], a[2], a[3], '-', b[0], b[1], '-', c[0], c[1], ' '];
    assert(a.push('-') + b.push('-') + c.push(' ') =~= day);
    let time = seq![d[0], d[1], ':', e[0], e[1], ':', f[0], f[1], '.', '0', '0', '0'];
    assert(day + d.push(':') + e.push(':') + f + seq!['.', '0', '0', '0'] =~= day + time);
    assert(day + time =~= seq![
        a[0],
        a[1],
        a[2],
        a[3],
        '-',
        b[0],
        b[1],
        '-',
        c[0],
        c[1],
        ' ',
        d[0],
        d[1],
        ':',
        e[0],
        e[1],
        ':',
        f[0],
        f[1],
        '.',
        '0',
        '0',
        '0',
    ]);
}

#[verifier::spinoff_prover]
proof fn lemma_text(dt: DateTime)
    requires
        dt.valid(),
        dt.year <= 9999,
    ensures
        dt.text() == text_chars(dt),
{
    lemma_four_digits(dt.year as nat);
    lemma_two_digits(dt.month as nat);
    lemma_two_digits(dt.day as nat);
    lemma_two_digits(dt.hour as nat);
    lemma_two_digits(dt.minute as nat);
    lemma_two_digits(dt.second as nat);
    lemma_joined(
        text::padded(dt.year as nat, 4),
        text::padded(dt.month as nat, 2),
        text::padded(dt.day as nat, 2),
        text::padded(dt.hour as nat, 2),
        text::padded(dt.minute as nat, 2),
        text::padded(dt.second as nat, 2),
    );
}

/// Two texts that agree up to two digits, which differ.
proof fn lemma_field_order(x: Seq<char>, y: Seq<char>, p: int, n: int, m: int)
    requires
        0 <= n < m < 100,
        0 <= p,
        p + 1 < x.len(),
        p + 1 < y.len(),
        x.take(p) == y.take(p),
        x[p] == digit_at(n, 10),
        x[p + 1] == digit_at(n, 1),
        y[p] == digit_at(m, 10),
        y[p + 1] == digit_at(m, 1),
    ensures
        sorts_before(x, y),
{
    reveal(digit_at);
    if n / 10 != m / 10 {
        assert(x[p] < y[p]);
    } else {
        assert(x.take(p + 1) =~= x.take(p).push(x[p]));
        assert(y.take(p + 1) =~= y.take(p).push(y[p]));
        assert(x[p + 1] < y[p + 1]);
    }
}

/// The four digits of a number, two by two.
proof fn lemma_digit_pairs(n: int)
    requires
        0 <= n < 10_000,
    ensures
        digit_at(n, 1000) == digit_at(n / 100, 10),
        digit_at(n, 100) == digit_at(n / 100, 1),
        digit_at(n, 10) == digit_at(n % 100, 10),
        digit_at(n, 1) == digit_at(n % 100, 1),
        n == 100 * (n / 100) + n % 100,
        0 <= n / 100 < 100,
{
    reveal(digit_at);
}

proof fn lemma_year_order(x: Seq<char>, y: Seq<char>, n: int, m: int)
    requires
        0 <= n < m < 10_000,
        4 <= x.len(),
        4 <= y.len(),
        x[0] == digit_at(n, 1000),
        x[1] == digit_at(n, 100),
        x[2] == digit_at(n, 10),
        x[3] == digit_at(n, 1),
        y[0] == digit_at(m, 1000),
        y[1] == digit_at(m, 100),
        y[2] == digit_at(m, 10),
        y[3] == digit_at(m, 1),
    ensures
        sorts_before(x, y),
{
    lemma_digit_pairs(n);
    lemma_digit_pairs(m);
    assert(x.take(0) =~= y.take(0));
    if n / 100 != m / 100 {
        lemma_field_order(x, y, 0, n / 100, m / 100);
    } else {
        assert(x.take(2) =~= y.take(2));
        lemma_field_order(x, y, 2, n % 100, m % 100);
    }
}

proof fn lemma_text_order(a: DateTime, b: DateTime)
    requires
        a.valid(),
        b.valid(),
        b.year <= 9999,
        before(a, b),
    ensures
        sorts_before(text_chars(a), text_chars(b)),
{
    let x = text_chars(a);
    let y = text_chars(b);
    if a.year != b.year {
        lemma_year_order(x, y, a.year, b.year);
    } else if a.month != b.month {
        assert(x.take(5) =~= y.take(5));
        lemma_field_order(x, y, 5, a.month, b.month);
    } else if a.day != b.day {
        assert(x.take(8) =~= y.take(8));
        lemma_field_order(x, y, 8, a.day, b.day);
    } else if a.hour != b.hour {
        assert(x.take(11) =~= y.take(11));
        lemma_field_order(x, y, 11, a.hour, b.hour);
    } else if a.minute != b.minute {
        assert(x.take(14) =~= y.take(14));
        lemma_field_order(x, y, 14, a.minute, b.minute);
    } else {
        assert(x.take(17) =~= y.take(17));
        lemma_field_order(x, y, 17, a.second, b.second);
    }
}

/// Sorting timestamps by their text sorts them by time, up to the year 9999.
pub proof fn law_text_order_is_time_order(t: int, u: int)
    requires
        0 <= t < u,
        datetime_of(u).year <= 9999,
    ensures
        sorts_before(datetime_of(t).text(), datetime_of(u).text()),
{
    let a = datetime_of(t);
    let b = datetime_of(u);
    law_unix_secs_of_datetime(t);
    law_unix_secs_of_datetime(u);
    assert(before(a, b)) by {
        if before(b, a) {
            lemma_before(b, a);
        }
    }
    lemma_text(a);
    lemma_text(b);
    lemma_text_order(a, b);
}

/// The days follow each other as in the Gregorian calendar, from the first of January 1970 on: a
/// day later is the next day of the month at the same time of day, or the first of the next
/// month, or the first of January of the next year.
pub proof fn law_days_follow_each_other(t: int)
    requires
        0 <= t,
    ensures
        ({
            let a = datetime_of(t);
            let b = datetime_of(t + 86_400);
            let leap = (a.year % 4 == 0 && a.year % 100 != 0) || a.year % 400 == 0;
            let len: int = if a.month == 2 {
                if leap {
                    29
                } else {
                    28
                }
            } else if a.month == 4 || a.month == 6 || a.month == 9 || a.month == 11 {
                30
            } else {
                31
            };
            &&& b.hour == a.hour && b.minute == a.minute && b.second == a.second
            &&& 1 <= a.month <= 12
            &&& 1 <= a.day <= len
            &&& if a.day < len {
                b.year == a.year && b.month == a.month && b.day == a.day + 1
            } else if a.month < 12 {
                b.year == a.year && b.month == a.month + 1 && b.day == 1
            } else {
                b.year == a.year + 1 && b.month == 1 && b.day == 1
            }
            &&& t < 86_400 ==> a.year == 1970 && a.month == 1 && a.day == 1
        }),
{
    let a = datetime_of(t);
    law_unix_secs_of_datetime(t);
    lemma_days_to_month(a.year);
    lemma_days_to_month(a.year + 1);
    let b = if a.day < month_len(a.year, a.month) {
        DateTime { day: a.day + 1, ..a }
    } else if a.month < 12 {
        DateTime { month: a.month + 1, day: 1, ..a }
    } else {
        DateTime { year: a.year + 1, month: 1, day: 1, ..a }
    };
    assert(days_to_year(a.year + 1) == days_to_year(a.year) + year_len(a.year));
    if a.month < 12 {
        assert(days_to_month(a.year, a.month + 1) == days_to_month(a.year, a.month) + month_len(
            a.year,
            a.month,
        ));
    }
    assert(b.days() == a.days() + 1);
    assert(b.unix_secs() == t + 86_400);
    law_datetime_of_unix_secs(b);
    if t < 86_400 {
        let first = DateTime { year: 1970, month: 1, day: 1, ..a };
        assert(days_to_year(1970) == 0);
        assert(days_to_month(1970, 1) == 0);
        assert(first.unix_secs() == t % 86_400);
        law_datetime_of_unix_secs(first);
    }
}

/// The time of day is what the whole days leave over.
pub proof fn law_time_of_day(t: int)
    requires
        0 <= t,
    ensures
        0 <= datetime_of(t).hour < 24,
        0 <= datetime_of(t).minute < 60,
        0 <= datetime_of(t).second < 60,
        datetime_of(t).hour * 3600 + datetime_of(t).minute * 60 + datetime_of(t).second == t
            % 86_400,
{
    law_unix_secs_of_datetime(t);
}

/// The character stands for a decimal digit of this value.
pub open spec fn shows(c: char, d: int) -> bool {
    0 <= d <= 9 && c as int == '0' as int + d
}

proof fn lemma_shows_two(n: int)
    requires
        0 <= n < 100,
    ensures
        shows(digit_at(n, 10), n / 10),
        shows(digit_at(n, 1), n % 10),
{
    reveal(digit_at);
}

proof fn lemma_shows_four(n: int)
    requires
        0 <= n < 10_000,
    ensures
        shows(digit_at(n, 1000), n / 1000),
        shows(digit_at(n, 100), n / 100 % 10),
        shows(digit_at(n, 10), n / 10 % 10),
        shows(digit_at(n, 1), n % 10),
{
    reveal(digit_at);
}

/// The text of a time up to the year 9999 has the form `YYYY-MM-DD HH:MM:SS.000`, and its digits
/// are those of the year, the month, the day, the hour, the minute and the second.
#[verifier::spinoff_prover]
pub proof fn law_text_shows_the_time(dt: DateTime)
    requires
        dt.valid(),
        dt.year <= 9999,
    ensures
        ({
            let s = dt.text();
            &&& s.len() == 23
            &&& shows(s[0], dt.year / 1000)
            &&& shows(s[1], dt.year / 100 % 10)
            &&& shows(s[2], dt.year / 10 % 10)
            &&& shows(s[3], dt.year % 10)
            &&& s[4] == '-'
            &&& shows(s[5], dt.month / 10)
            &&& shows(s[6], dt.month % 10)
            &&& s[7] == '-'
            &&& shows(s[8], dt.day / 10)
            &&& shows(s[9], dt.day % 10)
            &&& s[10] == ' '
            &&& shows(s[11], dt.hour / 10)
            &&& shows(s[12], dt.hour % 10)
            &&& s[13] == ':'
            &&& shows(s[14], dt.minute / 10)
            &&& shows(s[15], dt.minute % 10)
            &&& s[16] == ':'
            &&& shows(s[17], dt.second / 10)
            &&& shows(s[18], dt.second % 10)
            &&& s[19] == '.'
            &&& s[20] == '0' && s[21] == '0' && s[22] == '0'
        }),
{
    lemma_text(dt);
    lemma_shows_four(dt.year);
    lemma_shows_two(dt.month);
    lemma_shows_two(dt.day);
    lemma_shows_two(dt.hour);
    lemma_shows_two(dt.minute);
    lemma_shows_two(dt.second);
}

} // verus!
