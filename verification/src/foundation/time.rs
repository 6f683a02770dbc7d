//! Time: the clock, and Unix milliseconds in the civil calendar, in UTC.
use vstd::prelude::*;
use crate::order::{codes, lemma_text_block, lemma_text_prefix, lex_lt, text_lt};
use crate::strings::{decimal_padded, digit_char, numeral, padded};

verus! {

/// A point in time of the operating system's clock.
#[verifier::external_type_specification]
#[verifier::external_body]
pub struct ExSystemTime(std::time::SystemTime);

/// `SystemTime::now`.
#[verifier::external_body]
fn clock() -> (r: std::time::SystemTime) {
    std::time::SystemTime::now()
}

/// The milliseconds from the Unix epoch to a time of the operating system; `None` for a time before
/// it.
pub uninterp spec fn epoch_millis(t: std::time::SystemTime) -> Option<u128>;

/// `SystemTime::duration_since` the Unix epoch and `Duration::as_millis`, which depend on the time
/// alone.
#[verifier::external_body]
fn since_epoch(t: std::time::SystemTime) -> (r: Option<u128>)
    ensures
        r == epoch_millis(t),
{
    t.duration_since(std::time::UNIX_EPOCH).ok().map(|d| d.as_millis())
}

/// A reading of the clock as Unix milliseconds; 0 where there is none.
pub fn reading_ms(reading: Option<u128>) -> (r: u64)
    ensures
        r == (match reading {
            Some(ms) => ms as u64,
            None => 0,
        }),
{
    match reading {
        Some(ms) => #[verifier::truncate] (ms as u64),
        None => 0,
    }
}

/// A file time as Unix milliseconds; 0 for a time before the epoch.
pub fn file_time_ms(reading: Option<u128>) -> (r: i64)
    ensures
        r == (match reading {
            Some(ms) => ms as i64,
            None => 0,
        }),
{
    match reading {
        Some(ms) => #[verifier::truncate] (ms as i64),
        None => 0,
    }
}

/// Some point in time comes to that many Unix milliseconds; one before the epoch comes to 0.
pub open spec fn clock_shows(ms: u64) -> bool {
    exists|t: std::time::SystemTime|
        ms == (match #[trigger] epoch_millis(t) {
            Some(n) => n as u64,
            None => 0,
        })
}

/// The wall clock in Unix milliseconds: what one reading of it comes to.
pub fn now_ms() -> (r: u64)
    ensures
        clock_shows(r),
{
    let t = clock();
    reading_ms(since_epoch(t))
}

/// A time of the operating system in Unix milliseconds.
pub fn systime_ms(t: std::time::SystemTime) -> (r: i64)
    ensures
        r == (match epoch_millis(t) {
            Some(ms) => ms as i64,
            None => 0,
        }),
{
    file_time_ms(since_epoch(t))
}

/// A leap year of the Gregorian calendar.
pub open spec fn leap(y: int) -> bool {
    y % 4 == 0 && (y % 100 != 0 || y % 400 == 0)
}

pub open spec fn month_days(y: int, m: int) -> int {
    if m == 2 {
        if leap(y) {
            29
        } else {
            28
        }
    } else if m == 4 || m == 6 || m == 9 || m == 11 {
        30
    } else {
        31
    }
}

/// A day that the calendar has.
pub open spec fn valid_date(y: int, m: int, d: int) -> bool {
    1 <= m <= 12 && 1 <= d <= month_days(y, m)
}

/// The days before the first of January of `y`, counted from that of year 1.
pub open spec fn days_before_year(y: int) -> int {
    365 * (y - 1) + (y - 1) / 4 - (y - 1) / 100 + (y - 1) / 400
}

/// The days of the year before the first of month `m`.
pub open spec fn days_before_month(y: int, m: int) -> int {
    let l: int = if leap(y) {
        1
    } else {
        0
    };
    if m <= 1 {
        0
    } else if m == 2 {
        31
    } else if m == 3 {
        59 + l
    } else if m == 4 {
        90 + l
    } else if m == 5 {
        120 + l
    } else if m == 6 {
        151 + l
    } else if m == 7 {
        181 + l
    } else if m == 8 {
        212 + l
    } else if m == 9 {
        243 + l
    } else if m == 10 {
        273 + l
    } else if m == 11 {
        304 + l
    } else {
        334 + l
    }
}

/// The days from the first of January 1970 to a date.
pub open spec fn day_number(y: int, m: int, d: int) -> int {
    days_before_year(y) + days_before_month(y, m) + d - 1 - 719162
}

/// Quotient and remainder, rounded down.
fn floor_div(a: i64, b: i64) -> (r: (i64, i64))
    requires
        0 < b,
    ensures
        r.0 == a as int / b as int,
        r.1 == a as int % b as int,
        0 <= r.1 < b,
{
    if a >= 0 {
        (a / b, a % b)
    } else {
        let x: i64 = -(a + 1);
        let q: i64 = x / b;
        let s: i64 = x % b;
        proof {
            vstd::arithmetic::div_mod::lemma_fundamental_div_mod(x as int, b as int);
            assert(a == b * (-q - 1) + (b - 1 - s)) by (nonlinear_arith)
                requires
                    x == b * q + s,
                    x == -(a + 1),
            ;
            vstd::arithmetic::div_mod::lemma_fundamental_div_mod_converse(
                a as int,
                b as int,
                -q - 1,
                b - 1 - s,
            );
            assert(q <= x) by (nonlinear_arith)
                requires
                    q == x / b,
                    x >= 0,
                    b > 0,
            ;
        }
        (-q - 1, b - 1 - s)
    }
}

/// The days before the year that begins in March of year `e` of an era.
spec fn era_days(e: int) -> int {
    365 * e + e / 4 - e / 100
}

/// Year of the era and day of that year, both counted from March, for a day of the era.
fn year_of_era(doe: i64) -> (r: (i64, i64))
    requires
        0 <= doe < 146097,
    ensures
        0 <= r.0 < 400,
        0 <= r.1 <= 365,
        doe == era_days(r.0 as int) + r.1,
        r.1 == 365 ==> leap(r.0 + 1),
{
    let mut c: i64 = doe / 36524;
    if c > 3 {
        c = 3;
    }
    let in_century: i64 = doe - c * 36524;
    let q: i64 = in_century / 1461;
    let in_four: i64 = in_century - q * 1461;
    let mut k: i64 = in_four / 365;
    if k > 3 {
        k = 3;
    }
    let doy: i64 = in_four - k * 365;
    let yoe: i64 = 100 * c + 4 * q + k;
    proof {
        assert(0 <= c <= 3);
        assert(0 <= in_century <= 36524);
        assert(0 <= q <= 24);
        assert(0 <= in_four <= 1460);
        assert(0 <= k <= 3);
        assert(yoe / 4 == 25 * c + q);
        assert(yoe / 100 == c);
        if doy == 365 {
            assert(k == 3 && in_four == 1460);
            if q == 24 {
                assert(in_century == 36524);
                assert(c == 3);
                assert(yoe == 399);
            } else {
                assert((yoe + 1) % 4 == 0);
                assert((yoe + 1) % 100 == 4 * q + 4);
            }
        }
    }
    (yoe, doy)
}

/// Month, counted from March, and day of month, for a day of a year that begins in March.
fn month_of(doy: i64) -> (r: (i64, i64))
    requires
        0 <= doy <= 365,
    ensures
        0 <= r.0 <= 11,
        1 <= r.1 <= 31,
        doy == (153 * r.0 + 2) / 5 + r.1 - 1,
        r.0 == 1 || r.0 == 3 || r.0 == 6 || r.0 == 8 ==> r.1 <= 30,
        r.0 == 11 ==> r.1 <= 29 && (r.1 == 29 ==> doy == 365),
{
    let mp: i64 = (5 * doy + 2) / 153;
    let d: i64 = doy - (153 * mp + 2) / 5 + 1;
    (mp, d)
}

proof fn lemma_leap_shift(y: int, era: int)
    ensures
        leap(y + 400 * era) == leap(y),
{
    assert((y + 400 * era) % 4 == y % 4) by {
        assert(y + 400 * era == y + 4 * (100 * era));
    }
    assert((y + 400 * era) % 100 == y % 100) by {
        assert(y + 400 * era == y + 100 * (4 * era));
    }
}

/// The days before the year after year `e` of an era.
proof fn lemma_era_days(e: int, era: int)
    requires
        0 <= e < 400,
    ensures
        days_before_year(e + 400 * era + 1) == 146097 * era + era_days(e),
{
    let y = e + 400 * era;
    assert(y / 4 == e / 4 + 100 * era);
    assert(y / 100 == e / 100 + 4 * era);
    assert(y / 400 == era);
}

/// One more full `k` exactly at its multiples.
proof fn lemma_quotient_step(y: int, k: int)
    requires
        k > 1,
    ensures
        y / k == (y - 1) / k + if y % k == 0 {
            1int
        } else {
            0int
        },
{
    let q = y / k;
    let r = y % k;
    vstd::arithmetic::div_mod::lemma_fundamental_div_mod(y, k);
    if r == 0 {
        assert(y - 1 == k * (q - 1) + (k - 1)) by (nonlinear_arith)
            requires
                y == k * q + r,
                r == 0,
        ;
        vstd::arithmetic::div_mod::lemma_fundamental_div_mod_converse(y - 1, k, q - 1, k - 1);
    } else {
        vstd::arithmetic::div_mod::lemma_fundamental_div_mod_converse(y - 1, k, q, r - 1);
    }
}

proof fn lemma_year_length(y: int)
    ensures
        days_before_year(y + 1) == days_before_year(y) + 365 + if leap(y) {
            1int
        } else {
            0int
        },
{
    lemma_quotient_step(y, 4);
    lemma_quotient_step(y, 100);
    lemma_quotient_step(y, 400);
    assert(y % 400 == 0 ==> y % 100 == 0);
    assert(y % 100 == 0 ==> y % 4 == 0);
}

/// Days since the first of January 1970 as year, month and day.
pub fn civil_from_days(z: i64) -> (r: (i64, u32, u32))
    requires
        z <= i64::MAX - 719468,
    ensures
        valid_date(r.0 as int, r.1 as int, r.2 as int),
        day_number(r.0 as int, r.1 as int, r.2 as int) == z,
{
    let shifted: i64 = z + 719468;
    let (era, doe) = floor_div(shifted, 146097);
    let (yoe, doy) = year_of_era(doe);
    let (mp, d) = month_of(doy);
    proof {
        assert(shifted == 146097 * era + doe);
        assert(-63132000000000 <= era <= 63132000000000);
        lemma_era_days(yoe as int, era as int);
        lemma_year_length(yoe + 400 * era);
        lemma_leap_shift(yoe as int, era as int);
        lemma_leap_shift(yoe + 1, era as int);
        assert(yoe + 1 + 400 * era == yoe + 400 * era + 1);
    }
    let y: i64 = yoe + era * 400;
    if mp < 10 {
        let m: i64 = mp + 3;
        proof {
            assert(mp == 0 || mp == 1 || mp == 2 || mp == 3 || mp == 4 || mp == 5 || mp == 6 || mp == 7
                || mp == 8 || mp == 9);
        }
        (y, m as u32, d as u32)
    } else {
        let m: i64 = mp - 9;
        (y + 1, m as u32, d as u32)
    }
}

/// A later date has a later number.
pub proof fn dates_count_upwards(y1: int, m1: int, d1: int, y2: int, m2: int, d2: int)
    requires
        valid_date(y1, m1, d1),
        valid_date(y2, m2, d2),
        y1 < y2 || (y1 == y2 && (m1 < m2 || (m1 == m2 && d1 < d2))),
    ensures
        day_number(y1, m1, d1) < day_number(y2, m2, d2),
{
    if y1 < y2 {
        lemma_years_count_upwards(y1 + 1, y2);
        lemma_year_length(y1);
        lemma_within_year(y1, m1, d1);
    } else if m1 < m2 {
        lemma_month_ends(y1, m1, m2);
    }
}

proof fn lemma_years_count_upwards(a: int, b: int)
    requires
        a <= b,
    ensures
        days_before_year(a) <= days_before_year(b),
    decreases b - a,
{
    if a < b {
        lemma_years_count_upwards(a, b - 1);
        lemma_year_length(b - 1);
    }
}

proof fn lemma_within_year(y: int, m: int, d: int)
    requires
        valid_date(y, m, d),
    ensures
        0 <= days_before_month(y, m),
        days_before_month(y, m) + d <= 365 + if leap(y) {
            1int
        } else {
            0int
        },
{
}

proof fn lemma_month_ends(y: int, a: int, b: int)
    requires
        1 <= a < b <= 12,
    ensures
        days_before_month(y, a) + month_days(y, a) <= days_before_month(y, b),
{
}

/// A day has one date.
pub proof fn a_day_has_one_date(y1: int, m1: int, d1: int, y2: int, m2: int, d2: int)
    requires
        valid_date(y1, m1, d1),
        valid_date(y2, m2, d2),
        day_number(y1, m1, d1) == day_number(y2, m2, d2),
    ensures
        y1 == y2 && m1 == m2 && d1 == d2,
{
    if y1 < y2 || (y1 == y2 && (m1 < m2 || (m1 == m2 && d1 < d2))) {
        dates_count_upwards(y1, m1, d1, y2, m2, d2);
    }
    if y2 < y1 || (y1 == y2 && (m2 < m1 || (m1 == m2 && d2 < d1))) {
        dates_count_upwards(y2, m2, d2, y1, m1, d1);
    }
}

/// A second of a day.
pub struct Civil {
    pub year: int,
    pub month: int,
    pub day: int,
    pub hour: int,
    pub minute: int,
    pub second: int,
}

/// The civil time of an instant: that of the second it lies in.
pub open spec fn is_civil(ms: i64, c: Civil) -> bool {
    &&& valid_date(c.year, c.month, c.day)
    &&& 0 <= c.hour < 24
    &&& 0 <= c.minute < 60
    &&& 0 <= c.second < 60
    &&& day_number(c.year, c.month, c.day) * 86400 + c.hour * 3600 + c.minute * 60 + c.second == ms as int
        / 1000
}

pub open spec fn civil(ms: i64) -> Civil {
    choose|c: Civil| is_civil(ms, c)
}

/// The date of a day.
proof fn lemma_some_date(z: int) -> (r: (int, int, int))
    ensures
        valid_date(r.0, r.1, r.2),
        day_number(r.0, r.1, r.2) == z,
    decreases if z < 0 {
        -z
    } else {
        z
    },
{
    if z == 0 {
        assert(day_number(1970, 1, 1) == 0);
        (1970, 1, 1)
    } else if z > 0 {
        let (y, m, d) = lemma_some_date(z - 1);
        if d < month_days(y, m) {
            (y, m, d + 1)
        } else if m < 12 {
            lemma_next_month(y, m);
            (y, m + 1, 1)
        } else {
            lemma_year_length(y);
            (y + 1, 1, 1)
        }
    } else {
        let (y, m, d) = lemma_some_date(z + 1);
        if d > 1 {
            (y, m, d - 1)
        } else if m > 1 {
            lemma_next_month(y, m - 1);
            (y, m - 1, month_days(y, m - 1))
        } else {
            lemma_year_length(y - 1);
            (y - 1, 12, 31)
        }
    }
}

proof fn lemma_next_month(y: int, m: int)
    requires
        1 <= m < 12,
    ensures
        days_before_month(y, m + 1) == days_before_month(y, m) + month_days(y, m),
{
}

/// Every instant has a civil time.
pub proof fn every_instant_has_a_civil_time(ms: i64)
    ensures
        is_civil(ms, civil(ms)),
{
    let secs = ms as int / 1000;
    let days = secs / 86400;
    let rest = secs % 86400;
    let (y, m, d) = lemma_some_date(days);
    let c = Civil {
        year: y,
        month: m,
        day: d,
        hour: rest / 3600,
        minute: (rest % 3600) / 60,
        second: rest % 60,
    };
    assert(secs == days * 86400 + rest);
    assert(rest == c.hour * 3600 + c.minute * 60 + c.second);
    assert(is_civil(ms, c));
}

/// An instant has one civil time.
pub proof fn an_instant_has_one_civil_time(ms: i64, a: Civil, b: Civil)
    requires
        is_civil(ms, a),
        is_civil(ms, b),
    ensures
        a == b,
{
    let x = day_number(a.year, a.month, a.day);
    let y = day_number(b.year, b.month, b.day);
    assert(x == y);
    a_day_has_one_date(a.year, a.month, a.day, b.year, b.month, b.day);
}

/// A year in at least four places, the sign among them.
pub open spec fn year_text(y: int) -> Seq<char> {
    if y < 0 {
        "-"@ + padded((-y) as nat, 3)
    } else {
        padded(y as nat, 4)
    }
}

/// `YYYYMMDD-HHMMSS`
pub open spec fn compact_text(c: Civil) -> Seq<char> {
    year_text(c.year) + padded(c.month as nat, 2) + padded(c.day as nat, 2) + "-"@ + padded(
        c.hour as nat,
        2,
    ) + padded(c.minute as nat, 2) + padded(c.second as nat, 2)
}

/// `YYYY-MM-DDTHH:MM:SSZ`
pub open spec fn iso_text(c: Civil) -> Seq<char> {
    year_text(c.year) + "-"@ + padded(c.month as nat, 2) + "-"@ + padded(c.day as nat, 2) + "T"@
        + padded(c.hour as nat, 2) + ":"@ + padded(c.minute as nat, 2) + ":"@ + padded(
        c.second as nat,
        2,
    ) + "Z"@
}

fn year_string(y: i64) -> (r: String)
    requires
        y > i64::MIN,
    ensures
        r@ == year_text(y as int),
{
    if y < 0 {
        let mut s = "-".to_owned();
        s.append(decimal_padded((-y) as u64, 3).as_str());
        s
    } else {
        decimal_padded(y as u64, 4)
    }
}

/// Year, month, day, hour, minute and second of an instant.
fn parts(ms: i64) -> (r: (i64, u32, u32, i64, i64, i64))
    ensures
        civil(ms) == (Civil {
            year: r.0 as int,
            month: r.1 as int,
            day: r.2 as int,
            hour: r.3 as int,
            minute: r.4 as int,
            second: r.5 as int,
        }),
        valid_date(r.0 as int, r.1 as int, r.2 as int),
        0 <= r.3 < 24,
        0 <= r.4 < 60,
        0 <= r.5 < 60,
        r.0 > i64::MIN,
{
    let (secs, _) = floor_div(ms, 1000);
    let (days, sod) = floor_div(secs, 86400);
    let (y, m, d) = civil_from_days(days);
    let h: i64 = sod / 3600;
    let mi: i64 = (sod % 3600) / 60;
    let s: i64 = sod % 60;
    proof {
        let c = Civil {
            year: y as int,
            month: m as int,
            day: d as int,
            hour: h as int,
            minute: mi as int,
            second: s as int,
        };
        assert(secs == days * 86400 + sod);
        assert(sod == h * 3600 + mi * 60 + s);
        assert(is_civil(ms, c));
        an_instant_has_one_civil_time(ms, civil(ms), c);
        lemma_year_bound(y as int, m as int, d as int);
    }
    (y, m, d, h, mi, s)
}

/// A year is not further away than its days.
proof fn lemma_year_bound(y: int, m: int, d: int)
    requires
        valid_date(y, m, d),
        day_number(y, m, d) >= -200000000000,
    ensures
        y > -1000000000000,
{
    lemma_within_year(y, m, d);
}

/// `YYYYMMDD-HHMMSS` in UTC, for names that sort by time.
pub fn stamp_compact(ms: i64) -> (r: String)
    ensures
        r@ == compact_text(civil(ms)),
{
    let (y, m, d, h, mi, s) = parts(ms);
    let mut out = year_string(y);
    out.append(decimal_padded(m as u64, 2).as_str());
    out.append(decimal_padded(d as u64, 2).as_str());
    out.append("-");
    out.append(decimal_padded(h as u64, 2).as_str());
    out.append(decimal_padded(mi as u64, 2).as_str());
    out.append(decimal_padded(s as u64, 2).as_str());
    out
}

/// `YYYY-MM-DDTHH:MM:SSZ` in UTC, for people.
pub fn stamp_iso(ms: i64) -> (r: String)
    ensures
        r@ == iso_text(civil(ms)),
{
    let (y, m, d, h, mi, s) = parts(ms);
    let mut out = year_string(y);
    out.append("-");
    out.append(decimal_padded(m as u64, 2).as_str());
    out.append("-");
    out.append(decimal_padded(d as u64, 2).as_str());
    out.append("T");
    out.append(decimal_padded(h as u64, 2).as_str());
    out.append(":");
    out.append(decimal_padded(mi as u64, 2).as_str());
    out.append(":");
    out.append(decimal_padded(s as u64, 2).as_str());
    out.append("Z");
    out
}

proof fn lemma_two_places(n: nat)
    requires
        n < 100,
    ensures
        padded(n, 2) == seq![digit_char((n / 10) as int), digit_char((n % 10) as int)],
{
    reveal_with_fuel(crate::strings::numeral, 2);
    if n < 10 {
        assert(numeral(n).len() == 1);
        assert(padded(n, 2) =~= seq![digit_char(0), digit_char(n as int)]);
    } else {
        assert(numeral(n / 10) =~= seq![digit_char((n / 10) as int)]);
        assert(numeral(n).len() == 2);
        assert(padded(n, 2) =~= seq![digit_char((n / 10) as int), digit_char((n % 10) as int)]);
    }
}

proof fn lemma_four_places(n: nat)
    requires
        n < 10000,
    ensures
        padded(n, 4) == seq![
            digit_char((n / 1000) as int),
            digit_char((n / 100 % 10) as int),
            digit_char((n / 10 % 10) as int),
            digit_char((n % 10) as int),
        ],
{
    reveal_with_fuel(crate::strings::numeral, 4);
    let want = seq![
        digit_char((n / 1000) as int),
        digit_char((n / 100 % 10) as int),
        digit_char((n / 10 % 10) as int),
        digit_char((n % 10) as int),
    ];
    if n < 10 {
        assert(numeral(n).len() == 1);
        assert(padded(n, 4) =~= want);
    } else if n < 100 {
        assert(numeral(n / 10) =~= seq![digit_char((n / 10) as int)]);
        assert(numeral(n).len() == 2);
        assert(padded(n, 4) =~= want);
    } else if n < 1000 {
        assert(n / 10 / 10 == n / 100);
        assert(numeral(n / 100) =~= seq![digit_char((n / 100) as int)]);
        assert(numeral(n / 10) =~= seq![
            digit_char((n / 100) as int),
            digit_char((n / 10 % 10) as int),
        ]);
        assert(numeral(n).len() == 3);
        assert(padded(n, 4) =~= want);
    } else {
        assert(n / 10 / 10 == n / 100);
        assert(n / 100 / 10 == n / 1000);
        assert(numeral(n / 1000) =~= seq![digit_char((n / 1000) as int)]);
        assert(numeral(n / 100) =~= seq![
            digit_char((n / 1000) as int),
            digit_char((n / 100 % 10) as int),
        ]);
        assert(numeral(n / 10).len() == 3);
        assert(numeral(n).len() == 4);
        assert(padded(n, 4) =~= want);
    }
}

proof fn lemma_two_digits_order(a: nat, b: nat)
    requires
        a < b < 100,
    ensures
        text_lt(padded(a, 2), padded(b, 2)),
        padded(a, 2).len() == 2,
        padded(b, 2).len() == 2,
{
    reveal_with_fuel(lex_lt, 3);
    lemma_two_places(a);
    lemma_two_places(b);
    let x = codes(padded(a, 2));
    let y = codes(padded(b, 2));
    assert(x.skip(1)[0] == x[1]);
    assert(y.skip(1)[0] == y[1]);
}

proof fn lemma_four_digits_order(a: nat, b: nat)
    requires
        a < b < 10000,
    ensures
        text_lt(padded(a, 4), padded(b, 4)),
        padded(a, 4).len() == 4,
        padded(b, 4).len() == 4,
{
    lemma_two_and_two(a);
    lemma_two_and_two(b);
    let (ah, al) = (a / 100, a % 100);
    let (bh, bl) = (b / 100, b % 100);
    lemma_two_places(ah);
    lemma_two_places(bh);
    if ah < bh {
        lemma_two_digits_order(ah, bh);
        lemma_text_block(padded(ah, 2), padded(bh, 2), padded(al, 2), padded(bl, 2));
    } else {
        assert(ah == bh && al < bl);
        lemma_two_digits_order(al, bl);
        lemma_text_prefix(padded(ah, 2), padded(al, 2), padded(bl, 2));
    }
}

proof fn lemma_two_and_two(n: nat)
    requires
        n < 10000,
    ensures
        padded(n, 4) == padded(n / 100, 2) + padded(n % 100, 2),
        padded(n, 4).len() == 4,
{
    lemma_four_places(n);
    lemma_two_places(n / 100);
    lemma_two_places(n % 100);
    assert(n / 100 / 10 == n / 1000);
    assert(n % 100 / 10 == n / 10 % 10);
    assert(n % 100 % 10 == n % 10);
    assert(padded(n, 4) =~= padded(n / 100, 2) + padded(n % 100, 2));
}

/// Hour, minute and second as they stand in a stamp.
spec fn clock_text(c: Civil) -> Seq<char> {
    padded(c.hour as nat, 2) + (padded(c.minute as nat, 2) + padded(c.second as nat, 2))
}

proof fn lemma_clock_order(x: Civil, y: Civil)
    requires
        0 <= x.hour < 24,
        0 <= y.hour < 24,
        0 <= x.minute < 60,
        0 <= y.minute < 60,
        0 <= x.second < 60,
        0 <= y.second < 60,
        x.hour < y.hour || (x.hour == y.hour && (x.minute < y.minute || (x.minute == y.minute
            && x.second < y.second))),
    ensures
        text_lt(clock_text(x), clock_text(y)),
{
    let h = (padded(x.hour as nat, 2), padded(y.hour as nat, 2));
    let n = (padded(x.minute as nat, 2), padded(y.minute as nat, 2));
    let s = (padded(x.second as nat, 2), padded(y.second as nat, 2));
    if x.hour < y.hour {
        lemma_two_digits_order(x.hour as nat, y.hour as nat);
        lemma_text_block(h.0, h.1, n.0 + s.0, n.1 + s.1);
    } else {
        lemma_text_prefix(h.0, n.0 + s.0, n.1 + s.1);
        if x.minute < y.minute {
            lemma_two_digits_order(x.minute as nat, y.minute as nat);
            lemma_text_block(n.0, n.1, s.0, s.1);
        } else {
            lemma_text_prefix(n.0, s.0, s.1);
            lemma_two_digits_order(x.second as nat, y.second as nat);
        }
    }
}

/// Year, month and day as they stand in a stamp.
spec fn date_text(c: Civil) -> Seq<char> {
    padded(c.year as nat, 4) + (padded(c.month as nat, 2) + padded(c.day as nat, 2))
}

proof fn lemma_date_order(x: Civil, y: Civil)
    requires
        0 <= x.year <= 9999,
        0 <= y.year <= 9999,
        valid_date(x.year, x.month, x.day),
        valid_date(y.year, y.month, y.day),
        x.year < y.year || (x.year == y.year && (x.month < y.month || (x.month == y.month && x.day
            < y.day))),
    ensures
        text_lt(date_text(x), date_text(y)),
        date_text(x).len() == date_text(y).len(),
{
    let a = (padded(x.year as nat, 4), padded(y.year as nat, 4));
    let m = (padded(x.month as nat, 2), padded(y.month as nat, 2));
    let d = (padded(x.day as nat, 2), padded(y.day as nat, 2));
    lemma_two_and_two(x.year as nat);
    lemma_two_and_two(y.year as nat);
    lemma_two_places(x.month as nat);
    lemma_two_places(y.month as nat);
    lemma_two_places(x.day as nat);
    lemma_two_places(y.day as nat);
    if x.year < y.year {
        lemma_four_digits_order(x.year as nat, y.year as nat);
        lemma_text_block(a.0, a.1, m.0 + d.0, m.1 + d.1);
    } else {
        lemma_text_prefix(a.0, m.0 + d.0, m.1 + d.1);
        if x.month < y.month {
            lemma_two_digits_order(x.month as nat, y.month as nat);
            lemma_text_block(m.0, m.1, d.0, d.1);
        } else {
            lemma_text_prefix(m.0, d.0, d.1);
            lemma_two_digits_order(x.day as nat, y.day as nat);
        }
    }
}

proof fn lemma_compact_shape(c: Civil)
    requires
        0 <= c.year,
    ensures
        compact_text(c) == date_text(c) + ("-"@ + clock_text(c)),
{
    assert(compact_text(c) =~= date_text(c) + ("-"@ + clock_text(c)));
}

/// Within the years of four digits, names stamped with a later second sort later.
pub proof fn stamps_sort_by_time(a: i64, b: i64, x: Civil, y: Civil)
    requires
        is_civil(a, x),
        is_civil(b, y),
        0 <= x.year <= 9999,
        0 <= y.year <= 9999,
        a as int / 1000 < b as int / 1000,
    ensures
        text_lt(compact_text(x), compact_text(y)),
{
    lemma_compact_shape(x);
    lemma_compact_shape(y);
    let tx = "-"@ + clock_text(x);
    let ty = "-"@ + clock_text(y);
    if x.year == y.year && x.month == y.month && x.day == y.day {
        lemma_clock_order(x, y);
        lemma_text_prefix("-"@, clock_text(x), clock_text(y));
        lemma_text_prefix(date_text(x), tx, ty);
    } else {
        if y.year < x.year || (y.year == x.year && (y.month < x.month || (y.month == x.month && y.day
            < x.day))) {
            dates_count_upwards(y.year, y.month, y.day, x.year, x.month, x.day);
        }
        lemma_date_order(x, y);
        lemma_text_block(date_text(x), date_text(y), tx, ty);
    }
}

/// The digits of a text, in their order.
pub open spec fn digits_of(s: Seq<char>) -> Seq<char> {
    s.filter(|c: char| '0' <= c <= '9')
}

proof fn lemma_digits_join(a: Seq<char>, b: Seq<char>)
    ensures
        digits_of(a + b) == digits_of(a) + digits_of(b),
{
    Seq::filter_distributes_over_add(a, b, |c: char| '0' <= c <= '9');
}

proof fn lemma_mark_has_no_digits(mark: char)
    requires
        !('0' <= mark <= '9'),
    ensures
        digits_of(seq![mark]) == Seq::<char>::empty(),
{
    reveal_with_fuel(Seq::filter, 2);
    assert(seq![mark].drop_last() =~= Seq::<char>::empty());
}

/// Both stamps of an instant say the same: they differ only in the marks between the digits.
pub proof fn both_stamps_describe_the_same_instant(c: Civil)
    ensures
        digits_of(iso_text(c)) == digits_of(compact_text(c)),
{
    reveal_strlit("-");
    reveal_strlit("T");
    reveal_strlit(":");
    reveal_strlit("Z");
    assert("-"@ =~= seq!['-'] && "T"@ =~= seq!['T'] && ":"@ =~= seq![':'] && "Z"@ =~= seq!['Z']);
    lemma_mark_has_no_digits('-');
    lemma_mark_has_no_digits('T');
    lemma_mark_has_no_digits(':');
    lemma_mark_has_no_digits('Z');
    let y = year_text(c.year);
    let m = padded(c.month as nat, 2);
    let d = padded(c.day as nat, 2);
    let h = padded(c.hour as nat, 2);
    let mi = padded(c.minute as nat, 2);
    let s = padded(c.second as nat, 2);
    lemma_digits_join(y, m);
    lemma_digits_join(y + m, d);
    lemma_digits_join(y + m + d, "-"@);
    lemma_digits_join(y + m + d + "-"@, h);
    lemma_digits_join(y + m + d + "-"@ + h, mi);
    lemma_digits_join(y + m + d + "-"@ + h + mi, s);
    let a = y + "-"@;
    let b = a + m;
    let e = b + "-"@;
    let f = e + d;
    let g = f + "T"@;
    let i = g + h;
    let j = i + ":"@;
    let k = j + mi;
    let l = k + ":"@;
    let n = l + s;
    lemma_digits_join(y, "-"@);
    lemma_digits_join(a, m);
    lemma_digits_join(b, "-"@);
    lemma_digits_join(e, d);
    lemma_digits_join(f, "T"@);
    lemma_digits_join(g, h);
    lemma_digits_join(i, ":"@);
    lemma_digits_join(j, mi);
    lemma_digits_join(k, ":"@);
    lemma_digits_join(l, s);
    lemma_digits_join(n, "Z"@);
    assert(digits_of(iso_text(c)) =~= digits_of(compact_text(c)));
}

} // verus!
