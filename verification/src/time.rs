//! Interval strings, millisecond arithmetic and the current time.
//!
//! An interval such as `"15m"` or `"-2h"` is an optional minus sign, one to
//! six decimal digits and a single unit letter.  Months and years are fixed
//! 30-day and 365-day spans, as the quote provider defines them.

use vstd::prelude::*;

verus! {

/// Milliseconds in one week.
pub const WEEK_MS: i64 = 604800000;

/// The Unix epoch fell on a Thursday; weekly rounding shifts by four days so
/// that week boundaries land on Mondays.
pub const FOUR_DAYS_MS: i64 = 345600000;

/// Milliseconds for one unit letter, if the letter is a known unit.
pub open spec fn unit_ms_spec(c: char) -> Option<int> {
    if c == 'm' {
        Some(60000int)
    } else if c == 'h' {
        Some(3600000int)
    } else if c == 'd' {
        Some(86400000int)
    } else if c == 'w' {
        Some(604800000int)
    } else if c == 'M' {
        Some(2592000000int)
    } else if c == 'y' {
        Some(31536000000int)
    } else {
        None
    }
}

pub open spec fn is_digit(c: char) -> bool {
    48 <= c as int && c as int <= 57
}

pub open spec fn digit_val(c: char) -> int {
    c as int - 48
}

pub open spec fn all_digits(s: Seq<char>) -> bool {
    forall|i: int| 0 <= i < s.len() ==> is_digit(s[i])
}

/// Value of a sequence of decimal digits, most significant first.
pub open spec fn digits_val(s: Seq<char>) -> int
    decreases s.len(),
{
    if s.len() == 0 {
        0
    } else {
        digits_val(s.drop_last()) * 10 + digit_val(s.last())
    }
}

pub open spec fn pow10(n: nat) -> int
    decreases n,
{
    if n == 0 {
        1
    } else {
        10 * pow10((n - 1) as nat)
    }
}

pub proof fn lemma_digits_val_bound(s: Seq<char>)
    requires
        all_digits(s),
    ensures
        0 <= digits_val(s) < pow10(s.len()),
    decreases s.len(),
{
    if s.len() > 0 {
        assert(all_digits(s.drop_last()));
        lemma_digits_val_bound(s.drop_last());
    }
}

/// The digits-and-unit part of an interval string: everything after an
/// optional leading minus sign.
pub open spec fn interval_body(s: Seq<char>) -> Seq<char> {
    if s.len() > 0 && s[0] == '-' {
        s.skip(1)
    } else {
        s
    }
}

pub open spec fn interval_is_neg(s: Seq<char>) -> bool {
    s.len() > 0 && s[0] == '-'
}

/// Whether an interval string is well formed: optional sign, one to six
/// digits, one known unit letter.
pub open spec fn interval_valid(s: Seq<char>) -> bool {
    let body = interval_body(s);
    &&& 2 <= body.len() <= 7
    &&& all_digits(body.take(body.len() - 1))
    &&& unit_ms_spec(body.last()) is Some
}

/// The signed millisecond span an interval string denotes, if well formed.
pub open spec fn interval_ms_spec(s: Seq<char>) -> Option<int> {
    if interval_valid(s) {
        let body = interval_body(s);
        let v = digits_val(body.take(body.len() - 1)) * unit_ms_spec(body.last()).unwrap();
        if interval_is_neg(s) {
            Some(-v)
        } else {
            Some(v)
        }
    } else {
        None
    }
}

pub proof fn lemma_interval_ms_bound(s: Seq<char>)
    requires
        interval_valid(s),
    ensures
        -32000000000000000 <= interval_ms_spec(s).unwrap() <= 32000000000000000,
        interval_ms_spec(s).unwrap() > 0 ==> interval_ms_spec(s).unwrap() >= 60000,
{
    let body = interval_body(s);
    let digits = body.take(body.len() - 1);
    lemma_digits_val_bound(digits);
    lemma_pow10_small();
    assert(digits.len() <= 6);
    assert(digits_val(digits) < pow10(digits.len()));
    assert(pow10(digits.len()) <= 1000000);
    let u = unit_ms_spec(body.last()).unwrap();
    assert(0 < u <= 31536000000);
    assert(digits_val(digits) * u <= 1000000 * 31536000000int) by (nonlinear_arith)
        requires
            0 <= digits_val(digits) <= 1000000,
            0 < u <= 31536000000,
    ;
    assert(digits_val(digits) * u >= 0) by (nonlinear_arith)
        requires
            0 <= digits_val(digits),
            0 < u,
    ;
    assert(digits_val(digits) * u > 0 ==> digits_val(digits) * u >= u) by (nonlinear_arith)
        requires
            0 <= digits_val(digits),
            0 < u,
    ;
    assert(u >= 60000);
}

/// Parses the unit letter of an interval.
fn unit_ms(c: char) -> (r: Option<i64>)
    ensures
        match unit_ms_spec(c) {
            Some(v) => r == Some(v as i64),
            None => r is None,
        },
{
    if c == 'm' {
        Some(60000)
    } else if c == 'h' {
        Some(3600000)
    } else if c == 'd' {
        Some(86400000)
    } else if c == 'w' {
        Some(604800000)
    } else if c == 'M' {
        Some(2592000000)
    } else if c == 'y' {
        Some(31536000000)
    } else {
        None
    }
}

/// Parses an interval string into its signed millisecond span.
///
/// Returns `None` exactly when the string is not an interval of the grammar.
pub fn interval_ms(s: &str) -> (r: Option<i64>)
    ensures
        match interval_ms_spec(s@) {
            Some(v) => r == Some(v as i64),
            None => r is None,
        },
{
    let n = s.unicode_len();
    let neg: bool = n > 0 && s.get_char(0) == '-';
    let start: usize = if neg { 1 } else { 0 };
    proof {
        assert(interval_body(s@) =~= s@.skip(start as int));
    }
    if n < start + 2 || n > start + 7 {
        return None;
    }
    let ghost body = s@.skip(start as int);
    let mut acc: i64 = 0;
    let mut i: usize = start;
    while i < n - 1
        invariant
            start <= i <= n - 1,
            n - 1 < s@.len() == n,
            start + 2 <= n <= start + 7,
            start <= 1,
            body == s@.skip(start as int),
            interval_body(s@) == body,
            interval_is_neg(s@) == (start == 1),
            all_digits(s@.subrange(start as int, i as int)),
            acc == digits_val(s@.subrange(start as int, i as int)),
            0 <= acc < pow10((i - start) as nat),
            acc < 1000000,
        decreases n - 1 - i,
    {
        let c = s.get_char(i);
        let code = c as u32;
        if code < 48 || code > 57 {
            proof {
                assert(!is_digit(s@[i as int]));
                assert(body.take(body.len() - 1)[i - start] == s@[i as int]);
                assert(!all_digits(body.take(body.len() - 1)));
            }
            return None;
        }
        let d = (code - 48) as i64;
        proof {
            assert(pow10((i + 1 - start) as nat) == 10 * pow10((i - start) as nat));
            assert(pow10((i - start) as nat) <= pow10(5)) by {
                lemma_pow10_mono((i - start) as nat, 5);
            };
            lemma_pow10_small();
            let pre = s@.subrange(start as int, i as int);
            let ext = s@.subrange(start as int, i + 1 as int);
            assert(ext.drop_last() =~= pre);
            assert(ext.last() == s@[i as int]);
        }
        acc = acc * 10 + d;
        i = i + 1;
    }
    let unit_c = s.get_char(n - 1);
    proof {
        assert(body.last() == s@[n - 1]);
        assert(body.take(body.len() - 1) =~= s@.subrange(start as int, n - 1));
    }
    match unit_ms(unit_c) {
        None => None,
        Some(u) => {
            proof {
                assert(interval_valid(s@));
                assert(acc * u <= 1000000 * 31536000000int) by (nonlinear_arith)
                    requires
                        0 <= acc < 1000000,
                        0 < u <= 31536000000,
                ;
                assert(acc * u >= 0) by (nonlinear_arith)
                    requires
                        0 <= acc,
                        0 < u,
                ;
            }
            let v = acc * u;
            if neg {
                Some(-v)
            } else {
                Some(v)
            }
        },
    }
}

pub proof fn lemma_pow10_small()
    ensures
        pow10(0) == 1,
        pow10(1) == 10,
        pow10(2) == 100,
        pow10(3) == 1000,
        pow10(4) == 10000,
        pow10(5) == 100000,
        pow10(6) == 1000000,
{
    reveal_with_fuel(pow10, 8);
}

pub proof fn lemma_pow10_mono(a: nat, b: nat)
    requires
        a <= b,
    ensures
        pow10(a) <= pow10(b),
        pow10(a) >= 1,
    decreases b,
{
    if b > 0 {
        if a == b {
            lemma_pow10_mono((a - 1) as nat, (b - 1) as nat);
        } else {
            lemma_pow10_mono(a, (b - 1) as nat);
        }
    }
}

/// Rounds a timestamp down to the enclosing step boundary; weekly steps are
/// shifted so the boundary is a Monday.
pub open spec fn round_ms_spec(ms: int, step: int) -> int {
    if step == WEEK_MS {
        ms - ms % step + FOUR_DAYS_MS
    } else {
        ms - ms % step
    }
}

pub fn round_ms(ms: i64, step: i64) -> (r: i64)
    requires
        0 <= ms <= i64::MAX - FOUR_DAYS_MS,
        0 < step,
    ensures
        r == round_ms_spec(ms as int, step as int),
{
    let rem = ms % step;
    proof {
        assert(0 <= rem <= ms) by (nonlinear_arith)
            requires
                0 <= ms,
                0 < step,
                rem == ms % step,
        ;
    }
    if step == WEEK_MS {
        ms - rem + FOUR_DAYS_MS
    } else {
        ms - rem
    }
}

/// Number of step-wide slots in the half-open range `[start, end)`.
pub fn range_num_candles(start: i64, end: i64, step: i64) -> (n: usize)
    requires
        start <= end,
        0 < step,
        end - start <= i64::MAX,
        (end - start) / (step as int) <= usize::MAX,
    ensures
        n == (end - start) / (step as int),
{
    let diff = end - start;
    proof {
        assert(0 <= diff / step) by (nonlinear_arith)
            requires
                0 <= diff,
                0 < step,
        ;
    }
    (diff / step) as usize
}


/// One day in milliseconds.
pub const DAY_MS: i64 = 86400000;

/// Whether a year is a Gregorian leap year.
pub open spec fn is_leap_spec(y: int) -> bool {
    y % 4 == 0 && (y % 100 != 0 || y % 400 == 0)
}

pub open spec fn days_in_year_spec(y: int) -> int {
    if is_leap_spec(y) {
        366
    } else {
        365
    }
}

/// Days from the epoch's new year to year `y`'s.
pub open spec fn days_before_year(y: int) -> int
    decreases y,
{
    if y <= 1970 {
        0
    } else {
        days_before_year(y - 1) + days_in_year_spec(y - 1)
    }
}

pub open spec fn days_in_month_spec(y: int, m: int) -> int {
    if m == 2 {
        if is_leap_spec(y) {
            29
        } else {
            28
        }
    } else if m == 4 || m == 6 || m == 9 || m == 11 {
        30
    } else {
        31
    }
}

/// Days from a year's new year to the first of month `m`.
pub open spec fn days_before_month(y: int, m: int) -> int
    decreases m,
{
    if m <= 1 {
        0
    } else {
        days_before_month(y, m - 1) + days_in_month_spec(y, m - 1)
    }
}

/// The day number, counted from the epoch, of a civil date.
pub open spec fn day_of_civil_spec(y: int, m: int, d: int) -> int {
    days_before_year(y) + days_before_month(y, m) + d - 1
}

/// Whether a year is a leap year.
fn is_leap(y: i64) -> (r: bool)
    requires
        0 <= y,
    ensures
        r == is_leap_spec(y as int),
{
    y % 4 == 0 && (y % 100 != 0 || y % 400 == 0)
}

/// The length of a month, in days.
fn days_in_month(y: i64, m: i64) -> (r: i64)
    requires
        0 <= y,
    ensures
        r == days_in_month_spec(y as int, m as int),
        28 <= r <= 31,
{
    if m == 2 {
        if is_leap(y) {
            29
        } else {
            28
        }
    } else if m == 4 || m == 6 || m == 9 || m == 11 {
        30
    } else {
        31
    }
}

/// Largest calendar year the conversions handle.
pub const MAX_YEAR: i64 = 9999;

/// Counts the days from the epoch to a civil date.
fn day_of_civil(y: i64, m: i64, d: i64) -> (r: i64)
    requires
        1970 <= y <= MAX_YEAR,
        1 <= m <= 12,
        1 <= d <= 31,
    ensures
        r == day_of_civil_spec(y as int, m as int, d as int),
        0 <= r <= 2940000,
{
    proof {
        lemma_days_before_year_bounds(y as int);
    }
    let mut days: i64 = 0;
    let mut yy: i64 = 1970;
    while yy < y
        invariant
            1970 <= yy <= y <= MAX_YEAR,
            days == days_before_year(yy as int),
            0 <= days <= 366 * (yy - 1970),
        decreases y - yy,
    {
        days = days + if is_leap(yy) {
            366
        } else {
            365
        };
        yy = yy + 1;
    }
    let mut mm: i64 = 1;
    while mm < m
        invariant
            1 <= mm <= m <= 12,
            1970 <= y <= MAX_YEAR,
            days == days_before_year(y as int) + days_before_month(y as int, mm as int),
            0 <= days <= 366 * (y - 1970) + 31 * (mm - 1),
        decreases m - mm,
    {
        days = days + days_in_month(y, mm);
        mm = mm + 1;
    }
    days + (d - 1)
}

/// Days to a year stay within a day of 366 per year.
proof fn lemma_days_before_year_bounds(y: int)
    requires
        1970 <= y,
    ensures
        0 <= days_before_year(y) <= 366 * (y - 1970),
    decreases y,
{
    if y > 1970 {
        lemma_days_before_year_bounds(y - 1);
    }
}

/// The length of a year, in days.
fn days_in_year(y: i64) -> (r: i64)
    requires
        0 <= y,
    ensures
        r == days_in_year_spec(y as int),
{
    if is_leap(y) {
        366
    } else {
        365
    }
}

/// Splits a day number back into its civil date.
fn civil_of_day(days: i64) -> (r: (i64, i64, i64))
    requires
        0 <= days <= 2930000,
    ensures
        1970 <= r.0 <= MAX_YEAR,
        1 <= r.1 <= 12,
        1 <= r.2 <= days_in_month_spec(r.0 as int, r.1 as int),
        day_of_civil_spec(r.0 as int, r.1 as int, r.2 as int) == days,
{
    let mut y: i64 = 1970;
    let mut rem = days;
    proof {
        lemma_days_before_year_bounds(1970);
    }
    let mut ylen = days_in_year(y);
    while rem >= ylen
        invariant
            1970 <= y,
            0 <= rem,
            rem == days - days_before_year(y as int),
            ylen == days_in_year_spec(y as int),
            days <= 2930000,
            days_before_year(y as int) <= days,
        decreases rem,
    {
        proof {
            lemma_year_cap(y as int, days as int);
        }
        rem = rem - ylen;
        y = y + 1;
        ylen = days_in_year(y);
    }
    proof {
        lemma_year_cap(y as int, days as int);
    }
    let mut m: i64 = 1;
    while m < 12 && rem >= days_in_month(y, m)
        invariant
            1 <= m <= 12,
            1970 <= y <= MAX_YEAR,
            0 <= rem,
            rem == days - days_before_year(y as int) - days_before_month(y as int, m as int),
            m < 12 ==> days - days_before_year(y as int) < days_in_year_spec(y as int),
            days - days_before_year(y as int) < days_in_year_spec(y as int),
        decreases 12 - m,
    {
        rem = rem - days_in_month(y, m);
        m = m + 1;
    }
    proof {
        lemma_month_fits(y as int, m as int, (days - days_before_year(y as int)) as int);
    }
    (y, m, rem + 1)
}

/// A day number within the handled span never walks past the largest year.
proof fn lemma_year_cap(y: int, days: int)
    requires
        1970 <= y,
        days_before_year(y) <= days <= 2930000,
    ensures
        y <= MAX_YEAR,
        days_before_year(y) >= 365 * (y - 1970),
    decreases y,
{
    lemma_days_at_least(y);
}

/// Every year adds at least 365 days.
proof fn lemma_days_at_least(y: int)
    requires
        1970 <= y,
    ensures
        days_before_year(y) >= 365 * (y - 1970),
    decreases y,
{
    if y > 1970 {
        lemma_days_at_least(y - 1);
    }
}

/// Within a year, walking the months lands inside one of them.
proof fn lemma_month_fits(y: int, m: int, yrem: int)
    requires
        1 <= m <= 12,
        days_before_month(y, m) <= yrem < days_in_year_spec(y),
        m < 12 ==> yrem < days_before_month(y, m) + days_in_month_spec(y, m),
    ensures
        yrem - days_before_month(y, m) < days_in_month_spec(y, m),
{
    if m == 12 {
        lemma_year_days_split(y, 13);
        assert(days_before_month(y, 13) == days_before_month(y, 12) + days_in_month_spec(y, 12));
    }
}

/// The months of a year sum to its length.
proof fn lemma_year_days_split(y: int, m: int)
    requires
        1 <= m <= 13,
    ensures
        days_before_month(y, m) <= days_in_year_spec(y),
        m == 13 ==> days_before_month(y, m) == days_in_year_spec(y),
    decreases 13 - m,
{
    if m == 13 {
        reveal_with_fuel(days_before_month, 14);
        assert(days_before_month(y, 13) == days_in_year_spec(y));
    } else {
        lemma_year_days_split(y, m + 1);
        assert(days_before_month(y, m + 1) == days_before_month(y, m) + days_in_month_spec(
        y, m));
    }
}

/// Relies on chrono's `Utc::now`: the current Unix time in milliseconds.
/// Nothing can be promised of the clock's reading, and chrono itself gives
/// up on a clock set before the Unix epoch.
#[verifier::external_body]
pub fn now() -> i64 {
    chrono::Utc::now().timestamp_millis()
}

/// Steps the civil calendar back by whole months from now, keeping the day
/// of month (clamped to a shorter target month) and the time of day.
/// Nothing can be promised of the clock; `None` when its reading falls
/// outside the handled calendar span or before the epoch.
fn calendar_months_ago(months: i64) -> (r: Option<i64>)
    requires
        0 <= months <= 13000000,
{
    let now_ms = now();
    if now_ms < 0 {
        return None;
    }
    let days = now_ms / DAY_MS;
    if days > 2930000 {
        return None;
    }
    let tod = now_ms % DAY_MS;
    proof {
        assert(0 <= days && 0 <= tod < DAY_MS) by (nonlinear_arith)
            requires
                0 <= now_ms,
                days == now_ms / DAY_MS,
                tod == now_ms % DAY_MS,
                DAY_MS == 86400000,
        ;
    }
    let (y, m, d) = civil_of_day(days);
    let total = y * 12 + (m - 1);
    if total - months < 1970 * 12 {
        return None;
    }
    let t2 = total - months;
    let y2 = t2 / 12;
    let m2 = t2 % 12 + 1;
    proof {
        assert(1970 <= y2 <= MAX_YEAR && 1 <= m2 <= 12) by (nonlinear_arith)
            requires
                1970 * 12 <= t2 <= MAX_YEAR * 12 + 11,
                y2 == t2 / 12,
                m2 == t2 % 12 + 1,
        ;
    }
    let dim = days_in_month(y2, m2);
    let d2 = if d < dim {
        d
    } else {
        dim
    };
    Some(day_of_civil(y2, m2, d2) * DAY_MS + tod)
}

/// The instant one interval before now; month and year spans step the
/// civil calendar back by whole months, the day of month kept (clamped to
/// a shorter target month); the other units subtract their fixed span.
/// `None` when the interval string is malformed or the clock's reading
/// leaves no room for the span.
pub fn ago(s: &str) -> (r: Option<i64>)
    ensures
        interval_ms_spec(s@) is None ==> r is None,
        r is Some ==> interval_ms_spec(s@) is Some,
{
    let n = s.unicode_len();
    match interval_ms(s) {
        None => None,
        Some(v) => {
            let unit = s.get_char(n - 1);
            if (unit == 'y' || unit == 'M') && v > 0 {
                proof {
                    lemma_interval_ms_bound(s@);
                    vstd::arithmetic::div_mod::lemma_div_is_ordered(v as int,
                        32000000000000000, 31536000000);
                    vstd::arithmetic::div_mod::lemma_div_is_ordered(v as int,
                        32000000000000000, 2592000000);
                    vstd::arithmetic::div_mod::lemma_div_pos_is_pos(v as int, 31536000000);
                    vstd::arithmetic::div_mod::lemma_div_pos_is_pos(v as int, 2592000000);
                }
                let months: i64 = if unit == 'y' {
                    (v / 31536000000) * 12
                } else {
                    v / 2592000000
                };
                calendar_months_ago(months)
            } else {
                now().checked_sub(v)
            }
        },
    }
}

} // verus!
