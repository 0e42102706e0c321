//! Dates: a validated review date, plus the proleptic-Gregorian day arithmetic
//! that relates calendar dates to day counts and to the UTC clock.
use vstd::prelude::*;
use crate::text::{is_digit, digit_value, decimal_value, zero_padded, push_char, push_padded, lemma_zero_padded_digits, all_digits, ten_to, lemma_decimal_value_below, lemma_decimal_value_injective};

verus! {

/// A human review date (`YYYY-MM-DD`).
///
/// Hand-written **by design**: it asserts *"a person verified this entry as of
/// this date"*, which no tool can derive. Ordered by year, then month, then
/// day, so `reviewed <= today` is checkable.
#[derive(Clone, Copy, PartialEq, Eq, Structural, PartialOrd, Ord, Debug, Hash)]
pub struct ReviewDate {
    /// Four-digit year.
    pub year: u16,
    /// Month, `1..=12`.
    pub month: u8,
    /// Day, `1..=31`.
    pub day: u8,
}

// ---------------------------------------------------------------------------
// The calendar
// ---------------------------------------------------------------------------

/// A leap year of the proleptic Gregorian calendar.
pub open spec fn is_leap(y: int) -> bool {
    y % 4 == 0 && (y % 100 != 0 || y % 400 == 0)
}

/// The number of days in a year.
pub open spec fn year_length(y: int) -> int {
    if is_leap(y) {
        366
    } else {
        365
    }
}

/// The number of days in month `m` (`1..=12`) of year `y`.
pub open spec fn days_in_month(y: int, m: int) -> int {
    if m == 2 {
        if is_leap(y) {
            29
        } else {
            28
        }
    } else if m == 4 || m == 6 || m == 9 || m == 11 {
        30
    } else {
        31
    }
}

/// Days in year `y` before the first of month `m` (`1..=12`).
pub open spec fn days_before_month(y: int, m: int) -> int {
    let common = if m <= 1 {
        0int
    } else if m == 2 {
        31
    } else if m == 3 {
        59
    } else if m == 4 {
        90
    } else if m == 5 {
        120
    } else if m == 6 {
        151
    } else if m == 7 {
        181
    } else if m == 8 {
        212
    } else if m == 9 {
        243
    } else if m == 10 {
        273
    } else if m == 11 {
        304
    } else {
        334
    };
    if m > 2 && is_leap(y) {
        common + 1
    } else {
        common
    }
}

/// Days from 0000-01-01 to the first of January of year `y`: 365 per year plus
/// one for each leap year before it.
pub open spec fn days_before_year(y: int) -> int {
    365 * y + (y + 3) / 4 - (y + 99) / 100 + (y + 399) / 400
}

/// Days from 1970-01-01 (the Unix epoch) to `y-m-d`. A day beyond the end of
/// its month counts on into the following days.
pub open spec fn day_number(y: int, m: int, d: int) -> int {
    days_before_year(y) - days_before_year(1970) + days_before_month(y, m) + d - 1
}

/// A real date of the calendar.
pub open spec fn is_calendar_date(y: int, m: int, d: int) -> bool {
    1 <= m <= 12 && 1 <= d <= days_in_month(y, m)
}

/// The day after a real date.
pub open spec fn calendar_successor(y: int, m: int, d: int) -> (int, int, int) {
    if d < days_in_month(y, m) {
        (y, m, d + 1)
    } else if m < 12 {
        (y, m + 1, 1)
    } else {
        (y + 1, 1, 1)
    }
}

/// The real date whose day count from the Unix epoch is `z`.
pub open spec fn civil_of(z: int) -> (int, int, int) {
    choose|y: int, m: int, d: int| is_calendar_date(y, m, d) && day_number(y, m, d) == z
}

/// The date `z` days after the Unix epoch as a review date, its year reduced
/// modulo 2^16.
pub open spec fn date_of_day(z: int) -> ReviewDate {
    let (y, m, d) = civil_of(z);
    ReviewDate { year: y as u16, month: m as u8, day: d as u8 }
}

/// Lexicographic order on `(year, month, day)`.
pub open spec fn date_lt(a: ReviewDate, b: ReviewDate) -> bool {
    ||| a.year < b.year
    ||| a.year == b.year && a.month < b.month
    ||| a.year == b.year && a.month == b.month && a.day < b.day
}

impl ReviewDate {
    /// The month and day lie in the ranges the fields document.
    pub open spec fn wf(self) -> bool {
        1 <= self.month <= 12 && 1 <= self.day <= 31
    }

    /// This date's day count from the Unix epoch.
    pub open spec fn spec_day_number(self) -> int {
        day_number(self.year as int, self.month as int, self.day as int)
    }
}

pub proof fn lemma_year_step(y: int)
    ensures
        days_before_year(y + 1) == days_before_year(y) + year_length(y),
{
    assert((y + 4) / 4 == (y + 3) / 4 + if y % 4 == 0 { 1int } else { 0int });
    assert((y + 100) / 100 == (y + 99) / 100 + if y % 100 == 0 { 1int } else { 0int });
    assert((y + 400) / 400 == (y + 399) / 400 + if y % 400 == 0 { 1int } else { 0int });
}

proof fn lemma_era_step(y: int, k: int)
    ensures
        days_before_year(y + 400 * k) == days_before_year(y) + 146097 * k,
{
    lemma_div_shift(y + 3, 100 * k, 4);
    lemma_div_shift(y + 99, 4 * k, 100);
    lemma_div_shift(y + 399, k, 400);
    assert(4 * (100 * k) == 400 * k) by (nonlinear_arith);
    assert(100 * (4 * k) == 400 * k) by (nonlinear_arith);
    assert(365 * (400 * k) == 146000 * k) by (nonlinear_arith);
}

proof fn lemma_div_shift(a: int, k: int, d: int)
    requires
        d > 0,
    ensures
        (a + d * k) / d == a / d + k,
{
    vstd::arithmetic::div_mod::lemma_fundamental_div_mod(a, d);
    let q = a / d;
    let r = a % d;
    vstd::arithmetic::mul::lemma_mul_is_distributive_add(d, q, k);
    vstd::arithmetic::div_mod::lemma_div_multiples_vanish_fancy(q + k, r, d);
    assert(a + d * k == d * (q + k) + r);
}

proof fn lemma_month_sum(y: int, m: int)
    requires
        1 <= m <= 12,
    ensures
        days_before_month(y, m) + days_in_month(y, m) == if m == 12 {
            year_length(y)
        } else {
            days_before_month(y, m + 1)
        },
{
}

// ---------------------------------------------------------------------------
// Day arithmetic
// ---------------------------------------------------------------------------

fn is_leap_year(y: i64) -> (r: bool)
    ensures
        r == is_leap(y as int),
{
    y % 4 == 0 && (y % 100 != 0 || y % 400 == 0)
}

fn year_days(y: i64) -> (r: i64)
    ensures
        r == year_length(y as int),
{
    if is_leap_year(y) {
        366
    } else {
        365
    }
}

fn month_length(y: i64, m: u32) -> (r: i64)
    ensures
        r == days_in_month(y as int, m as int),
{
    if m == 2 {
        if is_leap_year(y) {
            29
        } else {
            28
        }
    } else if m == 4 || m == 6 || m == 9 || m == 11 {
        30
    } else {
        31
    }
}

/// Floor division and its non-negative remainder, for a positive divisor.
fn floor_div_mod(a: i64, d: i64) -> (r: (i64, i64))
    requires
        d > 0,
    ensures
        r.0 == a as int / d as int,
        r.1 == a as int % d as int,
{
    if a >= 0 {
        (a / d, a % d)
    } else {
        let b: i64 = -(a + 1);
        let q: i64 = b / d;
        let m: i64 = b % d;
        proof {
            vstd::arithmetic::div_mod::lemma_fundamental_div_mod(b as int, d as int);
            vstd::arithmetic::mul::lemma_mul_is_distributive_add(d as int, q as int, 1);
            vstd::arithmetic::div_mod::lemma_div_multiples_vanish_fancy(-q - 1, d - 1 - m, d as int);
            assert(a == d * (-q - 1) + (d - 1 - m)) by (nonlinear_arith)
                requires
                    b == d * q + m,
                    a == -(b + 1),
            ;
            vstd::arithmetic::div_mod::lemma_fundamental_div_mod(a as int, d as int);
        }
        (-q - 1, d - 1 - m)
    }
}

/// `(year, month, day)` to days since the Unix epoch.
pub(crate) fn days_from_civil(y: i64, m: u32, d: u32) -> (r: i64)
    requires
        -1_000_000_000_000 <= y <= 1_000_000_000_000,
        1 <= m <= 12,
    ensures
        r == day_number(y as int, m as int, d as int),
{
    let leap = is_leap_year(y);
    let common: i64 = if m <= 1 {
        0
    } else if m == 2 {
        31
    } else if m == 3 {
        59
    } else if m == 4 {
        90
    } else if m == 5 {
        120
    } else if m == 6 {
        151
    } else if m == 7 {
        181
    } else if m == 8 {
        212
    } else if m == 9 {
        243
    } else if m == 10 {
        273
    } else if m == 11 {
        304
    } else {
        334
    };
    let before_month: i64 = if m > 2 && leap {
        common + 1
    } else {
        common
    };
    let (q4, _) = floor_div_mod(y + 3, 4);
    let (q100, _) = floor_div_mod(y + 99, 100);
    let (q400, _) = floor_div_mod(y + 399, 400);
    let before_year: i64 = 365 * y + q4 - q100 + q400;
    // days_before_year(1970) == 719528
    before_year - 719528 + before_month + d as i64 - 1
}

/// Days since the Unix epoch to `(year, month, day)`: the unique calendar date
/// with that day count.
pub(crate) fn civil_from_days(z: i64) -> (r: (i64, u32, u32))
    ensures
        is_calendar_date(r.0 as int, r.1 as int, r.2 as int),
        day_number(r.0 as int, r.1 as int, r.2 as int) == z,
        (r.0 as int, r.1 as int, r.2 as int) == civil_of(z as int),
        -30_000_000_000_000_000 <= r.0 <= 30_000_000_000_000_000,
{
    // Jump whole 400-year eras first: every era holds exactly 146097 days.
    let (eras, r0) = floor_div_mod(z, 146097);
    let mut rem: i64 = r0;
    let mut y: i64 = 1970 + 400 * eras;
    proof {
        lemma_era_step(1970, eras as int);
        assert(z == 146097 * eras + rem);
    }
    let ghost start = y;
    // Then whole years, at most 400 of them.
    while rem >= year_days(y)
        invariant
            0 <= rem < 146097,
            start <= y <= start + 400,
            -30_000_000_000_000_000 + 400 <= start <= 30_000_000_000_000_000 - 800,
            days_before_year(y as int) - days_before_year(1970) + rem == z,
            days_before_year(start + 400) - days_before_year(y as int) > rem,
        decreases rem,
    {
        proof {
            lemma_year_step(y as int);
        }
        rem = rem - year_days(y);
        y = y + 1;
    }
    let mut m: u32 = 1;
    while rem >= month_length(y, m)
        invariant
            1 <= m <= 12,
            0 <= rem,
            days_before_month(y as int, m as int) + rem < year_length(y as int),
            days_before_year(y as int) - days_before_year(1970) + days_before_month(y as int, m as int)
                + rem == z,
        decreases 12 - m,
    {
        proof {
            lemma_month_sum(y as int, m as int);
        }
        rem = rem - month_length(y, m);
        m = m + 1;
    }
    proof {
        let d = rem + 1;
        assert(is_calendar_date(y as int, m as int, d as int));
        let (cy, cm, cd) = civil_of(z as int);
        lemma_day_number_injective(y as int, m as int, d as int, cy, cm, cd);
    }
    (y, m, (rem + 1) as u32)
}

/// Day counts and calendar dates correspond one to one: the date of a real
/// date's day count is that date.
pub proof fn lemma_civil_round_trip(y: int, m: int, d: int)
    requires
        is_calendar_date(y, m, d),
    ensures
        civil_of(day_number(y, m, d)) == (y, m, d),
{
    let z = day_number(y, m, d);
    assert(exists|a: int, b: int, c: int| is_calendar_date(a, b, c) && day_number(a, b, c) == z) by {
        assert(is_calendar_date(y, m, d) && day_number(y, m, d) == z);
    }
    let (a, b, c) = civil_of(z);
    lemma_day_number_injective(a, b, c, y, m, d);
}

proof fn lemma_before_year_monotone(a: int, b: int)
    requires
        a <= b,
    ensures
        days_before_year(a) + 365 * (b - a) <= days_before_year(b),
    decreases b - a,
{
    if a < b {
        lemma_year_step(b - 1);
        lemma_before_year_monotone(a, b - 1);
    }
}

proof fn lemma_day_in_year(y: int, m: int, d: int)
    requires
        is_calendar_date(y, m, d),
    ensures
        0 <= days_before_month(y, m) + d - 1 < year_length(y),
{
}

/// Two real dates with the same day count are the same date.
pub proof fn lemma_day_number_injective(y1: int, m1: int, d1: int, y2: int, m2: int, d2: int)
    requires
        is_calendar_date(y1, m1, d1),
        is_calendar_date(y2, m2, d2),
        day_number(y1, m1, d1) == day_number(y2, m2, d2),
    ensures
        y1 == y2 && m1 == m2 && d1 == d2,
{
    lemma_day_in_year(y1, m1, d1);
    lemma_day_in_year(y2, m2, d2);
    if y1 < y2 {
        lemma_year_step(y1);
        lemma_before_year_monotone(y1 + 1, y2);
    } else if y2 < y1 {
        lemma_year_step(y2);
        lemma_before_year_monotone(y2 + 1, y1);
    } else {
        if m1 < m2 {
            lemma_month_monotone(y1, m1 + 1, m2);
            lemma_month_sum(y1, m1);
        } else if m2 < m1 {
            lemma_month_monotone(y1, m2 + 1, m1);
            lemma_month_sum(y1, m2);
        }
    }
}

/// The day after a real date is its calendar successor, one day count later,
/// and it sorts after it (for years below `u16::MAX`, whose successor still
/// fits the year field).
pub proof fn lemma_next_day_succeeds(d: ReviewDate)
    requires
        is_calendar_date(d.year as int, d.month as int, d.day as int),
        d.year < u16::MAX,
    ensures
        ({
            let (y, m, dd) = calendar_successor(d.year as int, d.month as int, d.day as int);
            &&& is_calendar_date(y, m, dd)
            &&& day_number(y, m, dd) == d.spec_day_number() + 1
            &&& date_of_day(d.spec_day_number() + 1) == (ReviewDate { year: y as u16, month: m as u8, day: dd as u8 })
        }),
        date_lt(d, date_of_day(d.spec_day_number() + 1)),
{
    let (y0, m0, d0) = (d.year as int, d.month as int, d.day as int);
    let (y, m, dd) = calendar_successor(y0, m0, d0);
    lemma_month_sum(y0, m0);
    lemma_year_step(y0);
    assert(is_calendar_date(y, m, dd));
    assert(day_number(y, m, dd) == day_number(y0, m0, d0) + 1);
    let z = d.spec_day_number() + 1;
    assert(exists|a: int, b: int, c: int| is_calendar_date(a, b, c) && day_number(a, b, c) == z) by {
        assert(is_calendar_date(y, m, dd) && day_number(y, m, dd) == z);
    }
    let (a, b, c) = civil_of(z);
    lemma_day_number_injective(a, b, c, y, m, dd);
}

/// The text of a date reads back as the same date.
pub proof fn lemma_date_text_round_trip(d: ReviewDate)
    requires
        d.wf(),
        d.year <= 9999,
    ensures
        spec_try_parse_date(date_text(d)) == Some(d),
{
    let t = date_text(d);
    lemma_zero_padded_digits(d.year as nat, 4);
    lemma_zero_padded_digits(d.month as nat, 2);
    lemma_zero_padded_digits(d.day as nat, 2);
    let yt = zero_padded(d.year as nat, 4);
    let mt = zero_padded(d.month as nat, 2);
    let dt = zero_padded(d.day as nat, 2);
    assert(t.subrange(0, 4) =~= yt);
    assert(t.subrange(5, 7) =~= mt);
    assert(t.subrange(8, 10) =~= dt);
    assert forall|i: int| 0 <= i < 10 && i != 4 && i != 7 implies is_digit(#[trigger] t[i]) by {
        if i < 4 {
            assert(t[i] == yt[i]);
        } else if i < 7 {
            assert(t[i] == mt[i - 5]);
        } else {
            assert(t[i] == dt[i - 8]);
        }
    }
}

/// A string that parses as a date is that date's text: writing the parsed
/// date out gives back the string read.
pub proof fn lemma_date_parse_round_trip(s: Seq<char>)
    requires
        spec_try_parse_date(s) is Some,
    ensures
        date_text(spec_try_parse_date(s).unwrap()) == s,
{
    let d = date_fields(s);
    let ys = s.subrange(0, 4);
    let ms = s.subrange(5, 7);
    let ds = s.subrange(8, 10);
    assert(all_digits(ys)) by {
        assert forall|i: int| 0 <= i < 4 implies is_digit(#[trigger] ys[i]) by {
            assert(ys[i] == s[i]);
        }
    }
    assert(all_digits(ms)) by {
        assert forall|i: int| 0 <= i < 2 implies is_digit(#[trigger] ms[i]) by {
            assert(ms[i] == s[i + 5]);
        }
    }
    assert(all_digits(ds)) by {
        assert forall|i: int| 0 <= i < 2 implies is_digit(#[trigger] ds[i]) by {
            assert(ds[i] == s[i + 8]);
        }
    }
    lemma_decimal_value_below(ys);
    lemma_decimal_value_below(ms);
    lemma_decimal_value_below(ds);
    assert(ten_to(4) == 10000 && ten_to(2) == 100) by {
        reveal_with_fuel(ten_to, 5);
    }
    assert(d.year as int == decimal_value(ys));
    assert(d.month as int == decimal_value(ms));
    assert(d.day as int == decimal_value(ds));
    lemma_zero_padded_digits(d.year as nat, 4);
    lemma_zero_padded_digits(d.month as nat, 2);
    lemma_zero_padded_digits(d.day as nat, 2);
    lemma_decimal_value_injective(zero_padded(d.year as nat, 4), ys);
    lemma_decimal_value_injective(zero_padded(d.month as nat, 2), ms);
    lemma_decimal_value_injective(zero_padded(d.day as nat, 2), ds);
    let t = date_text(d);
    assert forall|i: int| 0 <= i < 10 implies t[i] == s[i] by {
        if i < 4 {
            assert(t[i] == ys[i]);
        } else if i == 4 {
        } else if i < 7 {
            assert(t[i] == ms[i - 5]);
        } else if i == 7 {
        } else {
            assert(t[i] == ds[i - 8]);
        }
    }
    assert(t =~= s);
}

proof fn lemma_month_monotone(y: int, a: int, b: int)
    requires
        1 <= a <= b <= 12,
    ensures
        days_before_month(y, a) <= days_before_month(y, b),
{
}

// ---------------------------------------------------------------------------
// Parsing and rendering
// ---------------------------------------------------------------------------

/// `YYYY-MM-DD`: ten characters, dashes at positions 4 and 7, digits elsewhere.
pub open spec fn date_shape(s: Seq<char>) -> bool {
    &&& s.len() == 10
    &&& s[4] == '-'
    &&& s[7] == '-'
    &&& forall|i: int| 0 <= i < 10 && i != 4 && i != 7 ==> is_digit(#[trigger] s[i])
}

/// The date a well-shaped string spells, before its month and day are checked.
pub open spec fn date_fields(s: Seq<char>) -> ReviewDate {
    ReviewDate {
        year: decimal_value(s.subrange(0, 4)) as u16,
        month: decimal_value(s.subrange(5, 7)) as u8,
        day: decimal_value(s.subrange(8, 10)) as u8,
    }
}

/// What [`ReviewDate::try_parse`] gives for `s`.
pub open spec fn spec_try_parse_date(s: Seq<char>) -> Option<ReviewDate> {
    if date_shape(s) && date_fields(s).wf() {
        Some(date_fields(s))
    } else {
        None
    }
}

/// The spelling `YYYY-MM-DD`, zero-padded.
pub open spec fn date_text(d: ReviewDate) -> Seq<char> {
    zero_padded(d.year as nat, 4) + seq!['-'] + zero_padded(d.month as nat, 2) + seq!['-']
        + zero_padded(d.day as nat, 2)
}

fn digit_at(s: &str, i: usize) -> (r: u32)
    requires
        i < s@.len(),
        is_digit(s@[i as int]),
    ensures
        r == digit_value(s@[i as int]),
        r <= 9,
{
    (s.get_char(i) as u32) - 48
}

fn two_digits(s: &str, i: usize) -> (r: u32)
    requires
        i <= 8,
        i + 1 < s@.len(),
        is_digit(s@[i as int]),
        is_digit(s@[i + 1]),
    ensures
        r == decimal_value(s@.subrange(i as int, i + 2)),
        r <= 99,
{
    let a = digit_at(s, i);
    let b = digit_at(s, i + 1);
    proof {
        let t = s@.subrange(i as int, i + 2);
        assert(t.drop_last().drop_last() =~= Seq::<char>::empty());
        reveal_with_fuel(decimal_value, 3);
    }
    a * 10 + b
}

fn four_digits(s: &str) -> (r: u32)
    requires
        4 <= s@.len(),
        forall|k: int| 0 <= k < 4 ==> is_digit(#[trigger] s@[k]),
    ensures
        r == decimal_value(s@.subrange(0, 4)),
        r <= 9999,
{
    let a = two_digits(s, 0);
    let c = digit_at(s, 2);
    let d = digit_at(s, 3);
    proof {
        let t = s@.subrange(0, 4);
        assert(t.drop_last().drop_last() =~= s@.subrange(0, 2));
        assert(t.drop_last().last() == s@[2]);
        reveal_with_fuel(decimal_value, 3);
    }
    (a * 10 + c) * 10 + d
}

/// Checks the shape `YYYY-MM-DD` character by character.
fn has_date_shape(s: &str) -> (r: bool)
    ensures
        r == date_shape(s@),
{
    if s.unicode_len() != 10 {
        return false;
    }
    let mut i: usize = 0;
    while i < 10
        invariant
            s@.len() == 10,
            i <= 10,
            forall|j: int|
                0 <= j < i ==> if j == 4 || j == 7 {
                    s@[j] == '-'
                } else {
                    is_digit(#[trigger] s@[j])
                },
        decreases 10 - i,
    {
        let c = s.get_char(i);
        if i == 4 || i == 7 {
            if c != '-' {
                return false;
            }
        } else if !('0' <= c && c <= '9') {
            return false;
        }
        i += 1;
    }
    assert(s@[4] == '-');
    assert(s@[7] == '-');
    true
}

fn parsed_fields(s: &str) -> (r: (u32, u32, u32))
    requires
        date_shape(s@),
    ensures
        r.0 == date_fields(s@).year,
        r.1 == date_fields(s@).month,
        r.2 == date_fields(s@).day,
        r.0 <= 9999 && r.1 <= 99 && r.2 <= 99,
{
    assert(is_digit(s@[0]) && is_digit(s@[1]) && is_digit(s@[2]) && is_digit(s@[3]));
    assert(is_digit(s@[5]) && is_digit(s@[6]) && is_digit(s@[8]) && is_digit(s@[9]));
    (four_digits(s), two_digits(s, 5), two_digits(s, 8))
}

/// An RFC-3339 UTC timestamp, `YYYY-MM-DDTHH:MM:SSZ`, for a moment given as
/// seconds since the Unix epoch.
pub open spec fn timestamp_text(y: int, m: int, d: int, tod: int) -> Seq<char> {
    signed_padded(y, 4) + seq!['-'] + zero_padded(m as nat, 2) + seq!['-'] + zero_padded(d as nat, 2)
        + seq!['T'] + zero_padded((tod / 3600) as nat, 2) + seq![':'] + zero_padded(
        ((tod % 3600) / 60) as nat,
        2,
    ) + seq![':'] + zero_padded((tod % 60) as nat, 2) + seq!['Z']
}

/// `n` zero-padded to `width` characters, a minus sign counting as one of them.
pub open spec fn signed_padded(n: int, width: nat) -> Seq<char> {
    if n < 0 {
        seq!['-'] + zero_padded((-n) as nat, (width - 1) as nat)
    } else {
        zero_padded(n as nat, width)
    }
}

fn push_signed_padded(s: &mut String, n: i64, width: usize)
    requires
        n > i64::MIN,
        width >= 1,
    ensures
        final(s)@ == old(s)@ + signed_padded(n as int, width as nat),
{
    if n < 0 {
        push_char(s, '-');
        push_padded(s, (-n) as u64, width - 1);
    } else {
        push_padded(s, n as u64, width);
    }
    assert(final(s)@ =~= old(s)@ + signed_padded(n as int, width as nat));
}

/// `SystemTime::elapsed` on `UNIX_EPOCH`: whole seconds since the Unix epoch
/// by the system clock, 0 when the clock reads earlier than the epoch. The
/// clock decides the value, so nothing is stated of it.
#[verifier::external_body]
pub(crate) fn unix_secs() -> i64 {
    std::time::UNIX_EPOCH.elapsed().map(|d| d.as_secs()).unwrap_or(0) as i64
}

/// The UTC timestamp of the moment `secs` seconds after the Unix epoch.
pub open spec fn spec_timestamp(secs: int) -> Seq<char> {
    let (y, m, d) = civil_of(secs / 86400);
    timestamp_text(y, m, d, secs % 86400)
}

/// The UTC timestamp of the moment `secs` seconds after the Unix epoch.
pub fn iso_timestamp(secs: i64) -> (t: String)
    ensures
        t@ == spec_timestamp(secs as int),
{
    let (days, tod) = floor_div_mod(secs, 86_400);
    let (y, m, d) = civil_from_days(days);
    let mut t = String::new();
    push_signed_padded(&mut t, y, 4);
    push_char(&mut t, '-');
    push_padded(&mut t, m as u64, 2);
    push_char(&mut t, '-');
    push_padded(&mut t, d as u64, 2);
    push_char(&mut t, 'T');
    push_padded(&mut t, (tod / 3600) as u64, 2);
    push_char(&mut t, ':');
    push_padded(&mut t, ((tod % 3600) / 60) as u64, 2);
    push_char(&mut t, ':');
    push_padded(&mut t, (tod % 60) as u64, 2);
    push_char(&mut t, 'Z');
    assert(t@ =~= timestamp_text(y as int, m as int, d as int, secs as int % 86400));
    t
}

/// Whether `t` is the UTC timestamp of some moment.
pub open spec fn is_timestamp(t: Seq<char>) -> bool {
    exists|secs: i64| #[trigger] spec_timestamp(secs as int) == t
}

/// An RFC-3339 UTC timestamp for the current moment (used for `generated`).
///
/// The moment is read from the system clock, so nothing fixes which one.
pub fn now_iso() -> (t: String)
    ensures
        is_timestamp(t@),
{
    let secs = unix_secs();
    let t = iso_timestamp(secs);
    assert(spec_timestamp(secs as int) == t@);
    t
}

impl ReviewDate {
    /// Parse `YYYY-MM-DD`.
    ///
    /// The input must have the shape `YYYY-MM-DD` (digits, with dashes at
    /// positions 4 and 7), a month in `1..=12` and a day in `1..=31`.
    pub fn parse(s: &str) -> (d: ReviewDate)
        requires
            spec_try_parse_date(s@) is Some,
        ensures
            Some(d) == spec_try_parse_date(s@),
    {
        let (y, m, d) = parsed_fields(s);
        ReviewDate { year: y as u16, month: m as u8, day: d as u8 }
    }

    /// Fallible runtime parse.
    pub fn try_parse(s: &str) -> (d: Option<ReviewDate>)
        ensures
            d == spec_try_parse_date(s@),
    {
        if !has_date_shape(s) {
            return None;
        }
        let (y, m, d) = parsed_fields(s);
        if !(1 <= m && m <= 12) || !(1 <= d && d <= 31) {
            return None;
        }
        Some(ReviewDate { year: y as u16, month: m as u8, day: d as u8 })
    }

    /// The following day. Used to allow one day of slack when comparing a
    /// hand-written local date against a UTC clock.
    ///
    /// The result is the real date whose day count is one more than this
    /// date's, its year reduced modulo 2^16.
    pub fn next_day(self) -> (n: ReviewDate)
        requires
            self.wf(),
        ensures
            n == date_of_day(self.spec_day_number() + 1),
    {
        let days = days_from_civil(self.year as i64, self.month as u32, self.day as u32) + 1;
        let (y, m, d) = civil_from_days(days);
        ReviewDate { year: y as u16, month: m as u8, day: d as u8 }
    }

    /// The date `secs` seconds after the Unix epoch, in UTC, its year reduced
    /// modulo 2^16.
    ///
    /// The month and day are always in range, and the date is a real
    /// calendar date whenever the year fits the year field unreduced.
    pub fn from_unix_secs(secs: i64) -> (d: ReviewDate)
        ensures
            d == date_of_day(secs as int / 86400),
            d.wf(),
            civil_of(secs as int / 86400).0 == d.year as int ==> is_calendar_date(
                d.year as int,
                d.month as int,
                d.day as int,
            ),
    {
        let (days, _) = floor_div_mod(secs, 86_400);
        let (y, m, d) = civil_from_days(days);
        assert(days_in_month(y as int, m as int) <= 31);
        ReviewDate { year: y as u16, month: m as u8, day: d as u8 }
    }

    /// Today in UTC, from the system clock. Used to reject future review dates.
    ///
    /// The clock is read, so nothing fixes which day it is: the result is the
    /// date of some moment. Its month and day are always in range, and it is
    /// a real calendar date whenever that moment's year fits the year field.
    pub fn today() -> (d: ReviewDate)
        ensures
            d.wf(),
            exists|secs: i64|
                #![trigger date_of_day(secs as int / 86400)]
                date_of_day(secs as int / 86400) == d && (civil_of(secs as int / 86400).0 == d.year as int
                    ==> is_calendar_date(d.year as int, d.month as int, d.day as int)),
    {
        let secs = unix_secs();
        let d = ReviewDate::from_unix_secs(secs);
        assert(date_of_day(secs as int / 86400) == d);
        d
    }

    /// The spelling `YYYY-MM-DD`, zero-padded.
    pub fn to_string(&self) -> (t: String)
        ensures
            t@ == date_text(*self),
    {
        let mut t = String::new();
        push_padded(&mut t, self.year as u64, 4);
        push_char(&mut t, '-');
        push_padded(&mut t, self.month as u64, 2);
        push_char(&mut t, '-');
        push_padded(&mut t, self.day as u64, 2);
        t
    }

    /// Whether `self` is an earlier date than `other`.
    pub fn is_before(&self, other: &ReviewDate) -> (r: bool)
        ensures
            r == date_lt(*self, *other),
    {
        self.year < other.year || (self.year == other.year && (self.month < other.month || (
        self.month == other.month && self.day < other.day)))
    }
}

} // verus!
