//! Proleptic Gregorian calendar dates and their day serials.

use vstd::arithmetic::div_mod::*;
use vstd::prelude::*;
use vstd::string::StringSliceAdditionalSpecFns;

use crate::text::{append_int, digits_value, int_text, lemma_padded_value, pow10};
use vstd::string::is_ascii;
use crate::Error;

verus! {

pub open spec fn is_leap(y: int) -> bool {
    (y % 4 == 0 && y % 100 != 0) || y % 400 == 0
}

/// Days in month `m` of year `y`; any month number outside 1..=12 other than
/// the 31- and 30-day months counts as February.
pub open spec fn month_len(y: int, m: int) -> int {
    if m == 1 || m == 3 || m == 5 || m == 7 || m == 8 || m == 10 || m == 12 {
        31
    } else if m == 4 || m == 6 || m == 9 || m == 11 {
        30
    } else if is_leap(y) {
        29
    } else {
        28
    }
}

/// Days in the months of year `y` before month `m` (1..=12).
pub open spec fn days_before_month(y: int, m: int) -> int {
    let leap: int = if is_leap(y) {
        1
    } else {
        0
    };
    if m <= 1 {
        0
    } else if m == 2 {
        31
    } else if m == 3 {
        59 + leap
    } else if m == 4 {
        90 + leap
    } else if m == 5 {
        120 + leap
    } else if m == 6 {
        151 + leap
    } else if m == 7 {
        181 + leap
    } else if m == 8 {
        212 + leap
    } else if m == 9 {
        243 + leap
    } else if m == 10 {
        273 + leap
    } else if m == 11 {
        304 + leap
    } else {
        334 + leap
    }
}

/// Days from 0001-01-01 to January 1 of year `y`.
pub open spec fn days_before_year(y: int) -> int {
    365 * (y - 1) + (y - 1) / 4 - (y - 1) / 100 + (y - 1) / 400
}

/// Days since 1970-01-01 of the date `y-m-d`.
#[verifier::opaque]
pub open spec fn civil(y: int, m: int, d: int) -> int {
    days_before_year(y) + days_before_month(y, m) + d - 719163
}

pub open spec fn valid_ymd(y: int, m: int, d: int) -> bool {
    1 <= m <= 12 && 1 <= d <= month_len(y, m)
}

/// The serial of 0001-01-01.
pub open spec fn min_serial() -> int {
    -719162
}

/// The serial of 9999-12-31.
pub open spec fn max_serial() -> int {
    2932896
}

/// What `format!("{year:04}-{month:02}-{day:02}")` prints.
pub open spec fn date_text(y: int, m: int, d: int) -> Seq<char> {
    int_text(y, 4) + seq!['-'] + int_text(m, 2) + seq!['-'] + int_text(d, 2)
}

/// What `Date::new(y, m, d)` gives: the date when it is valid and the year
/// is in 1..=9999, else `InvalidDate` with the date's text.
pub open spec fn new_result(y: int, m: int, d: int, r: Result<Date, Error>) -> bool {
    if 1 <= y <= 9999 && valid_ymd(y, m, d) {
        r matches Ok(x) && x.year() == y && x.month() == m && x.day() == d
    } else {
        r matches Err(Error::InvalidDate(s)) && s@ == date_text(y, m, d)
    }
}

/// What `Date::from_serial(s)` gives: the date with serial `s` when it lies
/// in years 1..=9999, else `InvalidDate` naming the serial.
pub open spec fn from_serial_result(s: int, r: Result<Date, Error>) -> bool {
    if min_serial() <= s <= max_serial() {
        r matches Ok(x) && x.spec_serial() == s && 1 <= x.year() <= 9999 && x.valid()
    } else {
        r matches Err(Error::InvalidDate(m)) && m@ == "serial "@ + int_text(s, 0)
    }
}

pub open spec fn is_ascii_digit(b: u8) -> bool {
    48 <= b <= 57
}

/// The text is `YYYY-MM-DD` in shape: ten bytes, dashes at offsets 4 and 7,
/// ASCII digits elsewhere.
pub open spec fn date_text_shape(b: Seq<u8>) -> bool {
    &&& b.len() == 10
    &&& b[4] == 45
    &&& b[7] == 45
    &&& forall|i: int| 0 <= i < 10 && i != 4 && i != 7 ==> is_ascii_digit(#[trigger] b[i])
}

/// The decimal number written by the digits `b[from..to]`.
pub open spec fn decimal_value(b: Seq<u8>, from: int, to: int) -> int
    decreases to - from,
{
    if to <= from {
        0
    } else {
        decimal_value(b, from, to - 1) * 10 + (b[to - 1] - 48)
    }
}

/// What `Date::parse(s)` gives: text of the shape `YYYY-MM-DD` is read as
/// year, month and day and checked as `Date::new` does; any other text is an
/// `InvalidDate` quoting it.
pub open spec fn parse_result(s: &str, r: Result<Date, Error>) -> bool {
    if date_text_shape(s.spec_bytes()) {
        new_result(
            decimal_value(s.spec_bytes(), 0, 4),
            decimal_value(s.spec_bytes(), 5, 7),
            decimal_value(s.spec_bytes(), 8, 10),
            r,
        )
    } else {
        r matches Err(Error::InvalidDate(m)) && m@ == s@
    }
}

/// Days from the start of a 400-year cycle to the start of its year `k`.
pub open spec fn cycle_days_before(k: int) -> int {
    365 * k + k / 4 - k / 100 + k / 400
}

proof fn lemma_cycle(e: int, k: int)
    ensures
        days_before_year(400 * e + 1 + k) == 146097 * e + cycle_days_before(k),
{
    lemma_hoist_over_denominator(k, 100 * e, 4);
    lemma_hoist_over_denominator(k, 4 * e, 100);
    lemma_hoist_over_denominator(k, e, 400);
}

/// Stepping from `y - 1` to `y` crosses a multiple of `d` exactly when `d`
/// divides `y`.
proof fn lemma_div_step(y: int, d: int)
    requires
        d > 0,
    ensures
        y / d - (y - 1) / d == (if y % d == 0 {
            1int
        } else {
            0
        }),
{
    lemma_fundamental_div_mod(y, d);
    lemma_fundamental_div_mod(y - 1, d);
    lemma_mod_bound(y, d);
    lemma_mod_bound(y - 1, d);
    let q = y / d;
    assert((q - 1) * d == d * q - d && q * d == d * q) by (nonlinear_arith);
    if y % d == 0 {
        lemma_fundamental_div_mod_converse(y - 1, d, q - 1, d - 1);
    } else {
        lemma_fundamental_div_mod_converse(y - 1, d, q, y % d - 1);
    }
}

/// Whole years add 365 days, plus one for a leap year.
pub proof fn lemma_year_length(y: int)
    ensures
        days_before_year(y + 1) == days_before_year(y) + 365 + (if is_leap(y) {
            1int
        } else {
            0
        }),
{
    lemma_div_step(y, 4);
    lemma_div_step(y, 100);
    lemma_div_step(y, 400);
}

/// Serials of valid dates follow calendar order.
pub proof fn lemma_civil_order(y1: int, m1: int, d1: int, y2: int, m2: int, d2: int)
    requires
        valid_ymd(y1, m1, d1),
        valid_ymd(y2, m2, d2),
    ensures
        (y1 < y2 || (y1 == y2 && m1 < m2) || (y1 == y2 && m1 == m2 && d1 < d2)) ==> civil(
            y1,
            m1,
            d1,
        ) < civil(y2, m2, d2),
        (y1 == y2 && m1 == m2 && d1 == d2) <==> civil(y1, m1, d1) == civil(y2, m2, d2),
{
    reveal(civil);
    lemma_civil_in_year(y1, m1, d1);
    lemma_civil_in_year(y2, m2, d2);
    if y1 < y2 {
        lemma_days_before_year_increasing(y1 + 1, y2);
    } else if y2 < y1 {
        lemma_days_before_year_increasing(y2 + 1, y1);
    }
}

/// A valid date lies within its year's range of serials, in month order.
proof fn lemma_civil_in_year(y: int, m: int, d: int)
    requires
        valid_ymd(y, m, d),
    ensures
        days_before_year(y) - 719163 < civil(y, m, d) < days_before_year(y + 1) - 719163 + 1,
        civil(y, m, d) <= days_before_year(y + 1) - 719163,
        forall|m2: int, d2: int|
            #![trigger civil(y, m2, d2)]
            valid_ymd(y, m2, d2) && m < m2 ==> civil(y, m, d) < civil(y, m2, d2),
{
    reveal(civil);
    lemma_year_length(y);
}

pub proof fn lemma_days_before_year_increasing(a: int, b: int)
    requires
        a <= b,
    ensures
        days_before_year(a) <= days_before_year(b),
        days_before_year(b) - days_before_year(a) >= 365 * (b - a),
    decreases b - a,
{
    if a < b {
        lemma_days_before_year_increasing(a, b - 1);
        lemma_year_length(b - 1);
    }
}

/// A proleptic Gregorian calendar date. Dates built from user input lie in
/// years 1 to 9999; roll dates of a schedule may fall just outside.
#[derive(Clone, Copy, PartialEq, Eq, Structural, PartialOrd, Ord, Hash, Debug)]
pub struct Date {
    year: i32,
    month: u8,
    day: u8,
}

pub fn is_leap_year(year: i32) -> (r: bool)
    ensures
        r == is_leap(year as int),
{
    (year % 4 == 0 && year % 100 != 0) || year % 400 == 0
}

pub fn days_in_month(year: i32, month: u8) -> (r: u8)
    ensures
        r == month_len(year as int, month as int),
{
    match month {
        1 | 3 | 5 | 7 | 8 | 10 | 12 => 31,
        4 | 6 | 9 | 11 => 30,
        _ => if is_leap_year(year) {
            29
        } else {
            28
        },
    }
}

fn days_before_month_exec(year: i32, month: u8) -> (r: i64)
    requires
        1 <= month <= 12,
    ensures
        r == days_before_month(year as int, month as int),
{
    let base: i64 = match month {
        1 => 0,
        2 => 31,
        3 => 59,
        4 => 90,
        5 => 120,
        6 => 151,
        7 => 181,
        8 => 212,
        9 => 243,
        10 => 273,
        11 => 304,
        _ => 334,
    };
    if month > 2 && is_leap_year(year) {
        base + 1
    } else {
        base
    }
}

/// `days_before_year(year)`, computed on a shifted non-negative year so that
/// every division is of a non-negative number.
fn days_before_year_exec(year: i64) -> (r: i64)
    requires
        i32::MIN <= year <= i32::MAX as int + 1,
    ensures
        r == days_before_year(year as int),
{
    let x: i64 = year - 1;
    let shifted: u64 = (x + 2_147_484_000) as u64;
    let q4: i64 = (shifted / 4) as i64;
    let q100: i64 = (shifted / 100) as i64;
    let q400: i64 = (shifted / 400) as i64;
    proof {
        lemma_hoist_over_denominator(x as int, 536_871_000, 4);
        lemma_hoist_over_denominator(x as int, 21_474_840, 100);
        lemma_hoist_over_denominator(x as int, 5_368_710, 400);
    }
    365 * x + (q4 - 536_871_000) - (q100 - 21_474_840) + (q400 - 5_368_710)
}

impl Date {
    #[verifier::type_invariant]
    spec fn is_valid(self) -> bool {
        valid_ymd(self.year as int, self.month as int, self.day as int)
    }

    pub closed spec fn spec_year(self) -> i32 {
        self.year
    }

    pub closed spec fn spec_month(self) -> u8 {
        self.month
    }

    pub closed spec fn spec_day(self) -> u8 {
        self.day
    }

    /// The calendar fields form a real date.
    pub open spec fn valid(self) -> bool {
        valid_ymd(self.year() as int, self.month() as int, self.day() as int)
    }

    /// Days since 1970-01-01.
    pub open spec fn spec_serial(self) -> int {
        civil(self.year() as int, self.month() as int, self.day() as int)
    }

    /// Months since January of year 0.
    pub open spec fn spec_month_index(self) -> int {
        self.year() * 12 + self.month() - 1
    }

    /// Valid dates with equal serials are equal.
    pub proof fn lemma_serial_determines(a: Date, b: Date)
        requires
            a.valid(),
            b.valid(),
        ensures
            (a == b) == (a.spec_serial() == b.spec_serial()),
    {
        lemma_civil_order(
            a.year() as int,
            a.month() as int,
            a.day() as int,
            b.year() as int,
            b.month() as int,
            b.day() as int,
        );
    }

    pub fn new(year: i32, month: u8, day: u8) -> (r: Result<Date, Error>)
        ensures
            new_result(year as int, month as int, day as int, r),
    {
        if year < 1 || year > 9999 || month < 1 || month > 12 || day == 0 || day > days_in_month(
            year,
            month,
        ) {
            let mut s = String::new();
            append_int(&mut s, year as i128, 4);
            s.append("-");
            append_int(&mut s, month as i128, 2);
            s.append("-");
            append_int(&mut s, day as i128, 2);
            proof {
                reveal_strlit("-");
                assert(s@ =~= date_text(year as int, month as int, day as int));
            }
            return Err(Error::InvalidDate(s));
        }
        Ok(Date { year, month, day })
    }

    /// Builds a date from a count of months since January of year 0 that may
    /// run into later or earlier years, clamping the day to the month's
    /// length, or taking the month's last day with `end_of_month`.
    pub(crate) fn from_month_index(month_index: i64, day: u8, end_of_month: bool) -> (r: Date)
        requires
            i32::MIN <= month_index / 12 <= i32::MAX,
            day >= 1,
        ensures
            r.year() == month_index / 12,
            r.month() == month_index % 12 + 1,
            r.spec_month_index() == month_index,
            r.day() == (if end_of_month || day > month_len(month_index / 12, month_index % 12 + 1) {
                month_len(month_index / 12, month_index % 12 + 1)
            } else {
                day as int
            }),
    {
        let year: i32 = match month_index.checked_div_euclid(12) {
            Some(q) => q as i32,
            None => 0,
        };
        let month: u8 = match month_index.checked_rem_euclid(12) {
            Some(m) => (m + 1) as u8,
            None => 1,
        };
        proof {
            lemma_fundamental_div_mod(month_index as int, 12);
        }
        let dim = days_in_month(year, month);
        let day = if end_of_month || day > dim {
            dim
        } else {
            day
        };
        Date { year, month, day }
    }

    #[verifier::when_used_as_spec(spec_year)]
    pub fn year(self) -> (y: i32)
        ensures
            y == self.spec_year(),
            self.valid(),
    {
        proof {
            use_type_invariant(&self);
        }
        self.year
    }

    #[verifier::when_used_as_spec(spec_month)]
    pub fn month(self) -> (m: u8)
        ensures
            m == self.spec_month(),
            self.valid(),
    {
        proof {
            use_type_invariant(&self);
        }
        self.month
    }

    #[verifier::when_used_as_spec(spec_day)]
    pub fn day(self) -> (d: u8)
        ensures
            d == self.spec_day(),
            self.valid(),
    {
        proof {
            use_type_invariant(&self);
        }
        self.day
    }

    pub(crate) fn month_index(self) -> (r: i64)
        ensures
            r == self.spec_month_index(),
            self.valid(),
    {
        proof {
            use_type_invariant(&self);
        }
        self.year as i64 * 12 + (self.month as i64 - 1)
    }

    pub fn is_last_day_of_month(self) -> (r: bool)
        ensures
            r == (self.day() == month_len(self.year() as int, self.month() as int)),
    {
        self.day == days_in_month(self.year, self.month)
    }

    pub fn is_last_day_of_february(self) -> (r: bool)
        ensures
            r == (self.month() == 2 && self.day() == month_len(self.year() as int, 2)),
    {
        self.month == 2 && self.is_last_day_of_month()
    }

    /// Days since 1970-01-01.
    pub fn serial(self) -> (s: i64)
        ensures
            s == self.spec_serial(),
            self.valid(),
    {
        proof {
            use_type_invariant(&self);
        }
        let dby = days_before_year_exec(self.year as i64);
        let dbm = days_before_month_exec(self.year, self.month);
        proof {
            lemma_days_before_year_bounds(self.year as int);
            reveal(civil);
        }
        dby + dbm + self.day as i64 - 719163
    }

    pub fn days_until(self, later: Date) -> (r: i64)
        ensures
            r == later.spec_serial() - self.spec_serial(),
            self.valid(),
            later.valid(),
    {
        let a = self.serial();
        let b = later.serial();
        proof {
            lemma_serial_bounds(self);
            lemma_serial_bounds(later);
        }
        b - a
    }
}

impl Date {
    /// Inverse of [`Date::serial`] on years 1..=9999.
    pub fn from_serial(serial: i64) -> (r: Result<Date, Error>)
        ensures
            from_serial_result(serial as int, r),
    {
        if serial < -719162 || serial > 2932896 {
            let mut m = String::from_str("serial ");
            append_int(&mut m, serial as i128, 0);
            return Err(Error::InvalidDate(m));
        }
        let z: i64 = serial + 719162;
        let era: i64 = z / 146097;
        let doe: i64 = z % 146097;
        let mut y: i64 = doe / 366;
        while (y + 1) * 365 + (y + 1) / 4 - (y + 1) / 100 + (y + 1) / 400 <= doe
            invariant
                0 <= y <= 399,
                0 <= doe < 146097,
                cycle_days_before(y as int) <= doe,
            decreases 400 - y,
        {
            y = y + 1;
        }
        let year: i32 = (400 * era + 1 + y) as i32;
        let doy: i64 = doe - (y * 365 + y / 4 - y / 100 + y / 400);
        proof {
            lemma_cycle(era as int, y as int);
            lemma_cycle(era as int, y + 1);
            lemma_year_length(year as int);
            lemma_fundamental_div_mod(z as int, 146097);
            reveal(civil);
        }
        let mut month: u8 = 1;
        while month < 12 && days_before_month_exec(year, month + 1) <= doy
            invariant
                1 <= month <= 12,
                0 <= days_before_month(year as int, month as int) <= doy,
                doy < 365 + (if is_leap(year as int) {
                    1int
                } else {
                    0
                }),
            decreases 12 - month,
        {
            month = month + 1;
        }
        let day: u8 = (doy - days_before_month_exec(year, month) + 1) as u8;
        Ok(Date { year, month, day })
    }

    pub fn add_days(self, days: i64) -> (r: Result<Date, Error>)
        requires
            i64::MIN <= self.spec_serial() + days <= i64::MAX,
        ensures
            from_serial_result(self.spec_serial() + days, r),
    {
        let s = self.serial();
        Date::from_serial(s + days)
    }

    /// `YYYY-MM-DD`.
    pub fn to_string(self) -> (s: String)
        ensures
            s@ == date_text(self.year() as int, self.month() as int, self.day() as int),
    {
        let mut s = String::new();
        append_int(&mut s, self.year as i128, 4);
        s.append("-");
        append_int(&mut s, self.month as i128, 2);
        s.append("-");
        append_int(&mut s, self.day as i128, 2);
        proof {
            reveal_strlit("-");
        }
        s
    }
}

fn two_digits(b: &[u8], at: usize) -> (v: u8)
    requires
        at + 2 <= b@.len(),
        is_ascii_digit(b@[at as int]),
        is_ascii_digit(b@[at + 1]),
    ensures
        v == decimal_value(b@, at as int, at + 2),
{
    proof {
        reveal_with_fuel(decimal_value, 3);
    }
    (b[at] - 48) * 10 + (b[at + 1] - 48)
}

impl Date {
    /// Parses `YYYY-MM-DD`.
    pub fn parse(s: &str) -> (r: Result<Date, Error>)
        ensures
            parse_result(s, r),
    {
        let b = s.as_bytes();
        let mut shaped = b.len() == 10 && b[4] == 45u8 && b[7] == 45u8;
        if shaped {
            let mut i: usize = 0;
            while i < 10
                invariant
                    b@ == s.spec_bytes(),
                    b@.len() == 10,
                    0 <= i <= 10,
                    shaped ==> forall|j: int|
                        0 <= j < i && j != 4 && j != 7 ==> is_ascii_digit(#[trigger] b@[j]),
                    !shaped ==> !date_text_shape(b@),
                decreases 10 - i,
            {
                if i != 4 && i != 7 && (b[i] < 48u8 || b[i] > 57u8) {
                    shaped = false;
                }
                i = i + 1;
            }
        }
        if !shaped {
            return Err(Error::InvalidDate(String::from_str(s)));
        }
        let year_hi = two_digits(b, 0);
        let year_lo = two_digits(b, 2);
        let month = two_digits(b, 5);
        let day = two_digits(b, 8);
        proof {
            reveal_with_fuel(decimal_value, 5);
            assert(decimal_value(b@, 0, 4) == decimal_value(b@, 0, 2) * 100 + decimal_value(b@, 2, 4));
        }
        Date::new(year_hi as i32 * 100 + year_lo as i32, month, day)
    }
}

impl core::str::FromStr for Date {
    type Err = Error;

    /// Parses `YYYY-MM-DD`; see [`Date::parse`].
    fn from_str(s: &str) -> (r: Result<Date, Error>)
        ensures
            parse_result(s, r),
    {
        Date::parse(s)
    }
}

proof fn lemma_days_before_year_bounds(y: int)
    requires
        i32::MIN <= y <= i32::MAX + 1,
    ensures
        -800_000_000_000 <= days_before_year(y) <= 800_000_000_000,
{
}

/// Dates in years 1..=9999 have serials from 0001-01-01 to 9999-12-31.
pub proof fn lemma_calendar_serial_range(d: Date)
    requires
        d.valid(),
        1 <= d.year() <= 9999,
    ensures
        min_serial() <= d.spec_serial() <= max_serial(),
{
    reveal(civil);
    lemma_days_before_year_increasing(1, d.year() as int);
    lemma_days_before_year_increasing(d.year() as int, 9999);
    lemma_year_length(d.year() as int);
}

/// Serials of dates with `i32` years fit comfortably in `i64`.
pub proof fn lemma_serial_bounds(d: Date)
    requires
        d.valid(),
    ensures
        -800_000_001_000 <= d.spec_serial() <= 800_000_001_000,
{
    reveal(civil);
    lemma_days_before_year_bounds(d.year() as int);
}

/// `from_serial` undoes `serial`: a date of years 1..=9999 comes back from
/// its serial day number.
pub proof fn lemma_serial_round_trip(d: Date, r: Result<Date, Error>)
    requires
        d.valid(),
        1 <= d.year() <= 9999,
        from_serial_result(d.spec_serial(), r),
    ensures
        r == Ok::<Date, Error>(d),
{
    lemma_calendar_serial_range(d);
    let x = r->Ok_0;
    Date::lemma_serial_determines(x, d);
}

/// The digits `b[from..to]` read as the digit characters `t[from..to]` do.
proof fn lemma_decimal_value_chars(b: Seq<u8>, t: Seq<char>, from: int, to: int)
    requires
        0 <= from <= to <= b.len(),
        b.len() == t.len(),
        forall|i: int| from <= i < to ==> b[i] as int == #[trigger] t[i] as int,
    ensures
        decimal_value(b, from, to) == digits_value(t.subrange(from, to)),
    decreases to - from,
{
    if to > from {
        lemma_decimal_value_chars(b, t, from, to - 1);
        assert(t.subrange(from, to).drop_last() =~= t.subrange(from, to - 1));
    } else {
        assert(t.subrange(from, to) =~= Seq::<char>::empty());
    }
}

/// Formatting and parsing undo each other: the text of a date of years
/// 1..=9999 parses back to that date.
pub proof fn lemma_text_round_trip(d: Date, s: &str, r: Result<Date, Error>)
    requires
        d.valid(),
        1 <= d.year() <= 9999,
        s@ == date_text(d.year() as int, d.month() as int, d.day() as int),
        parse_result(s, r),
    ensures
        r == Ok::<Date, Error>(d),
{
    let (y, m, dd) = (d.year() as int, d.month() as int, d.day() as int);
    reveal_with_fuel(pow10, 5);
    lemma_padded_value(y as nat, 4);
    lemma_padded_value(m as nat, 2);
    lemma_padded_value(dd as nat, 2);
    let ty = int_text(y, 4);
    let tm = int_text(m, 2);
    let td = int_text(dd, 2);
    let t = s@;
    assert(t =~= ty + seq!['-'] + tm + seq!['-'] + td);
    assert(t.len() == 10);
    assert(t.subrange(0, 4) =~= ty);
    assert(t.subrange(5, 7) =~= tm);
    assert(t.subrange(8, 10) =~= td);
    assert(is_ascii(s)) by {
        assert forall|i: int| 0 <= i < t.len() implies '\0' <= #[trigger] t[i] <= '\u{7f}' by {
            if i < 4 {
                assert(t[i] == ty[i]);
            } else if 4 < i < 7 {
                assert(t[i] == tm[i - 5]);
            } else if 7 < i {
                assert(t[i] == td[i - 8]);
            }
        }
    }
    vstd::string::is_ascii_spec_bytes(s);
    let b = s.spec_bytes();
    assert(b =~= Seq::new(t.len(), |i: int| t[i] as u8));
    assert forall|i: int| 0 <= i < 10 implies b[i] as int == #[trigger] t[i] as int by {
        if i < 4 {
            assert(t[i] == ty[i]);
        } else if 4 < i < 7 {
            assert(t[i] == tm[i - 5]);
        } else if 7 < i {
            assert(t[i] == td[i - 8]);
        }
    }
    lemma_decimal_value_chars(b, t, 0, 4);
    lemma_decimal_value_chars(b, t, 5, 7);
    lemma_decimal_value_chars(b, t, 8, 10);
    assert(date_text_shape(b)) by {
        assert forall|i: int| 0 <= i < 10 && i != 4 && i != 7 implies is_ascii_digit(#[trigger] b[i]) by {
            if i < 4 {
                assert(t[i] == ty[i]);
            } else if i < 7 {
                assert(t[i] == tm[i - 5]);
            } else {
                assert(t[i] == td[i - 8]);
            }
        }
    }
    let x = r->Ok_0;
    assert(x.year() == y && x.month() == m && x.day() == dd);
}

} // verus!
