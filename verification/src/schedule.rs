//! Coupon schedules reduced to what day counts need: roll dates, reference
//! periods, and the pieces an accrual period splits into.

use vstd::arithmetic::div_mod::*;
use vstd::arithmetic::mul::*;
use vstd::prelude::*;

use crate::date::{civil, lemma_civil_order, lemma_serial_bounds, month_len, valid_ymd};
use crate::{Date, Error};

verus! {

/// Coupon frequencies that divide a year into whole months.
pub open spec fn valid_frequency(f: int) -> bool {
    f == 1 || f == 2 || f == 3 || f == 4 || f == 6 || f == 12
}

/// A valid frequency splits the year into whole months.
pub proof fn lemma_months(f: int)
    requires
        valid_frequency(f),
    ensures
        1 <= 12int / f <= 12,
        (12int / f) * f == 12,
{
    if f == 1 {
        assert(12int / 1 == 12);
    } else if f == 2 {
        assert(12int / 2 == 6);
    } else if f == 3 {
        assert(12int / 3 == 4);
    } else if f == 4 {
        assert(12int / 4 == 3);
    } else if f == 6 {
        assert(12int / 6 == 2);
    } else {
        assert(12int / 12 == 1);
    }
}

/// Years for which the neighbouring roll dates still have `i32` years.
pub open spec fn year_in_roll_range(y: int) -> bool {
    i32::MIN + 2 <= y <= i32::MAX - 2
}

/// A coupon schedule reduced to what day counts need: a frequency and one
/// anchor date (usually maturity, or the first/last regular coupon date).
///
/// Roll date `k` is computed directly as `anchor + k * (12 / frequency)`
/// months for any integer `k`, never by stepping from a previous roll date.
/// Rolling backward from maturity and forward from an issue-side anchor
/// therefore yield the same grid whenever they share an anchor, and a day-31
/// anchor does not decay to 30 after passing through a 30-day month.
#[derive(Clone, Copy, PartialEq, Eq, Structural, Debug)]
pub struct Schedule {
    frequency: u32,
    anchor: Date,
    end_of_month: bool,
}

/// The overlap of an accrual period with one notional reference period.
#[derive(Clone, Copy, PartialEq, Eq, Structural, Debug)]
pub struct Piece {
    pub period_start: Date,
    pub period_end: Date,
    pub from: Date,
    pub to: Date,
}

impl Piece {
    /// The serials of the reference period's ends and of the accrual's ends.
    pub open spec fn serials(self) -> (int, int, int, int) {
        (
            self.period_start.spec_serial(),
            self.period_end.spec_serial(),
            self.from.spec_serial(),
            self.to.spec_serial(),
        )
    }

    /// Days accrued in this piece.
    pub fn days(&self) -> (r: i64)
        ensures
            r == self.to.spec_serial() - self.from.spec_serial(),
            self.from.valid(),
            self.to.valid(),
    {
        self.from.days_until(self.to)
    }

    /// Days in the whole reference period.
    pub fn period_days(&self) -> (r: i64)
        ensures
            r == self.period_end.spec_serial() - self.period_start.spec_serial(),
            self.period_start.valid(),
            self.period_end.valid(),
    {
        self.period_start.days_until(self.period_end)
    }

    pub fn is_full_period(&self) -> (r: bool)
        ensures
            r == (self.from == self.period_start && self.to == self.period_end),
    {
        self.from == self.period_start && self.to == self.period_end
    }
}

/// The schedule with these terms.
pub closed spec fn schedule_of(frequency: u32, anchor: Date, end_of_month: bool) -> Schedule {
    Schedule { frequency, anchor, end_of_month }
}

impl Schedule {
    #[verifier::type_invariant]
    spec fn frequency_divides_year(self) -> bool {
        valid_frequency(self.frequency as int)
    }

    pub closed spec fn spec_frequency(&self) -> u32 {
        self.frequency
    }

    pub closed spec fn spec_anchor(&self) -> Date {
        self.anchor
    }

    pub closed spec fn spec_end_of_month(self) -> bool {
        self.end_of_month
    }

    /// Months between consecutive roll dates.
    pub open spec fn spec_months(self) -> int {
        12int / (self.frequency() as int)
    }

    /// Roll dates are forced to month ends.
    pub open spec fn spec_rolls_on_month_end(self) -> bool {
        self.spec_end_of_month() && self.anchor().day() == month_len(
            self.anchor().year() as int,
            self.anchor().month() as int,
        )
    }

    /// The month, counted from January of year 0, of roll date `k`.
    pub open spec fn roll_month_index(self, k: int) -> int {
        self.anchor().spec_month_index() + k * self.spec_months()
    }

    pub open spec fn roll_year(self, k: int) -> int {
        self.roll_month_index(k) / 12
    }

    pub open spec fn roll_month(self, k: int) -> int {
        self.roll_month_index(k) % 12 + 1
    }

    /// The anchor's day, clamped to the month, or the month's last day when
    /// rolls are forced to month ends.
    pub open spec fn roll_day(self, k: int) -> int {
        let dim = month_len(self.roll_year(k), self.roll_month(k));
        if self.spec_rolls_on_month_end() || self.anchor().day() > dim {
            dim
        } else {
            self.anchor().day() as int
        }
    }

    /// The serial of roll date `k`.
    #[verifier::opaque]
    pub open spec fn roll_serial(self, k: int) -> int {
        civil(self.roll_year(k), self.roll_month(k), self.roll_day(k))
    }

    /// The estimate of the period holding `date`, from month arithmetic alone.
    #[verifier::opaque]
    pub open spec fn period_estimate(self, date: Date) -> int {
        (date.spec_month_index() - self.anchor().spec_month_index()) / self.spec_months()
    }

    /// The `k` with `roll_date(k) <= date < roll_date(k + 1)`.
    pub open spec fn spec_period_index(self, date: Date) -> int {
        let k0 = self.period_estimate(date);
        if self.roll_serial(k0) <= date.spec_serial() {
            k0
        } else {
            k0 - 1
        }
    }

    pub open spec fn spec_is_roll_date(self, date: Date) -> bool {
        self.roll_serial(self.spec_period_index(date)) == date.spec_serial()
    }

    /// Number of pieces `[start, end)` splits into.
    #[verifier::opaque]
    pub open spec fn piece_count(self, start: Date, end: Date) -> int {
        if start.spec_serial() >= end.spec_serial() {
            0
        } else {
            self.spec_period_index(end) - self.spec_period_index(start) + (if self.spec_is_roll_date(
                end,
            ) {
                0int
            } else {
                1
            })
        }
    }

    /// Piece `j` of `[start, end)`: the reference period
    /// `roll(k)..roll(k + 1)` with `k = period_index(start) + j`, accruing
    /// from `start` (first piece) or `roll(k)`, to `end` (last piece) or
    /// `roll(k + 1)`. Dates are given by their serials.
    #[verifier::opaque]
    pub open spec fn piece_serials(self, start: Date, end: Date, j: int) -> (int, int, int, int) {
        let k = self.spec_period_index(start) + j;
        let n = self.piece_count(start, end);
        (
            self.roll_serial(k),
            self.roll_serial(k + 1),
            if j == 0 {
                start.spec_serial()
            } else {
                self.roll_serial(k)
            },
            if j == n - 1 {
                end.spec_serial()
            } else {
                self.roll_serial(k + 1)
            },
        )
    }

    /// `frequency` is coupons per year and must divide 12. With
    /// `end_of_month`, an anchor on a month end makes every roll date a month
    /// end; otherwise roll dates keep the anchor's day, clamped to the month.
    pub fn new(frequency: u32, anchor: Date, end_of_month: bool) -> (r: Result<Schedule, Error>)
        ensures
            valid_frequency(frequency as int) ==> (r matches Ok(s) && s == schedule_of(
                frequency,
                anchor,
                end_of_month,
            ) && s.frequency() == frequency && s.anchor() == anchor && s.spec_end_of_month()
                == end_of_month),
            !valid_frequency(frequency as int) ==> r == Err::<Schedule, Error>(
                Error::InvalidFrequency(frequency),
            ),
    {
        if !(frequency == 1 || frequency == 2 || frequency == 3 || frequency == 4 || frequency == 6
            || frequency == 12) {
            return Err(Error::InvalidFrequency(frequency));
        }
        Ok(Schedule { frequency, anchor, end_of_month })
    }

    #[verifier::when_used_as_spec(spec_frequency)]
    pub fn frequency(&self) -> (f: u32)
        ensures
            f == self.spec_frequency(),
            valid_frequency(f as int),
    {
        proof {
            use_type_invariant(self);
        }
        self.frequency
    }

    #[verifier::when_used_as_spec(spec_anchor)]
    pub fn anchor(&self) -> (a: Date)
        ensures
            a == self.spec_anchor(),
    {
        self.anchor
    }

    /// True when roll dates are forced to month ends.
    pub fn rolls_on_month_end(&self) -> (r: bool)
        ensures
            r == self.spec_rolls_on_month_end(),
    {
        self.end_of_month && self.anchor.is_last_day_of_month()
    }

    fn months(&self) -> (m: i64)
        ensures
            m == self.spec_months(),
            1 <= m <= 12,
            valid_frequency(self.frequency() as int),
    {
        proof {
            use_type_invariant(self);
            lemma_months(self.frequency as int);
        }
        12 / self.frequency as i64
    }
}

/// Comparing dates by month index is comparing them by serial.
pub proof fn lemma_month_order(y1: int, m1: int, d1: int, y2: int, m2: int, d2: int)
    requires
        valid_ymd(y1, m1, d1),
        valid_ymd(y2, m2, d2),
        12 * y1 + m1 < 12 * y2 + m2,
    ensures
        civil(y1, m1, d1) < civil(y2, m2, d2),
{
    lemma_civil_order(y1, m1, d1, y2, m2, d2);
}

impl Schedule {
    /// Roll dates are real dates in the month the schedule puts them in.
    pub proof fn lemma_roll_valid(self, k: int)
        requires
            self.anchor().valid(),
            valid_frequency(self.frequency() as int),
        ensures
            valid_ymd(self.roll_year(k), self.roll_month(k), self.roll_day(k)),
            12 * self.roll_year(k) + self.roll_month(k) - 1 == self.roll_month_index(k),
    {
        lemma_fundamental_div_mod(self.roll_month_index(k), 12);
    }

    /// Later roll indices give later roll dates.
    pub proof fn lemma_rolls_increase(self, k1: int, k2: int)
        requires
            self.anchor().valid(),
            valid_frequency(self.frequency() as int),
            k1 < k2,
        ensures
            self.roll_serial(k1) < self.roll_serial(k2),
            self.roll_month_index(k1) < self.roll_month_index(k2),
    {
        reveal(Schedule::roll_serial);
        let m = self.spec_months();
        lemma_months(self.frequency() as int);
        assert(k1 * m < k2 * m) by (nonlinear_arith)
            requires
                k1 < k2,
                m >= 1,
        ;
        self.lemma_roll_valid(k1);
        self.lemma_roll_valid(k2);
        lemma_month_order(
            self.roll_year(k1),
            self.roll_month(k1),
            self.roll_day(k1),
            self.roll_year(k2),
            self.roll_month(k2),
            self.roll_day(k2),
        );
    }

    /// The estimate's roll date lies in the date's month or up to one period
    /// before it.
    pub proof fn lemma_estimate(self, date: Date)
        requires
            self.anchor().valid(),
            valid_frequency(self.frequency() as int),
        ensures
            self.roll_month_index(self.period_estimate(date)) <= date.spec_month_index(),
            date.spec_month_index() < self.roll_month_index(self.period_estimate(date) + 1),
            self.roll_month_index(self.period_estimate(date) + 1) <= date.spec_month_index() + 12,
            date.spec_month_index() - 24 <= self.roll_month_index(self.period_estimate(date) - 1),
            self.roll_month_index(self.period_estimate(date) - 1) < self.roll_month_index(self.period_estimate(date)),
    {
        reveal(Schedule::period_estimate);
        let m = self.spec_months();
        lemma_months(self.frequency() as int);
        let a = self.anchor().spec_month_index();
        let x = date.spec_month_index();
        let k0 = self.period_estimate(date);
        lemma_fundamental_div_mod(x - a, m);
        lemma_mod_bound(x - a, m);
        assert((k0 + 1) * m == k0 * m + m && (k0 - 1) * m == k0 * m - m) by (nonlinear_arith);
        assert(m * k0 == k0 * m) by (nonlinear_arith);
    }

    /// `period_index(date)` brackets `date` between consecutive roll dates.
    pub proof fn lemma_period_bracket(self, date: Date)
        requires
            self.anchor().valid(),
            date.valid(),
            valid_frequency(self.frequency() as int),
        ensures
            self.roll_serial(self.spec_period_index(date)) <= date.spec_serial(),
            date.spec_serial() < self.roll_serial(self.spec_period_index(date) + 1),
    {
        reveal(Schedule::roll_serial);
        let k0 = self.period_estimate(date);
        self.lemma_estimate(date);
        self.lemma_roll_valid(k0);
        self.lemma_roll_valid(k0 + 1);
        self.lemma_roll_valid(k0 - 1);
        lemma_month_order(
            date.year() as int,
            date.month() as int,
            date.day() as int,
            self.roll_year(k0 + 1),
            self.roll_month(k0 + 1),
            self.roll_day(k0 + 1),
        );
        lemma_month_order(
            self.roll_year(k0 - 1),
            self.roll_month(k0 - 1),
            self.roll_day(k0 - 1),
            date.year() as int,
            date.month() as int,
            date.day() as int,
        );
    }

    /// The `k` of the bracket is unique.
    pub proof fn lemma_bracket_unique(self, date: Date, k: int)
        requires
            self.anchor().valid(),
            date.valid(),
            valid_frequency(self.frequency() as int),
            self.roll_serial(k) <= date.spec_serial() < self.roll_serial(k + 1),
        ensures
            k == self.spec_period_index(date),
    {
        let p = self.spec_period_index(date);
        self.lemma_period_bracket(date);
        if k < p {
            if k + 1 < p {
                self.lemma_rolls_increase(k + 1, p);
            }
        } else if p < k {
            if p + 1 < k {
                self.lemma_rolls_increase(p + 1, k);
            }
        }
    }

    pub fn roll_date(&self, k: i64) -> (r: Date)
        requires
            i32::MIN <= self.roll_year(k as int) <= i32::MAX,
        ensures
            r.year() == self.roll_year(k as int),
            r.month() == self.roll_month(k as int),
            r.day() == self.roll_day(k as int),
            r.spec_serial() == self.roll_serial(k as int),
            r.spec_month_index() == self.roll_month_index(k as int),
    {
        proof {
            reveal(Schedule::roll_serial);
        }
        let m = self.months();
        let a = self.anchor.month_index();
        let d = self.anchor.day();
        proof {
            lemma_fundamental_div_mod(self.roll_month_index(k as int), 12);
            assert(-0x10_0000_0000 <= k * m <= 0x10_0000_0000);
        }
        Date::from_month_index(a + k * m, d, self.rolls_on_month_end())
    }

    /// What the search in `period_index` relies on: the estimate and its
    /// neighbours have `i32` years, and the date lies strictly between the
    /// roll dates one period either side of the estimate.
    proof fn lemma_search_window(self, date: Date)
        requires
            self.anchor().valid(),
            date.valid(),
            valid_frequency(self.frequency() as int),
            year_in_roll_range(date.year() as int),
        ensures
            ({
                let k0 = self.period_estimate(date);
                &&& -0x10_0000_0000 <= k0 <= 0x10_0000_0000
                &&& i32::MIN <= self.roll_year(k0 - 1)
                &&& self.roll_year(k0 - 1) <= self.roll_year(k0) <= self.roll_year(k0 + 1)
                &&& self.roll_year(k0 + 1) <= i32::MAX
                &&& self.roll_serial(k0 - 1) <= date.spec_serial() < self.roll_serial(k0 + 1)
            }),
    {
        reveal(Schedule::roll_serial);
        let k0 = self.period_estimate(date);
        self.lemma_estimate(date);
        self.lemma_period_bracket(date);
        lemma_fundamental_div_mod(self.roll_month_index(k0 - 1), 12);
        lemma_fundamental_div_mod(self.roll_month_index(k0), 12);
        lemma_fundamental_div_mod(self.roll_month_index(k0 + 1), 12);
        lemma_fundamental_div_mod(date.spec_month_index(), 12);
        self.lemma_rolls_increase(k0 - 1, k0);
        self.lemma_rolls_increase(k0, k0 + 1);
        lemma_months(self.frequency() as int);
        reveal(Schedule::period_estimate);
        let a = self.anchor().spec_month_index();
        let x = date.spec_month_index();
        let m = self.spec_months();
        assert(-0x10_0000_0000 <= k0 <= 0x10_0000_0000) by {
            lemma_div_is_ordered(x - a, 0x10_0000_0000, m);
            lemma_div_is_ordered(-0x10_0000_0000, x - a, m);
            lemma_div_basics(0x10_0000_0000);
            assert(0x10_0000_0000int / m <= 0x10_0000_0000) by {
                lemma_div_is_ordered_by_denominator(0x10_0000_0000, 1, m);
            }
            assert(-0x10_0000_0000int / m >= -0x10_0000_0000) by {
                lemma_fundamental_div_mod(-0x10_0000_0000, m);
                lemma_mod_bound(-0x10_0000_0000, m);
                assert(m * (-0x10_0000_0000int / m) >= -0x10_0000_0000 - m + 1);
                assert(-0x10_0000_0000int / m >= -0x10_0000_0000) by (nonlinear_arith)
                    requires
                        m * (-0x10_0000_0000int / m) >= -0x10_0000_0000 - m + 1,
                        m >= 1,
                ;
            }
        }
    }

    /// The `k` with `roll_date(k) <= date < roll_date(k + 1)`.
    pub fn period_index(&self, date: Date) -> (k: i64)
        requires
            year_in_roll_range(date.year() as int),
        ensures
            k == self.spec_period_index(date),
            -0x10_0000_0001 <= k <= 0x10_0000_0000,
            self.roll_serial(k as int) <= date.spec_serial() < self.roll_serial(k + 1),
            i32::MIN <= self.roll_year(k as int),
            self.roll_year(k as int) <= self.roll_year(k + 1),
            self.roll_year(k + 1) <= i32::MAX,
    {
        let m = self.months();
        let a = self.anchor.month_index();
        let x = date.month_index();
        let k0: i64 = match (x - a).checked_div_euclid(m) {
            Some(q) => q,
            None => 0,
        };
        proof {
            reveal(Schedule::period_estimate);
            self.lemma_search_window(date);
        }
        let ds = date.serial();
        let mut k = k0;
        while self.roll_date(k).serial() > ds
            invariant
                k0 - 1 <= k <= k0,
                -0x10_0000_0000 <= k0 <= 0x10_0000_0000,
                self.roll_serial(k0 - 1) <= ds,
                ds == date.spec_serial(),
                i32::MIN <= self.roll_year(k0 - 1),
                self.roll_year(k0 - 1) <= self.roll_year(k0 as int) <= self.roll_year(k0 + 1),
                self.roll_year(k0 + 1) <= i32::MAX,
            decreases k - k0 + 1,
        {
            k = k - 1;
        }
        while self.roll_date(k + 1).serial() <= ds
            invariant
                k0 - 1 <= k <= k0,
                -0x10_0000_0000 <= k0 <= 0x10_0000_0000,
                self.roll_serial(k as int) <= ds,
                ds == date.spec_serial(),
                self.roll_serial(k0 + 1) > ds,
                i32::MIN <= self.roll_year(k0 - 1),
                self.roll_year(k0 - 1) <= self.roll_year(k0 as int) <= self.roll_year(k0 + 1),
                self.roll_year(k0 + 1) <= i32::MAX,
            decreases k0 - k,
        {
            k = k + 1;
        }
        proof {
            self.lemma_bracket_unique(date, k as int);
        }
        k
    }
}

/// A date later than another by serial is no earlier by month index.
pub proof fn lemma_serial_to_month_order(y1: int, m1: int, d1: int, y2: int, m2: int, d2: int)
    requires
        valid_ymd(y1, m1, d1),
        valid_ymd(y2, m2, d2),
        civil(y1, m1, d1) <= civil(y2, m2, d2),
    ensures
        12 * y1 + m1 <= 12 * y2 + m2,
{
    if 12 * y2 + m2 < 12 * y1 + m1 {
        lemma_month_order(y2, m2, d2, y1, m1, d1);
    }
}

impl Schedule {
    pub fn is_roll_date(&self, date: Date) -> (r: bool)
        requires
            year_in_roll_range(date.year() as int),
        ensures
            r == self.spec_is_roll_date(date),
    {
        let k = self.period_index(date);
        self.roll_date(k).serial() == date.serial()
    }

    /// A roll index whose roll year fits `i32` is far from overflowing.
    proof fn lemma_k_bounded(self, k: int)
        requires
            self.anchor().valid(),
            valid_frequency(self.frequency() as int),
            i32::MIN <= self.roll_year(k) <= i32::MAX,
        ensures
            -0x10_0000_0000 <= k <= 0x10_0000_0000,
    {
        lemma_months(self.frequency() as int);
        let m = self.spec_months();
        lemma_fundamental_div_mod(self.roll_month_index(k), 12);
        if k > 0x10_0000_0000 {
            assert(k * m >= k) by (nonlinear_arith)
                requires
                    k > 0,
                    m >= 1,
            ;
        } else if k < -0x10_0000_0000 {
            assert(k * m <= k) by (nonlinear_arith)
                requires
                    k < 0,
                    m >= 1,
            ;
        }
    }

    /// Piece `i` has the serials the walk produces for it.
    proof fn lemma_piece_is(self, start: Date, end: Date, i: int, p: (int, int, int, int))
        requires
            i >= 0,
            i < self.piece_count(start, end),
            ({
                let k = self.spec_period_index(start) + i;
                let n = self.piece_count(start, end);
                &&& p.0 == self.roll_serial(k)
                &&& p.1 == self.roll_serial(k + 1)
                &&& p.2 == (if i == 0 {
                    start.spec_serial()
                } else {
                    self.roll_serial(k)
                })
                &&& p.3 == (if end.spec_serial() < self.roll_serial(k + 1) {
                    end.spec_serial()
                } else {
                    self.roll_serial(k + 1)
                })
                &&& (end.spec_serial() <= self.roll_serial(k + 1) <==> i == n - 1)
            }),
        ensures
            p == self.piece_serials(start, end, i),
    {
        reveal(Schedule::piece_serials);
    }

    /// Where the walk over the pieces of `[start, end)` stands after `i`
    /// pieces: the next piece is the last one exactly when `end` falls in its
    /// reference period.
    proof fn lemma_piece_step(self, start: Date, end: Date, i: int, cursor: int)
        requires
            self.anchor().valid(),
            start.valid(),
            end.valid(),
            valid_frequency(self.frequency() as int),
            start.spec_serial() < end.spec_serial(),
            i >= 0,
            cursor == (if i == 0 {
                start.spec_serial()
            } else {
                self.roll_serial(self.spec_period_index(start) + i)
            }),
            cursor < end.spec_serial(),
            year_in_roll_range(end.year() as int),
            i32::MIN <= self.roll_year(self.spec_period_index(start)),
        ensures
            ({
                let k = self.spec_period_index(start) + i;
                let n = self.piece_count(start, end);
                &&& self.roll_serial(k) <= cursor < self.roll_serial(k + 1)
                &&& i < n
                &&& (end.spec_serial() <= self.roll_serial(k + 1) <==> i == n - 1)
                &&& i32::MIN <= self.roll_year(k)
                &&& self.roll_year(k) <= self.roll_year(k + 1)
                &&& self.roll_year(k + 1) <= i32::MAX
            }),
    {
        reveal(Schedule::roll_serial);
        reveal(Schedule::piece_count);
        let ks = self.spec_period_index(start);
        let k = ks + i;
        let ke = self.spec_period_index(end);
        let e = end.spec_serial();
        self.lemma_period_bracket(start);
        self.lemma_period_bracket(end);
        if i > 0 {
            self.lemma_rolls_increase(k, k + 1);
        }
        self.lemma_roll_valid(k);
        lemma_serial_to_month_order(
            self.roll_year(k),
            self.roll_month(k),
            self.roll_day(k),
            end.year() as int,
            end.month() as int,
            end.day() as int,
        );
        lemma_months(self.frequency() as int);
        assert(self.roll_month_index(k + 1) == self.roll_month_index(k) + self.spec_months()) by {
            let m = self.spec_months();
            assert((k + 1) * m == k * m + m) by (nonlinear_arith);
        }
        lemma_fundamental_div_mod(self.roll_month_index(k + 1), 12);
        lemma_fundamental_div_mod(self.roll_month_index(k), 12);
        lemma_fundamental_div_mod(self.roll_month_index(ks), 12);
        lemma_fundamental_div_mod(end.spec_month_index(), 12);
        if ks < k {
            self.lemma_rolls_increase(ks, k);
        }
        if e <= self.roll_serial(k + 1) {
            if e == self.roll_serial(k + 1) {
                self.lemma_rolls_increase(k + 1, k + 2);
                self.lemma_bracket_unique(end, k + 1);
            } else {
                self.lemma_bracket_unique(end, k);
            }
        } else {
            if ke < k + 1 {
                if ke + 1 < k + 1 {
                    self.lemma_rolls_increase(ke + 1, k + 1);
                }
            }
            if ke == k + 1 {
                assert(!self.spec_is_roll_date(end));
            }
        }
    }

    /// Splits `[start, end)` into its overlaps with consecutive reference
    /// periods, handed out one at a time. Empty when `start >= end`.
    pub fn pieces(&self, start: Date, end: Date) -> (p: Pieces)
        requires
            year_in_roll_range(start.year() as int),
            year_in_roll_range(end.year() as int),
        ensures
            p.schedule() == *self,
            p.accrual_start() == start,
            p.accrual_end() == end,
            p.taken() == 0,
    {
        proof {
            use_type_invariant(self);
        }
        // The call brings the anchor's validity into the proof.
        let _ = self.anchor.day();
        let ss = start.serial();
        let es = end.serial();
        let ks = self.period_index(start);
        proof {
            reveal(Schedule::piece_count);
            if ss < es {
                self.lemma_piece_step(start, end, 0, ss as int);
            }
        }
        Pieces { schedule: *self, k: ks, cursor: start, end, start: Ghost(start), taken: Ghost(0) }
    }
}

/// The pieces of an accrual period, in order. `next` hands out the next
/// piece; `collect` and `count` take the rest.
pub struct Pieces {
    schedule: Schedule,
    k: i64,
    cursor: Date,
    end: Date,
    start: Ghost<Date>,
    taken: Ghost<int>,
}

impl Pieces {
    #[verifier::type_invariant]
    spec fn in_step(self) -> bool {
        let s = self.schedule;
        let start = self.start@;
        let ss = start.spec_serial();
        let es = self.end.spec_serial();
        let ks = s.spec_period_index(start);
        let n = s.piece_count(start, self.end);
        let i = self.taken@;
        &&& s.anchor().valid()
        &&& valid_frequency(s.frequency() as int)
        &&& start.valid()
        &&& self.end.valid()
        &&& self.cursor.valid()
        &&& year_in_roll_range(start.year() as int)
        &&& year_in_roll_range(self.end.year() as int)
        &&& 0 <= i <= n
        &&& i == 0 ==> self.cursor == start
        &&& ss < es ==> {
            &&& self.k == ks + i
            &&& i32::MIN <= s.roll_year(ks)
            &&& i > 0 && self.cursor.spec_serial() < es ==> self.cursor.spec_serial() == s.roll_serial(
                self.k as int,
            )
            &&& self.cursor.spec_serial() < es ==> i < n
            &&& self.cursor.spec_serial() >= es ==> i == n
        }
    }

    pub closed spec fn schedule(self) -> Schedule {
        self.schedule
    }

    pub closed spec fn accrual_start(self) -> Date {
        self.start@
    }

    pub closed spec fn accrual_end(self) -> Date {
        self.end
    }

    /// How many pieces have been handed out.
    pub closed spec fn taken(self) -> int {
        self.taken@
    }

    /// The number of pieces of the whole accrual period.
    pub open spec fn total(self) -> int {
        self.schedule().piece_count(self.accrual_start(), self.accrual_end())
    }

    /// The next piece, or `None` once all have been handed out.
    pub fn next(&mut self) -> (r: Option<Piece>)
        ensures
            final(self).schedule() == old(self).schedule(),
            final(self).accrual_start() == old(self).accrual_start(),
            final(self).accrual_end() == old(self).accrual_end(),
            final(self).taken() <= final(self).total(),
            old(self).taken() < old(self).total() ==> {
                &&& r matches Some(p) && p.serials() == old(self).schedule().piece_serials(
                    old(self).accrual_start(),
                    old(self).accrual_end(),
                    old(self).taken(),
                )
                &&& final(self).taken() == old(self).taken() + 1
            },
            old(self).taken() >= old(self).total() ==> r is None && final(self).taken() == old(
                self,
            ).taken(),
    {
        proof {
            use_type_invariant(&*self);
        }
        let es = self.end.serial();
        if self.cursor.serial() >= es {
            proof {
                reveal(Schedule::piece_count);
            }
            return None;
        }
        let ghost start = self.start@;
        let ghost i = self.taken@;
        let ghost ss = start.spec_serial();
        let schedule = self.schedule;
        let k = self.k;
        let cursor = self.cursor;
        let end = self.end;
        proof {
            reveal(Schedule::piece_count);
            assert(ss < es);
            schedule.lemma_piece_step(start, end, i, cursor.spec_serial());
            lemma_serial_bounds(end);
            schedule.lemma_k_bounded(k as int);
        }
        let period_start = schedule.roll_date(k);
        let period_end = schedule.roll_date(k + 1);
        let to = if es < period_end.serial() {
            end
        } else {
            period_end
        };
        let piece = Piece { period_start, period_end, from: cursor, to };
        proof {
            schedule.lemma_piece_is(start, end, i, piece.serials());
            if i + 1 < schedule.piece_count(start, end) {
                schedule.lemma_piece_step(start, end, i + 1, to.spec_serial());
            }
        }
        *self = Pieces {
            schedule,
            k: k + 1,
            cursor: to,
            end,
            start: Ghost(start),
            taken: Ghost(i + 1),
        };
        Some(piece)
    }

    /// The pieces not yet handed out, in order.
    pub fn collect(self) -> (v: Vec<Piece>)
        ensures
            v@.len() == self.total() - self.taken(),
            forall|j: int|
                0 <= j < v@.len() ==> (#[trigger] v@[j]).serials() == self.schedule().piece_serials(
                    self.accrual_start(),
                    self.accrual_end(),
                    self.taken() + j,
                ),
    {
        proof {
            use_type_invariant(&self);
        }
        let mut rest = self;
        let mut v: Vec<Piece> = Vec::new();
        loop
            invariant
                rest.schedule() == self.schedule(),
                rest.accrual_start() == self.accrual_start(),
                rest.accrual_end() == self.accrual_end(),
                self.taken() <= rest.taken() <= rest.total(),
                v@.len() == rest.taken() - self.taken(),
                forall|j: int|
                    0 <= j < v@.len() ==> (#[trigger] v@[j]).serials() == self.schedule().piece_serials(
                        self.accrual_start(),
                        self.accrual_end(),
                        self.taken() + j,
                    ),
            ensures
                v@.len() == self.total() - self.taken(),
                forall|j: int|
                    0 <= j < v@.len() ==> (#[trigger] v@[j]).serials() == self.schedule().piece_serials(
                        self.accrual_start(),
                        self.accrual_end(),
                        self.taken() + j,
                    ),
            decreases rest.total() - rest.taken(),
        {
            match rest.next() {
                Some(p) => v.push(p),
                None => break,
            }
        }
        v
    }

    /// How many pieces are not yet handed out.
    pub fn count(self) -> (n: usize)
        ensures
            n == self.total() - self.taken(),
    {
        self.collect().len()
    }
}

/// The schedule made from its terms has those terms.
pub proof fn lemma_schedule_of(frequency: u32, anchor: Date, end_of_month: bool)
    ensures
        schedule_of(frequency, anchor, end_of_month).frequency() == frequency,
        schedule_of(frequency, anchor, end_of_month).anchor() == anchor,
{
}

/// The serial of the first day of the month with index `mi` (months since
/// January of year 0).
pub open spec fn month_start(mi: int) -> int {
    civil(mi / 12, mi % 12 + 1, 1)
}

proof fn lemma_month_length_at_most_31(mi: int)
    ensures
        month_start(mi + 1) - month_start(mi) <= 31,
{
    lemma_fundamental_div_mod(mi, 12);
    lemma_fundamental_div_mod(mi + 1, 12);
    reveal(civil);
    let y = mi / 12;
    if mi % 12 == 11 {
        assert((mi + 1) / 12 == y + 1 && (mi + 1) % 12 == 0);
        crate::date::lemma_year_length(y);
    } else {
        assert((mi + 1) / 12 == y && (mi + 1) % 12 == mi % 12 + 1);
    }
}

proof fn lemma_months_at_most_31(mi: int, n: nat)
    ensures
        month_start(mi + n) - month_start(mi) <= 31 * n,
    decreases n,
{
    if n > 0 {
        lemma_months_at_most_31(mi, (n - 1) as nat);
        lemma_month_length_at_most_31(mi + n - 1);
    }
}

impl Schedule {
    /// A reference period lasts at most 31 days a month, plus 3 for a day
    /// of month clamped at the start and not at the end.
    pub proof fn lemma_period_at_most(self, k: int)
        requires
            self.anchor().valid(),
            valid_frequency(self.frequency() as int),
        ensures
            self.roll_serial(k + 1) - self.roll_serial(k) <= 31 * self.spec_months() + 3,
    {
        reveal(Schedule::roll_serial);
        reveal(civil);
        lemma_months(self.frequency() as int);
        let m = self.spec_months();
        let mi = self.roll_month_index(k);
        assert(self.roll_month_index(k + 1) == mi + m) by {
            assert((k + 1) * m == k * m + m) by (nonlinear_arith);
        }
        lemma_months_at_most_31(mi, m as nat);
        let d1 = self.roll_day(k);
        let d2 = self.roll_day(k + 1);
        assert(self.roll_serial(k) == month_start(mi) + d1 - 1);
        assert(self.roll_serial(k + 1) == month_start(mi + m) + d2 - 1);
        let l1 = month_len(self.roll_year(k), self.roll_month(k));
        let l2 = month_len(self.roll_year(k + 1), self.roll_month(k + 1));
        assert(28 <= l1 <= 31 && 28 <= l2 <= 31);
        assert(d2 - d1 <= 3);
    }

    /// The pieces cover the accrual period exactly: the first starts at
    /// `start`, the last ends at `end`, each ends where the next starts,
    /// consecutive pieces lie in consecutive reference periods, and each is
    /// a non-empty part of its reference period.
    pub proof fn lemma_pieces_cover(self, start: Date, end: Date)
        requires
            self.anchor().valid(),
            valid_frequency(self.frequency() as int),
            start.valid(),
            end.valid(),
            start.spec_serial() < end.spec_serial(),
        ensures
            self.piece_count(start, end) >= 1,
            self.piece_serials(start, end, 0).2 == start.spec_serial(),
            self.piece_serials(start, end, self.piece_count(start, end) - 1).3 == end.spec_serial(),
            forall|j: int|
                0 <= j < self.piece_count(start, end) - 1 ==> {
                    &&& (#[trigger] self.piece_serials(start, end, j)).3 == self.piece_serials(
                        start,
                        end,
                        j + 1,
                    ).2
                    &&& self.piece_serials(start, end, j).1 == self.piece_serials(start, end, j + 1).0
                },
            forall|j: int|
                0 <= j < self.piece_count(start, end) ==> {
                    let p = #[trigger] self.piece_serials(start, end, j);
                    p.0 <= p.2 < p.3 <= p.1
                },
    {
        reveal(Schedule::piece_serials);
        self.lemma_piece_count_bound(start, end);
        assert forall|j: int| 0 <= j < self.piece_count(start, end) implies {
            let p = #[trigger] self.piece_serials(start, end, j);
            p.0 <= p.2 < p.3 <= p.1
        } by {
            self.lemma_piece_shape(start, end, j);
        }
    }

    /// A reference period lasts between one day and 400 days.
    pub proof fn lemma_period_length(self, k: int)
        requires
            self.anchor().valid(),
            valid_frequency(self.frequency() as int),
        ensures
            1 <= self.roll_serial(k + 1) - self.roll_serial(k) <= 400,
    {
        reveal(Schedule::roll_serial);
        self.lemma_rolls_increase(k, k + 1);
        self.lemma_roll_valid(k);
        self.lemma_roll_valid(k + 1);
        lemma_months(self.frequency() as int);
        let m = self.spec_months();
        assert(self.roll_month_index(k + 1) == self.roll_month_index(k) + m) by {
            assert((k + 1) * m == k * m + m) by (nonlinear_arith);
        }
        let ya = self.roll_year(k);
        let ma = self.roll_month(k);
        let yb = self.roll_year(k + 1);
        let mb = self.roll_month(k + 1);
        crate::date::lemma_year_length(ya);
        reveal(civil);
        assert(valid_ymd(ya + 1, ma, 1));
        assert(civil(ya + 1, ma, 1) - civil(ya, ma, 1) <= 367);
        if 12 * yb + mb < 12 * (ya + 1) + ma {
            lemma_month_order(yb, mb, 1, ya + 1, ma, 1);
        }
    }

    /// Roll dates `k1 <= k2` are at least `k2 - k1` days apart.
    pub proof fn lemma_rolls_spread(self, k1: int, k2: int)
        requires
            self.anchor().valid(),
            valid_frequency(self.frequency() as int),
            k1 <= k2,
        ensures
            self.roll_serial(k2) - self.roll_serial(k1) >= k2 - k1,
        decreases k2 - k1,
    {
        if k1 < k2 {
            self.lemma_rolls_spread(k1, k2 - 1);
            self.lemma_period_length(k2 - 1);
        }
    }

    /// An accrual period splits into at most 401 more pieces than it has
    /// days.
    pub proof fn lemma_piece_count_bound(self, start: Date, end: Date)
        requires
            self.anchor().valid(),
            valid_frequency(self.frequency() as int),
            start.valid(),
            end.valid(),
            start.spec_serial() < end.spec_serial(),
        ensures
            1 <= self.piece_count(start, end) <= end.spec_serial() - start.spec_serial() + 401,
    {
        reveal(Schedule::piece_count);
        let ks = self.spec_period_index(start);
        let ke = self.spec_period_index(end);
        self.lemma_period_bracket(start);
        self.lemma_period_bracket(end);
        self.lemma_period_length(ks);
        if ke < ks {
            if ke + 1 < ks {
                self.lemma_rolls_increase(ke + 1, ks);
            }
            assert(false);
        }
        if ke == ks && self.spec_is_roll_date(end) {
            assert(false);
        }
        self.lemma_rolls_spread(ks, ke);
    }

    /// Pieces strictly inside the period cover whole reference periods; the
    /// first piece starts at `start`, the last ends at `end`, and every piece
    /// lies within its reference period.
    pub proof fn lemma_piece_shape(self, start: Date, end: Date, j: int)
        requires
            self.anchor().valid(),
            valid_frequency(self.frequency() as int),
            start.valid(),
            end.valid(),
            start.spec_serial() < end.spec_serial(),
            0 <= j < self.piece_count(start, end),
        ensures
            ({
                let p = self.piece_serials(start, end, j);
                &&& 0 < j < self.piece_count(start, end) - 1 ==> p.2 == p.0 && p.3 == p.1
                &&& p.0 <= p.2 < p.3 <= p.1
                &&& 1 <= p.1 - p.0 <= 400
            }),
    {
        reveal(Schedule::piece_serials);
        let ks = self.spec_period_index(start);
        let k = ks + j;
        let n = self.piece_count(start, end);
        self.lemma_period_bracket(start);
        self.lemma_period_bracket(end);
        self.lemma_period_length(k);
        let p = self.piece_serials(start, end, j);
        if j > 0 {
            self.lemma_rolls_increase(ks, k);
        }
        reveal(Schedule::piece_count);
        let ke = self.spec_period_index(end);
        if j < n - 1 {
            // roll(k + 1) < end
            if k + 1 < ke {
                self.lemma_rolls_increase(k + 1, ke);
            }
        } else {
            // end <= roll(k + 1)
            if self.spec_is_roll_date(end) {
                assert(k + 1 == ke);
            } else {
                assert(k == ke);
            }
        }
        if j > 0 {
            // roll(k) < end
            if k < ke {
                self.lemma_rolls_increase(k, ke);
            }
            if k == ke {
                assert(!self.spec_is_roll_date(end) || j == 0) by {
                    if self.spec_is_roll_date(end) {
                        assert(n == ke - ks);
                    }
                }
            }
        }
    }
}

} // verus!
