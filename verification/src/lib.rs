//! Day-count year fractions as exact rationals, with a rule trace for every
//! result and an enumerator of the date pairs where two conventions disagree.

pub mod convention;
pub mod date;
pub mod disagree;
pub mod rational;
pub mod schedule;
pub mod text;

pub use convention::{year_fraction, Branch, Context, Convention, Trace, YearFraction};
pub use date::{days_in_month, is_leap_year, Date};
pub use rational::Rational;
pub use schedule::{Piece, Pieces, Schedule};

use vstd::prelude::*;

verus! {

#[derive(Clone, PartialEq, Eq, Debug)]
pub enum Error {
    InvalidDate(String),
    StartAfterEnd { start: Date, end: Date },
    UnknownConvention(String),
    InvalidFrequency(u32),
    MissingFrequency(Convention),
    MissingAnchor(Convention),
    MissingTermination,
    ZeroDenominator,
    Overflow,
}

impl Error {
    /// The message printed for the error.
    pub open spec fn message(&self) -> Seq<char> {
        match self {
            Error::InvalidDate(s) => "invalid date '"@ + s@
                + "' (expected YYYY-MM-DD, years 0001-9999)"@,
            Error::StartAfterEnd { start, end } => "start "@ + date::date_text(
                start.year() as int,
                start.month() as int,
                start.day() as int,
            ) + " is after end "@ + date::date_text(
                end.year() as int,
                end.month() as int,
                end.day() as int,
            ),
            Error::UnknownConvention(s) => "unknown convention '"@ + s@
                + "' (see `stubfrac list`)"@,
            Error::InvalidFrequency(n) => "frequency "@ + text::int_text(*n as int, 0)
                + " does not divide 12 (use 1, 2, 3, 4, 6 or 12)"@,
            Error::MissingFrequency(c) => c.spec_name() + " needs a coupon frequency (--freq)"@,
            Error::MissingAnchor(c) => c.spec_name() + " needs a schedule anchor date (--anchor)"@,
            Error::MissingTermination => "30E/360 ISDA needs the termination date (--termination)"@,
            Error::ZeroDenominator => "zero denominator"@,
            Error::Overflow => "result does not fit in an i64 rational"@,
        }
    }

    pub fn to_string(&self) -> (s: String)
        ensures
            s@ == self.message(),
    {
        match self {
            Error::InvalidDate(d) => {
                let mut s = String::from_str("invalid date '");
                s.append(d.as_str());
                s.append("' (expected YYYY-MM-DD, years 0001-9999)");
                s
            },
            Error::StartAfterEnd { start, end } => {
                let mut s = String::from_str("start ");
                s.append(start.to_string().as_str());
                s.append(" is after end ");
                s.append(end.to_string().as_str());
                s
            },
            Error::UnknownConvention(c) => {
                let mut s = String::from_str("unknown convention '");
                s.append(c.as_str());
                s.append("' (see `stubfrac list`)");
                s
            },
            Error::InvalidFrequency(n) => {
                let mut s = String::from_str("frequency ");
                text::append_int(&mut s, *n as i128, 0);
                s.append(" does not divide 12 (use 1, 2, 3, 4, 6 or 12)");
                s
            },
            Error::MissingFrequency(c) => {
                let mut s = String::from_str(c.name());
                s.append(" needs a coupon frequency (--freq)");
                s
            },
            Error::MissingAnchor(c) => {
                let mut s = String::from_str(c.name());
                s.append(" needs a schedule anchor date (--anchor)");
                s
            },
            Error::MissingTermination => String::from_str(
                "30E/360 ISDA needs the termination date (--termination)",
            ),
            Error::ZeroDenominator => String::from_str("zero denominator"),
            Error::Overflow => String::from_str("result does not fit in an i64 rational"),
        }
    }
}

} // verus!
