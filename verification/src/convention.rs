//! Day-count conventions: the rule branches a calculation can take, the
//! trace of those taken, and the year fraction of an accrual period.

use vstd::prelude::*;
use vstd::string::StringSliceAdditionalSpecFns;

use crate::date::{civil, is_leap, month_len};
use crate::rational::{
    abs, frac_add, frac_sum, lemma_sum_step, lemma_fits_when_small, lemma_frac_add_congruent, lemma_reduce, lemma_result_value,
    lemma_same_value_trans, same_value,
};
use crate::schedule::{lemma_months, schedule_of, valid_frequency};
use crate::{Date, Error, Rational, Schedule};

verus! {

/// One rule branch a day-count calculation can take.
#[derive(Clone, Copy, PartialEq, Eq, Structural, Hash, Debug)]
pub enum Branch {
    EmptyPeriod,
    ActualOver360,
    ActualOver365,
    ThirtyDayMonths,
    LeapAnnualFeb29,
    LeapAnnualNoFeb29,
    LeapEndInLeapYear,
    LeapEndInCommonYear,
    NoLeapDayRemoved,
    IsdaOneCalendarYear,
    IsdaSplitAtYearEnd,
    IsdaLeapYearDays,
    IsdaCommonYearDays,
    AfbWholeYears,
    AfbFeb28BackToFeb29,
    AfbFeb29InRemainder,
    AfbNoFeb29InRemainder,
    RegularPeriod,
    WholeRegularPeriods,
    ShortStub,
    LongStub,
    StartOffSchedule,
    EndOffSchedule,
    EndOfMonthRoll,
    FullReferencePeriod,
    IcmaPartialPiece,
    CanadianShortPiece,
    CanadianLongPiece,
    D1Is31To30,
    D1FebEndTo30,
    D1FebEndKept,
    D2Is31To30,
    D2Is31To30SinceD1AtLeast30,
    D2Is31KeptSinceD1Below30,
    D2FebEndTo30NotTermination,
    D2FebEndIsTermination,
    D2FebEndTo30SinceD1FebEnd,
    D2FebEndKept,
}

/// Every branch, in declaration order.
pub open spec fn all_branches() -> Seq<Branch> {
    seq![
        Branch::EmptyPeriod,
        Branch::ActualOver360,
        Branch::ActualOver365,
        Branch::ThirtyDayMonths,
        Branch::LeapAnnualFeb29,
        Branch::LeapAnnualNoFeb29,
        Branch::LeapEndInLeapYear,
        Branch::LeapEndInCommonYear,
        Branch::NoLeapDayRemoved,
        Branch::IsdaOneCalendarYear,
        Branch::IsdaSplitAtYearEnd,
        Branch::IsdaLeapYearDays,
        Branch::IsdaCommonYearDays,
        Branch::AfbWholeYears,
        Branch::AfbFeb28BackToFeb29,
        Branch::AfbFeb29InRemainder,
        Branch::AfbNoFeb29InRemainder,
        Branch::RegularPeriod,
        Branch::WholeRegularPeriods,
        Branch::ShortStub,
        Branch::LongStub,
        Branch::StartOffSchedule,
        Branch::EndOffSchedule,
        Branch::EndOfMonthRoll,
        Branch::FullReferencePeriod,
        Branch::IcmaPartialPiece,
        Branch::CanadianShortPiece,
        Branch::CanadianLongPiece,
        Branch::D1Is31To30,
        Branch::D1FebEndTo30,
        Branch::D1FebEndKept,
        Branch::D2Is31To30,
        Branch::D2Is31To30SinceD1AtLeast30,
        Branch::D2Is31KeptSinceD1Below30,
        Branch::D2FebEndTo30NotTermination,
        Branch::D2FebEndIsTermination,
        Branch::D2FebEndTo30SinceD1FebEnd,
        Branch::D2FebEndKept,
    ]
}

impl Branch {
    /// Every branch, in declaration order.
    pub const ALL: [Branch; 38] = [
        Branch::EmptyPeriod,
        Branch::ActualOver360,
        Branch::ActualOver365,
        Branch::ThirtyDayMonths,
        Branch::LeapAnnualFeb29,
        Branch::LeapAnnualNoFeb29,
        Branch::LeapEndInLeapYear,
        Branch::LeapEndInCommonYear,
        Branch::NoLeapDayRemoved,
        Branch::IsdaOneCalendarYear,
        Branch::IsdaSplitAtYearEnd,
        Branch::IsdaLeapYearDays,
        Branch::IsdaCommonYearDays,
        Branch::AfbWholeYears,
        Branch::AfbFeb28BackToFeb29,
        Branch::AfbFeb29InRemainder,
        Branch::AfbNoFeb29InRemainder,
        Branch::RegularPeriod,
        Branch::WholeRegularPeriods,
        Branch::ShortStub,
        Branch::LongStub,
        Branch::StartOffSchedule,
        Branch::EndOffSchedule,
        Branch::EndOfMonthRoll,
        Branch::FullReferencePeriod,
        Branch::IcmaPartialPiece,
        Branch::CanadianShortPiece,
        Branch::CanadianLongPiece,
        Branch::D1Is31To30,
        Branch::D1FebEndTo30,
        Branch::D1FebEndKept,
        Branch::D2Is31To30,
        Branch::D2Is31To30SinceD1AtLeast30,
        Branch::D2Is31KeptSinceD1Below30,
        Branch::D2FebEndTo30NotTermination,
        Branch::D2FebEndIsTermination,
        Branch::D2FebEndTo30SinceD1FebEnd,
        Branch::D2FebEndKept,
    ];

    /// The branch's position in declaration order, which is also its bit in
    /// a [`Trace`].
    pub open spec fn spec_index(self) -> int {
        match self {
            Branch::EmptyPeriod => 0,
            Branch::ActualOver360 => 1,
            Branch::ActualOver365 => 2,
            Branch::ThirtyDayMonths => 3,
            Branch::LeapAnnualFeb29 => 4,
            Branch::LeapAnnualNoFeb29 => 5,
            Branch::LeapEndInLeapYear => 6,
            Branch::LeapEndInCommonYear => 7,
            Branch::NoLeapDayRemoved => 8,
            Branch::IsdaOneCalendarYear => 9,
            Branch::IsdaSplitAtYearEnd => 10,
            Branch::IsdaLeapYearDays => 11,
            Branch::IsdaCommonYearDays => 12,
            Branch::AfbWholeYears => 13,
            Branch::AfbFeb28BackToFeb29 => 14,
            Branch::AfbFeb29InRemainder => 15,
            Branch::AfbNoFeb29InRemainder => 16,
            Branch::RegularPeriod => 17,
            Branch::WholeRegularPeriods => 18,
            Branch::ShortStub => 19,
            Branch::LongStub => 20,
            Branch::StartOffSchedule => 21,
            Branch::EndOffSchedule => 22,
            Branch::EndOfMonthRoll => 23,
            Branch::FullReferencePeriod => 24,
            Branch::IcmaPartialPiece => 25,
            Branch::CanadianShortPiece => 26,
            Branch::CanadianLongPiece => 27,
            Branch::D1Is31To30 => 28,
            Branch::D1FebEndTo30 => 29,
            Branch::D1FebEndKept => 30,
            Branch::D2Is31To30 => 31,
            Branch::D2Is31To30SinceD1AtLeast30 => 32,
            Branch::D2Is31KeptSinceD1Below30 => 33,
            Branch::D2FebEndTo30NotTermination => 34,
            Branch::D2FebEndIsTermination => 35,
            Branch::D2FebEndTo30SinceD1FebEnd => 36,
            Branch::D2FebEndKept => 37,
        }
    }

    pub fn index(self) -> (i: u8)
        ensures
            i == self.spec_index(),
    {
        match self {
            Branch::EmptyPeriod => 0,
            Branch::ActualOver360 => 1,
            Branch::ActualOver365 => 2,
            Branch::ThirtyDayMonths => 3,
            Branch::LeapAnnualFeb29 => 4,
            Branch::LeapAnnualNoFeb29 => 5,
            Branch::LeapEndInLeapYear => 6,
            Branch::LeapEndInCommonYear => 7,
            Branch::NoLeapDayRemoved => 8,
            Branch::IsdaOneCalendarYear => 9,
            Branch::IsdaSplitAtYearEnd => 10,
            Branch::IsdaLeapYearDays => 11,
            Branch::IsdaCommonYearDays => 12,
            Branch::AfbWholeYears => 13,
            Branch::AfbFeb28BackToFeb29 => 14,
            Branch::AfbFeb29InRemainder => 15,
            Branch::AfbNoFeb29InRemainder => 16,
            Branch::RegularPeriod => 17,
            Branch::WholeRegularPeriods => 18,
            Branch::ShortStub => 19,
            Branch::LongStub => 20,
            Branch::StartOffSchedule => 21,
            Branch::EndOffSchedule => 22,
            Branch::EndOfMonthRoll => 23,
            Branch::FullReferencePeriod => 24,
            Branch::IcmaPartialPiece => 25,
            Branch::CanadianShortPiece => 26,
            Branch::CanadianLongPiece => 27,
            Branch::D1Is31To30 => 28,
            Branch::D1FebEndTo30 => 29,
            Branch::D1FebEndKept => 30,
            Branch::D2Is31To30 => 31,
            Branch::D2Is31To30SinceD1AtLeast30 => 32,
            Branch::D2Is31KeptSinceD1Below30 => 33,
            Branch::D2FebEndTo30NotTermination => 34,
            Branch::D2FebEndIsTermination => 35,
            Branch::D2FebEndTo30SinceD1FebEnd => 36,
            Branch::D2FebEndKept => 37,
        }
    }

    /// The branch with position `i` in declaration order.
    pub open spec fn from_index(i: int) -> Branch {
        if i == 0 {
            Branch::EmptyPeriod
        } else if i == 1 {
            Branch::ActualOver360
        } else if i == 2 {
            Branch::ActualOver365
        } else if i == 3 {
            Branch::ThirtyDayMonths
        } else if i == 4 {
            Branch::LeapAnnualFeb29
        } else if i == 5 {
            Branch::LeapAnnualNoFeb29
        } else if i == 6 {
            Branch::LeapEndInLeapYear
        } else if i == 7 {
            Branch::LeapEndInCommonYear
        } else if i == 8 {
            Branch::NoLeapDayRemoved
        } else if i == 9 {
            Branch::IsdaOneCalendarYear
        } else if i == 10 {
            Branch::IsdaSplitAtYearEnd
        } else if i == 11 {
            Branch::IsdaLeapYearDays
        } else if i == 12 {
            Branch::IsdaCommonYearDays
        } else if i == 13 {
            Branch::AfbWholeYears
        } else if i == 14 {
            Branch::AfbFeb28BackToFeb29
        } else if i == 15 {
            Branch::AfbFeb29InRemainder
        } else if i == 16 {
            Branch::AfbNoFeb29InRemainder
        } else if i == 17 {
            Branch::RegularPeriod
        } else if i == 18 {
            Branch::WholeRegularPeriods
        } else if i == 19 {
            Branch::ShortStub
        } else if i == 20 {
            Branch::LongStub
        } else if i == 21 {
            Branch::StartOffSchedule
        } else if i == 22 {
            Branch::EndOffSchedule
        } else if i == 23 {
            Branch::EndOfMonthRoll
        } else if i == 24 {
            Branch::FullReferencePeriod
        } else if i == 25 {
            Branch::IcmaPartialPiece
        } else if i == 26 {
            Branch::CanadianShortPiece
        } else if i == 27 {
            Branch::CanadianLongPiece
        } else if i == 28 {
            Branch::D1Is31To30
        } else if i == 29 {
            Branch::D1FebEndTo30
        } else if i == 30 {
            Branch::D1FebEndKept
        } else if i == 31 {
            Branch::D2Is31To30
        } else if i == 32 {
            Branch::D2Is31To30SinceD1AtLeast30
        } else if i == 33 {
            Branch::D2Is31KeptSinceD1Below30
        } else if i == 34 {
            Branch::D2FebEndTo30NotTermination
        } else if i == 35 {
            Branch::D2FebEndIsTermination
        } else if i == 36 {
            Branch::D2FebEndTo30SinceD1FebEnd
        } else {
            Branch::D2FebEndKept
        }
    }

    pub open spec fn spec_label(self) -> Seq<char> {
        match self {
            Branch::EmptyPeriod => "start equals end: zero"@,
            Branch::ActualOver360 => "actual days / 360"@,
            Branch::ActualOver365 => "actual days / 365"@,
            Branch::ThirtyDayMonths => "30-day months: 360*dY + 30*dM + dD, / 360"@,
            Branch::LeapAnnualFeb29 => "annual: Feb 29 in (start, end], denominator 366"@,
            Branch::LeapAnnualNoFeb29 => "annual: no Feb 29 in (start, end], denominator 365"@,
            Branch::LeapEndInLeapYear => "end date in a leap year, denominator 366"@,
            Branch::LeapEndInCommonYear => "end date in a common year, denominator 365"@,
            Branch::NoLeapDayRemoved => "Feb 29 removed from the day count"@,
            Branch::IsdaOneCalendarYear => "period inside one calendar year"@,
            Branch::IsdaSplitAtYearEnd => "period split at year boundaries"@,
            Branch::IsdaLeapYearDays => "days in a leap year counted /366"@,
            Branch::IsdaCommonYearDays => "days in a common year counted /365"@,
            Branch::AfbWholeYears => "whole years counted back from the end date"@,
            Branch::AfbFeb28BackToFeb29 => "counting back from Feb 28 landed on Feb 29"@,
            Branch::AfbFeb29InRemainder => "Feb 29 in the remaining period, denominator 366"@,
            Branch::AfbNoFeb29InRemainder => "no Feb 29 in the remaining period, denominator 365"@,
            Branch::RegularPeriod => "exactly one regular reference period"@,
            Branch::WholeRegularPeriods => "several whole regular reference periods"@,
            Branch::ShortStub => "stub inside a single reference period"@,
            Branch::LongStub => "stub spanning several reference periods"@,
            Branch::StartOffSchedule => "start date is not a roll date"@,
            Branch::EndOffSchedule => "end date is not a roll date"@,
            Branch::EndOfMonthRoll => "roll dates forced to month ends"@,
            Branch::FullReferencePeriod => "full reference period: 1/f"@,
            Branch::IcmaPartialPiece => "partial piece: days / (f * reference period days)"@,
            Branch::CanadianShortPiece => "piece under 365/f days: days/365"@,
            Branch::CanadianLongPiece => "partial piece of at least 365/f days: 1/f - (period days - days)/365"@,
            Branch::D1Is31To30 => "D1 = 31 -> 30"@,
            Branch::D1FebEndTo30 => "D1 last day of Feb -> 30"@,
            Branch::D1FebEndKept => "D1 last day of Feb kept"@,
            Branch::D2Is31To30 => "D2 = 31 -> 30"@,
            Branch::D2Is31To30SinceD1AtLeast30 => "D2 = 31 and D1 is 30 or 31 -> 30"@,
            Branch::D2Is31KeptSinceD1Below30 => "D2 = 31 kept because D1 < 30"@,
            Branch::D2FebEndTo30NotTermination => "D2 last day of Feb, not the termination date -> 30"@,
            Branch::D2FebEndIsTermination => "D2 last day of Feb is the termination date: kept"@,
            Branch::D2FebEndTo30SinceD1FebEnd => "D1 and D2 both last day of Feb -> D2 = 30"@,
            Branch::D2FebEndKept => "D2 last day of Feb kept"@,
        }
    }

    /// The branch at position `i` in declaration order.
    pub fn from_position(i: u8) -> (b: Branch)
        requires
            i < 38,
        ensures
            b == Branch::from_index(i as int),
    {
        match i {
            0 => Branch::EmptyPeriod,
            1 => Branch::ActualOver360,
            2 => Branch::ActualOver365,
            3 => Branch::ThirtyDayMonths,
            4 => Branch::LeapAnnualFeb29,
            5 => Branch::LeapAnnualNoFeb29,
            6 => Branch::LeapEndInLeapYear,
            7 => Branch::LeapEndInCommonYear,
            8 => Branch::NoLeapDayRemoved,
            9 => Branch::IsdaOneCalendarYear,
            10 => Branch::IsdaSplitAtYearEnd,
            11 => Branch::IsdaLeapYearDays,
            12 => Branch::IsdaCommonYearDays,
            13 => Branch::AfbWholeYears,
            14 => Branch::AfbFeb28BackToFeb29,
            15 => Branch::AfbFeb29InRemainder,
            16 => Branch::AfbNoFeb29InRemainder,
            17 => Branch::RegularPeriod,
            18 => Branch::WholeRegularPeriods,
            19 => Branch::ShortStub,
            20 => Branch::LongStub,
            21 => Branch::StartOffSchedule,
            22 => Branch::EndOffSchedule,
            23 => Branch::EndOfMonthRoll,
            24 => Branch::FullReferencePeriod,
            25 => Branch::IcmaPartialPiece,
            26 => Branch::CanadianShortPiece,
            27 => Branch::CanadianLongPiece,
            28 => Branch::D1Is31To30,
            29 => Branch::D1FebEndTo30,
            30 => Branch::D1FebEndKept,
            31 => Branch::D2Is31To30,
            32 => Branch::D2Is31To30SinceD1AtLeast30,
            33 => Branch::D2Is31KeptSinceD1Below30,
            34 => Branch::D2FebEndTo30NotTermination,
            35 => Branch::D2FebEndIsTermination,
            36 => Branch::D2FebEndTo30SinceD1FebEnd,
            _ => Branch::D2FebEndKept,
        }
    }

    /// A one-line description of the rule.
    pub fn label(self) -> (s: &'static str)
        ensures
            s@ == self.spec_label(),
    {
        match self {
            Branch::EmptyPeriod => "start equals end: zero",
            Branch::ActualOver360 => "actual days / 360",
            Branch::ActualOver365 => "actual days / 365",
            Branch::ThirtyDayMonths => "30-day months: 360*dY + 30*dM + dD, / 360",
            Branch::LeapAnnualFeb29 => "annual: Feb 29 in (start, end], denominator 366",
            Branch::LeapAnnualNoFeb29 => "annual: no Feb 29 in (start, end], denominator 365",
            Branch::LeapEndInLeapYear => "end date in a leap year, denominator 366",
            Branch::LeapEndInCommonYear => "end date in a common year, denominator 365",
            Branch::NoLeapDayRemoved => "Feb 29 removed from the day count",
            Branch::IsdaOneCalendarYear => "period inside one calendar year",
            Branch::IsdaSplitAtYearEnd => "period split at year boundaries",
            Branch::IsdaLeapYearDays => "days in a leap year counted /366",
            Branch::IsdaCommonYearDays => "days in a common year counted /365",
            Branch::AfbWholeYears => "whole years counted back from the end date",
            Branch::AfbFeb28BackToFeb29 => "counting back from Feb 28 landed on Feb 29",
            Branch::AfbFeb29InRemainder => "Feb 29 in the remaining period, denominator 366",
            Branch::AfbNoFeb29InRemainder => "no Feb 29 in the remaining period, denominator 365",
            Branch::RegularPeriod => "exactly one regular reference period",
            Branch::WholeRegularPeriods => "several whole regular reference periods",
            Branch::ShortStub => "stub inside a single reference period",
            Branch::LongStub => "stub spanning several reference periods",
            Branch::StartOffSchedule => "start date is not a roll date",
            Branch::EndOffSchedule => "end date is not a roll date",
            Branch::EndOfMonthRoll => "roll dates forced to month ends",
            Branch::FullReferencePeriod => "full reference period: 1/f",
            Branch::IcmaPartialPiece => "partial piece: days / (f * reference period days)",
            Branch::CanadianShortPiece => "piece under 365/f days: days/365",
            Branch::CanadianLongPiece => "partial piece of at least 365/f days: 1/f - (period days - days)/365",
            Branch::D1Is31To30 => "D1 = 31 -> 30",
            Branch::D1FebEndTo30 => "D1 last day of Feb -> 30",
            Branch::D1FebEndKept => "D1 last day of Feb kept",
            Branch::D2Is31To30 => "D2 = 31 -> 30",
            Branch::D2Is31To30SinceD1AtLeast30 => "D2 = 31 and D1 is 30 or 31 -> 30",
            Branch::D2Is31KeptSinceD1Below30 => "D2 = 31 kept because D1 < 30",
            Branch::D2FebEndTo30NotTermination => "D2 last day of Feb, not the termination date -> 30",
            Branch::D2FebEndIsTermination => "D2 last day of Feb is the termination date: kept",
            Branch::D2FebEndTo30SinceD1FebEnd => "D1 and D2 both last day of Feb -> D2 = 30",
            Branch::D2FebEndKept => "D2 last day of Feb kept",
        }
    }

    /// The label, as an owned string.
    pub fn to_string(self) -> (s: String)
        ensures
            s@ == self.spec_label(),
    {
        String::from_str(self.label())
    }
}

/// Positions identify branches.
pub proof fn lemma_branch_index(b: Branch)
    ensures
        0 <= b.spec_index() < 38,
        Branch::from_index(b.spec_index()) == b,
        all_branches()[b.spec_index()] == b,
        all_branches().len() == 38,
{
}

proof fn lemma_bit_insert(x: u64, i: u64, j: u64)
    requires
        x < 0x40_0000_0000,
        i < 38,
        j < 38,
    ensures
        (x | (1u64 << i)) < 0x40_0000_0000,
        ((x | (1u64 << i)) >> j) & 1u64 == 1u64 <==> ((x >> j) & 1u64 == 1u64 || i == j),
{
    assert((x | (1u64 << i)) < 0x40_0000_0000) by (bit_vector)
        requires
            x < 0x40_0000_0000,
            i < 38,
    ;
    assert(((x | (1u64 << i)) >> j) & 1u64 == 1u64 <==> ((x >> j) & 1u64 == 1u64 || i == j))
        by (bit_vector)
        requires
            i < 38,
            j < 38,
    ;
}

proof fn lemma_bit_difference(x: u64, y: u64, j: u64)
    requires
        x < 0x40_0000_0000,
        j < 38,
    ensures
        (x & !y) < 0x40_0000_0000,
        ((x & !y) >> j) & 1u64 == 1u64 <==> ((x >> j) & 1u64 == 1u64 && (y >> j) & 1u64 != 1u64),
{
    assert((x & !y) < 0x40_0000_0000) by (bit_vector)
        requires
            x < 0x40_0000_0000,
    ;
    assert(((x & !y) >> j) & 1u64 == 1u64 <==> ((x >> j) & 1u64 == 1u64 && (y >> j) & 1u64 != 1u64))
        by (bit_vector)
        requires
            j < 38,
    ;
}

proof fn lemma_bit_nonzero(x: u64)
    requires
        x < 0x40_0000_0000,
        x != 0,
    ensures
        exists|j: u64| j < 38 && (x >> j) & 1u64 == 1u64,
{
    assert((x >> 0u64) & 1u64 == 1u64 || (x >> 1u64) & 1u64 == 1u64 || (x >> 2u64) & 1u64 == 1u64 || (x >> 3u64) & 1u64 == 1u64 || (x >> 4u64) & 1u64 == 1u64 || (x >> 5u64) & 1u64 == 1u64 || (x >> 6u64) & 1u64 == 1u64 || (x >> 7u64) & 1u64 == 1u64 || (x >> 8u64) & 1u64 == 1u64 || (x >> 9u64) & 1u64 == 1u64 || (x >> 10u64) & 1u64 == 1u64 || (x >> 11u64) & 1u64 == 1u64 || (x >> 12u64) & 1u64 == 1u64 || (x >> 13u64) & 1u64 == 1u64 || (x >> 14u64) & 1u64 == 1u64 || (x >> 15u64) & 1u64 == 1u64 || (x >> 16u64) & 1u64 == 1u64 || (x >> 17u64) & 1u64 == 1u64 || (x >> 18u64) & 1u64 == 1u64 || (x >> 19u64) & 1u64 == 1u64 || (x >> 20u64) & 1u64 == 1u64 || (x >> 21u64) & 1u64 == 1u64 || (x >> 22u64) & 1u64 == 1u64 || (x >> 23u64) & 1u64 == 1u64 || (x >> 24u64) & 1u64 == 1u64 || (x >> 25u64) & 1u64 == 1u64 || (x >> 26u64) & 1u64 == 1u64 || (x >> 27u64) & 1u64 == 1u64 || (x >> 28u64) & 1u64 == 1u64 || (x >> 29u64) & 1u64 == 1u64 || (x >> 30u64) & 1u64 == 1u64 || (x >> 31u64) & 1u64 == 1u64 || (x >> 32u64) & 1u64 == 1u64 || (x >> 33u64) & 1u64 == 1u64 || (x >> 34u64) & 1u64 == 1u64 || (x >> 35u64) & 1u64 == 1u64 || (x >> 36u64) & 1u64 == 1u64 || (x >> 37u64) & 1u64 == 1u64) by (bit_vector)
        requires
            x < 0x40_0000_0000,
            x != 0,
    ;
    if (x >> 0u64) & 1u64 == 1u64 { assert(exists|j: u64| j < 38 && (x >> j) & 1u64 == 1u64); }
    if (x >> 1u64) & 1u64 == 1u64 { assert(exists|j: u64| j < 38 && (x >> j) & 1u64 == 1u64); }
    if (x >> 2u64) & 1u64 == 1u64 { assert(exists|j: u64| j < 38 && (x >> j) & 1u64 == 1u64); }
    if (x >> 3u64) & 1u64 == 1u64 { assert(exists|j: u64| j < 38 && (x >> j) & 1u64 == 1u64); }
    if (x >> 4u64) & 1u64 == 1u64 { assert(exists|j: u64| j < 38 && (x >> j) & 1u64 == 1u64); }
    if (x >> 5u64) & 1u64 == 1u64 { assert(exists|j: u64| j < 38 && (x >> j) & 1u64 == 1u64); }
    if (x >> 6u64) & 1u64 == 1u64 { assert(exists|j: u64| j < 38 && (x >> j) & 1u64 == 1u64); }
    if (x >> 7u64) & 1u64 == 1u64 { assert(exists|j: u64| j < 38 && (x >> j) & 1u64 == 1u64); }
    if (x >> 8u64) & 1u64 == 1u64 { assert(exists|j: u64| j < 38 && (x >> j) & 1u64 == 1u64); }
    if (x >> 9u64) & 1u64 == 1u64 { assert(exists|j: u64| j < 38 && (x >> j) & 1u64 == 1u64); }
    if (x >> 10u64) & 1u64 == 1u64 { assert(exists|j: u64| j < 38 && (x >> j) & 1u64 == 1u64); }
    if (x >> 11u64) & 1u64 == 1u64 { assert(exists|j: u64| j < 38 && (x >> j) & 1u64 == 1u64); }
    if (x >> 12u64) & 1u64 == 1u64 { assert(exists|j: u64| j < 38 && (x >> j) & 1u64 == 1u64); }
    if (x >> 13u64) & 1u64 == 1u64 { assert(exists|j: u64| j < 38 && (x >> j) & 1u64 == 1u64); }
    if (x >> 14u64) & 1u64 == 1u64 { assert(exists|j: u64| j < 38 && (x >> j) & 1u64 == 1u64); }
    if (x >> 15u64) & 1u64 == 1u64 { assert(exists|j: u64| j < 38 && (x >> j) & 1u64 == 1u64); }
    if (x >> 16u64) & 1u64 == 1u64 { assert(exists|j: u64| j < 38 && (x >> j) & 1u64 == 1u64); }
    if (x >> 17u64) & 1u64 == 1u64 { assert(exists|j: u64| j < 38 && (x >> j) & 1u64 == 1u64); }
    if (x >> 18u64) & 1u64 == 1u64 { assert(exists|j: u64| j < 38 && (x >> j) & 1u64 == 1u64); }
    if (x >> 19u64) & 1u64 == 1u64 { assert(exists|j: u64| j < 38 && (x >> j) & 1u64 == 1u64); }
    if (x >> 20u64) & 1u64 == 1u64 { assert(exists|j: u64| j < 38 && (x >> j) & 1u64 == 1u64); }
    if (x >> 21u64) & 1u64 == 1u64 { assert(exists|j: u64| j < 38 && (x >> j) & 1u64 == 1u64); }
    if (x >> 22u64) & 1u64 == 1u64 { assert(exists|j: u64| j < 38 && (x >> j) & 1u64 == 1u64); }
    if (x >> 23u64) & 1u64 == 1u64 { assert(exists|j: u64| j < 38 && (x >> j) & 1u64 == 1u64); }
    if (x >> 24u64) & 1u64 == 1u64 { assert(exists|j: u64| j < 38 && (x >> j) & 1u64 == 1u64); }
    if (x >> 25u64) & 1u64 == 1u64 { assert(exists|j: u64| j < 38 && (x >> j) & 1u64 == 1u64); }
    if (x >> 26u64) & 1u64 == 1u64 { assert(exists|j: u64| j < 38 && (x >> j) & 1u64 == 1u64); }
    if (x >> 27u64) & 1u64 == 1u64 { assert(exists|j: u64| j < 38 && (x >> j) & 1u64 == 1u64); }
    if (x >> 28u64) & 1u64 == 1u64 { assert(exists|j: u64| j < 38 && (x >> j) & 1u64 == 1u64); }
    if (x >> 29u64) & 1u64 == 1u64 { assert(exists|j: u64| j < 38 && (x >> j) & 1u64 == 1u64); }
    if (x >> 30u64) & 1u64 == 1u64 { assert(exists|j: u64| j < 38 && (x >> j) & 1u64 == 1u64); }
    if (x >> 31u64) & 1u64 == 1u64 { assert(exists|j: u64| j < 38 && (x >> j) & 1u64 == 1u64); }
    if (x >> 32u64) & 1u64 == 1u64 { assert(exists|j: u64| j < 38 && (x >> j) & 1u64 == 1u64); }
    if (x >> 33u64) & 1u64 == 1u64 { assert(exists|j: u64| j < 38 && (x >> j) & 1u64 == 1u64); }
    if (x >> 34u64) & 1u64 == 1u64 { assert(exists|j: u64| j < 38 && (x >> j) & 1u64 == 1u64); }
    if (x >> 35u64) & 1u64 == 1u64 { assert(exists|j: u64| j < 38 && (x >> j) & 1u64 == 1u64); }
    if (x >> 36u64) & 1u64 == 1u64 { assert(exists|j: u64| j < 38 && (x >> j) & 1u64 == 1u64); }
    if (x >> 37u64) & 1u64 == 1u64 { assert(exists|j: u64| j < 38 && (x >> j) & 1u64 == 1u64); }
}

proof fn lemma_bit_zero(j: u64)
    requires
        j < 38,
    ensures
        (0u64 >> j) & 1u64 != 1u64,
{
    assert((0u64 >> j) & 1u64 != 1u64) by (bit_vector);
}

/// The set of rule branches taken by one calculation, stored as a bitset so
/// that enumerating hundreds of millions of periods never allocates.
#[derive(Clone, Copy, PartialEq, Eq, Structural, Hash, Debug, PartialOrd, Ord)]
pub struct Trace(u64);

impl View for Trace {
    type V = Set<Branch>;

    open spec fn view(&self) -> Set<Branch> {
        Set::new(|b: Branch| self.has(b))
    }
}

/// The labels of `bs`, separated by `; `.
pub open spec fn join_labels(bs: Seq<Branch>) -> Seq<char>
    decreases bs.len(),
{
    if bs.len() == 0 {
        Seq::empty()
    } else if bs.len() == 1 {
        bs[0].spec_label()
    } else {
        join_labels(bs.drop_last()) + "; "@ + bs.last().spec_label()
    }
}

impl Trace {
    #[verifier::type_invariant]
    spec fn only_branch_bits(self) -> bool {
        self.0 < 0x40_0000_0000
    }

    pub closed spec fn bits(self) -> u64 {
        self.0
    }

    /// Branch `b` was taken.
    pub open spec fn has(self, b: Branch) -> bool {
        (self.bits() >> (b.spec_index() as u64)) & 1u64 == 1u64
    }

    /// The branches taken among the first `i`, in declaration order.
    pub open spec fn listed(self, i: int) -> Seq<Branch>
        decreases i,
    {
        if i <= 0 {
            Seq::empty()
        } else {
            let b = Branch::from_index(i - 1);
            if self.has(b) {
                self.listed(i - 1).push(b)
            } else {
                self.listed(i - 1)
            }
        }
    }

    /// The empty trace.
    pub fn new() -> (t: Trace)
        ensures
            t@ == Set::<Branch>::empty(),
    {
        let t = Trace(0);
        proof {
            assert forall|b: Branch| !t.has(b) by {
                lemma_branch_index(b);
                lemma_bit_zero(b.spec_index() as u64);
            }
            assert(t@ =~= Set::<Branch>::empty());
        }
        t
    }

    pub fn insert(&mut self, branch: Branch)
        ensures
            final(self)@ == old(self)@.insert(branch),
    {
        proof {
            use_type_invariant(&*self);
        }
        let i = branch.index();
        let ghost x = self.0;
        proof {
            lemma_branch_index(branch);
            lemma_bit_insert(x, i as u64, 0);
        }
        self.0 = self.0 | (1u64 << i);
        proof {
            assert forall|b: Branch| self.has(b) == (old(self).has(b) || b == branch) by {
                lemma_branch_index(b);
                lemma_bit_insert(x, i as u64, b.spec_index() as u64);
            }
            assert(self@ =~= old(self)@.insert(branch));
        }
    }

    pub fn contains(self, branch: Branch) -> (r: bool)
        ensures
            r == self@.contains(branch),
    {
        let i = branch.index();
        (self.0 >> i) & 1u64 == 1u64
    }

    /// The branches in `self` and not in `other`.
    pub fn difference(self, other: Trace) -> (t: Trace)
        ensures
            t@ == self@.difference(other@),
            t.bits() < 0x40_0000_0000,
    {
        proof {
            use_type_invariant(&self);
            lemma_bit_difference(self.0, other.0, 0);
        }
        let t = Trace(self.0 & !other.0);
        proof {
            assert forall|b: Branch| t.has(b) == (self.has(b) && !other.has(b)) by {
                lemma_branch_index(b);
                lemma_bit_difference(self.0, other.0, b.spec_index() as u64);
            }
            assert(t@ =~= self@.difference(other@));
        }
        t
    }

    pub fn is_empty(self) -> (r: bool)
        ensures
            r == (self@ == Set::<Branch>::empty()),
    {
        proof {
            use_type_invariant(&self);
        }
        if self.0 == 0 {
            proof {
                assert forall|b: Branch| !self.has(b) by {
                    lemma_branch_index(b);
                    lemma_bit_zero(b.spec_index() as u64);
                }
                assert(self@ =~= Set::<Branch>::empty());
            }
            true
        } else {
            proof {
                lemma_bit_nonzero(self.0);
                let j = choose|j: u64| j < 38 && (self.0 >> j) & 1u64 == 1u64;
                let b = Branch::from_index(j as int);
                assert(b.spec_index() == j);
                assert(self@.contains(b));
            }
            false
        }
    }

    /// The branches taken, in declaration order.
    pub fn branches(self) -> (v: Vec<Branch>)
        ensures
            v@ == self.listed(38),
    {
        let mut v: Vec<Branch> = Vec::new();
        let mut i: u8 = 0;
        while i < 38
            invariant
                i <= 38,
                v@ == self.listed(i as int),
            decreases 38 - i,
        {
            let b = Branch::from_position(i);
            proof {
                lemma_branch_index(b);
                assert(b.spec_index() == i);
            }
            if self.contains(b) {
                v.push(b);
            }
            i = i + 1;
        }
        v
    }

    /// The labels of the branches taken, separated by `; `, or `(none)`.
    pub fn to_string(self) -> (s: String)
        ensures
            self.listed(38).len() == 0 ==> s@ == "(none)"@,
            self.listed(38).len() > 0 ==> s@ == join_labels(self.listed(38)),
    {
        let bs = self.branches();
        if bs.len() == 0 {
            return String::from_str("(none)");
        }
        let mut s = String::from_str(bs[0].label());
        let mut i: usize = 1;
        proof {
            assert(bs@.take(1) =~= seq![bs@[0]]);
            assert(join_labels(bs@.take(1)) == bs@[0].spec_label());
        }
        while i < bs.len()
            invariant
                1 <= i <= bs@.len(),
                s@ == join_labels(bs@.take(i as int)),
            decreases bs@.len() - i,
        {
            s.append("; ");
            s.append(bs[i].label());
            proof {
                assert(bs@.take(i + 1).drop_last() =~= bs@.take(i as int));
            }
            i = i + 1;
        }
        proof {
            assert(bs@.take(bs@.len() as int) =~= bs@);
        }
        s
    }

    /// The order key of the bitset.
    pub fn key(self) -> (k: u64)
        ensures
            k == self.bits(),
            k < 0x40_0000_0000,
    {
        proof {
            use_type_invariant(&self);
        }
        self.0
    }

    /// Traces with the same bits are the same trace.
    pub proof fn lemma_bits_determine(x: Trace, y: Trace)
        ensures
            (x == y) == (x.bits() == y.bits()),
    {
    }

    /// A trace is determined by the branches it holds.
    pub proof fn lemma_view_injective(x: Trace, y: Trace)
        requires
            x.bits() < 0x40_0000_0000,
            y.bits() < 0x40_0000_0000,
            x@ == y@,
        ensures
            x == y,
    {
        let u = x.0;
        let v = y.0;
        if u != v {
            let z = u ^ v;
            assert(z < 0x40_0000_0000 && z != 0) by (bit_vector)
                requires
                    u < 0x40_0000_0000,
                    v < 0x40_0000_0000,
                    u != v,
                    z == u ^ v,
            ;
            lemma_bit_nonzero(z);
            let j = choose|j: u64| j < 38 && (z >> j) & 1u64 == 1u64;
            assert(((u >> j) & 1u64 == 1u64) != ((v >> j) & 1u64 == 1u64)) by (bit_vector)
                requires
                    z == u ^ v,
                    (z >> j) & 1u64 == 1u64,
            ;
            let b = Branch::from_index(j as int);
            assert(b.spec_index() == j);
            assert(x.has(b) == ((u >> j) & 1u64 == 1u64));
            assert(y.has(b) == ((v >> j) & 1u64 == 1u64));
            assert(x@.contains(b) == x.has(b));
            assert(y@.contains(b) == y.has(b));
        }
    }
}

impl core::default::Default for Trace {
    fn default() -> (t: Trace)
        ensures
            t@ == Set::<Branch>::empty(),
    {
        Trace::new()
    }
}

/// `b` as ASCII lower case.
pub open spec fn ascii_lower(b: u8) -> u8 {
    if 65 <= b <= 90 {
        (b + 32) as u8
    } else {
        b
    }
}

/// The two byte strings are equal ignoring ASCII case.
pub open spec fn same_ignoring_ascii_case(a: Seq<u8>, b: Seq<u8>) -> bool {
    a.len() == b.len() && forall|i: int| 0 <= i < a.len() ==> ascii_lower(#[trigger] a[i]) == ascii_lower(b[i])
}

/// The text is the convention's id or name, ignoring ASCII case.
pub open spec fn names_convention(text: Seq<u8>, c: Convention) -> bool {
    same_ignoring_ascii_case(vstd::utf8::encode_utf8(c.spec_id()), text) || same_ignoring_ascii_case(
        vstd::utf8::encode_utf8(c.spec_name()),
        text,
    )
}

/// What `Convention::parse(s)` gives: the first convention in declaration
/// order whose id or name the text is, ignoring ASCII case; else
/// `UnknownConvention` with the text.
pub open spec fn parse_result(s: &str, r: Result<Convention, Error>) -> bool {
    if exists|i: int| 0 <= i < 12 && #[trigger] names_convention(s.spec_bytes(), all_conventions()[i]) {
        r matches Ok(c) && exists|i: int|
            0 <= i < 12 && all_conventions()[i] == c && names_convention(s.spec_bytes(), c) && forall|j: int|
                0 <= j < i ==> !#[trigger] names_convention(s.spec_bytes(), all_conventions()[j])
    } else {
        r matches Err(Error::UnknownConvention(m)) && m@ == s@
    }
}

fn eq_ignore_ascii_case(a: &[u8], b: &[u8]) -> (r: bool)
    ensures
        r == same_ignoring_ascii_case(a@, b@),
{
    if a.len() != b.len() {
        return false;
    }
    let mut i: usize = 0;
    while i < a.len()
        invariant
            a@.len() == b@.len(),
            i <= a@.len(),
            forall|j: int| 0 <= j < i ==> ascii_lower(#[trigger] a@[j]) == ascii_lower(b@[j]),
        decreases a@.len() - i,
    {
        let x = if 65 <= a[i] && a[i] <= 90 {
            a[i] + 32
        } else {
            a[i]
        };
        let y = if 65 <= b[i] && b[i] <= 90 {
            b[i] + 32
        } else {
            b[i]
        };
        if x != y {
            return false;
        }
        i = i + 1;
    }
    true
}

#[derive(Clone, Copy, PartialEq, Eq, Structural, Hash, Debug)]
pub enum Convention {
    Act360,
    Act365Fixed,
    Act365Leap,
    NoLeap365,
    ActActIsda,
    ActActIcma,
    ActActAfb,
    Thirty360Bond,
    Thirty360Us,
    Thirty360European,
    Thirty360EuropeanIsda,
    Act365Canadian,
}

/// Every convention, in declaration order.
pub open spec fn all_conventions() -> Seq<Convention> {
    seq![
        Convention::Act360,
        Convention::Act365Fixed,
        Convention::Act365Leap,
        Convention::NoLeap365,
        Convention::ActActIsda,
        Convention::ActActIcma,
        Convention::ActActAfb,
        Convention::Thirty360Bond,
        Convention::Thirty360Us,
        Convention::Thirty360European,
        Convention::Thirty360EuropeanIsda,
        Convention::Act365Canadian,
    ]
}

impl Convention {
    /// Every convention, in declaration order.
    pub const ALL: [Convention; 12] = [
        Convention::Act360,
        Convention::Act365Fixed,
        Convention::Act365Leap,
        Convention::NoLeap365,
        Convention::ActActIsda,
        Convention::ActActIcma,
        Convention::ActActAfb,
        Convention::Thirty360Bond,
        Convention::Thirty360Us,
        Convention::Thirty360European,
        Convention::Thirty360EuropeanIsda,
        Convention::Act365Canadian,
    ];

    pub open spec fn spec_id(self) -> Seq<char> {
        match self {
            Convention::Act360 => "act360"@,
            Convention::Act365Fixed => "act365f"@,
            Convention::Act365Leap => "act365l"@,
            Convention::NoLeap365 => "nl365"@,
            Convention::ActActIsda => "actact-isda"@,
            Convention::ActActIcma => "actact-icma"@,
            Convention::ActActAfb => "actact-afb"@,
            Convention::Thirty360Bond => "30-360"@,
            Convention::Thirty360Us => "30u-360"@,
            Convention::Thirty360European => "30e-360"@,
            Convention::Thirty360EuropeanIsda => "30e-360-isda"@,
            Convention::Act365Canadian => "act365-canadian"@,
        }
    }

    pub open spec fn spec_name(self) -> Seq<char> {
        match self {
            Convention::Act360 => "ACT/360"@,
            Convention::Act365Fixed => "ACT/365F"@,
            Convention::Act365Leap => "ACT/365L"@,
            Convention::NoLeap365 => "NL/365"@,
            Convention::ActActIsda => "ACT/ACT ISDA"@,
            Convention::ActActIcma => "ACT/ACT ICMA"@,
            Convention::ActActAfb => "ACT/ACT AFB"@,
            Convention::Thirty360Bond => "30/360 Bond Basis"@,
            Convention::Thirty360Us => "30U/360 (SIA)"@,
            Convention::Thirty360European => "30E/360"@,
            Convention::Thirty360EuropeanIsda => "30E/360 ISDA"@,
            Convention::Act365Canadian => "ACT/365 Canadian Bond"@,
        }
    }

    /// Short identifier used on the command line.
    pub fn id(self) -> (s: &'static str)
        ensures
            s@ == self.spec_id(),
    {
        match self {
            Convention::Act360 => "act360",
            Convention::Act365Fixed => "act365f",
            Convention::Act365Leap => "act365l",
            Convention::NoLeap365 => "nl365",
            Convention::ActActIsda => "actact-isda",
            Convention::ActActIcma => "actact-icma",
            Convention::ActActAfb => "actact-afb",
            Convention::Thirty360Bond => "30-360",
            Convention::Thirty360Us => "30u-360",
            Convention::Thirty360European => "30e-360",
            Convention::Thirty360EuropeanIsda => "30e-360-isda",
            Convention::Act365Canadian => "act365-canadian",
        }
    }

    pub fn name(self) -> (s: &'static str)
        ensures
            s@ == self.spec_name(),
    {
        match self {
            Convention::Act360 => "ACT/360",
            Convention::Act365Fixed => "ACT/365F",
            Convention::Act365Leap => "ACT/365L",
            Convention::NoLeap365 => "NL/365",
            Convention::ActActIsda => "ACT/ACT ISDA",
            Convention::ActActIcma => "ACT/ACT ICMA",
            Convention::ActActAfb => "ACT/ACT AFB",
            Convention::Thirty360Bond => "30/360 Bond Basis",
            Convention::Thirty360Us => "30U/360 (SIA)",
            Convention::Thirty360European => "30E/360",
            Convention::Thirty360EuropeanIsda => "30E/360 ISDA",
            Convention::Act365Canadian => "ACT/365 Canadian Bond",
        }
    }

    /// The name, as an owned string.
    pub fn to_string(self) -> (s: String)
        ensures
            s@ == self.spec_name(),
    {
        String::from_str(self.name())
    }

    /// The convention at position `i` in declaration order.
    fn from_position(i: usize) -> (c: Convention)
        requires
            i < 12,
        ensures
            c == all_conventions()[i as int],
    {
        match i {
            0 => Convention::Act360,
            1 => Convention::Act365Fixed,
            2 => Convention::Act365Leap,
            3 => Convention::NoLeap365,
            4 => Convention::ActActIsda,
            5 => Convention::ActActIcma,
            6 => Convention::ActActAfb,
            7 => Convention::Thirty360Bond,
            8 => Convention::Thirty360Us,
            9 => Convention::Thirty360European,
            10 => Convention::Thirty360EuropeanIsda,
            _ => Convention::Act365Canadian,
        }
    }

    /// Parses a convention's id or name, ignoring ASCII case; the first in
    /// declaration order that matches.
    pub fn parse(s: &str) -> (r: Result<Convention, Error>)
        ensures
            parse_result(s, r),
    {
        let text = s.as_bytes();
        let mut i: usize = 0;
        while i < 12
            invariant
                text@ == s.spec_bytes(),
                i <= 12,
                forall|j: int| 0 <= j < i ==> !#[trigger] names_convention(s.spec_bytes(), all_conventions()[j]),
            decreases 12 - i,
        {
            let c = Convention::from_position(i);
            if eq_ignore_ascii_case(c.id().as_bytes(), text) || eq_ignore_ascii_case(
                c.name().as_bytes(),
                text,
            ) {
                proof {
                    assert(names_convention(s.spec_bytes(), all_conventions()[i as int]));
                }
                return Ok(c);
            }
            i = i + 1;
        }
        Err(Error::UnknownConvention(String::from_str(s)))
    }

    pub open spec fn spec_requirements(self) -> Seq<char> {
        match self {
            Convention::Act365Leap => "--freq"@,
            Convention::ActActIcma | Convention::Act365Canadian => "--freq --anchor [--eom]"@,
            Convention::Thirty360EuropeanIsda => "--termination"@,
            _ => ""@,
        }
    }

    /// What `Context` fields this convention reads.
    pub fn requirements(self) -> (s: &'static str)
        ensures
            s@ == self.spec_requirements(),
    {
        match self {
            Convention::Act365Leap => "--freq",
            Convention::ActActIcma | Convention::Act365Canadian => "--freq --anchor [--eom]",
            Convention::Thirty360EuropeanIsda => "--termination",
            _ => "",
        }
    }
}

/// Deal terms some conventions need beyond the two accrual dates.
#[derive(Clone, Copy, PartialEq, Eq, Structural, Debug)]
pub struct Context {
    /// Coupons per year (ACT/365L, ACT/ACT ICMA, Canadian).
    pub frequency: Option<u32>,
    /// A roll date of the coupon schedule, typically maturity (ICMA, Canadian).
    pub anchor: Option<Date>,
    /// Roll on month ends when the anchor is a month end (ICMA, Canadian).
    pub end_of_month: bool,
    /// The deal's termination date (30E/360 ISDA).
    pub termination: Option<Date>,
}

impl core::default::Default for Context {
    fn default() -> (c: Context)
        ensures
            c.frequency is None,
            c.anchor is None,
            !c.end_of_month,
            c.termination is None,
    {
        Context { frequency: None, anchor: None, end_of_month: false, termination: None }
    }
}

/// What `Context::schedule` gives: the first missing or invalid term as an
/// error, else the schedule the terms describe.
pub open spec fn schedule_result(
    context: Context,
    convention: Convention,
    r: Result<Schedule, Error>,
) -> bool {
    match (context.frequency, context.anchor) {
        (None, _) => r == Err::<Schedule, Error>(Error::MissingFrequency(convention)),
        (Some(_), None) => r == Err::<Schedule, Error>(Error::MissingAnchor(convention)),
        (Some(f), Some(a)) => if valid_frequency(f as int) {
            r == Ok::<Schedule, Error>(schedule_of(f, a, context.end_of_month))
        } else {
            r == Err::<Schedule, Error>(Error::InvalidFrequency(f))
        },
    }
}

impl Context {
    pub fn schedule(&self, convention: Convention) -> (r: Result<Schedule, Error>)
        ensures
            schedule_result(*self, convention, r),
    {
        let frequency = match self.frequency {
            Some(f) => f,
            None => return Err(Error::MissingFrequency(convention)),
        };
        let anchor = match self.anchor {
            Some(a) => a,
            None => return Err(Error::MissingAnchor(convention)),
        };
        Schedule::new(frequency, anchor, self.end_of_month)
    }
}

#[derive(Clone, Copy, PartialEq, Eq, Structural, Debug)]
pub struct YearFraction {
    pub value: Rational,
    pub trace: Trace,
}

/// The date is the last day of February.
pub open spec fn is_feb_end(d: Date) -> bool {
    d.month() == 2 && d.day() == month_len(d.year() as int, 2)
}

/// A year fraction's terms stay far from the `i64` limits: the sum of two
/// such fractions never overflows.
pub open spec fn modest(r: Rational) -> bool {
    0 < r.denom() <= 0x20_0000 && -0x100_0000_0000 <= r.numer() <= 0x100_0000_0000
}

/// Dates from user input: years 1 to 9999.
pub open spec fn in_calendar(d: Date) -> bool {
    1 <= d.year() <= 9999
}

// ---------------------------------------------------------------------------
// 30/360 family

/// 30/360 Bond Basis: the adjusted days and the branches taken.
pub open spec fn bond_basis_rule(d1: int, d2: int, f1: bool, f2: bool) -> (int, int, Set<Branch>) {
    let t = set![Branch::ThirtyDayMonths];
    let t = if f1 {
        t.insert(Branch::D1FebEndKept)
    } else {
        t
    };
    let t = if f2 {
        t.insert(Branch::D2FebEndKept)
    } else {
        t
    };
    let (d2, t) = if d2 == 31 {
        if d1 >= 30 {
            (30, t.insert(Branch::D2Is31To30SinceD1AtLeast30))
        } else {
            (d2, t.insert(Branch::D2Is31KeptSinceD1Below30))
        }
    } else {
        (d2, t)
    };
    let (d1, t) = if d1 == 31 {
        (30, t.insert(Branch::D1Is31To30))
    } else {
        (d1, t)
    };
    (d1, d2, t)
}

/// 30U/360 with the SIA February rules.
pub open spec fn us_rule(d1: int, d2: int, f1: bool, f2: bool) -> (int, int, Set<Branch>) {
    let t = set![Branch::ThirtyDayMonths];
    let (d2, t) = if f1 && f2 {
        (30, t.insert(Branch::D2FebEndTo30SinceD1FebEnd))
    } else if f2 {
        (d2, t.insert(Branch::D2FebEndKept))
    } else {
        (d2, t)
    };
    let (d1, t) = if f1 {
        (30, t.insert(Branch::D1FebEndTo30))
    } else {
        (d1, t)
    };
    let (d2, t) = if d2 == 31 {
        if d1 >= 30 {
            (30, t.insert(Branch::D2Is31To30SinceD1AtLeast30))
        } else {
            (d2, t.insert(Branch::D2Is31KeptSinceD1Below30))
        }
    } else {
        (d2, t)
    };
    let (d1, t) = if d1 == 31 {
        (30, t.insert(Branch::D1Is31To30))
    } else {
        (d1, t)
    };
    (d1, d2, t)
}

/// 30E/360: a 31st becomes the 30th at either end.
pub open spec fn european_rule(d1: int, d2: int, f1: bool, f2: bool) -> (int, int, Set<Branch>) {
    let t = set![Branch::ThirtyDayMonths];
    let t = if f1 {
        t.insert(Branch::D1FebEndKept)
    } else {
        t
    };
    let t = if f2 {
        t.insert(Branch::D2FebEndKept)
    } else {
        t
    };
    let (d1, t) = if d1 == 31 {
        (30, t.insert(Branch::D1Is31To30))
    } else {
        (d1, t)
    };
    let (d2, t) = if d2 == 31 {
        (30, t.insert(Branch::D2Is31To30))
    } else {
        (d2, t)
    };
    (d1, d2, t)
}

/// 30E/360 ISDA: February ends become the 30th, except an end date that is
/// the termination date.
pub open spec fn european_isda_rule(d1: int, d2: int, f1: bool, f2: bool, end_is_termination: bool) -> (
    int,
    int,
    Set<Branch>,
) {
    let t = set![Branch::ThirtyDayMonths];
    let (d1, t) = if f1 {
        (30, t.insert(Branch::D1FebEndTo30))
    } else {
        (d1, t)
    };
    let (d1, t) = if d1 == 31 {
        (30, t.insert(Branch::D1Is31To30))
    } else {
        (d1, t)
    };
    let (d2, t) = if f2 {
        if end_is_termination {
            (d2, t.insert(Branch::D2FebEndIsTermination))
        } else {
            (30, t.insert(Branch::D2FebEndTo30NotTermination))
        }
    } else {
        (d2, t)
    };
    let (d2, t) = if d2 == 31 {
        (30, t.insert(Branch::D2Is31To30))
    } else {
        (d2, t)
    };
    (d1, d2, t)
}

pub open spec fn is_thirty_360(c: Convention) -> bool {
    c == Convention::Thirty360Bond || c == Convention::Thirty360Us || c
        == Convention::Thirty360European || c == Convention::Thirty360EuropeanIsda
}

/// The adjusted days and branches of a 30/360 convention.
pub open spec fn thirty_360_rule(c: Convention, start: Date, end: Date, termination: Option<Date>) -> (
    int,
    int,
    Set<Branch>,
) {
    let d1 = start.day() as int;
    let d2 = end.day() as int;
    let f1 = is_feb_end(start);
    let f2 = is_feb_end(end);
    match c {
        Convention::Thirty360Bond => bond_basis_rule(d1, d2, f1, f2),
        Convention::Thirty360Us => us_rule(d1, d2, f1, f2),
        Convention::Thirty360European => european_rule(d1, d2, f1, f2),
        _ => european_isda_rule(d1, d2, f1, f2, termination == Some(end)),
    }
}

/// `360 * dY + 30 * dM + dD` with the adjusted days.
pub open spec fn thirty_360_days(c: Convention, start: Date, end: Date, termination: Option<Date>) -> int {
    let (d1, d2, _) = thirty_360_rule(c, start, end, termination);
    360 * (end.year() - start.year()) + 30 * (end.month() - start.month()) + (d2 - d1)
}

fn thirty_360(
    convention: Convention,
    start: Date,
    end: Date,
    termination: Option<Date>,
    trace: &mut Trace,
) -> (r: Rational)
    requires
        is_thirty_360(convention),
        in_calendar(start),
        in_calendar(end),
    ensures
        r.equals_fraction(thirty_360_days(convention, start, end, termination), 360),
        modest(r),
        final(trace)@ == old(trace)@.union(thirty_360_rule(convention, start, end, termination).2),
{
    let ghost t0 = trace@;
    trace.insert(Branch::ThirtyDayMonths);
    let mut d1 = start.day() as i64;
    let mut d2 = end.day() as i64;
    let d1_feb_end = start.is_last_day_of_february();
    let d2_feb_end = end.is_last_day_of_february();
    match convention {
        Convention::Thirty360Bond => {
            if d1_feb_end {
                trace.insert(Branch::D1FebEndKept);
            }
            if d2_feb_end {
                trace.insert(Branch::D2FebEndKept);
            }
            if d2 == 31 {
                if d1 >= 30 {
                    trace.insert(Branch::D2Is31To30SinceD1AtLeast30);
                    d2 = 30;
                } else {
                    trace.insert(Branch::D2Is31KeptSinceD1Below30);
                }
            }
            if d1 == 31 {
                trace.insert(Branch::D1Is31To30);
                d1 = 30;
            }
        },
        Convention::Thirty360Us => {
            if d1_feb_end && d2_feb_end {
                trace.insert(Branch::D2FebEndTo30SinceD1FebEnd);
                d2 = 30;
            } else if d2_feb_end {
                trace.insert(Branch::D2FebEndKept);
            }
            if d1_feb_end {
                trace.insert(Branch::D1FebEndTo30);
                d1 = 30;
            }
            if d2 == 31 {
                if d1 >= 30 {
                    trace.insert(Branch::D2Is31To30SinceD1AtLeast30);
                    d2 = 30;
                } else {
                    trace.insert(Branch::D2Is31KeptSinceD1Below30);
                }
            }
            if d1 == 31 {
                trace.insert(Branch::D1Is31To30);
                d1 = 30;
            }
        },
        Convention::Thirty360European => {
            if d1_feb_end {
                trace.insert(Branch::D1FebEndKept);
            }
            if d2_feb_end {
                trace.insert(Branch::D2FebEndKept);
            }
            if d1 == 31 {
                trace.insert(Branch::D1Is31To30);
                d1 = 30;
            }
            if d2 == 31 {
                trace.insert(Branch::D2Is31To30);
                d2 = 30;
            }
        },
        _ => {
            if d1_feb_end {
                trace.insert(Branch::D1FebEndTo30);
                d1 = 30;
            }
            if d1 == 31 {
                trace.insert(Branch::D1Is31To30);
                d1 = 30;
            }
            if d2_feb_end {
                let is_termination = match termination {
                    Some(t) => t == end,
                    None => false,
                };
                if is_termination {
                    trace.insert(Branch::D2FebEndIsTermination);
                } else {
                    trace.insert(Branch::D2FebEndTo30NotTermination);
                    d2 = 30;
                }
            }
            if d2 == 31 {
                trace.insert(Branch::D2Is31To30);
                d2 = 30;
            }
        },
    }
    let day_count = 360 * (end.year() as i64 - start.year() as i64) + 30 * (end.month() as i64
        - start.month() as i64) + (d2 - d1);
    let ghost rule = thirty_360_rule(convention, start, end, termination);
    proof {
        assert(d1 == rule.0 && d2 == rule.1);
        assert(trace@ =~= t0.union(rule.2));
    }
    small_fraction(day_count, 360)
}

// ---------------------------------------------------------------------------
// Leap days

/// Number of Feb 29 dates from year 1 through `y-m-d`.
pub open spec fn feb29_through_ymd(y: int, m: int, d: int) -> int {
    let prior = y - 1;
    prior / 4 - prior / 100 + prior / 400 + (if is_leap(y) && (m > 2 || (m == 2 && d == 29)) {
        1int
    } else {
        0
    })
}

/// Number of Feb 29 dates from year 1 through `d`.
pub open spec fn feb29_through(d: Date) -> int {
    feb29_through_ymd(d.year() as int, d.month() as int, d.day() as int)
}

/// A Feb 29 falls in `(a, b]`.
pub open spec fn contains_feb29(a: Date, b: Date) -> bool {
    feb29_through(b) > feb29_through(a)
}

/// Number of Feb 29 dates on or before `date` (from year 1).
fn feb29_count_through(date: Date) -> (r: i64)
    requires
        in_calendar(date),
    ensures
        r == feb29_through(date),
        0 <= r <= 2500,
{
    let prior: u64 = (date.year() - 1) as u64;
    let mut count: i64 = (prior / 4) as i64 - (prior / 100) as i64 + (prior / 400) as i64;
    if crate::date::is_leap_year(date.year()) && (date.month() > 2 || (date.month() == 2
        && date.day() == 29)) {
        count = count + 1;
    }
    count
}

fn contains_feb29_exec(start: Date, end: Date) -> (r: bool)
    requires
        in_calendar(start),
        in_calendar(end),
    ensures
        r == contains_feb29(start, end),
{
    feb29_count_through(end) > feb29_count_through(start)
}

// ---------------------------------------------------------------------------
// ACT/365L and NL/365

/// ACT/365L: the denominator and the branch taken.
pub open spec fn act_365_leap_rule(start: Date, end: Date, frequency: int) -> (int, Branch) {
    if frequency == 1 {
        if contains_feb29(start, end) {
            (366, Branch::LeapAnnualFeb29)
        } else {
            (365, Branch::LeapAnnualNoFeb29)
        }
    } else if is_leap(end.year() as int) {
        (366, Branch::LeapEndInLeapYear)
    } else {
        (365, Branch::LeapEndInCommonYear)
    }
}

fn act_365_leap(start: Date, end: Date, days: i64, frequency: u32, trace: &mut Trace) -> (r: Rational)
    requires
        in_calendar(start),
        in_calendar(end),
        0 <= days <= 4_000_000,
    ensures
        r.equals_fraction(days as int, act_365_leap_rule(start, end, frequency as int).0),
        modest(r),
        final(trace)@ == old(trace)@.insert(act_365_leap_rule(start, end, frequency as int).1),
{
    let denominator: i64 = if frequency == 1 {
        if contains_feb29_exec(start, end) {
            trace.insert(Branch::LeapAnnualFeb29);
            366
        } else {
            trace.insert(Branch::LeapAnnualNoFeb29);
            365
        }
    } else if crate::date::is_leap_year(end.year()) {
        trace.insert(Branch::LeapEndInLeapYear);
        366
    } else {
        trace.insert(Branch::LeapEndInCommonYear);
        365
    };
    small_fraction(days, denominator)
}

/// `n / d` as a `Rational`, for terms far from the `i64` limits.
fn small_fraction(n: i64, d: i64) -> (r: Rational)
    requires
        -0x100_0000_0000 <= n <= 0x100_0000_0000,
        1 <= d <= 0x20_0000,
    ensures
        r.equals_fraction(n as int, d as int),
        modest(r),
        0 < r.denom() <= d,
        -n <= r.numer() <= n || n <= r.numer() <= -n,
{
    proof {
        lemma_fits_when_small(n as int, d as int);
        lemma_reduce(n as int, d as int);
    }
    let r = Rational::new(n, d);
    proof {
        lemma_result_value(n as int, d as int, r);
    }
    match r {
        Ok(v) => v,
        Err(_) => {
            proof {
                assert(false);
            }
            Rational::zero()
        },
    }
}

/// The exact sum of two fractions whose terms are far from the `i64` limits.
fn small_sum(x: Rational, y: Rational) -> (r: Rational)
    requires
        -0x100_0000 <= x.numer() <= 0x100_0000,
        x.denom() <= 0x100_0000,
        -0x100_0000 <= y.numer() <= 0x100_0000,
        y.denom() <= 0x100_0000,
    ensures
        r.equals_fraction(
            x.numer() * y.denom() + y.numer() * x.denom(),
            x.denom() * y.denom(),
        ),
        0 < r.denom() <= x.denom() * y.denom(),
        abs(r.numer() as int) <= abs(x.numer() * y.denom() + y.numer() * x.denom()),
{
    let xd = x.denom();
    let yd = y.denom();
    let ghost n = x.numer() * y.denom() + y.numer() * x.denom();
    let ghost d = x.denom() * y.denom();
    proof {
        assert(-0x1_0000_0000_0000 <= x.numer() * y.denom() <= 0x1_0000_0000_0000) by (nonlinear_arith)
            requires
                -0x100_0000 <= x.numer() <= 0x100_0000,
                0 < y.denom() <= 0x100_0000,
        ;
        assert(-0x1_0000_0000_0000 <= y.numer() * x.denom() <= 0x1_0000_0000_0000) by (nonlinear_arith)
            requires
                -0x100_0000 <= y.numer() <= 0x100_0000,
                0 < x.denom() <= 0x100_0000,
        ;
        assert(0 < d <= 0x1_0000_0000_0000) by (nonlinear_arith)
            requires
                0 < x.denom() <= 0x100_0000,
                0 < y.denom() <= 0x100_0000,
                d == x.denom() * y.denom(),
        ;
        lemma_fits_when_small(n, d);
    }
    let r = x.checked_add(y);
    proof {
        lemma_result_value(n, d, r);
        lemma_reduce(n, d);
    }
    match r {
        Ok(v) => v,
        Err(_) => {
            proof {
                assert(false);
            }
            Rational::zero()
        },
    }
}

// ---------------------------------------------------------------------------
// ACT/ACT ISDA

/// Days of `[s, e)` in leap years and in common years, counted over the
/// calendar years `first .. y`.
pub open spec fn isda_days(s: int, e: int, first: int, y: int) -> (int, int)
    decreases y - first,
{
    if y <= first {
        (0, 0)
    } else {
        let prev = isda_days(s, e, first, y - 1);
        let from = if s > civil(y - 1, 1, 1) {
            s
        } else {
            civil(y - 1, 1, 1)
        };
        let to = if e < civil(y, 1, 1) {
            e
        } else {
            civil(y, 1, 1)
        };
        let n = if to > from {
            to - from
        } else {
            0
        };
        if is_leap(y - 1) {
            (prev.0 + n, prev.1)
        } else {
            (prev.0, prev.1 + n)
        }
    }
}

/// ACT/ACT ISDA: (days in leap years, days in common years) of the period.
pub open spec fn isda_split(start: Date, end: Date) -> (int, int) {
    isda_days(start.spec_serial(), end.spec_serial(), start.year() as int, end.year() + 1)
}

/// ACT/ACT ISDA: common days / 365 + leap days / 366.
pub open spec fn isda_value(start: Date, end: Date) -> (int, int) {
    frac_add((isda_split(start, end).1, 365), (isda_split(start, end).0, 366))
}

pub open spec fn isda_trace(start: Date, end: Date) -> Set<Branch> {
    let spans_years = start.year() != end.year() && !(end.year() == start.year() + 1 && end.month()
        == 1 && end.day() == 1);
    let t = set![
        if spans_years {
            Branch::IsdaSplitAtYearEnd
        } else {
            Branch::IsdaOneCalendarYear
        },
    ];
    let t = if isda_split(start, end).0 > 0 {
        t.insert(Branch::IsdaLeapYearDays)
    } else {
        t
    };
    if isda_split(start, end).1 > 0 {
        t.insert(Branch::IsdaCommonYearDays)
    } else {
        t
    }
}

fn act_act_isda(start: Date, end: Date, trace: &mut Trace) -> (r: Rational)
    requires
        in_calendar(start),
        in_calendar(end),
        start.spec_serial() <= end.spec_serial(),
    ensures
        r.equals_fraction(isda_value(start, end).0, isda_value(start, end).1),
        modest(r),
        final(trace)@ == old(trace)@.union(isda_trace(start, end)),
{
    let ghost t0 = trace@;
    let s = start.serial();
    let e = end.serial();
    let first = start.year();
    let last = end.year();
    proof {
        crate::date::lemma_civil_order(
            end.year() as int,
            end.month() as int,
            end.day() as int,
            start.year() as int,
            start.month() as int,
            start.day() as int,
        );
    }
    let mut leap_days: i64 = 0;
    let mut common_days: i64 = 0;
    let mut year: i32 = first;
    while year <= last
        invariant
            first <= year <= last + 1,
            1 <= first,
            last <= 9999,
            s == start.spec_serial(),
            e == end.spec_serial(),
            (leap_days as int, common_days as int) == isda_days(s as int, e as int, first as int, year as int),
            0 <= leap_days <= (year - first) * 400,
            0 <= common_days <= (year - first) * 400,
        decreases last + 1 - year,
    {
        let year_start = Date::from_month_index(year as i64 * 12, 1, false).serial();
        let next_year_start = Date::from_month_index((year as i64 + 1) * 12, 1, false).serial();
        assert(civil(year as int, 1, 1) + 366 >= civil(year + 1, 1, 1)) by {
            crate::date::lemma_year_length(year as int);
            reveal(civil);
        }
        let from = if s > year_start {
            s
        } else {
            year_start
        };
        let to = if e < next_year_start {
            e
        } else {
            next_year_start
        };
        if to > from {
            if crate::date::is_leap_year(year) {
                leap_days = leap_days + (to - from);
            } else {
                common_days = common_days + (to - from);
            }
        }
        year = year + 1;
    }
    let spans_years = start.year() != end.year() && !(end.year() == start.year() + 1 && end.month()
        == 1 && end.day() == 1);
    if spans_years {
        trace.insert(Branch::IsdaSplitAtYearEnd);
    } else {
        trace.insert(Branch::IsdaOneCalendarYear);
    }
    if leap_days > 0 {
        trace.insert(Branch::IsdaLeapYearDays);
    }
    if common_days > 0 {
        trace.insert(Branch::IsdaCommonYearDays);
    }
    proof {
        assert(trace@ =~= t0.union(isda_trace(start, end)));
    }
    let c = small_fraction(common_days, 365);
    let l = small_fraction(leap_days, 366);
    proof {
        lemma_reduce(common_days as int, 365);
        lemma_reduce(leap_days as int, 366);
    }
    let r = small_sum(c, l);
    proof {
        assert(c.denom() * l.denom() <= 365 * 366) by (nonlinear_arith)
            requires
                0 < c.denom() <= 365,
                0 < l.denom() <= 366,
        ;
        assert(-0x100_0000_0000 <= c.numer() * l.denom() + l.numer() * c.denom() <= 0x100_0000_0000)
            by (nonlinear_arith)
            requires
                0 < c.denom() <= 365,
                0 < l.denom() <= 366,
                -0x100_0000 <= c.numer() <= 0x100_0000,
                -0x100_0000 <= l.numer() <= 0x100_0000,
        ;
        let cv = (c.numer() as int, c.denom() as int);
        let lv = (l.numer() as int, l.denom() as int);
        lemma_frac_add_congruent(cv, (common_days as int, 365), lv, (leap_days as int, 366));
        crate::rational::lemma_den_positive(c.denom() as int, l.denom() as int);
        lemma_same_value_trans(
            (r.numer() as int, r.denom() as int),
            frac_add(cv, lv),
            isda_value(start, end),
        );
    }
    r
}

// ---------------------------------------------------------------------------
// ACT/ACT AFB

/// The end date is February 28 of a common year.
pub open spec fn is_common_feb28(end: Date) -> bool {
    is_feb_end(end) && end.day() == 28
}

/// The date `k` whole years before `end`: the same month and day, except
/// that a February end goes to Feb 29 in a leap year when `end` is Feb 29 or
/// Feb 28 of a common year, and to Feb 28 otherwise.
pub open spec fn afb_back(end: Date, k: int) -> (int, int, int) {
    let year = end.year() - k;
    if end.month() == 2 && end.day() >= 28 {
        (year, 2, if is_leap(year) && (is_common_feb28(end) || end.day() == 29) {
            29
        } else {
            28
        })
    } else {
        (year, end.month() as int, end.day() as int)
    }
}

pub open spec fn afb_back_serial(end: Date, k: int) -> int {
    civil(afb_back(end, k).0, afb_back(end, k).1, afb_back(end, k).2)
}

/// Whole years counted back from `end`, trying `k` years next: the count
/// stops before a date in year 0 or a date before `start`.
pub open spec fn afb_whole_from(start: Date, end: Date, k: int) -> int
    decreases end.year() - k,
{
    if k < 1 || end.year() - k < 1 || afb_back_serial(end, k) < start.spec_serial() {
        k - 1
    } else {
        afb_whole_from(start, end, k + 1)
    }
}

pub open spec fn afb_whole(start: Date, end: Date) -> int {
    afb_whole_from(start, end, 1)
}

/// The end of the remainder period: the last date counted back to.
pub open spec fn afb_remainder_end(start: Date, end: Date) -> (int, int, int) {
    if afb_whole(start, end) == 0 {
        (end.year() as int, end.month() as int, end.day() as int)
    } else {
        afb_back(end, afb_whole(start, end))
    }
}

pub open spec fn afb_remainder_days(start: Date, end: Date) -> int {
    let r = afb_remainder_end(start, end);
    civil(r.0, r.1, r.2) - start.spec_serial()
}

/// Denominator of the remainder: 366 when it holds a Feb 29.
pub open spec fn afb_remainder_feb29(start: Date, end: Date) -> bool {
    let r = afb_remainder_end(start, end);
    feb29_through_ymd(r.0, r.1, r.2) > feb29_through(start)
}

pub open spec fn afb_denominator(start: Date, end: Date) -> int {
    if afb_remainder_days(start, end) != 0 && afb_remainder_feb29(start, end) {
        366
    } else {
        365
    }
}

/// ACT/ACT AFB: whole years plus the remainder over 365 or 366.
pub open spec fn afb_value(start: Date, end: Date) -> (int, int) {
    (
        afb_whole(start, end) * afb_denominator(start, end) + afb_remainder_days(start, end),
        afb_denominator(start, end),
    )
}

/// Counting back from Feb 28 of a common year landed on a Feb 29.
pub open spec fn afb_landed_on_feb29(start: Date, end: Date, upto: int) -> bool {
    is_common_feb28(end) && exists|k: int| 1 <= k <= upto && is_leap(#[trigger] (end.year() - k))
}

pub open spec fn afb_trace(start: Date, end: Date) -> Set<Branch> {
    let t = Set::<Branch>::empty();
    let t = if afb_landed_on_feb29(start, end, afb_whole(start, end)) {
        t.insert(Branch::AfbFeb28BackToFeb29)
    } else {
        t
    };
    let t = if afb_whole(start, end) > 0 {
        t.insert(Branch::AfbWholeYears)
    } else {
        t
    };
    if afb_remainder_days(start, end) == 0 {
        t
    } else if afb_remainder_feb29(start, end) {
        t.insert(Branch::AfbFeb29InRemainder)
    } else {
        t.insert(Branch::AfbNoFeb29InRemainder)
    }
}

fn act_act_afb(start: Date, end: Date, trace: &mut Trace) -> (r: Rational)
    requires
        in_calendar(start),
        in_calendar(end),
        start.spec_serial() <= end.spec_serial(),
    ensures
        r.equals_fraction(afb_value(start, end).0, afb_value(start, end).1),
        modest(r),
        final(trace)@ == old(trace)@.union(afb_trace(start, end)),
{
    let ghost t0 = trace@;
    let ss = start.serial();
    let es = end.serial();
    let ey = end.year();
    let em = end.month();
    let ed = end.day();
    let mut whole_years: i64 = 0;
    let mut remainder_end = end;
    let end_is_common_feb28 = end.is_last_day_of_february() && ed == 28;
    let mut k: i32 = 1;
    loop
        invariant
            1 <= k <= ey,
            ey == end.year(),
            em == end.month(),
            ed == end.day(),
            in_calendar(end),
            in_calendar(start),
            ss == start.spec_serial(),
            es == end.spec_serial(),
            ss <= es,
            end_is_common_feb28 == is_common_feb28(end),
            whole_years == k - 1,
            afb_whole(start, end) == afb_whole_from(start, end, k as int),
            remainder_end.valid(),
            (remainder_end.year() as int, remainder_end.month() as int, remainder_end.day() as int)
                == (if k == 1 {
                (end.year() as int, end.month() as int, end.day() as int)
            } else {
                afb_back(end, k - 1)
            }),
            trace@ == (if afb_landed_on_feb29(start, end, k - 1) {
                t0.insert(Branch::AfbFeb28BackToFeb29)
            } else {
                t0
            }),
        ensures
            afb_whole(start, end) == whole_years,
            (remainder_end.year() as int, remainder_end.month() as int, remainder_end.day() as int)
                == afb_remainder_end(start, end),
            trace@ == (if afb_landed_on_feb29(start, end, afb_whole(start, end)) {
                t0.insert(Branch::AfbFeb28BackToFeb29)
            } else {
                t0
            }),
        decreases ey - k,
    {
        let year = ey - k;
        if year < 1 {
            break;
        }
        let day: u8 = if em == 2 && ed >= 28 {
            if crate::date::is_leap_year(year) && (end_is_common_feb28 || ed == 29) {
                29
            } else {
                28
            }
        } else {
            ed
        };
        let candidate = match Date::new(year, em, day) {
            Ok(c) => c,
            Err(_) => {
                proof {
                    assert(false);
                }
                break;
            },
        };
        if candidate.serial() < ss {
            break;
        }
        if day == 29 && end_is_common_feb28 {
            trace.insert(Branch::AfbFeb28BackToFeb29);
        }
        proof {
            assert(afb_landed_on_feb29(start, end, k as int) == (afb_landed_on_feb29(start, end, k - 1)
                || (end_is_common_feb28 && is_leap(ey - k)))) by {
                if end_is_common_feb28 && is_leap(ey - k) {
                    assert(is_leap(end.year() - k));
                }
                if afb_landed_on_feb29(start, end, k as int) && !afb_landed_on_feb29(start, end, k - 1) {
                    let j = choose|j: int| 1 <= j <= k && is_leap(#[trigger] (end.year() - j));
                    assert(j == k);
                }
            }
            assert(trace@ =~= (if afb_landed_on_feb29(start, end, k as int) {
                t0.insert(Branch::AfbFeb28BackToFeb29)
            } else {
                t0
            }));
        }
        whole_years = k as i64;
        remainder_end = candidate;
        k = k + 1;
    }
    let remainder_days = start.days_until(remainder_end);
    let ghost t1 = trace@;
    if whole_years > 0 {
        trace.insert(Branch::AfbWholeYears);
    }
    let denominator: i64 = if remainder_days == 0 {
        365
    } else if feb29_count_through(remainder_end) > feb29_count_through(start) {
        trace.insert(Branch::AfbFeb29InRemainder);
        366
    } else {
        trace.insert(Branch::AfbNoFeb29InRemainder);
        365
    };
    proof {
        assert(trace@ =~= t0.union(afb_trace(start, end)));
        crate::date::lemma_serial_bounds(remainder_end);
        assert(0 <= whole_years <= 9999);
        assert(-4_000_000 <= remainder_days <= 4_000_000) by {
            reveal(civil);
            crate::date::lemma_days_before_year_increasing(1, start.year() as int);
            crate::date::lemma_days_before_year_increasing(1, remainder_end.year() as int);
            crate::date::lemma_days_before_year_increasing(start.year() as int, 10000);
            crate::date::lemma_days_before_year_increasing(remainder_end.year() as int, 10000);
        }
    }
    proof {
        assert(0 <= whole_years * denominator <= 9999 * 366) by (nonlinear_arith)
            requires
                0 <= whole_years <= 9999,
                365 <= denominator <= 366,
        ;
    }
    small_fraction(whole_years * denominator + remainder_days, denominator)
}

// ---------------------------------------------------------------------------
// Reference-period conventions: ACT/ACT ICMA and ACT/365 Canadian Bond

/// The stub shape of `[start, end)` against the schedule, and whether the
/// ends are roll dates.
pub open spec fn stub_trace(s: Schedule, start: Date, end: Date) -> Set<Branch> {
    let start_on = s.spec_is_roll_date(start);
    let end_on = s.spec_is_roll_date(end);
    let periods = s.spec_period_index(end) - s.spec_period_index(start) + (if end_on {
        0int
    } else {
        1
    });
    let shape = if start_on && end_on {
        if periods == 1 {
            Branch::RegularPeriod
        } else {
            Branch::WholeRegularPeriods
        }
    } else if periods == 1 {
        Branch::ShortStub
    } else {
        Branch::LongStub
    };
    let t = set![shape];
    let t = if !start_on {
        t.insert(Branch::StartOffSchedule)
    } else {
        t
    };
    let t = if !end_on {
        t.insert(Branch::EndOffSchedule)
    } else {
        t
    };
    if s.spec_rolls_on_month_end() {
        t.insert(Branch::EndOfMonthRoll)
    } else {
        t
    }
}

fn classify_stub(start: Date, end: Date, schedule: &Schedule, trace: &mut Trace)
    requires
        in_calendar(start),
        in_calendar(end),
    ensures
        final(trace)@ == old(trace)@.union(stub_trace(*schedule, start, end)),
{
    let ghost t0 = trace@;
    let start_on = schedule.is_roll_date(start);
    let end_on = schedule.is_roll_date(end);
    let ks = schedule.period_index(start);
    let ke = schedule.period_index(end);
    let periods = ke - ks + if end_on {
        0
    } else {
        1
    };
    if start_on && end_on {
        if periods == 1 {
            trace.insert(Branch::RegularPeriod);
        } else {
            trace.insert(Branch::WholeRegularPeriods);
        }
    } else if periods == 1 {
        trace.insert(Branch::ShortStub);
    } else {
        trace.insert(Branch::LongStub);
    }
    if !start_on {
        trace.insert(Branch::StartOffSchedule);
    }
    if !end_on {
        trace.insert(Branch::EndOffSchedule);
    }
    if schedule.rolls_on_month_end() {
        trace.insert(Branch::EndOfMonthRoll);
    }
    proof {
        assert(trace@ =~= t0.union(stub_trace(*schedule, start, end)));
    }
}

/// The piece covers its whole reference period (serials as in
/// `Schedule::piece_serials`).
pub open spec fn is_full_piece(p: (int, int, int, int)) -> bool {
    p.2 == p.0 && p.3 == p.1
}

/// The branches `b(0), ..., b(n - 1)`.
pub open spec fn branches_of(b: spec_fn(int) -> Branch, n: int) -> Set<Branch>
    decreases n,
{
    if n <= 0 {
        Set::empty()
    } else {
        branches_of(b, n - 1).insert(b(n - 1))
    }
}

/// ACT/ACT ICMA, piece `j`: `1/f` for a full reference period, else
/// `days / (f * reference period days)`.
pub open spec fn icma_term(s: Schedule, start: Date, end: Date, j: int) -> (int, int) {
    let p = s.piece_serials(start, end, j);
    let f = s.frequency() as int;
    if is_full_piece(p) {
        (1, f)
    } else {
        (p.3 - p.2, f * (p.1 - p.0))
    }
}

pub open spec fn icma_branch(s: Schedule, start: Date, end: Date, j: int) -> Branch {
    if is_full_piece(s.piece_serials(start, end, j)) {
        Branch::FullReferencePeriod
    } else {
        Branch::IcmaPartialPiece
    }
}

/// ACT/ACT ICMA: the sum of the pieces' terms.
pub open spec fn icma_value(s: Schedule, start: Date, end: Date) -> (int, int) {
    frac_sum(|j: int| icma_term(s, start, end, j), s.piece_count(start, end))
}

pub open spec fn icma_trace(s: Schedule, start: Date, end: Date) -> Set<Branch> {
    stub_trace(s, start, end).union(
        branches_of(|j: int| icma_branch(s, start, end, j), s.piece_count(start, end)),
    )
}

/// ACT/365 Canadian Bond, piece `j`: `1/f` for a full reference period,
/// `days/365` below `365/f` days, else `1/f - (reference days - days)/365`.
pub open spec fn canadian_term(s: Schedule, start: Date, end: Date, j: int) -> (int, int) {
    let p = s.piece_serials(start, end, j);
    let f = s.frequency() as int;
    let days = p.3 - p.2;
    if is_full_piece(p) {
        (1, f)
    } else if days * f < 365 {
        (days, 365)
    } else {
        (365 - f * ((p.1 - p.0) - days), 365 * f)
    }
}

pub open spec fn canadian_branch(s: Schedule, start: Date, end: Date, j: int) -> Branch {
    let p = s.piece_serials(start, end, j);
    if is_full_piece(p) {
        Branch::FullReferencePeriod
    } else if (p.3 - p.2) * (s.frequency() as int) < 365 {
        Branch::CanadianShortPiece
    } else {
        Branch::CanadianLongPiece
    }
}

/// ACT/365 Canadian Bond: the sum of the pieces' terms.
pub open spec fn canadian_value(s: Schedule, start: Date, end: Date) -> (int, int) {
    frac_sum(|j: int| canadian_term(s, start, end, j), s.piece_count(start, end))
}

pub open spec fn canadian_trace(s: Schedule, start: Date, end: Date) -> Set<Branch> {
    stub_trace(s, start, end).union(
        branches_of(|j: int| canadian_branch(s, start, end, j), s.piece_count(start, end)),
    )
}

impl Schedule {
    /// ICMA piece `j` over the common denominator `f * p0 * pl`, where `p0`
    /// and `pl` are the first and last reference periods' lengths.
    proof fn lemma_icma_term(self, start: Date, end: Date, j: int, p0: int, pl: int, a: int)
        requires
            self.anchor().valid(),
            valid_frequency(self.frequency() as int),
            start.valid(),
            end.valid(),
            start.spec_serial() < end.spec_serial(),
            0 <= j < self.piece_count(start, end),
            p0 == self.piece_serials(start, end, 0).1 - self.piece_serials(start, end, 0).0,
            pl == self.piece_serials(start, end, self.piece_count(start, end) - 1).1
                - self.piece_serials(start, end, self.piece_count(start, end) - 1).0,
            ({
                let p = self.piece_serials(start, end, j);
                a == (if is_full_piece(p) {
                    p0 * pl
                } else if j == 0 {
                    (p.3 - p.2) * pl
                } else {
                    (p.3 - p.2) * p0
                })
            }),
        ensures
            same_value(icma_term(self, start, end, j), (a, self.frequency() * (p0 * pl))),
            icma_term(self, start, end, j).1 > 0,
    {
        let n = self.piece_count(start, end);
        self.lemma_piece_shape(start, end, j);
        let p = self.piece_serials(start, end, j);
        let f = self.frequency() as int;
        lemma_months(f);
        let l = f * (p0 * pl);
        let tj = icma_term(self, start, end, j);
        let days = p.3 - p.2;
        let period = p.1 - p.0;
        if is_full_piece(p) {
            assert(tj.0 * l == a * tj.1) by (nonlinear_arith)
                requires
                    tj == (1int, f),
                    l == f * (p0 * pl),
                    a == p0 * pl,
            ;
        } else if j == 0 {
            assert(tj.0 * l == a * tj.1) by (nonlinear_arith)
                requires
                    tj == (days, f * p0),
                    l == f * (p0 * pl),
                    a == days * pl,
            ;
        } else {
            assert(j == n - 1);
            assert(tj.0 * l == a * tj.1) by (nonlinear_arith)
                requires
                    tj == (days, f * pl),
                    l == f * (p0 * pl),
                    a == days * p0,
            ;
        }
        assert(tj.1 > 0) by (nonlinear_arith)
            requires
                tj.1 == f || tj.1 == f * period,
                f >= 1,
                period >= 1,
        ;
    }
}

fn act_act_icma(start: Date, end: Date, schedule: &Schedule, trace: &mut Trace) -> (r: Rational)
    requires
        in_calendar(start),
        in_calendar(end),
        start.spec_serial() < end.spec_serial(),
    ensures
        r.equals_fraction(icma_value(*schedule, start, end).0, icma_value(*schedule, start, end).1),
        icma_value(*schedule, start, end).1 > 0,
        modest(r),
        final(trace)@ == old(trace)@.union(icma_trace(*schedule, start, end)),
{
    let ghost t0 = trace@;
    classify_stub(start, end, schedule, trace);
    let ghost t1 = trace@;
    let f = schedule.frequency() as i64;
    // These calls bring the dates' validity into the proof.
    let _ = schedule.anchor().day();
    let _ = start.serial();
    let _ = end.serial();
    let pieces = schedule.pieces(start, end).collect();
    let n = pieces.len();
    let ghost sched = *schedule;
    let ghost term: spec_fn(int) -> (int, int) = |j: int| icma_term(sched, start, end, j);
    let ghost branch: spec_fn(int) -> Branch = |j: int| icma_branch(sched, start, end, j);
    proof {
        assert(term(0) == icma_term(sched, start, end, 0));
        assert(frac_sum(term, 0) == (0int, 1int));
        lemma_months(f as int);
        sched.lemma_piece_count_bound(start, end);
        sched.lemma_piece_shape(start, end, 0);
        sched.lemma_piece_shape(start, end, n - 1);
        assert(pieces@[0].serials() == sched.piece_serials(start, end, 0));
        assert(pieces@[n - 1].serials() == sched.piece_serials(start, end, n - 1));
    }
    let p0 = pieces[0].period_days();
    let pl = pieces[n - 1].period_days();
    proof {
        assert(0 < p0 * pl <= 160000) by (nonlinear_arith)
            requires
                1 <= p0 <= 400,
                1 <= pl <= 400,
        ;
        assert(0 < f * (p0 * pl) <= 12 * 160000) by (nonlinear_arith)
            requires
                1 <= f <= 12,
                0 < p0 * pl <= 160000,
        ;
    }
    let whole = p0 * pl;
    let l = f * whole;
    let mut total: i64 = 0;
    let mut j: usize = 0;
    proof {
        crate::date::lemma_calendar_serial_range(start);
        crate::date::lemma_calendar_serial_range(end);
        assert(frac_sum(term, 0) == (0int, 1int));
        assert(frac_sum(term, 0).0 == 0 && frac_sum(term, 0).1 == 1);
        assert(0 * (l as int) == 0int * 1);
        assert(branches_of(branch, 0) == Set::<Branch>::empty());
        assert(t1.union(Set::<Branch>::empty()) =~= t1);
    }
    while j < n
        invariant
            0 <= j <= n,
            n == pieces@.len(),
            n == sched.piece_count(start, end),
            1 <= n <= end.spec_serial() - start.spec_serial() + 401,
            end.spec_serial() - start.spec_serial() <= 4_000_000,
            sched == *schedule,
            forall|i: int| #[trigger] term(i) == icma_term(sched, start, end, i),
            forall|i: int| #[trigger] branch(i) == icma_branch(sched, start, end, i),
            sched.anchor().valid(),
            valid_frequency(sched.frequency() as int),
            start.valid(),
            end.valid(),
            start.spec_serial() < end.spec_serial(),
            forall|i: int|
                0 <= i < n ==> (#[trigger] pieces@[i]).serials() == sched.piece_serials(start, end, i),
            f == sched.frequency(),
            p0 == sched.piece_serials(start, end, 0).1 - sched.piece_serials(start, end, 0).0,
            pl == sched.piece_serials(start, end, n - 1).1 - sched.piece_serials(start, end, n - 1).0,
            1 <= p0 <= 400,
            1 <= pl <= 400,
            whole == p0 * pl,
            0 < whole <= 160000,
            l == f * whole,
            l > 0,
            0 <= total <= j * 160000,
            frac_sum(term, j as int).1 > 0,
            same_value(frac_sum(term, j as int), (total as int, l as int)),
            trace@ == t1.union(branches_of(branch, j as int)),
        decreases n - j,
    {
        let p = pieces[j];
        let days = p.days();
        let period = p.period_days();
        proof {
            sched.lemma_piece_shape(start, end, j as int);
            Date::lemma_serial_determines(p.from, p.period_start);
            Date::lemma_serial_determines(p.to, p.period_end);
        }
        let a: i64 = if p.is_full_period() {
            trace.insert(Branch::FullReferencePeriod);
            whole
        } else {
            trace.insert(Branch::IcmaPartialPiece);
            proof {
                assert(0 <= days * pl <= 160000 && 0 <= days * p0 <= 160000) by (nonlinear_arith)
                    requires
                        0 <= days <= period,
                        1 <= period <= 400,
                        1 <= p0 <= 400,
                        1 <= pl <= 400,
                ;
            }
            if j == 0 {
                days * pl
            } else {
                days * p0
            }
        };
        proof {
            assert(p.serials() == sched.piece_serials(start, end, j as int));
            sched.lemma_icma_term(start, end, j as int, p0 as int, pl as int, a as int);
            let tj = term(j as int);
            assert(tj == icma_term(sched, start, end, j as int));
            assert(branch(j as int) == icma_branch(sched, start, end, j as int));
            lemma_sum_step(frac_sum(term, j as int), total as int, l as int, tj, a as int);
            assert(frac_sum(term, j + 1) == frac_add(frac_sum(term, j as int), tj));
            assert(trace@ =~= t1.union(branches_of(branch, j + 1)));
        }
        total = total + a;
        j = j + 1;
    }
    proof {
        assert(total <= 4_000_401 * 160000) by (nonlinear_arith)
            requires
                0 <= total <= j * 160000,
                j <= 4_000_401,
        ;
        assert(trace@ =~= t0.union(icma_trace(sched, start, end)));
    }
    let r = small_fraction(total, l);
    proof {
        lemma_same_value_trans((r.numer() as int, r.denom() as int), (total as int, l as int), frac_sum(term, n as int));
        assert(icma_value(sched, start, end) == frac_sum(term, n as int));
    }
    r
}

impl Schedule {
    /// Canadian piece `j` over the common denominator `365 * f`.
    proof fn lemma_canadian_term(self, start: Date, end: Date, j: int, a: int)
        requires
            self.anchor().valid(),
            valid_frequency(self.frequency() as int),
            start.valid(),
            end.valid(),
            start.spec_serial() < end.spec_serial(),
            0 <= j < self.piece_count(start, end),
            ({
                let p = self.piece_serials(start, end, j);
                let f = self.frequency() as int;
                let days = p.3 - p.2;
                a == (if is_full_piece(p) {
                    365
                } else if days * f < 365 {
                    days * f
                } else {
                    365 - f * ((p.1 - p.0) - days)
                })
            }),
        ensures
            same_value(canadian_term(self, start, end, j), (a, 365 * self.frequency())),
            canadian_term(self, start, end, j).1 > 0,
            -5000 <= a <= 5000,
    {
        self.lemma_piece_shape(start, end, j);
        let p = self.piece_serials(start, end, j);
        let f = self.frequency() as int;
        lemma_months(f);
        let tj = canadian_term(self, start, end, j);
        let days = p.3 - p.2;
        let period = p.1 - p.0;
        if is_full_piece(p) {
            assert(tj.0 * (365 * f) == a * tj.1) by (nonlinear_arith)
                requires
                    tj == (1int, f),
                    a == 365,
            ;
        } else if days * f < 365 {
            assert(tj.0 * (365 * f) == a * tj.1) by (nonlinear_arith)
                requires
                    tj == (days, 365int),
                    a == days * f,
            ;
            assert(0 <= a <= 365) by (nonlinear_arith)
                requires
                    a == days * f,
                    days >= 0,
                    f >= 1,
                    days * f < 365,
            ;
        } else {
            assert(0 <= f * (period - days) <= 4800) by (nonlinear_arith)
                requires
                    1 <= f <= 12,
                    0 <= period - days <= 400,
            ;
        }
    }
}

fn act_365_canadian(start: Date, end: Date, schedule: &Schedule, trace: &mut Trace) -> (r: Rational)
    requires
        in_calendar(start),
        in_calendar(end),
        start.spec_serial() < end.spec_serial(),
    ensures
        r.equals_fraction(
            canadian_value(*schedule, start, end).0,
            canadian_value(*schedule, start, end).1,
        ),
        canadian_value(*schedule, start, end).1 > 0,
        modest(r),
        final(trace)@ == old(trace)@.union(canadian_trace(*schedule, start, end)),
{
    let ghost t0 = trace@;
    classify_stub(start, end, schedule, trace);
    let ghost t1 = trace@;
    let f = schedule.frequency() as i64;
    // These calls bring the dates' validity into the proof.
    let _ = schedule.anchor().day();
    let _ = start.serial();
    let _ = end.serial();
    let pieces = schedule.pieces(start, end).collect();
    let n = pieces.len();
    let ghost sched = *schedule;
    let ghost term: spec_fn(int) -> (int, int) = |j: int| canadian_term(sched, start, end, j);
    let ghost branch: spec_fn(int) -> Branch = |j: int| canadian_branch(sched, start, end, j);
    let l = 365 * f;
    proof {
        lemma_months(f as int);
        sched.lemma_piece_count_bound(start, end);
        crate::date::lemma_calendar_serial_range(start);
        crate::date::lemma_calendar_serial_range(end);
        assert(frac_sum(term, 0) == (0int, 1int));
        assert(0 * (l as int) == 0int * 1);
        assert(branches_of(branch, 0) == Set::<Branch>::empty());
        assert(t1.union(Set::<Branch>::empty()) =~= t1);
    }
    let mut total: i64 = 0;
    let mut j: usize = 0;
    while j < n
        invariant
            0 <= j <= n,
            n == pieces@.len(),
            n == sched.piece_count(start, end),
            1 <= n <= end.spec_serial() - start.spec_serial() + 401,
            end.spec_serial() - start.spec_serial() <= 4_000_000,
            sched == *schedule,
            forall|i: int| #[trigger] term(i) == canadian_term(sched, start, end, i),
            forall|i: int| #[trigger] branch(i) == canadian_branch(sched, start, end, i),
            sched.anchor().valid(),
            valid_frequency(sched.frequency() as int),
            start.valid(),
            end.valid(),
            start.spec_serial() < end.spec_serial(),
            forall|i: int|
                0 <= i < n ==> (#[trigger] pieces@[i]).serials() == sched.piece_serials(start, end, i),
            f == sched.frequency(),
            1 <= f <= 12,
            l == 365 * f,
            -(j * 5000) <= total <= j * 5000,
            frac_sum(term, j as int).1 > 0,
            same_value(frac_sum(term, j as int), (total as int, l as int)),
            trace@ == t1.union(branches_of(branch, j as int)),
        decreases n - j,
    {
        let p = pieces[j];
        let days = p.days();
        let period = p.period_days();
        proof {
            sched.lemma_piece_shape(start, end, j as int);
            Date::lemma_serial_determines(p.from, p.period_start);
            Date::lemma_serial_determines(p.to, p.period_end);
            assert(p.serials() == sched.piece_serials(start, end, j as int));
            assert(0 <= days * f <= 4800 && 0 <= f * (period - days) <= 4800) by (nonlinear_arith)
                requires
                    1 <= f <= 12,
                    0 <= days <= period,
                    period <= 400,
            ;
        }
        let a: i64 = if p.is_full_period() {
            trace.insert(Branch::FullReferencePeriod);
            365
        } else if days * f < 365 {
            trace.insert(Branch::CanadianShortPiece);
            days * f
        } else {
            trace.insert(Branch::CanadianLongPiece);
            365 - f * (period - days)
        };
        proof {
            sched.lemma_canadian_term(start, end, j as int, a as int);
            let tj = term(j as int);
            assert(tj == canadian_term(sched, start, end, j as int));
            assert(branch(j as int) == canadian_branch(sched, start, end, j as int));
            lemma_sum_step(frac_sum(term, j as int), total as int, l as int, tj, a as int);
            assert(frac_sum(term, j + 1) == frac_add(frac_sum(term, j as int), tj));
            assert(trace@ =~= t1.union(branches_of(branch, j + 1)));
        }
        total = total + a;
        j = j + 1;
    }
    proof {
        assert(-(4_000_401 * 5000) <= total <= 4_000_401 * 5000) by (nonlinear_arith)
            requires
                -(j * 5000) <= total <= j * 5000,
                j <= 4_000_401,
        ;
        assert(trace@ =~= t0.union(canadian_trace(sched, start, end)));
    }
    let r = small_fraction(total, l);
    proof {
        lemma_same_value_trans(
            (r.numer() as int, r.denom() as int),
            (total as int, l as int),
            frac_sum(term, n as int),
        );
        assert(canadian_value(sched, start, end) == frac_sum(term, n as int));
    }
    r
}

// ---------------------------------------------------------------------------
// The year fraction

/// ACT/ACT ICMA and ACT/365 Canadian Bond work on reference periods.
pub open spec fn uses_schedule(c: Convention) -> bool {
    c == Convention::ActActIcma || c == Convention::Act365Canadian
}

/// The schedule a context describes (when its terms are present).
pub open spec fn context_schedule(context: Context) -> Schedule {
    schedule_of(context.frequency.unwrap(), context.anchor.unwrap(), context.end_of_month)
}

/// NL/365: Feb 29s in `(start, end]`.
pub open spec fn leap_days_between(start: Date, end: Date) -> int {
    feb29_through(end) - feb29_through(start)
}

/// The value (as numerator and denominator) and the branches of a non-empty
/// period whose deal terms are present and valid.
pub open spec fn fraction_of(c: Convention, start: Date, end: Date, context: Context) -> (
    (int, int),
    Set<Branch>,
) {
    let days = end.spec_serial() - start.spec_serial();
    match c {
        Convention::Act360 => ((days, 360), set![Branch::ActualOver360]),
        Convention::Act365Fixed => ((days, 365), set![Branch::ActualOver365]),
        Convention::Act365Leap => {
            let rule = act_365_leap_rule(start, end, context.frequency.unwrap() as int);
            ((days, rule.0), set![rule.1])
        },
        Convention::NoLeap365 => (
            (days - leap_days_between(start, end), 365),
            if leap_days_between(start, end) > 0 {
                set![Branch::ActualOver365, Branch::NoLeapDayRemoved]
            } else {
                set![Branch::ActualOver365]
            },
        ),
        Convention::ActActIsda => (isda_value(start, end), isda_trace(start, end)),
        Convention::ActActAfb => (afb_value(start, end), afb_trace(start, end)),
        Convention::ActActIcma => (
            icma_value(context_schedule(context), start, end),
            icma_trace(context_schedule(context), start, end),
        ),
        Convention::Act365Canadian => (
            canadian_value(context_schedule(context), start, end),
            canadian_trace(context_schedule(context), start, end),
        ),
        _ => (
            (thirty_360_days(c, start, end, context.termination), 360),
            thirty_360_rule(c, start, end, context.termination).2,
        ),
    }
}

/// The error `year_fraction` gives for convention `c` over every period,
/// empty or not: a missing or invalid deal term.
pub open spec fn terms_error(c: Convention, context: Context) -> Option<Error> {
    if uses_schedule(c) && context.frequency is None {
        Some(Error::MissingFrequency(c))
    } else if uses_schedule(c) && context.anchor is None {
        Some(Error::MissingAnchor(c))
    } else if uses_schedule(c) && !valid_frequency(context.frequency.unwrap() as int) {
        Some(Error::InvalidFrequency(context.frequency.unwrap()))
    } else if c == Convention::Act365Leap && context.frequency is None {
        Some(Error::MissingFrequency(c))
    } else if c == Convention::Thirty360EuropeanIsda && context.termination is None {
        Some(Error::MissingTermination)
    } else {
        None
    }
}

/// The error `year_fraction` gives for convention `c` over every non-empty
/// period: those of [`terms_error`], and an ACT/365L frequency that does not
/// divide a year.
pub open spec fn period_error(c: Convention, context: Context) -> Option<Error> {
    if terms_error(c, context) is Some {
        terms_error(c, context)
    } else if c == Convention::Act365Leap && !valid_frequency(context.frequency.unwrap() as int) {
        Some(Error::InvalidFrequency(context.frequency.unwrap()))
    } else {
        None
    }
}

/// What `year_fraction` gives: the first failed check as an error, zero for
/// an empty period, else the convention's value and branches.
pub open spec fn year_fraction_result(
    c: Convention,
    start: Date,
    end: Date,
    context: Context,
    r: Result<YearFraction, Error>,
) -> bool {
    if start.spec_serial() > end.spec_serial() {
        r == Err::<YearFraction, Error>(Error::StartAfterEnd { start, end })
    } else if terms_error(c, context) is Some {
        r == Err::<YearFraction, Error>(terms_error(c, context).unwrap())
    } else if start.spec_serial() == end.spec_serial() {
        r matches Ok(y) && y.value.equals_fraction(0, 1) && y.trace@ == set![Branch::EmptyPeriod]
    } else if period_error(c, context) is Some {
        r == Err::<YearFraction, Error>(period_error(c, context).unwrap())
    } else {
        &&& r matches Ok(y) && y.value.equals_fraction(
            fraction_of(c, start, end, context).0.0,
            fraction_of(c, start, end, context).0.1,
        ) && y.trace@ == fraction_of(c, start, end, context).1
        &&& fraction_of(c, start, end, context).0.1 > 0
    }
}

/// Year fraction for the accrual period from `start` to `end`.
pub fn year_fraction(convention: Convention, start: Date, end: Date, context: &Context) -> (r: Result<
    YearFraction,
    Error,
>)
    requires
        in_calendar(start),
        in_calendar(end),
    ensures
        year_fraction_result(convention, start, end, *context, r),
        r matches Ok(y) ==> modest(y.value),
{
    let ss = start.serial();
    let es = end.serial();
    if ss > es {
        return Err(Error::StartAfterEnd { start, end });
    }
    // Validate requirements even for empty periods, so a missing input is
    // reported regardless of the dates.
    let schedule = match convention {
        Convention::ActActIcma | Convention::Act365Canadian => match context.schedule(convention) {
            Ok(s) => Some(s),
            Err(e) => return Err(e),
        },
        _ => None,
    };
    match convention {
        Convention::Act365Leap => {
            if context.frequency.is_none() {
                return Err(Error::MissingFrequency(convention));
            }
        },
        Convention::Thirty360EuropeanIsda => {
            if context.termination.is_none() {
                return Err(Error::MissingTermination);
            }
        },
        _ => {},
    }
    let mut trace = Trace::new();
    if ss == es {
        trace.insert(Branch::EmptyPeriod);
        proof {
            assert(trace@ =~= set![Branch::EmptyPeriod]);
        }
        return Ok(YearFraction { value: Rational::zero(), trace });
    }
    let ghost t0 = trace@;
    proof {
        crate::date::lemma_calendar_serial_range(start);
        crate::date::lemma_calendar_serial_range(end);
    }
    let days = es - ss;
    let value = match convention {
        Convention::Act360 => {
            trace.insert(Branch::ActualOver360);
            small_fraction(days, 360)
        },
        Convention::Act365Fixed => {
            trace.insert(Branch::ActualOver365);
            small_fraction(days, 365)
        },
        Convention::Act365Leap => {
            let frequency = match context.frequency {
                Some(f) => f,
                None => return Err(Error::MissingFrequency(convention)),
            };
            if !(frequency == 1 || frequency == 2 || frequency == 3 || frequency == 4 || frequency
                == 6 || frequency == 12) {
                return Err(Error::InvalidFrequency(frequency));
            }
            act_365_leap(start, end, days, frequency, &mut trace)
        },
        Convention::NoLeap365 => {
            trace.insert(Branch::ActualOver365);
            let leap_days = feb29_count_through(end) - feb29_count_through(start);
            if leap_days > 0 {
                trace.insert(Branch::NoLeapDayRemoved);
            }
            small_fraction(days - leap_days, 365)
        },
        Convention::ActActIsda => act_act_isda(start, end, &mut trace),
        Convention::ActActAfb => act_act_afb(start, end, &mut trace),
        Convention::ActActIcma => match schedule {
            Some(s) => act_act_icma(start, end, &s, &mut trace),
            None => {
                proof {
                    assert(false);
                }
                Rational::zero()
            },
        },
        Convention::Act365Canadian => match schedule {
            Some(s) => act_365_canadian(start, end, &s, &mut trace),
            None => {
                proof {
                    assert(false);
                }
                Rational::zero()
            },
        },
        _ => thirty_360(convention, start, end, context.termination, &mut trace),
    };
    proof {
        let spec = fraction_of(convention, start, end, *context);
        assert(trace@ =~= spec.1);
    }
    Ok(YearFraction { value, trace })
}

impl core::str::FromStr for Convention {
    type Err = Error;

    /// Parses an id or a name; see [`Convention::parse`].
    fn from_str(s: &str) -> (r: Result<Convention, Error>)
        ensures
            parse_result(s, r),
    {
        Convention::parse(s)
    }
}

// ---------------------------------------------------------------------------
// Laws

/// 30E/360 ISDA counts `360·ΔY + 30·ΔM + D2 − D1` days over 360, where a
/// start on the 31st or on the last day of February counts as the 30th, and
/// an end on the 31st counts as the 30th, as does an end on the last day of
/// February unless the end date is the termination date itself (same year,
/// month and day), where the day is kept.
pub proof fn lemma_thirty_e_isda_days(context: Context, start: Date, end: Date)
    requires
        start.valid(),
        end.valid(),
        start.spec_serial() < end.spec_serial(),
    ensures
        ({
            let d1: int = if start.day() == 31 || (start.month() == 2 && start.day() == month_len(
                start.year() as int,
                2,
            )) {
                30
            } else {
                start.day() as int
            };
            let d2: int = if end.day() == 31 || (end.month() == 2 && end.day() == month_len(
                end.year() as int,
                2,
            ) && context.termination != Some(end)) {
                30
            } else {
                end.day() as int
            };
            period_value(Convention::Thirty360EuropeanIsda, start, end, context) == (
                360 * (end.year() - start.year()) + 30 * (end.month() - start.month()) + d2 - d1,
                360int,
            )
        }),
{
}

/// The termination date of a 30E/360 ISDA deal matters only through whether
/// it is the end date: two deals whose termination dates are both, or both
/// not, the period's end date give the period the same value.
pub proof fn lemma_thirty_e_isda_termination(c1: Context, c2: Context, start: Date, end: Date)
    requires
        start.valid(),
        end.valid(),
        start.spec_serial() <= end.spec_serial(),
        (c1.termination == Some(end)) == (c2.termination == Some(end)),
    ensures
        period_value(Convention::Thirty360EuropeanIsda, start, end, c1) == period_value(
            Convention::Thirty360EuropeanIsda,
            start,
            end,
            c2,
        ),
{
    if start.spec_serial() < end.spec_serial() {
        lemma_thirty_e_isda_days(c1, start, end);
        lemma_thirty_e_isda_days(c2, start, end);
    }
}

/// 30/360 Bond Basis and 30E/360 differ for one reason only: over a period in
/// order, their values differ exactly when the end date is a 31st and the
/// start day is below 30, where Bond Basis keeps the 31st and 30E/360 counts
/// the 30th.
pub proof fn lemma_bond_basis_vs_european(context: Context, start: Date, end: Date)
    requires
        start.valid(),
        end.valid(),
        start.spec_serial() <= end.spec_serial(),
    ensures
        !same_value(
            period_value(Convention::Thirty360Bond, start, end, context),
            period_value(Convention::Thirty360European, start, end, context),
        ) <==> (end.day() == 31 && start.day() < 30),
{
    Date::lemma_serial_determines(start, end);
    if start.spec_serial() != end.spec_serial() {
        let x = thirty_360_days(Convention::Thirty360Bond, start, end, context.termination);
        let y = thirty_360_days(Convention::Thirty360European, start, end, context.termination);
        assert(x - y == (if end.day() == 31 && start.day() < 30 {
            1int
        } else {
            0
        }));
        let p = period_value(Convention::Thirty360Bond, start, end, context);
        let q = period_value(Convention::Thirty360European, start, end, context);
        assert(p == (x, 360int) && q == (y, 360int));
        assert(same_value(p, q) <==> x == y) by (nonlinear_arith)
            requires
                p == (x, 360int),
                q == (y, 360int),
        ;
    } else {
        assert(same_value((0, 1), (0, 1))) by (nonlinear_arith);
    }
}

/// Texts that differ, ignoring case, at one position are not equal ignoring
/// case.
proof fn lemma_differ_at(x: Seq<char>, y: Seq<char>, i: int)
    requires
        vstd::utf8::is_ascii_chars(x),
        vstd::utf8::is_ascii_chars(y),
        0 <= i < x.len(),
        i < y.len(),
        ascii_lower(x[i] as u8) != ascii_lower(y[i] as u8),
    ensures
        !same_ignoring_ascii_case(vstd::utf8::encode_utf8(x), vstd::utf8::encode_utf8(y)),
{
    vstd::utf8::is_ascii_chars_encode_utf8(x);
    vstd::utf8::is_ascii_chars_encode_utf8(y);
}

/// No two conventions share an id or a name, even ignoring case.
proof fn lemma_texts_distinct(c: Convention, d: Convention, x: Seq<char>, y: Seq<char>)
    requires
        x == c.spec_id() || x == c.spec_name(),
        y == d.spec_id() || y == d.spec_name(),
        same_ignoring_ascii_case(vstd::utf8::encode_utf8(x), vstd::utf8::encode_utf8(y)),
    ensures
        c == d,
{
    reveal_strlit("act360");
    reveal_strlit("ACT/360");
    reveal_strlit("act365f");
    reveal_strlit("ACT/365F");
    reveal_strlit("act365l");
    reveal_strlit("ACT/365L");
    reveal_strlit("nl365");
    reveal_strlit("NL/365");
    reveal_strlit("actact-isda");
    reveal_strlit("ACT/ACT ISDA");
    reveal_strlit("actact-icma");
    reveal_strlit("ACT/ACT ICMA");
    reveal_strlit("actact-afb");
    reveal_strlit("ACT/ACT AFB");
    reveal_strlit("30-360");
    reveal_strlit("30/360 Bond Basis");
    reveal_strlit("30u-360");
    reveal_strlit("30U/360 (SIA)");
    reveal_strlit("30e-360");
    reveal_strlit("30E/360");
    reveal_strlit("30e-360-isda");
    reveal_strlit("30E/360 ISDA");
    reveal_strlit("act365-canadian");
    reveal_strlit("ACT/365 Canadian Bond");
    vstd::utf8::is_ascii_chars_encode_utf8(x);
    vstd::utf8::is_ascii_chars_encode_utf8(y);
    // Texts of equal length differ at these positions.
    lemma_differ_at("act360"@, "NL/365"@, 0);
    lemma_differ_at("act360"@, "30-360"@, 0);
    lemma_differ_at("ACT/360"@, "act365f"@, 3);
    lemma_differ_at("ACT/360"@, "act365l"@, 3);
    lemma_differ_at("ACT/360"@, "30u-360"@, 0);
    lemma_differ_at("ACT/360"@, "30e-360"@, 0);
    lemma_differ_at("ACT/360"@, "30E/360"@, 0);
    lemma_differ_at("act365f"@, "act365l"@, 6);
    lemma_differ_at("act365f"@, "30u-360"@, 0);
    lemma_differ_at("act365f"@, "30e-360"@, 0);
    lemma_differ_at("act365f"@, "30E/360"@, 0);
    lemma_differ_at("ACT/365F"@, "ACT/365L"@, 7);
    lemma_differ_at("act365l"@, "30u-360"@, 0);
    lemma_differ_at("act365l"@, "30e-360"@, 0);
    lemma_differ_at("act365l"@, "30E/360"@, 0);
    lemma_differ_at("NL/365"@, "30-360"@, 0);
    lemma_differ_at("actact-isda"@, "actact-icma"@, 8);
    lemma_differ_at("actact-isda"@, "ACT/ACT AFB"@, 3);
    lemma_differ_at("ACT/ACT ISDA"@, "ACT/ACT ICMA"@, 9);
    lemma_differ_at("ACT/ACT ISDA"@, "30e-360-isda"@, 0);
    lemma_differ_at("ACT/ACT ISDA"@, "30E/360 ISDA"@, 0);
    lemma_differ_at("actact-icma"@, "ACT/ACT AFB"@, 3);
    lemma_differ_at("ACT/ACT ICMA"@, "30e-360-isda"@, 0);
    lemma_differ_at("ACT/ACT ICMA"@, "30E/360 ISDA"@, 0);
    lemma_differ_at("30u-360"@, "30e-360"@, 2);
    lemma_differ_at("30u-360"@, "30E/360"@, 2);
}

/// A convention's id or name, in any ASCII case, parses back to that
/// convention: no other convention's id or name matches the text.
pub proof fn lemma_parse_round_trip(c: Convention, s: &str, r: Result<Convention, Error>)
    requires
        names_convention(s.spec_bytes(), c),
        parse_result(s, r),
    ensures
        r == Ok::<Convention, Error>(c),
{
    let d = r->Ok_0;
    let t = s.spec_bytes();
    let (x, y) = if same_ignoring_ascii_case(vstd::utf8::encode_utf8(c.spec_id()), t) {
        (c.spec_id(), if same_ignoring_ascii_case(vstd::utf8::encode_utf8(d.spec_id()), t) {
            d.spec_id()
        } else {
            d.spec_name()
        })
    } else {
        (c.spec_name(), if same_ignoring_ascii_case(vstd::utf8::encode_utf8(d.spec_id()), t) {
            d.spec_id()
        } else {
            d.spec_name()
        })
    };
    lemma_texts_distinct(c, d, x, y);
}

/// The value of a period: zero when it is empty, else the convention's.
pub open spec fn period_value(c: Convention, start: Date, end: Date, context: Context) -> (int, int) {
    if start.spec_serial() == end.spec_serial() {
        (0, 1)
    } else {
        fraction_of(c, start, end, context).0
    }
}

/// ACT/360, ACT/365F, NL/365 and 30E/360 are additive: for dates
/// `x <= y <= z`, the value from `x` to `z` is the value from `x` to `y` plus
/// the value from `y` to `z`.
pub proof fn lemma_additive_conventions(c: Convention, context: Context, x: Date, y: Date, z: Date)
    requires
        c == Convention::Act360 || c == Convention::Act365Fixed || c == Convention::NoLeap365 || c
            == Convention::Thirty360European,
        x.valid(),
        y.valid(),
        z.valid(),
        x.spec_serial() <= y.spec_serial() <= z.spec_serial(),
    ensures
        same_value(
            period_value(c, x, z, context),
            frac_add(period_value(c, x, y, context), period_value(c, y, z, context)),
        ),
{
    Date::lemma_serial_determines(x, y);
    Date::lemma_serial_determines(y, z);
    Date::lemma_serial_determines(x, z);
    let (xs, ys, zs) = (x.spec_serial(), y.spec_serial(), z.spec_serial());
    let whole = period_value(c, x, z, context);
    let first = period_value(c, x, y, context);
    let second = period_value(c, y, z, context);
    if xs == ys {
        assert(frac_add(first, second) == (0 * second.1 + second.0 * 1, 1 * second.1));
    } else if ys == zs {
        assert(frac_add(first, second) == (first.0 * 1 + 0 * first.1, first.1 * 1));
    } else {
        // Each value is a count of days over a fixed denominator, and the
        // counts add up: g(z) - g(x) = (g(y) - g(x)) + (g(z) - g(y)).
        let den: int = if c == Convention::Act360 || c == Convention::Thirty360European {
            360
        } else {
            365
        };
        let g = |d: Date|
            if c == Convention::Act360 || c == Convention::Act365Fixed {
                d.spec_serial()
            } else if c == Convention::NoLeap365 {
                d.spec_serial() - feb29_through(d)
            } else {
                360 * d.year() + 30 * d.month() + (if d.day() == 31 {
                    30
                } else {
                    d.day() as int
                })
            };
        assert(whole == (g(z) - g(x), den));
        assert(first == (g(y) - g(x), den));
        assert(second == (g(z) - g(y), den));
        assert(same_value(whole, frac_add(first, second))) by (nonlinear_arith)
            requires
                whole == (g(z) - g(x), den),
                first == (g(y) - g(x), den),
                second == (g(z) - g(y), den),
        ;
    }
}

/// The sum of `n` terms `1/f` has the value `n/f`.
proof fn lemma_unit_sum(t: spec_fn(int) -> (int, int), f: int, n: int)
    requires
        f > 0,
        n >= 0,
        forall|j: int| 0 <= j < n ==> #[trigger] t(j) == (1int, f),
    ensures
        same_value(frac_sum(t, n), (n, f)),
        frac_sum(t, n).1 > 0,
    decreases n,
{
    if n == 0 {
        assert(same_value((0int, 1int), (0int, f))) by (nonlinear_arith);
    } else {
        lemma_unit_sum(t, f, n - 1);
        let prev = frac_sum(t, n - 1);
        assert(t(n - 1) == (1int, f));
        lemma_frac_add_congruent(prev, (n - 1, f), (1int, f), (1int, f));
        crate::rational::lemma_den_positive(f, f);
        crate::rational::lemma_den_positive(prev.1, f);
        assert(same_value(frac_add((n - 1, f), (1int, f)), (n, f))) by (nonlinear_arith)
            requires
                f > 0,
        ;
        assert(frac_sum(t, n) == frac_add(prev, (1int, f)));
        lemma_same_value_trans(frac_sum(t, n), frac_add((n - 1, f), (1int, f)), (n, f));
    }
}

/// Whole coupon periods: `n` reference periods from one roll date to
/// another are worth exactly `n / f` under ACT/ACT ICMA and under the
/// Canadian rule, whatever the periods' lengths; a regular period is worth
/// `1 / f`. This is what `year_fraction` gives for any deal whose schedule
/// is `s`.
pub proof fn lemma_whole_periods(s: Schedule, start: Date, end: Date, k: int, n: int)
    requires
        s.anchor().valid(),
        valid_frequency(s.frequency() as int),
        start.valid(),
        end.valid(),
        n >= 1,
        start.spec_serial() == s.roll_serial(k),
        end.spec_serial() == s.roll_serial(k + n),
    ensures
        same_value(icma_value(s, start, end), (n, s.frequency() as int)),
        same_value(canadian_value(s, start, end), (n, s.frequency() as int)),
        forall|context: Context|
            #![trigger context_schedule(context)]
            context_schedule(context) == s ==> same_value(
                period_value(Convention::ActActIcma, start, end, context),
                (n, s.frequency() as int),
            ) && same_value(
                period_value(Convention::Act365Canadian, start, end, context),
                (n, s.frequency() as int),
            ),
{
    s.lemma_rolls_increase(k, k + 1);
    s.lemma_rolls_increase(k + n, k + n + 1);
    s.lemma_rolls_increase(k, k + n);
    s.lemma_bracket_unique(start, k);
    s.lemma_bracket_unique(end, k + n);
    reveal(Schedule::piece_count);
    assert(s.piece_count(start, end) == n);
    let f = s.frequency() as int;
    assert forall|j: int| 0 <= j < n implies is_full_piece(#[trigger] s.piece_serials(start, end, j)) by {
        reveal(Schedule::piece_serials);
    }
    assert forall|j: int| 0 <= j < n implies icma_term(s, start, end, j) == (1int, f) by {
        assert(is_full_piece(s.piece_serials(start, end, j)));
    }
    assert forall|j: int| 0 <= j < n implies canadian_term(s, start, end, j) == (1int, f) by {
        assert(is_full_piece(s.piece_serials(start, end, j)));
    }
    lemma_unit_sum(|j: int| icma_term(s, start, end, j), f, n);
    lemma_unit_sum(|j: int| canadian_term(s, start, end, j), f, n);
}

/// The ISDA day counts over a range of years split at a year in between.
proof fn lemma_isda_days_split(s: int, e: int, a: int, b: int, c: int)
    requires
        a <= b <= c,
    ensures
        isda_days(s, e, a, c).0 == isda_days(s, e, a, b).0 + isda_days(s, e, b, c).0,
        isda_days(s, e, a, c).1 == isda_days(s, e, a, b).1 + isda_days(s, e, b, c).1,
    decreases c - b,
{
    if c > b {
        lemma_isda_days_split(s, e, a, b, c - 1);
    }
}

/// Years that miss `[s, e)` add no days.
proof fn lemma_isda_days_outside(s: int, e: int, a: int, b: int)
    requires
        forall|y: int| a <= y < b ==> civil(y + 1, 1, 1) <= s || e <= #[trigger] civil(y, 1, 1),
    ensures
        isda_days(s, e, a, b) == (0int, 0int),
    decreases b - a,
{
    if b > a {
        assert(civil(b, 1, 1) <= s || e <= civil(b - 1, 1, 1));
        lemma_isda_days_outside(s, e, a, b - 1);
    }
}

/// Splitting `[s, e)` at `m` splits each year's days.
proof fn lemma_isda_days_additive(s: int, m: int, e: int, a: int, b: int)
    requires
        s <= m <= e,
    ensures
        isda_days(s, e, a, b).0 == isda_days(s, m, a, b).0 + isda_days(m, e, a, b).0,
        isda_days(s, e, a, b).1 == isda_days(s, m, a, b).1 + isda_days(m, e, a, b).1,
    decreases b - a,
{
    if b > a {
        lemma_isda_days_additive(s, m, e, a, b - 1);
    }
}

/// Calendar years start in order, and each date lies in its own year.
proof fn lemma_year_starts(d: Date)
    requires
        d.valid(),
    ensures
        civil(d.year() as int, 1, 1) <= d.spec_serial() < civil(d.year() + 1, 1, 1),
        forall|y: int| #![trigger civil(y, 1, 1)] y <= d.year() ==> civil(y, 1, 1) <= d.spec_serial(),
        forall|y: int|
            #![trigger civil(y, 1, 1)]
            y > d.year() ==> d.spec_serial() < civil(y, 1, 1),
{
    let (y0, m0, d0) = (d.year() as int, d.month() as int, d.day() as int);
    crate::date::lemma_civil_order(y0, 1, 1, y0, m0, d0);
    crate::date::lemma_civil_order(y0, m0, d0, y0 + 1, 1, 1);
    assert forall|y: int| #![trigger civil(y, 1, 1)] y <= d.year() implies civil(y, 1, 1) <= d.spec_serial() by {
        crate::date::lemma_civil_order(y, 1, 1, y0, 1, 1);
    }
    assert forall|y: int| #![trigger civil(y, 1, 1)] y > d.year() implies d.spec_serial() < civil(y, 1, 1) by {
        crate::date::lemma_civil_order(y0 + 1, 1, 1, y, 1, 1);
    }
}

/// ACT/ACT ISDA is additive: for dates `x <= y <= z`, the days in each
/// calendar year add up, so the value from `x` to `z` is the value from `x`
/// to `y` plus the value from `y` to `z`.
pub proof fn lemma_isda_additive(context: Context, x: Date, y: Date, z: Date)
    requires
        x.valid(),
        y.valid(),
        z.valid(),
        x.spec_serial() <= y.spec_serial() <= z.spec_serial(),
    ensures
        same_value(
            period_value(Convention::ActActIsda, x, z, context),
            frac_add(
                period_value(Convention::ActActIsda, x, y, context),
                period_value(Convention::ActActIsda, y, z, context),
            ),
        ),
{
    let c = Convention::ActActIsda;
    Date::lemma_serial_determines(x, y);
    Date::lemma_serial_determines(y, z);
    Date::lemma_serial_determines(x, z);
    let (xs, ys, zs) = (x.spec_serial(), y.spec_serial(), z.spec_serial());
    let whole = period_value(c, x, z, context);
    let first = period_value(c, x, y, context);
    let second = period_value(c, y, z, context);
    if xs == ys {
        assert(frac_add(first, second) == (0 * second.1 + second.0 * 1, 1 * second.1));
    } else if ys == zs {
        assert(frac_add(first, second) == (first.0 * 1 + 0 * first.1, first.1 * 1));
    } else {
        let (yx, yy, yz) = (x.year() as int, y.year() as int, z.year() as int);
        lemma_year_starts(x);
        lemma_year_starts(y);
        lemma_year_starts(z);
        assert(yx <= yy <= yz);
        // The first part over the years of the whole period.
        lemma_isda_days_split(xs, ys, yx, yy + 1, yz + 1);
        lemma_isda_days_outside(xs, ys, yy + 1, yz + 1);
        // The second part over the years of the whole period.
        lemma_isda_days_split(ys, zs, yx, yy, yz + 1);
        lemma_isda_days_outside(ys, zs, yx, yy);
        lemma_isda_days_additive(xs, ys, zs, yx, yz + 1);
        let (lw, cw) = isda_days(xs, zs, yx, yz + 1);
        let (l1, c1) = isda_days(xs, ys, yx, yz + 1);
        let (l2, c2) = isda_days(ys, zs, yx, yz + 1);
        assert(whole == (cw * 366 + lw * 365, 365int * 366));
        assert(first == (c1 * 366 + l1 * 365, 365int * 366));
        assert(second == (c2 * 366 + l2 * 365, 365int * 366));
        assert(same_value(whole, frac_add(first, second))) by (nonlinear_arith)
            requires
                whole == (cw * 366 + lw * 365, 365int * 366),
                first == (c1 * 366 + l1 * 365, 365int * 366),
                second == (c2 * 366 + l2 * 365, 365int * 366),
                lw == l1 + l2,
                cw == c1 + c2,
        ;
    }
}

/// The calendar year whose days hold the serial `t`.
pub open spec fn year_holding(t: int) -> int {
    choose|y: int| #[trigger] civil(y, 1, 1) <= t < civil(y + 1, 1, 1)
}

/// (days in leap years, days in common years) among the days `s .. e`, each
/// day classed on its own by the year that holds it.
pub open spec fn day_by_day(s: int, e: int) -> (int, int)
    decreases e - s,
{
    if e <= s {
        (0, 0)
    } else {
        let prev = day_by_day(s, e - 1);
        if is_leap(year_holding(e - 1)) {
            (prev.0 + 1, prev.1)
        } else {
            (prev.0, prev.1 + 1)
        }
    }
}

/// January firsts come in year order, a year apart at least.
proof fn lemma_new_years_order(a: int, b: int)
    requires
        a < b,
    ensures
        civil(a, 1, 1) < civil(a + 1, 1, 1) <= civil(b, 1, 1),
{
    reveal(civil);
    crate::date::lemma_days_before_year_increasing(a + 1, b);
    crate::date::lemma_year_length(a);
}

/// A serial between the January firsts of `first` and `last` is held by one
/// of the years in between.
proof fn lemma_year_holding(t: int, first: int, last: int)
    requires
        civil(first, 1, 1) <= t < civil(last, 1, 1),
    ensures
        first <= year_holding(t) < last,
        civil(year_holding(t), 1, 1) <= t < civil(year_holding(t) + 1, 1, 1),
    decreases last - first,
{
    if last <= first {
        if last < first {
            lemma_new_years_order(last, first);
        }
    } else if civil(last - 1, 1, 1) <= t {
        let y = last - 1;
        assert(civil(y, 1, 1) <= t < civil(y + 1, 1, 1));
        let h = year_holding(t);
        if h < y {
            lemma_new_years_order(h, y);
        }
        if h > y {
            lemma_new_years_order(y, h);
        }
    } else {
        lemma_year_holding(t, first, last - 1);
    }
}

/// An empty range of days has no days in any year.
proof fn lemma_isda_days_empty(s: int, first: int, y: int)
    ensures
        isda_days(s, s, first, y) == (0int, 0int),
    decreases y - first,
{
    if y > first {
        lemma_isda_days_empty(s, first, y - 1);
    }
}

/// Dropping the last day of `[s, e)` leaves the years before the one that
/// holds it as they were.
proof fn lemma_isda_days_below(s: int, e: int, first: int, y: int, y0: int)
    requires
        y <= y0,
        civil(y0, 1, 1) < e,
    ensures
        isda_days(s, e, first, y) == isda_days(s, e - 1, first, y),
    decreases y - first,
{
    if y > first {
        lemma_isda_days_below(s, e, first, y - 1, y0);
        if y < y0 {
            lemma_new_years_order(y, y0);
        }
    }
}

/// The last day of `[s, e)` counts once, in the year `y0` that holds it.
proof fn lemma_isda_days_last(s: int, e: int, first: int, y: int, y0: int)
    requires
        s < e,
        first <= y0 < y,
        civil(y0, 1, 1) <= e - 1 < civil(y0 + 1, 1, 1),
    ensures
        isda_days(s, e, first, y) == (if is_leap(y0) {
            (isda_days(s, e - 1, first, y).0 + 1, isda_days(s, e - 1, first, y).1)
        } else {
            (isda_days(s, e - 1, first, y).0, isda_days(s, e - 1, first, y).1 + 1)
        }),
    decreases y - first,
{
    if y - 1 == y0 {
        lemma_isda_days_below(s, e, first, y0, y0);
    } else {
        lemma_isda_days_last(s, e, first, y - 1, y0);
        lemma_new_years_order(y0, y - 1);
    }
}

/// Over years that cover `[s, e)`, the per-year counts are the day-by-day
/// counts.
proof fn lemma_isda_days_daily(s: int, e: int, first: int, last: int)
    requires
        s <= e,
        civil(first, 1, 1) <= s,
        e <= civil(last, 1, 1),
    ensures
        isda_days(s, e, first, last) == day_by_day(s, e),
    decreases e - s,
{
    if e == s {
        lemma_isda_days_empty(s, first, last);
    } else {
        lemma_year_holding(e - 1, first, last);
        lemma_isda_days_last(s, e, first, last, year_holding(e - 1));
        lemma_isda_days_daily(s, e - 1, first, last);
    }
}

/// ACT/ACT ISDA counts day by day: each day from `start` up to `end` adds
/// 1/366 when the year that holds it is a leap year and 1/365 otherwise, and
/// the year that holds a date's serial is the date's year.
pub proof fn lemma_isda_day_by_day(context: Context, start: Date, end: Date)
    requires
        start.valid(),
        end.valid(),
        start.spec_serial() <= end.spec_serial(),
    ensures
        isda_split(start, end) == day_by_day(start.spec_serial(), end.spec_serial()),
        same_value(
            period_value(Convention::ActActIsda, start, end, context),
            frac_add(
                (day_by_day(start.spec_serial(), end.spec_serial()).1, 365),
                (day_by_day(start.spec_serial(), end.spec_serial()).0, 366),
            ),
        ),
        forall|d: Date| d.valid() ==> #[trigger] year_holding(d.spec_serial()) == d.year(),
{
    lemma_year_starts(start);
    lemma_year_starts(end);
    let (s, e) = (start.spec_serial(), end.spec_serial());
    lemma_isda_days_daily(s, e, start.year() as int, end.year() + 1);
    assert forall|d: Date| d.valid() implies #[trigger] year_holding(d.spec_serial()) == d.year() by {
        lemma_year_starts(d);
        lemma_year_holding(d.spec_serial(), d.year() as int, d.year() + 1);
    }
    if s == e {
        let (l, c) = day_by_day(s, e);
        assert(frac_add((c, 365), (l, 366)) == (0int * 366 + 0 * 365, 365int * 366));
        assert(same_value((0, 1), (0int * 366 + 0 * 365, 365int * 366))) by (nonlinear_arith);
    } else {
        let (l, c) = day_by_day(s, e);
        let v = period_value(Convention::ActActIsda, start, end, context);
        assert(v == frac_add((c, 365), (l, 366)));
        assert(same_value(v, v)) by (nonlinear_arith);
    }
}

proof fn lemma_thirty_360_trace(c: Convention, start: Date, end: Date, termination: Option<Date>)
    ensures
        thirty_360_rule(c, start, end, termination).2.contains(Branch::ThirtyDayMonths),
{
}

proof fn lemma_afb_whole_from(start: Date, end: Date, k: int)
    requires
        k >= 1,
    ensures
        afb_whole_from(start, end, k) >= k - 1,
    decreases end.year() - k,
{
    if !(k < 1 || end.year() - k < 1 || afb_back_serial(end, k) < start.spec_serial()) {
        lemma_afb_whole_from(start, end, k + 1);
    }
}

proof fn lemma_afb_trace(start: Date, end: Date)
    requires
        start.spec_serial() < end.spec_serial(),
    ensures
        afb_trace(start, end) != Set::<Branch>::empty(),
{
    lemma_afb_whole_from(start, end, 1);
    if afb_whole(start, end) > 0 {
        assert(afb_trace(start, end).contains(Branch::AfbWholeYears));
    } else {
        assert(afb_remainder_days(start, end) != 0);
        assert(afb_trace(start, end).contains(Branch::AfbFeb29InRemainder) || afb_trace(
            start,
            end,
        ).contains(Branch::AfbNoFeb29InRemainder));
    }
}

proof fn lemma_stub_trace(s: Schedule, start: Date, end: Date)
    ensures
        stub_trace(s, start, end) != Set::<Branch>::empty(),
        stub_trace(s, start, end).subset_of(icma_trace(s, start, end)),
        stub_trace(s, start, end).subset_of(canadian_trace(s, start, end)),
{
    let st = stub_trace(s, start, end);
    let x = if st.contains(Branch::RegularPeriod) {
        Branch::RegularPeriod
    } else if st.contains(Branch::WholeRegularPeriods) {
        Branch::WholeRegularPeriods
    } else if st.contains(Branch::ShortStub) {
        Branch::ShortStub
    } else {
        Branch::LongStub
    };
    assert(st.contains(x));
}

/// Every calculation records a branch: the trace of a non-empty period is
/// never empty.
pub proof fn lemma_trace_never_empty(c: Convention, start: Date, end: Date, context: Context)
    requires
        start.spec_serial() < end.spec_serial(),
    ensures
        fraction_of(c, start, end, context).1 != Set::<Branch>::empty(),
{
    let t = fraction_of(c, start, end, context).1;
    if c == Convention::ActActAfb {
        lemma_afb_trace(start, end);
    } else if c == Convention::ActActIcma || c == Convention::Act365Canadian {
        lemma_stub_trace(context_schedule(context), start, end);
        let st = stub_trace(context_schedule(context), start, end);
        assert(st.subset_of(t));
        if t == Set::<Branch>::empty() {
            assert(st =~= Set::<Branch>::empty());
        }
    } else if c == Convention::ActActIsda {
        assert(t.contains(Branch::IsdaSplitAtYearEnd) || t.contains(Branch::IsdaOneCalendarYear));
    } else if c == Convention::Act360 {
        assert(t.contains(Branch::ActualOver360));
    } else if c == Convention::Act365Fixed || c == Convention::NoLeap365 {
        assert(t.contains(Branch::ActualOver365));
    } else if c == Convention::Act365Leap {
        assert(t.contains(act_365_leap_rule(start, end, context.frequency.unwrap() as int).1));
    } else {
        lemma_thirty_360_trace(c, start, end, context.termination);
        assert(t.contains(Branch::ThirtyDayMonths));
    }
}

/// A period inside one reference period `roll(k)..roll(k + 1)` is a single
/// piece: ACT/ACT ICMA gives `days / (f * reference days)`, and the Canadian
/// rule `1/f` for the whole period, `days / 365` when `days * f < 365`, and
/// `1/f - (reference days - days) / 365` otherwise.
pub proof fn lemma_single_piece(s: Schedule, start: Date, end: Date, k: int)
    requires
        s.anchor().valid(),
        valid_frequency(s.frequency() as int),
        start.valid(),
        end.valid(),
        s.roll_serial(k) <= start.spec_serial() < end.spec_serial() <= s.roll_serial(k + 1),
    ensures
        ({
            let f = s.frequency() as int;
            let p = s.roll_serial(k + 1) - s.roll_serial(k);
            let days = end.spec_serial() - start.spec_serial();
            &&& same_value(icma_value(s, start, end), (days, f * p))
            &&& same_value(
                canadian_value(s, start, end),
                if days == p {
                    (1, f)
                } else if days * f < 365 {
                    (days, 365)
                } else {
                    (365 - f * (p - days), 365 * f)
                },
            )
        }),
{
    let f = s.frequency() as int;
    let p = s.roll_serial(k + 1) - s.roll_serial(k);
    let days = end.spec_serial() - start.spec_serial();
    s.lemma_rolls_increase(k, k + 1);
    s.lemma_rolls_increase(k + 1, k + 2);
    s.lemma_bracket_unique(start, k);
    if end.spec_serial() == s.roll_serial(k + 1) {
        s.lemma_bracket_unique(end, k + 1);
    } else {
        s.lemma_bracket_unique(end, k);
    }
    reveal(Schedule::piece_count);
    assert(s.piece_count(start, end) == 1);
    reveal(Schedule::piece_serials);
    let q = s.piece_serials(start, end, 0);
    assert(q == (s.roll_serial(k), s.roll_serial(k + 1), start.spec_serial(), end.spec_serial()));
    lemma_months(f);
    let it = icma_term(s, start, end, 0);
    let ct = canadian_term(s, start, end, 0);
    reveal_with_fuel(frac_sum, 2);
    assert(frac_sum(|j: int| icma_term(s, start, end, j), 1) == frac_add((0int, 1int), it));
    assert(frac_sum(|j: int| canadian_term(s, start, end, j), 1) == frac_add((0int, 1int), ct));
    assert(same_value(frac_add((0int, 1int), it), it)) by (nonlinear_arith);
    assert(same_value(frac_add((0int, 1int), ct), ct)) by (nonlinear_arith);
    assert(f * p > 0) by (nonlinear_arith)
        requires
            f >= 1,
            p >= 1,
    ;
    if is_full_piece(q) {
        assert(days == p);
        assert(same_value((1int, f), (days, f * p))) by (nonlinear_arith)
            requires
                days == p,
        ;
        lemma_same_value_trans(frac_add((0int, 1int), it), it, (days, f * p));
    } else {
        assert(days != p);
        lemma_same_value_trans(frac_add((0int, 1int), it), it, (days, f * p));
    }
}

proof fn lemma_afb_count_back(start: Date, end: Date, n: int, k: int)
    requires
        start.valid(),
        end.valid(),
        1 <= start.year(),
        n >= 1,
        !(start.month() == 2 && start.day() >= 28),
        end.year() == start.year() + n,
        end.month() == start.month(),
        end.day() == start.day(),
        1 <= k <= n + 1,
    ensures
        afb_whole_from(start, end, k) == n,
    decreases n + 1 - k,
{
    let (y, m, d) = (start.year() as int, start.month() as int, start.day() as int);
    assert(afb_back(end, k) == (y + n - k, m, d));
    assert(crate::date::valid_ymd(y + n - k, m, d));
    crate::date::lemma_civil_order(y + n - k, m, d, y, m, d);
    crate::date::lemma_civil_order(y, m, d, y + n - k, m, d);
    if k <= n {
        lemma_afb_count_back(start, end, n, k + 1);
    }
}

/// ACT/ACT AFB counts whole calendar years exactly: from a date other than
/// Feb 28 or 29 to the same day `n` years later is worth `n`.
pub proof fn lemma_afb_whole_years(start: Date, end: Date, n: int)
    requires
        start.valid(),
        end.valid(),
        1 <= start.year(),
        n >= 1,
        !(start.month() == 2 && start.day() >= 28),
        end.year() == start.year() + n,
        end.month() == start.month(),
        end.day() == start.day(),
    ensures
        same_value(afb_value(start, end), (n, 1)),
{
    lemma_afb_count_back(start, end, n, 1);
    let (y, m, d) = (start.year() as int, start.month() as int, start.day() as int);
    assert(afb_remainder_end(start, end) == (y, m, d));
    assert(afb_remainder_days(start, end) == 0);
    assert(afb_denominator(start, end) == 365);
    assert(same_value((n * 365 + 0, 365), (n, 1))) by (nonlinear_arith);
}

/// The serial with the Feb 29s so far taken out never decreases.
proof fn lemma_no_leap_order(a: Date, b: Date)
    requires
        a.valid(),
        b.valid(),
        a.spec_serial() <= b.spec_serial(),
    ensures
        a.spec_serial() - feb29_through(a) <= b.spec_serial() - feb29_through(b),
{
    crate::date::lemma_civil_order(
        b.year() as int,
        b.month() as int,
        b.day() as int,
        a.year() as int,
        a.month() as int,
        a.day() as int,
    );
    reveal(civil);
}

proof fn lemma_isda_days_non_negative(s: int, e: int, a: int, b: int)
    ensures
        isda_days(s, e, a, b).0 >= 0,
        isda_days(s, e, a, b).1 >= 0,
    decreases b - a,
{
    if b > a {
        lemma_isda_days_non_negative(s, e, a, b - 1);
    }
}

/// Counting back the whole years found never passes `start`.
proof fn lemma_afb_back_reached(start: Date, end: Date, k: int)
    requires
        k >= 1,
    ensures
        afb_whole_from(start, end, k) >= k ==> afb_back_serial(end, afb_whole_from(start, end, k))
            >= start.spec_serial(),
    decreases end.year() - k,
{
    if !(k < 1 || end.year() - k < 1 || afb_back_serial(end, k) < start.spec_serial()) {
        lemma_afb_back_reached(start, end, k + 1);
        lemma_afb_whole_from(start, end, k + 1);
    }
}

proof fn lemma_frac_sum_non_negative(t: spec_fn(int) -> (int, int), n: int)
    requires
        forall|j: int| 0 <= j < n ==> (#[trigger] t(j)).0 >= 0 && t(j).1 > 0,
    ensures
        frac_sum(t, n).0 >= 0,
        frac_sum(t, n).1 > 0,
    decreases n,
{
    if n > 0 {
        lemma_frac_sum_non_negative(t, n - 1);
        let p = frac_sum(t, n - 1);
        let q = t(n - 1);
        assert(p.0 * q.1 + q.0 * p.1 >= 0 && p.1 * q.1 > 0) by (nonlinear_arith)
            requires
                p.0 >= 0,
                p.1 > 0,
                q.0 >= 0,
                q.1 > 0,
        ;
    }
}

/// Periods in order have non-negative values under every convention whose
/// deal terms are in order.
pub proof fn lemma_value_non_negative(c: Convention, start: Date, end: Date, context: Context)
    requires
        start.valid(),
        end.valid(),
        start.spec_serial() < end.spec_serial(),
        period_error(c, context) is None,
        context.anchor matches Some(a) ==> a.valid(),
    ensures
        fraction_of(c, start, end, context).0.0 >= 0,
{
    let (ys, ms, ds) = (start.year() as int, start.month() as int, start.day() as int);
    let (ye, me, de) = (end.year() as int, end.month() as int, end.day() as int);
    if c == Convention::NoLeap365 {
        lemma_no_leap_order(start, end);
    } else if c == Convention::ActActIsda {
        lemma_isda_days_non_negative(start.spec_serial(), end.spec_serial(), ys, ye + 1);
    } else if c == Convention::ActActAfb {
        lemma_afb_whole_from(start, end, 1);
        lemma_afb_back_reached(start, end, 1);
    } else if c == Convention::ActActIcma || c == Convention::Act365Canadian {
        let sched = context_schedule(context);
        crate::schedule::lemma_schedule_of(
            context.frequency.unwrap(),
            context.anchor.unwrap(),
            context.end_of_month,
        );
        let f = sched.frequency() as int;
        let n = sched.piece_count(start, end);
        lemma_months(f);
        assert forall|j: int| 0 <= j < n implies {
            let p = #[trigger] sched.piece_serials(start, end, j);
            &&& p.0 <= p.2 < p.3 <= p.1
            &&& p.3 - p.2 <= p.1 - p.0 <= 31 * (12int / f) + 3
            &&& p.1 - p.0 >= 1
        } by {
            sched.lemma_piece_shape(start, end, j);
            reveal(Schedule::piece_serials);
            sched.lemma_period_at_most(sched.spec_period_index(start) + j);
        }
        if c == Convention::ActActIcma {
            assert forall|j: int| 0 <= j < n implies (#[trigger] icma_term(sched, start, end, j)).0 >= 0
                && icma_term(sched, start, end, j).1 > 0 by {
                let p = sched.piece_serials(start, end, j);
                assert(f * (p.1 - p.0) > 0) by (nonlinear_arith)
                    requires
                        f >= 1,
                        p.1 - p.0 >= 1,
                ;
            }
            lemma_frac_sum_non_negative(|j: int| icma_term(sched, start, end, j), n);
        } else {
            assert forall|j: int| 0 <= j < n implies (#[trigger] canadian_term(sched, start, end, j)).0 >= 0
                && canadian_term(sched, start, end, j).1 > 0 by {
                let p = sched.piece_serials(start, end, j);
                let days = p.3 - p.2;
                let len = p.1 - p.0;
                if !is_full_piece(p) && days * f >= 365 {
                    assert(365 - f * (len - days) >= 0) by (nonlinear_arith)
                        requires
                            1 <= f <= 12,
                            (12int / f) * f == 12,
                            len <= 31 * (12int / f) + 3,
                            days * f >= 365,
                            days <= len,
                    ;
                }
            }
            lemma_frac_sum_non_negative(|j: int| canadian_term(sched, start, end, j), n);
        }
    } else if c == Convention::Act360 || c == Convention::Act365Fixed || c == Convention::Act365Leap {
    } else {
        crate::date::lemma_civil_order(ye, me, de, ys, ms, ds);
        lemma_thirty_360_order(c, start, end, context.termination);
    }
}

/// The 30/360 day count of a period in order is non-negative.
proof fn lemma_thirty_360_order(c: Convention, start: Date, end: Date, termination: Option<Date>)
    requires
        start.valid(),
        end.valid(),
        start.year() < end.year() || (start.year() == end.year() && start.month() < end.month()) || (
        start.year() == end.year() && start.month() == end.month() && start.day() < end.day()),
    ensures
        thirty_360_days(c, start, end, termination) >= 0,
{
    let (d1, d2, _) = thirty_360_rule(c, start, end, termination);
    assert(d1 <= 30 && d2 >= 1);
    if start.year() == end.year() && start.month() == end.month() {
        assert(d1 <= d2);
    }
}

// ---------------------------------------------------------------------------
// ACT/ACT ICMA as a sum over reference periods

/// The days of `[a, b)` that fall in reference period `k`.
pub open spec fn overlap(s: Schedule, a: int, b: int, k: int) -> int {
    let lo = if a > s.roll_serial(k) {
        a
    } else {
        s.roll_serial(k)
    };
    let hi = if b < s.roll_serial(k + 1) {
        b
    } else {
        s.roll_serial(k + 1)
    };
    if hi > lo {
        hi - lo
    } else {
        0
    }
}

/// Reference period `k`'s share of `[a, b)`: its days over `f` times its length.
pub open spec fn period_term(s: Schedule, a: int, b: int, k: int) -> (int, int) {
    (overlap(s, a, b, k), s.frequency() * (s.roll_serial(k + 1) - s.roll_serial(k)))
}

/// The shares of the reference periods `k0 .. k1`, added in order.
pub open spec fn period_sum(s: Schedule, a: int, b: int, k0: int, k1: int) -> (int, int)
    decreases k1 - k0,
{
    if k1 <= k0 {
        (0, 1)
    } else {
        frac_add(period_sum(s, a, b, k0, k1 - 1), period_term(s, a, b, k1 - 1))
    }
}

proof fn lemma_period_term_den(s: Schedule, a: int, b: int, k: int)
    requires
        s.anchor().valid(),
        valid_frequency(s.frequency() as int),
    ensures
        period_term(s, a, b, k).1 > 0,
{
    s.lemma_period_length(k);
    let f = s.frequency() as int;
    let p = s.roll_serial(k + 1) - s.roll_serial(k);
    assert(f * p > 0) by (nonlinear_arith)
        requires
            f >= 1,
            p >= 1,
    ;
}

proof fn lemma_period_sum_den(s: Schedule, a: int, b: int, k0: int, k1: int)
    requires
        s.anchor().valid(),
        valid_frequency(s.frequency() as int),
    ensures
        period_sum(s, a, b, k0, k1).1 > 0,
    decreases k1 - k0,
{
    if k1 > k0 {
        lemma_period_sum_den(s, a, b, k0, k1 - 1);
        lemma_period_term_den(s, a, b, k1 - 1);
        crate::rational::lemma_den_positive(period_sum(s, a, b, k0, k1 - 1).1, period_term(s, a, b, k1 - 1).1);
    }
}

/// Adding equal values gives equal values, with positive denominators.
proof fn lemma_add_congruent(x: (int, int), x2: (int, int), y: (int, int), y2: (int, int))
    requires
        x.1 > 0,
        x2.1 > 0,
        y.1 > 0,
        y2.1 > 0,
        same_value(x, x2),
        same_value(y, y2),
    ensures
        same_value(frac_add(x, y), frac_add(x2, y2)),
        frac_add(x, y).1 > 0,
        frac_add(x2, y2).1 > 0,
{
    lemma_frac_add_congruent(x, x2, y, y2);
    crate::rational::lemma_den_positive(x.1, y.1);
    crate::rational::lemma_den_positive(x2.1, y2.1);
}

/// ACT/ACT ICMA over `[start, end)` is the sum of the shares of the
/// reference periods its pieces lie in.
proof fn lemma_icma_as_periods(s: Schedule, start: Date, end: Date, m: int)
    requires
        s.anchor().valid(),
        valid_frequency(s.frequency() as int),
        start.valid(),
        end.valid(),
        start.spec_serial() < end.spec_serial(),
        0 <= m <= s.piece_count(start, end),
    ensures
        same_value(
            frac_sum(|j: int| icma_term(s, start, end, j), m),
            period_sum(
                s,
                start.spec_serial(),
                end.spec_serial(),
                s.spec_period_index(start),
                s.spec_period_index(start) + m,
            ),
        ),
        frac_sum(|j: int| icma_term(s, start, end, j), m).1 > 0,
    decreases m,
{
    let ks = s.spec_period_index(start);
    let (a, b) = (start.spec_serial(), end.spec_serial());
    if m == 0 {
        assert(same_value((0int, 1int), (0int, 1int)));
    } else {
        lemma_icma_as_periods(s, start, end, m - 1);
        let j = m - 1;
        let k = ks + j;
        let n = s.piece_count(start, end);
        let f = s.frequency() as int;
        s.lemma_pieces_cover(start, end);
        s.lemma_piece_shape(start, end, j);
        s.lemma_piece_shape(start, end, n - 1);
        s.lemma_period_bracket(start);
        lemma_months(f);
        reveal(Schedule::piece_serials);
        let p = s.piece_serials(start, end, j);
        assert(p.0 == s.roll_serial(k) && p.1 == s.roll_serial(k + 1));
        if j > 1 {
            s.lemma_rolls_increase(ks + 1, k);
        }
        if j < n - 1 {
            let q = s.piece_serials(start, end, n - 1);
            if k + 1 < ks + n - 1 {
                s.lemma_rolls_increase(k + 1, ks + n - 1);
            }
            assert(q.2 == s.roll_serial(ks + n - 1));
        }
        assert(p.3 - p.2 == overlap(s, a, b, k));
        lemma_period_term_den(s, a, b, k);
        lemma_period_sum_den(s, a, b, ks, k);
        let t = icma_term(s, start, end, j);
        let u = period_term(s, a, b, k);
        if is_full_piece(p) {
            assert(same_value(t, u)) by (nonlinear_arith)
                requires
                    t == (1int, f),
                    u == (p.1 - p.0, f * (p.1 - p.0)),
            ;
        }
        assert(t.1 > 0);
        lemma_add_congruent(
            frac_sum(|j: int| icma_term(s, start, end, j), m - 1),
            period_sum(s, a, b, ks, k),
            t,
            u,
        );
    }
}

/// A period with no days in `[a, b)` adds nothing at the end of a sum.
proof fn lemma_period_sum_extend_right(s: Schedule, a: int, b: int, k0: int, k1: int)
    requires
        s.anchor().valid(),
        valid_frequency(s.frequency() as int),
        k0 <= k1,
        overlap(s, a, b, k1) == 0,
    ensures
        same_value(period_sum(s, a, b, k0, k1 + 1), period_sum(s, a, b, k0, k1)),
{
    lemma_period_sum_den(s, a, b, k0, k1);
    let x = period_sum(s, a, b, k0, k1);
    let d = period_term(s, a, b, k1).1;
    assert(same_value(frac_add(x, (0int, d)), x)) by (nonlinear_arith);
}

/// A period with no days in `[a, b)` adds nothing at the start of a sum.
proof fn lemma_period_sum_extend_left(s: Schedule, a: int, b: int, k0: int, k1: int)
    requires
        s.anchor().valid(),
        valid_frequency(s.frequency() as int),
        k0 <= k1,
        overlap(s, a, b, k0 - 1) == 0,
    ensures
        same_value(period_sum(s, a, b, k0 - 1, k1), period_sum(s, a, b, k0, k1)),
    decreases k1 - k0,
{
    if k1 == k0 {
        let d = period_term(s, a, b, k0 - 1).1;
        assert(period_sum(s, a, b, k0 - 1, k0) == frac_add((0int, 1int), (0int, d)));
        assert(same_value(frac_add((0int, 1int), (0int, d)), (0int, 1int))) by (nonlinear_arith);
    } else {
        lemma_period_sum_extend_left(s, a, b, k0, k1 - 1);
        lemma_period_sum_den(s, a, b, k0 - 1, k1 - 1);
        lemma_period_sum_den(s, a, b, k0, k1 - 1);
        lemma_period_term_den(s, a, b, k1 - 1);
        let t = period_term(s, a, b, k1 - 1);
        assert(same_value(t, t));
        lemma_add_congruent(period_sum(s, a, b, k0 - 1, k1 - 1), period_sum(s, a, b, k0, k1 - 1), t, t);
    }
}

/// Splitting `[x, z)` at `y` splits each period's share.
proof fn lemma_period_sum_split(s: Schedule, x: int, y: int, z: int, k0: int, k1: int)
    requires
        s.anchor().valid(),
        valid_frequency(s.frequency() as int),
        x <= y <= z,
        k0 <= k1,
    ensures
        same_value(
            period_sum(s, x, z, k0, k1),
            frac_add(period_sum(s, x, y, k0, k1), period_sum(s, y, z, k0, k1)),
        ),
    decreases k1 - k0,
{
    if k1 == k0 {
        assert(same_value((0int, 1int), frac_add((0int, 1int), (0int, 1int)))) by (nonlinear_arith);
    } else {
        let k = k1 - 1;
        lemma_period_sum_split(s, x, y, z, k0, k);
        lemma_period_sum_den(s, x, z, k0, k);
        lemma_period_sum_den(s, x, y, k0, k);
        lemma_period_sum_den(s, y, z, k0, k);
        lemma_period_term_den(s, x, z, k);
        let a = period_sum(s, x, y, k0, k);
        let b = period_sum(s, y, z, k0, k);
        let w = period_sum(s, x, z, k0, k);
        let d = period_term(s, x, z, k).1;
        let c1 = overlap(s, x, y, k);
        let c2 = overlap(s, y, z, k);
        assert(overlap(s, x, z, k) == c1 + c2);
        crate::rational::lemma_den_positive(a.1, b.1);
        assert(same_value((c1 + c2, d), (c1 + c2, d)));
        lemma_add_congruent(w, frac_add(a, b), (c1 + c2, d), (c1 + c2, d));
        let lhs = frac_add(frac_add(a, b), (c1 + c2, d));
        let rhs = frac_add(frac_add(a, (c1, d)), frac_add(b, (c2, d)));
        let (a0, a1, b0, b1) = (a.0, a.1, b.0, b.1);
        assert(lhs == ((a0 * b1 + b0 * a1) * d + (c1 + c2) * (a1 * b1), (a1 * b1) * d));
        assert(rhs == ((a0 * d + c1 * a1) * (b1 * d) + (b0 * d + c2 * b1) * (a1 * d), (a1 * d) * (b1 * d)));
        let y1 = a1 * b1;
        assert((a0 * d + c1 * a1) * (b1 * d) == (a0 * d) * (b1 * d) + (c1 * a1) * (b1 * d)) by (nonlinear_arith);
        assert((b0 * d + c2 * b1) * (a1 * d) == (b0 * d) * (a1 * d) + (c2 * b1) * (a1 * d)) by (nonlinear_arith);
        assert((a0 * d) * (b1 * d) == d * ((a0 * b1) * d)) by (nonlinear_arith);
        assert((b0 * d) * (a1 * d) == d * ((b0 * a1) * d)) by (nonlinear_arith);
        assert((c1 * a1) * (b1 * d) == d * (c1 * y1)) by (nonlinear_arith)
            requires
                y1 == a1 * b1,
        ;
        assert((c2 * b1) * (a1 * d) == d * (c2 * y1)) by (nonlinear_arith)
            requires
                y1 == a1 * b1,
        ;
        assert((a0 * b1 + b0 * a1) * d == (a0 * b1) * d + (b0 * a1) * d) by (nonlinear_arith);
        assert((c1 + c2) * y1 == c1 * y1 + c2 * y1) by (nonlinear_arith);
        let (p1, p2, p3, p4) = ((a0 * b1) * d, (b0 * a1) * d, c1 * y1, c2 * y1);
        assert(d * p1 + d * p3 + d * p2 + d * p4 == d * (p1 + p2 + p3 + p4)) by (nonlinear_arith);
        assert((a1 * d) * (b1 * d) == d * ((a1 * b1) * d)) by (nonlinear_arith);
        assert(same_value(lhs, rhs)) by (nonlinear_arith)
            requires
                rhs.0 == d * lhs.0,
                rhs.1 == d * lhs.1,
        ;
        crate::rational::lemma_den_positive(frac_add(a, b).1, d);
        lemma_same_value_trans(period_sum(s, x, z, k0, k1), lhs, rhs);
    }
}

proof fn lemma_extend_right_to(s: Schedule, a: int, b: int, k0: int, k1: int, k2: int)
    requires
        s.anchor().valid(),
        valid_frequency(s.frequency() as int),
        k0 <= k1 <= k2,
        forall|k: int| k1 <= k < k2 ==> #[trigger] overlap(s, a, b, k) == 0,
    ensures
        same_value(period_sum(s, a, b, k0, k2), period_sum(s, a, b, k0, k1)),
    decreases k2 - k1,
{
    if k2 == k1 {
        assert(same_value(period_sum(s, a, b, k0, k1), period_sum(s, a, b, k0, k1)));
    } else {
        lemma_extend_right_to(s, a, b, k0, k1, k2 - 1);
        assert(overlap(s, a, b, k2 - 1) == 0);
        lemma_period_sum_extend_right(s, a, b, k0, k2 - 1);
        lemma_period_sum_den(s, a, b, k0, k2 - 1);
        lemma_same_value_trans(period_sum(s, a, b, k0, k2), period_sum(s, a, b, k0, k2 - 1), period_sum(s, a, b, k0, k1));
    }
}

proof fn lemma_extend_left_to(s: Schedule, a: int, b: int, k0: int, k1: int, k2: int)
    requires
        s.anchor().valid(),
        valid_frequency(s.frequency() as int),
        k0 <= k1 <= k2,
        forall|k: int| k0 <= k < k1 ==> #[trigger] overlap(s, a, b, k) == 0,
    ensures
        same_value(period_sum(s, a, b, k0, k2), period_sum(s, a, b, k1, k2)),
    decreases k1 - k0,
{
    if k1 == k0 {
        assert(same_value(period_sum(s, a, b, k0, k2), period_sum(s, a, b, k0, k2)));
    } else {
        lemma_extend_left_to(s, a, b, k0 + 1, k1, k2);
        assert(overlap(s, a, b, k0) == 0);
        lemma_period_sum_extend_left(s, a, b, k0 + 1, k2);
        lemma_period_sum_den(s, a, b, k0 + 1, k2);
        lemma_same_value_trans(period_sum(s, a, b, k0, k2), period_sum(s, a, b, k0 + 1, k2), period_sum(s, a, b, k1, k2));
    }
}

/// The last reference period of `[start, end)`: the one holding its last day.
proof fn lemma_last_period(s: Schedule, start: Date, end: Date)
    requires
        s.anchor().valid(),
        valid_frequency(s.frequency() as int),
        start.valid(),
        end.valid(),
        start.spec_serial() < end.spec_serial(),
    ensures
        s.piece_count(start, end) >= 1,
        ({
            let k = s.spec_period_index(start) + s.piece_count(start, end) - 1;
            s.roll_serial(k) < end.spec_serial() <= s.roll_serial(k + 1)
        }),
{
    let n = s.piece_count(start, end);
    s.lemma_pieces_cover(start, end);
    s.lemma_piece_shape(start, end, n - 1);
    reveal(Schedule::piece_serials);
}

/// ACT/ACT ICMA is additive: the value from `x` to `z` is the value from
/// `x` to `y` plus the value from `y` to `z`, since each reference period's
/// share splits by its days.
pub proof fn lemma_icma_additive(context: Context, x: Date, y: Date, z: Date)
    requires
        period_error(Convention::ActActIcma, context) is None,
        context.anchor matches Some(a) ==> a.valid(),
        x.valid(),
        y.valid(),
        z.valid(),
        x.spec_serial() <= y.spec_serial() <= z.spec_serial(),
    ensures
        same_value(
            period_value(Convention::ActActIcma, x, z, context),
            frac_add(
                period_value(Convention::ActActIcma, x, y, context),
                period_value(Convention::ActActIcma, y, z, context),
            ),
        ),
{
    let c = Convention::ActActIcma;
    let s = context_schedule(context);
    crate::schedule::lemma_schedule_of(
        context.frequency.unwrap(),
        context.anchor.unwrap(),
        context.end_of_month,
    );
    Date::lemma_serial_determines(x, y);
    Date::lemma_serial_determines(y, z);
    Date::lemma_serial_determines(x, z);
    let (xs, ys, zs) = (x.spec_serial(), y.spec_serial(), z.spec_serial());
    let whole = period_value(c, x, z, context);
    let first = period_value(c, x, y, context);
    let second = period_value(c, y, z, context);
    if xs == ys {
        assert(frac_add(first, second) == (0 * second.1 + second.0 * 1, 1 * second.1));
    } else if ys == zs {
        assert(frac_add(first, second) == (first.0 * 1 + 0 * first.1, first.1 * 1));
    } else {
        let kx = s.spec_period_index(x);
        let ky = s.spec_period_index(y);
        let nxz = s.piece_count(x, z);
        let nxy = s.piece_count(x, y);
        let nyz = s.piece_count(y, z);
        let k1 = kx + nxz;
        s.lemma_period_bracket(x);
        s.lemma_period_bracket(y);
        lemma_last_period(s, x, z);
        lemma_last_period(s, x, y);
        lemma_last_period(s, y, z);
        // The periods of [x, y) and of [y, z) lie within those of [x, z).
        if kx + nxy - 1 > k1 {
            s.lemma_rolls_increase(k1, kx + nxy - 1);
        }
        if kx > ky + 1 {
            s.lemma_rolls_increase(ky + 1, kx);
        }
        if ky + nyz < k1 - 1 {
            s.lemma_rolls_increase(ky + nyz, k1 - 1);
        }
        if ky + nyz - 1 > k1 {
            s.lemma_rolls_increase(k1, ky + nyz - 1);
        }
        assert(kx + nxy <= k1 && kx <= ky && ky + nyz == k1);
        // Outside their own periods, the parts have no days.
        assert forall|k: int| kx + nxy <= k < k1 implies #[trigger] overlap(s, xs, ys, k) == 0 by {
            if k > kx + nxy {
                s.lemma_rolls_increase(kx + nxy, k);
            }
        }
        assert forall|k: int| kx <= k < ky implies #[trigger] overlap(s, ys, zs, k) == 0 by {
            if k + 1 < ky {
                s.lemma_rolls_increase(k + 1, ky);
            }
        }
        lemma_icma_as_periods(s, x, z, nxz);
        lemma_icma_as_periods(s, x, y, nxy);
        lemma_icma_as_periods(s, y, z, nyz);
        lemma_extend_right_to(s, xs, ys, kx, kx + nxy, k1);
        lemma_extend_left_to(s, ys, zs, kx, ky, k1);
        lemma_period_sum_split(s, xs, ys, zs, kx, k1);
        lemma_period_sum_den(s, xs, zs, kx, k1);
        lemma_period_sum_den(s, xs, ys, kx, k1);
        lemma_period_sum_den(s, ys, zs, kx, k1);
        lemma_period_sum_den(s, xs, ys, kx, kx + nxy);
        lemma_period_sum_den(s, ys, zs, ky, k1);
        let pxz = period_sum(s, xs, zs, kx, k1);
        let pxy = period_sum(s, xs, ys, kx, k1);
        let pyz = period_sum(s, ys, zs, kx, k1);
        // The parts over the common range of periods equal the parts' values.
        lemma_same_value_trans(pxy, period_sum(s, xs, ys, kx, kx + nxy), first);
        lemma_same_value_trans(pyz, period_sum(s, ys, zs, ky, k1), second);
        lemma_add_congruent(pxy, first, pyz, second);
        lemma_same_value_trans(whole, pxz, frac_add(pxy, pyz));
        crate::rational::lemma_den_positive(pxy.1, pyz.1);
        lemma_same_value_trans(whole, frac_add(pxy, pyz), frac_add(first, second));
    }
}

} // verus!
