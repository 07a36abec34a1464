//! The data model: loan types, calendar dates and times, and one lender's
//! rate quote on one date.

use vstd::prelude::*;

verus! {

/// The kind of loan a quote is for.
#[derive(Clone, Copy, Debug, PartialEq, Eq, Structural)]
pub enum LoanType {
    Purchase,
    Refinance,
}

/// Which numeric field of a record a series is built from.
#[derive(Clone, Copy, Debug, PartialEq, Eq, Structural)]
pub enum ValueField {
    Rate,
    Apr,
}

/// The errors of the library.
#[derive(Clone, Copy, Debug, PartialEq, Eq, Structural)]
pub enum RateError {
    /// Persisted content does not parse as a record store.
    CorruptStore,
    /// A date string does not match the fixed `YYYY-MM-DDTHH:MM:SS` format.
    MalformedDate,
    /// Axis bounds were requested over zero data points.
    EmptyDomain,
}

/// A calendar date, used for batch deduplication and as the x coordinate of
/// a series point.
#[derive(Clone, Copy, Debug, PartialEq, Eq, Structural)]
pub struct Date {
    pub year: u16,
    pub month: u8,
    pub day: u8,
}

/// A calendar date with a time of day, as reported by the rate source.
/// Only the calendar date takes part in deduplication; the time of day is
/// retained for storage round-tripping.
#[derive(Clone, Copy, Debug, PartialEq, Eq, Structural)]
pub struct DateTime {
    pub year: u16,
    pub month: u8,
    pub day: u8,
    pub hour: u8,
    pub minute: u8,
    pub second: u8,
}

pub open spec fn spec_is_leap_year(y: int) -> bool {
    (y % 4 == 0 && y % 100 != 0) || y % 400 == 0
}

pub open spec fn spec_days_in_month(y: int, m: int) -> int {
    if m == 2 {
        if spec_is_leap_year(y) {
            29
        } else {
            28
        }
    } else if m == 4 || m == 6 || m == 9 || m == 11 {
        30
    } else {
        31
    }
}

pub fn is_leap_year(y: u16) -> (r: bool)
    ensures
        r == spec_is_leap_year(y as int),
{
    (y % 4 == 0 && y % 100 != 0) || y % 400 == 0
}

pub fn days_in_month(y: u16, m: u8) -> (r: u8)
    ensures
        r as int == spec_days_in_month(y as int, m as int),
{
    if m == 2 {
        if is_leap_year(y) {
            29
        } else {
            28
        }
    } else if m == 4 || m == 6 || m == 9 || m == 11 {
        30
    } else {
        31
    }
}

impl DateTime {
    /// A datetime the fixed storage format can represent: a real calendar
    /// date with a four-digit year and a valid time of day.
    pub open spec fn valid(self) -> bool {
        &&& self.year <= 9999
        &&& 1 <= self.month <= 12
        &&& 1 <= self.day <= spec_days_in_month(self.year as int, self.month as int)
        &&& self.hour < 24
        &&& self.minute < 60
        &&& self.second < 60
    }

    pub open spec fn spec_date(&self) -> Date {
        Date { year: self.year, month: self.month, day: self.day }
    }

    /// The calendar-date part, dropping the time of day.
    #[verifier::when_used_as_spec(spec_date)]
    pub fn date(&self) -> (d: Date)
        ensures
            d == self.spec_date(),
    {
        Date { year: self.year, month: self.month, day: self.day }
    }
}

/// One lender's quote on one date. `rate`, `apr` and `discount_points` are
/// percentages in thousandths (3990 means 3.990 percent).
#[derive(Clone, Debug, PartialEq)]
pub struct LendingRates {
    pub lender: Option<String>,
    pub term: u8,
    pub apr: u32,
    pub discount_points: u32,
    pub current_as_of_date: DateTime,
    pub loan_type: LoanType,
    pub rate: u32,
}

/// The mathematical model of a record: the lender name as a character
/// sequence, everything else as the plain value it is.
#[verifier::ext_equal]
pub ghost struct RecordModel {
    pub lender: Option<Seq<char>>,
    pub term: u8,
    pub apr: u32,
    pub discount_points: u32,
    pub current_as_of_date: DateTime,
    pub loan_type: LoanType,
    pub rate: u32,
}

/// A character the storage format can carry in a lender name: printable
/// ASCII, with the two JSON string metacharacters excluded.
pub open spec fn lender_char_ok(c: char) -> bool {
    32 <= c as int <= 126 && c != '"' && c != '\\'
}

pub open spec fn lender_ok(l: Seq<char>) -> bool {
    forall|i: int| 0 <= i < l.len() ==> lender_char_ok(#[trigger] l[i])
}

impl RecordModel {
    /// Well-formedness: a positive term, a representable datetime, and a
    /// lender name the storage format can carry.
    pub open spec fn valid(self) -> bool {
        &&& self.term > 0
        &&& self.current_as_of_date.valid()
        &&& match self.lender {
            Some(l) => lender_ok(l),
            None => true,
        }
    }
}

impl View for LendingRates {
    type V = RecordModel;

    open spec fn view(&self) -> RecordModel {
        RecordModel {
            lender: self.lender.deep_view(),
            term: self.term,
            apr: self.apr,
            discount_points: self.discount_points,
            current_as_of_date: self.current_as_of_date,
            loan_type: self.loan_type,
            rate: self.rate,
        }
    }
}

impl DeepView for LendingRates {
    type V = RecordModel;

    open spec fn deep_view(&self) -> RecordModel {
        self.view()
    }
}

} // verus!
