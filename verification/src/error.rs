//! The errors that the conversions report.

use vstd::prelude::*;

verus! {

/// Why a date could not be converted.
#[derive(Debug, Clone, Copy, PartialEq, Eq, Structural)]
pub enum Error {
    /// The year lies outside the years that the table covers, or the
    /// descriptor of the year names a leap month above 12.
    YearOutOfRange,
    /// The year has no month with this number and leap flag.
    MonthOutOfRange,
    /// The month has no day with this number.
    DayOutOfRange,
}

impl Error {
    /// The text that `description` returns for this error.
    pub open spec fn spec_description(self) -> Seq<char> {
        match self {
            Error::YearOutOfRange => "year out of range"@,
            Error::MonthOutOfRange => "month out of range"@,
            Error::DayOutOfRange => "day out of range"@,
        }
    }

    /// A short text that names the error.
    pub fn description(&self) -> (text: &'static str)
        ensures
            text@ == self.spec_description(),
    {
        match *self {
            Error::YearOutOfRange => "year out of range",
            Error::MonthOutOfRange => "month out of range",
            Error::DayOutOfRange => "day out of range",
        }
    }
}

} // verus!
