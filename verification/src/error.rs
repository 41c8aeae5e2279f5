//! The error of the crate.

use crate::grammar::Fault;
use vstd::prelude::*;
use vstd::string::StringExecFns;

verus! {

/// A text that is no reference. Each variant holds the input that was left
/// when the scanner gave up, from the place where it stood to the end.
#[derive(Debug, Clone, PartialEq, Eq)]
pub enum OdsError {
    /// There is no `.` outside quotes.
    MissingSeparator(String),
    /// No column stands after the `.`.
    MissingColumn(String),
    /// No row stands after the column.
    MissingRow(String),
    /// No `:` stands after the first cell of a range.
    MissingRangeColon(String),
    /// Something other than a single blank stands after a range of a list.
    MissingListSeparator(String),
}

/// The words with which [`OdsError::message`] starts.
pub open spec fn fault_text(fault: Fault) -> Seq<char> {
    match fault {
        Fault::MissingSeparator => "No '.' in the cell reference "@,
        Fault::MissingColumn => "No colname in the cell reference "@,
        Fault::MissingRow => "No rowname in the cell reference "@,
        Fault::MissingRangeColon => "No colon in cellrange "@,
        Fault::MissingListSeparator => "No blank between cellranges "@,
    }
}

impl OdsError {
    /// What was wrong with the text.
    pub open spec fn fault(&self) -> Fault {
        match self {
            OdsError::MissingSeparator(_) => Fault::MissingSeparator,
            OdsError::MissingColumn(_) => Fault::MissingColumn,
            OdsError::MissingRow(_) => Fault::MissingRow,
            OdsError::MissingRangeColon(_) => Fault::MissingRangeColon,
            OdsError::MissingListSeparator(_) => Fault::MissingListSeparator,
        }
    }

    /// The input that was left when the scanner gave up.
    pub open spec fn rest(&self) -> Seq<char> {
        match self {
            OdsError::MissingSeparator(rest) => rest@,
            OdsError::MissingColumn(rest) => rest@,
            OdsError::MissingRow(rest) => rest@,
            OdsError::MissingRangeColon(rest) => rest@,
            OdsError::MissingListSeparator(rest) => rest@,
        }
    }

    /// What was wrong with the text.
    pub fn kind(&self) -> (fault: Fault)
        ensures
            fault == self.fault(),
    {
        match self {
            OdsError::MissingSeparator(_) => Fault::MissingSeparator,
            OdsError::MissingColumn(_) => Fault::MissingColumn,
            OdsError::MissingRow(_) => Fault::MissingRow,
            OdsError::MissingRangeColon(_) => Fault::MissingRangeColon,
            OdsError::MissingListSeparator(_) => Fault::MissingListSeparator,
        }
    }

    /// The input that was left when the scanner gave up.
    pub fn remaining_input(&self) -> (rest: &str)
        ensures
            rest@ == self.rest(),
    {
        match self {
            OdsError::MissingSeparator(rest) => rest.as_str(),
            OdsError::MissingColumn(rest) => rest.as_str(),
            OdsError::MissingRow(rest) => rest.as_str(),
            OdsError::MissingRangeColon(rest) => rest.as_str(),
            OdsError::MissingListSeparator(rest) => rest.as_str(),
        }
    }

    /// The error in words: what is missing, then the input that was left.
    pub fn message(&self) -> (text: String)
        ensures
            text@ == fault_text(self.fault()) + self.rest(),
    {
        let words = match self {
            OdsError::MissingSeparator(_) => "No '.' in the cell reference ",
            OdsError::MissingColumn(_) => "No colname in the cell reference ",
            OdsError::MissingRow(_) => "No rowname in the cell reference ",
            OdsError::MissingRangeColon(_) => "No colon in cellrange ",
            OdsError::MissingListSeparator(_) => "No blank between cellranges ",
        };
        let mut text = String::from_str(words);
        text.append(self.remaining_input());
        text
    }
}

} // verus!
