//! What can be wrong with an input, and how it is worded.

use crate::decimal::{decimal, push_decimal};
use vstd::prelude::*;
use vstd::string::StringExecFns;

verus! {

/// The two numbers that stand before the grid in an input.
#[derive(Clone, Copy, Debug, PartialEq, Eq, Structural)]
pub enum Field {
    /// The number of rows and of columns.
    GridSize,
    /// The number of logs to stack.
    LogsCount,
}

/// The reason why an input was turned down.
#[derive(Clone, Copy, Debug, PartialEq, Eq, Structural)]
pub enum InputError {
    /// The line of a field is not there.
    MissingField(Field),
    /// The line of a field does not write a number.
    NotAnInteger(Field),
    /// The grid size is zero.
    InvalidSize,
    /// A word of a grid row does not write a pile height.
    MalformedCell,
    /// A grid row does not hold as many piles as the grid size asks for.
    RowWidthMismatch { expected: usize },
    /// There are not as many grid rows as the grid size asks for.
    RowCountMismatch { expected: usize },
}

impl Field {
    /// The words by which a message speaks of the field.
    pub open spec fn spec_name(self) -> Seq<char> {
        match self {
            Field::GridSize => "grid size"@,
            Field::LogsCount => "logs count"@,
        }
    }

    /// The words by which a message speaks of the field.
    pub fn name(self) -> (name: &'static str)
        ensures
            name@ == self.spec_name(),
    {
        match self {
            Field::GridSize => "grid size",
            Field::LogsCount => "logs count",
        }
    }
}

impl InputError {
    /// The sentence that tells a user what is wrong.
    pub open spec fn spec_message(self) -> Seq<char> {
        match self {
            InputError::MissingField(field) => "no "@ + field.spec_name() + " given"@,
            InputError::NotAnInteger(field) => field.spec_name() + " must be positive integer"@,
            InputError::InvalidSize => "size cannot be zero"@,
            InputError::MalformedCell => "each log pile must be positive integer"@,
            InputError::RowWidthMismatch { expected } => "each grid row must be exactly "@
                + decimal(expected as nat) + " piles wide"@,
            InputError::RowCountMismatch { expected } => "grid must be exactly "@ + decimal(
                expected as nat,
            ) + " rows long"@,
        }
    }

    /// The sentence that tells a user what is wrong.
    pub fn message(self) -> (text: String)
        ensures
            text@ == self.spec_message(),
    {
        let mut text = String::new();
        match self {
            InputError::MissingField(field) => {
                text.append("no ");
                text.append(field.name());
                text.append(" given");
            },
            InputError::NotAnInteger(field) => {
                text.append(field.name());
                text.append(" must be positive integer");
            },
            InputError::InvalidSize => {
                text.append("size cannot be zero");
            },
            InputError::MalformedCell => {
                text.append("each log pile must be positive integer");
            },
            InputError::RowWidthMismatch { expected } => {
                text.append("each grid row must be exactly ");
                push_decimal(&mut text, expected as u64);
                text.append(" piles wide");
            },
            InputError::RowCountMismatch { expected } => {
                text.append("grid must be exactly ");
                push_decimal(&mut text, expected as u64);
                text.append(" rows long");
            },
        }
        assert(text@ =~= self.spec_message());
        text
    }

    /// The line that is put out in place of a grid: the message, after the
    /// words that say that the input was turned down. It has no line feed.
    pub open spec fn spec_report(self) -> Seq<char> {
        "Invalid input: "@ + self.spec_message()
    }

    /// The line that is put out in place of a grid.
    pub fn report(self) -> (line: String)
        ensures
            line@ == self.spec_report(),
    {
        let mut line = String::new();
        line.append("Invalid input: ");
        line.append(self.message().as_str());
        assert(line@ =~= self.spec_report());
        line
    }
}

} // verus!
