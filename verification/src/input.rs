//! A whole input: the grid size, the number of logs, and the rows of the grid,
//! one line each.

use crate::decimal::{parse_decimal, parsed};
use crate::error::{Field, InputError};
use crate::grid::{grid_of, Grid};
use crate::row::bytes_of;
use vstd::prelude::*;
use vstd::slice::slice_subrange;
use vstd::string::StringSliceAdditionalSpecFns;

verus! {

/// What the line of a field is worth: the number that it writes, if the
/// line is there and is a number that a `usize` holds, and nothing else.
pub open spec fn field_of(line: Option<Seq<u8>>, field: Field) -> Result<usize, InputError> {
    match line {
        None => Err(InputError::MissingField(field)),
        Some(text) => match parsed(text, usize::MAX as nat) {
            Some(value) => Ok(value as usize),
            None => Err(InputError::NotAnInteger(field)),
        },
    }
}

/// Line `k`, if there is one.
pub open spec fn line_at(lines: Seq<Seq<u8>>, k: int) -> Option<Seq<u8>> {
    if 0 <= k < lines.len() {
        Some(lines[k])
    } else {
        None
    }
}

/// What the lines are worth as an input: the rows of the grid and the
/// number of logs, or the first thing that is wrong. The grid size is looked
/// at first, then the number of logs, then the grid, which is all the lines
/// from the third on.
pub open spec fn input_of(lines: Seq<Seq<u8>>) -> Result<(Seq<Seq<u32>>, usize), InputError> {
    match field_of(line_at(lines, 0), Field::GridSize) {
        Err(error) => Err(error),
        Ok(size) => match field_of(line_at(lines, 1), Field::LogsCount) {
            Err(error) => Err(error),
            Ok(logs) => match grid_of(size, lines.skip(2)) {
                Err(error) => Err(error),
                Ok(rows) => Ok((rows, logs)),
            },
        },
    }
}

/// The bytes of a line that may be missing.
pub open spec fn bytes_of_line(line: Option<&str>) -> Option<Seq<u8>> {
    match line {
        Some(text) => Some(text.spec_bytes()),
        None => None,
    }
}

/// Reads the number of a field from its line.
pub fn read_usize(line: Option<&str>, field: Field) -> (value: Result<usize, InputError>)
    ensures
        value == field_of(bytes_of_line(line), field),
{
    match line {
        None => Err(InputError::MissingField(field)),
        Some(text) => match parse_decimal(text.as_bytes(), usize::MAX as u64) {
            Some(value) => Ok(value as usize),
            None => Err(InputError::NotAnInteger(field)),
        },
    }
}

/// Line `k` of `lines`, if there is one.
fn nth_line<'a>(lines: &[&'a str], k: usize) -> (line: Option<&'a str>)
    ensures
        bytes_of_line(line) == line_at(bytes_of(lines@), k as int),
{
    if k < lines.len() {
        Some(lines[k])
    } else {
        None
    }
}

/// Reads an input from its lines: the grid, and the number of logs to stack
/// on it.
pub fn read_input(lines: &[&str]) -> (input: Result<(Grid, usize), InputError>)
    ensures
        match input {
            Ok((grid, logs)) => grid.wf() && input_of(bytes_of(lines@)) == Ok::<
                (Seq<Seq<u32>>, usize),
                InputError,
            >((grid@, logs)),
            Err(error) => input_of(bytes_of(lines@)) == Err::<(Seq<Seq<u32>>, usize), InputError>(
                error,
            ),
        },
{
    let size = match read_usize(nth_line(lines, 0), Field::GridSize) {
        Ok(size) => size,
        Err(error) => {
            return Err(error);
        },
    };
    let logs = match read_usize(nth_line(lines, 1), Field::LogsCount) {
        Ok(logs) => logs,
        Err(error) => {
            return Err(error);
        },
    };
    let rows = slice_subrange(lines, 2, lines.len());
    assert(bytes_of(rows@) =~= bytes_of(lines@).skip(2));
    match Grid::new(size, rows) {
        Ok(grid) => Ok((grid, logs)),
        Err(error) => Err(error),
    }
}

} // verus!
