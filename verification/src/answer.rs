//! From the lines of an input to the text that answers it.

use crate::grid::stacked_rows;
use crate::input::{input_of, read_input};
use crate::layout::grid_text;
use crate::piles::room;
use crate::row::bytes_of;
use crate::scan::row_major;
use vstd::prelude::*;
use vstd::string::StringExecFns;

verus! {

/// What is put out for an input. For one that is turned down, the line that
/// says so. For one that is taken, the grid as it stands after the logs are
/// stacked, as text; but nothing where the grid has no room for the logs.
pub open spec fn answer_of(lines: Seq<Seq<u8>>) -> Option<Seq<char>> {
    match input_of(lines) {
        Err(error) => Some(error.spec_report() + seq!['\n']),
        Ok((rows, logs)) => if logs <= room(row_major(rows)) {
            Some(grid_text(stacked_rows(rows, logs as nat)))
        } else {
            None
        },
    }
}

/// Reads an input, stacks the logs on the grid and writes the grid.
///
/// Gives the whole text to put out: the grid after stacking, or one line
/// that tells what is wrong with the input. Gives nothing where the input is
/// taken but the grid has no room for the logs.
pub fn answer(lines: &[&str]) -> (text: Option<String>)
    ensures
        match text {
            Some(text) => answer_of(bytes_of(lines@)) == Some(text@),
            None => answer_of(bytes_of(lines@)) is None,
        },
{
    match read_input(lines) {
        Ok((mut grid, logs)) => {
            if grid.has_room(logs) {
                grid.add_logs(logs);
                Some(grid.render())
            } else {
                None
            }
        },
        Err(error) => {
            let mut line = error.report();
            line.append("\n");
            proof {
                reveal_strlit("\n");
            }
            Some(line)
        },
    }
}

} // verus!
