//! The grid as text: one line per row, the piles of a column right-aligned
//! under each other.

use crate::decimal::{decimal, decimal_len, lemma_decimal_len_u32, push_decimal};
use crate::scan::{is_square, rows_of};
use vstd::prelude::*;
use vstd::string::StringExecFns;

verus! {

/// The width that a pile asks of its column: its digits, and one blank in
/// front of them in every column but the first.
pub open spec fn cell_width(height: u32, column: int) -> nat {
    if column > 0 {
        decimal(height as nat).len() + 1
    } else {
        decimal(height as nat).len()
    }
}

/// The width of a column: the largest that any of its piles asks for.
pub open spec fn column_width(rows: Seq<Seq<u32>>, column: int) -> nat
    decreases rows.len(),
{
    if rows.len() == 0 {
        0
    } else {
        let above = column_width(rows.drop_last(), column);
        let here = cell_width(rows.last()[column], column);
        if above >= here {
            above
        } else {
            here
        }
    }
}

/// A run of spaces.
pub open spec fn blanks(count: nat) -> Seq<char> {
    Seq::new(count, |i: int| ' ')
}

/// A pile written at the right of a field of `width` characters.
pub open spec fn padded(height: u32, width: nat) -> Seq<char> {
    blanks((width - decimal(height as nat).len()) as nat) + decimal(height as nat)
}

/// The first `columns` piles of row `r`, each in the width of its column.
pub open spec fn row_text(rows: Seq<Seq<u32>>, r: int, columns: nat) -> Seq<char>
    decreases columns,
{
    if columns == 0 {
        Seq::empty()
    } else {
        row_text(rows, r, (columns - 1) as nat) + padded(
            rows[r][columns - 1],
            column_width(rows, columns - 1),
        )
    }
}

/// The first `lines` rows, each ended by a line feed.
pub open spec fn rows_text(rows: Seq<Seq<u32>>, lines: nat) -> Seq<char>
    decreases lines,
{
    if lines == 0 {
        Seq::empty()
    } else {
        rows_text(rows, (lines - 1) as nat) + row_text(rows, lines - 1, rows[lines - 1].len())
            + seq!['\n']
    }
}

/// The whole grid as text.
pub open spec fn grid_text(rows: Seq<Seq<u32>>) -> Seq<char> {
    rows_text(rows, rows.len())
}

/// A column is at least as wide as each of its piles asks for.
pub proof fn lemma_column_width_fits(rows: Seq<Seq<u32>>, r: int, column: int)
    requires
        0 <= r < rows.len(),
    ensures
        cell_width(rows[r][column], column) <= column_width(rows, column),
    decreases rows.len(),
{
    if r < rows.len() - 1 {
        lemma_column_width_fits(rows.drop_last(), r, column);
    }
}

/// The width of every column of a square grid.
pub fn column_widths(rows: &Vec<Vec<u32>>) -> (widths: Vec<usize>)
    requires
        is_square(rows_of(*rows)),
    ensures
        widths.len() == rows.len(),
        forall|c: int|
            0 <= c < widths.len() ==> #[trigger] widths[c] == column_width(rows_of(*rows), c),
{
    let size = rows.len();
    let ghost grid = rows_of(*rows);
    let mut widths: Vec<usize> = Vec::new();
    let mut c: usize = 0;
    while c < size
        invariant
            is_square(grid),
            grid == rows_of(*rows),
            size == rows.len(),
            c <= size,
            widths.len() == c,
            forall|k: int| 0 <= k < c ==> #[trigger] widths[k] == column_width(grid, k),
        decreases size - c,
    {
        let mut width: usize = 0;
        let mut r: usize = 0;
        while r < size
            invariant
                is_square(grid),
                grid == rows_of(*rows),
                size == rows.len(),
                c < size,
                r <= size,
                width == column_width(grid.take(r as int), c as int),
            decreases size - r,
        {
            proof {
                assert(grid[r as int] == rows[r as int]@);
                assert(grid.take(r + 1).drop_last() =~= grid.take(r as int));
                lemma_decimal_len_u32(rows[r as int][c as int]);
            }
            let digits = decimal_len(rows[r][c] as u64);
            let here = if c > 0 {
                digits + 1
            } else {
                digits
            };
            if here > width {
                width = here;
            }
            r += 1;
        }
        assert(grid.take(size as int) =~= grid);
        widths.push(width);
        c += 1;
    }
    widths
}

/// Writes `count` spaces at the end of `text`.
pub fn push_blanks(text: &mut String, count: usize)
    ensures
        final(text)@ == old(text)@ + blanks(count as nat),
{
    let mut done: usize = 0;
    assert(text@ =~= old(text)@ + blanks(0));
    while done < count
        invariant
            done <= count,
            text@ == old(text)@ + blanks(done as nat),
        decreases count - done,
    {
        text.append(" ");
        done += 1;
        proof {
            reveal_strlit(" ");
            assert(text@ =~= old(text)@ + blanks(done as nat));
        }
    }
}

/// Writes a square grid as text: one line per row, every pile at the right
/// of its column, the columns as wide as [`column_width`] says.
pub fn render(rows: &Vec<Vec<u32>>) -> (text: String)
    requires
        is_square(rows_of(*rows)),
    ensures
        text@ == grid_text(rows_of(*rows)),
{
    let size = rows.len();
    let ghost grid = rows_of(*rows);
    let widths = column_widths(rows);
    let mut text = String::new();
    let mut r: usize = 0;
    while r < size
        invariant
            is_square(grid),
            grid == rows_of(*rows),
            size == rows.len(),
            widths.len() == size,
            forall|c: int| 0 <= c < size ==> #[trigger] widths[c] == column_width(grid, c),
            r <= size,
            text@ == rows_text(grid, r as nat),
        decreases size - r,
    {
        let ghost above = text@;
        let mut c: usize = 0;
        assert(grid[r as int] == rows[r as int]@);
        assert(text@ =~= above + row_text(grid, r as int, 0));
        while c < size
            invariant
                is_square(grid),
                grid == rows_of(*rows),
                size == rows.len(),
                widths.len() == size,
                forall|k: int| 0 <= k < size ==> #[trigger] widths[k] == column_width(grid, k),
                r < size,
                c <= size,
                grid[r as int] == rows[r as int]@,
                text@ == above + row_text(grid, r as int, c as nat),
            decreases size - c,
        {
            let height = rows[r][c];
            let digits = decimal_len(height as u64);
            proof {
                lemma_column_width_fits(grid, r as int, c as int);
            }
            push_blanks(&mut text, widths[c] - digits);
            push_decimal(&mut text, height as u64);
            c += 1;
            proof {
                assert(text@ =~= above + row_text(grid, r as int, c as nat));
            }
        }
        text.append("\n");
        r += 1;
        proof {
            reveal_strlit("\n");
            assert(text@ =~= rows_text(grid, r as nat));
        }
    }
    text
}

} // verus!
