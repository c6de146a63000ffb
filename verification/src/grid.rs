//! The square grid of log piles and the operation that stacks new logs on it.

use crate::error::InputError;
use crate::layout::{grid_text, render};
use crate::piles::{
    first_lowest, is_first_lowest, lemma_first_lowest_exists, lemma_first_lowest_is,
    lemma_lowest_is, lemma_room_keeps_lowest_below_cap, lemma_room_of_front,
    lemma_stacked_in_turns, lemma_stacked_total, lowest, room, stacked, total,
};
use crate::row::{bytes_of, parse_row, row_of};
use crate::scan::{
    in_rows, is_square, lemma_in_rows_of_row_major, lemma_row_major_index, lemma_row_major_place,
    lemma_row_major_update, row_major, rows_of,
};
use vstd::prelude::*;
use vstd::string::StringSliceAdditionalSpecFns;

verus! {

/// A square grid of log piles, together with the height of its lowest pile.
#[derive(Debug, PartialEq, Eq)]
pub struct Grid {
    min_pile_size: u32,
    rows: Vec<Vec<u32>>,
}

/// The rows of a square grid after `logs` logs are stacked on it, one at a
/// time, each on the first pile in scan order that is as low as any.
pub open spec fn stacked_rows(rows: Seq<Seq<u32>>, logs: nat) -> Seq<Seq<u32>> {
    in_rows(stacked(row_major(rows), logs), rows.len())
}

/// Line `r` is the first that is not a row of `size` piles.
pub open spec fn is_first_bad_row(lines: Seq<Seq<u8>>, size: usize, r: int) -> bool {
    &&& 0 <= r < lines.len()
    &&& row_of(lines[r], size) is Err
    &&& forall|q: int| 0 <= q < r ==> (#[trigger] row_of(lines[q], size)) is Ok
}

/// What the lines are worth as a grid of `size` rows and columns: the rows
/// that they write, or the first thing that is wrong. The size is looked at
/// first, then every line from the top, as far as there are lines, and the
/// number of lines last.
pub open spec fn grid_of(size: usize, lines: Seq<Seq<u8>>) -> Result<Seq<Seq<u32>>, InputError> {
    if size == 0 {
        Err(InputError::InvalidSize)
    } else if exists|r: int| is_first_bad_row(lines, size, r) {
        let r = choose|r: int| is_first_bad_row(lines, size, r);
        Err(row_of(lines[r], size)->Err_0)
    } else if lines.len() != size {
        Err(InputError::RowCountMismatch { expected: size })
    } else {
        Ok(Seq::new(lines.len(), |r: int| row_of(lines[r], size)->Ok_0))
    }
}

/// The height of the lowest pile of a square grid.
fn lowest_pile(rows: &Vec<Vec<u32>>) -> (height: u32)
    requires
        is_square(rows_of(*rows)),
    ensures
        height == lowest(row_major(rows_of(*rows))),
{
    let size = rows.len();
    let ghost n = size as int;
    let ghost cells = row_major(rows_of(*rows));
    proof {
        assert(rows_of(*rows)[0] == rows[0]@);
        lemma_row_major_index(rows_of(*rows), 0, 0);
    }
    let mut height = rows[0][0];
    let ghost mut witness = 0int;
    let mut i: usize = 0;
    let mut j: usize = 0;
    while i < size
        invariant
            is_square(rows_of(*rows)),
            cells == row_major(rows_of(*rows)),
            n == size,
            n == rows.len(),
            cells.len() == n * n,
            i <= size,
            i < size ==> j < size,
            i == size ==> j == 0,
            0 <= witness < n * n,
            cells[witness] == height,
            forall|k: int| 0 <= k < i * n + j ==> height <= #[trigger] cells[k],
        decreases size - i, size - j,
    {
        let ghost place = i * n + j;
        proof {
            assert(rows_of(*rows)[i as int] == rows[i as int]@);
            lemma_row_major_index(rows_of(*rows), i as int, j as int);
        }
        let pile = rows[i][j];
        if pile < height {
            height = pile;
            proof {
                witness = place;
            }
        }
        j += 1;
        if j == size {
            j = 0;
            i += 1;
        }
        proof {
            assert((i as int) * n + j == place + 1) by (nonlinear_arith)
                requires
                    (i as int) * n + j == place + 1 || ((i as int - 1) * n + n == place + 1 && j
                        == 0),
            ;
        }
    }
    proof {
        assert(i * n + j == n * n) by (nonlinear_arith)
            requires
                i == n,
                j == 0,
        ;
        lemma_lowest_is(cells, height as int, witness);
    }
    height
}

impl View for Grid {
    type V = Seq<Seq<u32>>;

    /// The rows of the grid, top to bottom.
    closed spec fn view(&self) -> Seq<Seq<u32>> {
        rows_of(self.rows)
    }
}

impl Grid {
    /// The height that the grid carries as that of its lowest pile.
    pub closed spec fn spec_min_pile_size(&self) -> u32 {
        self.min_pile_size
    }

    /// The number of rows, which is the number of columns.
    pub open spec fn spec_size(&self) -> nat {
        self@.len()
    }

    /// The piles in scan order.
    pub open spec fn cells(&self) -> Seq<int> {
        row_major(self@)
    }

    /// The grid is square and not empty, and the height it carries as its
    /// lowest is the height of its lowest pile.
    pub open spec fn wf(&self) -> bool {
        &&& is_square(self@)
        &&& self.spec_min_pile_size() == lowest(self.cells())
    }

    /// This grid is what `before` becomes when `logs` logs are stacked on it:
    /// a grid of the same size whose piles, in scan order, are those of
    /// `before` after that many logs.
    pub open spec fn is_stacked_from(&self, before: Grid, logs: nat) -> bool {
        &&& self.wf()
        &&& self.spec_size() == before.spec_size()
        &&& self.cells() == stacked(before.cells(), logs)
    }

    /// Reads `lines` as a grid of `size` rows and columns.
    ///
    /// The size must not be zero; every line, however many there are, must
    /// be a row of `size` piles; and there must be `size` lines.
    pub fn new(size: usize, lines: &[&str]) -> (grid: Result<Grid, InputError>)
        ensures
            match grid {
                Ok(grid) => grid.wf() && grid.spec_size() == size && grid_of(
                    size,
                    bytes_of(lines@),
                ) == Ok::<Seq<Seq<u32>>, InputError>(grid@),
                Err(error) => grid_of(size, bytes_of(lines@)) == Err::<Seq<Seq<u32>>, InputError>(
                    error,
                ),
            },
    {
        if size == 0 {
            return Err(InputError::InvalidSize);
        }
        let ghost texts = bytes_of(lines@);
        let mut rows: Vec<Vec<u32>> = Vec::new();
        let mut r: usize = 0;
        while r < lines.len()
            invariant
                size != 0,
                r <= lines.len(),
                rows.len() == r,
                texts == bytes_of(lines@),
                forall|q: int|
                    0 <= q < r ==> (#[trigger] row_of(texts[q], size)) == Ok::<
                        Seq<u32>,
                        InputError,
                    >(rows[q]@),
            decreases lines.len() - r,
        {
            assert(texts[r as int] == lines@[r as int].spec_bytes());
            match parse_row(lines[r], size) {
                Ok(piles) => {
                    rows.push(piles);
                },
                Err(error) => {
                    proof {
                        assert(is_first_bad_row(texts, size, r as int));
                        let first = choose|f: int| is_first_bad_row(texts, size, f);
                        if first < r {
                            assert(row_of(texts[first], size) is Ok);
                        } else if r < first {
                            assert(row_of(texts[r as int], size) is Ok);
                        }
                    }
                    return Err(error);
                },
            }
            r += 1;
        }
        proof {
            assert forall|f: int| !is_first_bad_row(texts, size, f) by {
                if 0 <= f < texts.len() {
                    assert(row_of(texts[f], size) is Ok);
                }
            }
        }
        if rows.len() != size {
            return Err(InputError::RowCountMismatch { expected: size });
        }
        proof {
            assert forall|q: int| 0 <= q < rows.len() implies (#[trigger] rows_of(rows)[q]).len()
                == rows.len() by {
                assert(row_of(texts[q], size) == Ok::<Seq<u32>, InputError>(rows[q]@));
            }
            assert(rows_of(rows) =~= Seq::new(
                texts.len(),
                |r: int| row_of(texts[r], size)->Ok_0,
            )) by {
                assert forall|q: int| 0 <= q < rows.len() implies rows_of(rows)[q] == row_of(
                    texts[q],
                    size,
                )->Ok_0 by {
                    assert(row_of(texts[q], size) == Ok::<Seq<u32>, InputError>(rows[q]@));
                }
            }
        }
        let min_pile_size = lowest_pile(&rows);
        Ok(Grid { min_pile_size, rows })
    }

    /// Whether the grid has room for `number` more logs.
    pub fn has_room(&self, number: usize) -> (fits: bool)
        requires
            self.wf(),
        ensures
            fits == (number <= room(self.cells())),
    {
        let size = self.rows.len();
        let ghost n = size as int;
        let ghost cells = self.cells();
        let mut wanted = number;
        let mut i: usize = 0;
        let mut j: usize = 0;
        proof {
            lemma_row_major_index(self@, 0, 0);
            assert(cells.take(0) =~= Seq::<int>::empty());
        }
        while i < size
            invariant
                is_square(self@),
                cells == self.cells(),
                n == size,
                n == self.rows.len(),
                cells.len() == n * n,
                n * n > 0,
                i <= size,
                i < size ==> j < size,
                i == size ==> j == 0,
                0 <= i * n + j <= n * n,
                wanted + room(cells.take(i * n + j)) == number,
                i * n + j > 0 ==> wanted > 0,
            decreases size - i, size - j,
        {
            let ghost place = i * n + j;
            proof {
                assert(self@[i as int] == self.rows[i as int]@);
                lemma_row_major_index(self@, i as int, j as int);
                lemma_room_of_front(cells, place + 1);
                assert(cells.take(place + 1).drop_last() =~= cells.take(place));
            }
            let gap = (u32::MAX - self.rows[i][j]) as usize;
            if wanted <= gap {
                return true;
            }
            wanted -= gap;
            j += 1;
            if j == size {
                j = 0;
                i += 1;
            }
            proof {
                assert((i as int) * n + j == place + 1) by (nonlinear_arith)
                    requires
                        (i as int) * n + j == place + 1 || ((i as int - 1) * n + n == place + 1 && j
                            == 0),
                ;
            }
        }
        proof {
            assert(i * n + j == n * n) by (nonlinear_arith)
                requires
                    i == n,
                    j == 0,
            ;
            assert(cells.take(n * n) =~= cells);
        }
        false
    }

    /// The number of rows, which is the number of columns.
    pub fn size(&self) -> (size: usize)
        ensures
            size == self.spec_size(),
    {
        self.rows.len()
    }

    /// The height of the lowest pile.
    #[verifier::when_used_as_spec(spec_min_pile_size)]
    pub fn min_pile_size(&self) -> (height: u32)
        ensures
            height == self.spec_min_pile_size(),
    {
        self.min_pile_size
    }

    /// The rows of the grid, top to bottom.
    pub fn rows(&self) -> (rows: &Vec<Vec<u32>>)
        ensures
            rows.len() == self@.len(),
            forall|i: int| 0 <= i < rows.len() ==> (#[trigger] rows[i])@ == self@[i],
    {
        &self.rows
    }

    /// The grid as text, one line per row, the piles of each column
    /// right-aligned under each other.
    pub fn render(&self) -> (text: String)
        requires
            self.wf(),
        ensures
            text@ == grid_text(self@),
    {
        render(&self.rows)
    }

    /// Goes over the grid once, in scan order, and puts one log on each pile
    /// that stands at the lowest height, until `number` logs are placed or the
    /// grid has been gone through. Returns the number of logs not placed.
    fn raise_lowest(&mut self, number: usize) -> (left: usize)
        requires
            old(self).wf(),
            0 < number <= room(old(self).cells()),
        ensures
            final(self).wf(),
            final(self).spec_size() == old(self).spec_size(),
            left < number,
            final(self).cells() == stacked(old(self).cells(), (number - left) as nat),
    {
        let size = self.rows.len();
        let height = self.min_pile_size;
        let ghost n = size as int;
        let ghost start = self.cells();
        let ghost mut witness = first_lowest(start);
        proof {
            lemma_row_major_index(self@, 0, 0);
            lemma_first_lowest_exists(start);
            assert forall|k: int| 0 <= k < n * n implies height <= #[trigger] self.cells()[k] by {
                assert(start[witness] <= start[k]);
            }
        }
        let mut left = number;
        let mut left_behind = false;
        let mut i: usize = 0;
        let mut j: usize = 0;
        while i < size && !left_behind
            invariant
                is_square(self@),
                self@.len() == n,
                n == size,
                self.min_pile_size == height,
                start.len() == n * n,
                i <= size,
                i < size ==> j < size,
                i == size ==> j == 0,
                left <= number <= room(start),
                self.cells() == stacked(start, (number - left) as nat),
                forall|k: int| 0 <= k < n * n ==> height <= #[trigger] self.cells()[k],
                !left_behind ==> forall|k: int|
                    0 <= k < i * n + j ==> height < #[trigger] self.cells()[k],
                0 <= witness < n * n,
                left_behind ==> left == 0 && self.cells()[witness] == height,
                !left_behind && left == number ==> i * n + j <= witness && self.cells()[witness]
                    == height,
                !left_behind && left < number ==> self.cells()[witness] == height + 1,
            decreases size - i, size - j,
        {
            proof {
                assert(self@[i as int] == self.rows[i as int]@);
                lemma_row_major_index(self@, i as int, j as int);
            }
            let pile = self.rows[i][j];
            let ghost cells = self.cells();
            let ghost place = i * n + j;
            if pile == height {
                if left > 0 {
                    let ghost before = self@;
                    proof {
                        lemma_stacked_total(start, (number - left) as nat);
                        lemma_lowest_is(cells, height as int, place);
                        lemma_room_keeps_lowest_below_cap(cells);
                    }
                    self.rows[i][j] = pile + 1;
                    left -= 1;
                    proof {
                        lemma_row_major_update(before, self@, i as int, j as int, (pile + 1) as u32);
                        assert(is_first_lowest(cells, place));
                        lemma_first_lowest_is(cells, place);
                        witness = place;
                    }
                } else {
                    left_behind = true;
                    proof {
                        witness = place;
                    }
                }
            }
            j += 1;
            if j == size {
                j = 0;
                i += 1;
            }
            proof {
                assert((i as int) * n + j == place + 1) by (nonlinear_arith)
                    requires
                        (i as int) * n + j == place + 1 || ((i as int - 1) * n + n == place + 1 && j
                            == 0),
                ;
            }
        }
        let ghost cells = self.cells();
        if left_behind {
            proof {
                lemma_lowest_is(cells, height as int, witness);
            }
        } else {
            proof {
                lemma_row_major_place(self@, witness);
                assert(i * n + j == n * n) by (nonlinear_arith)
                    requires
                        i == n,
                        j == 0,
                ;
                assert forall|k: int| 0 <= k < cells.len() implies height + 1 <= #[trigger] cells[k] by {
                    assert(height < self.cells()[k]);
                }
                lemma_lowest_is(cells, height + 1, witness);
            }
            self.min_pile_size = height + 1;
        }
        left
    }

    /// Stacks `number` logs on the grid, one at a time, each on the first pile
    /// in scan order that is as low as any.
    ///
    /// The grid must have room for the logs: no pile can rise above `u32::MAX`.
    pub fn add_logs(&mut self, number: usize)
        requires
            old(self).wf(),
            number <= room(old(self).cells()),
        ensures
            final(self).is_stacked_from(*old(self), number as nat),
            final(self)@ == stacked_rows(old(self)@, number as nat),
            final(self).spec_min_pile_size() == lowest(stacked(old(self).cells(), number as nat)),
            forall|r: int|
                0 <= r < old(self)@.len() ==> (#[trigger] final(self)@[r]).len() == old(
                    self,
                )@[r].len(),
            total(final(self).cells()) == total(old(self).cells()) + number,
            number == 0 ==> *final(self) == *old(self),
    {
        let mut left = number;
        proof {
            lemma_row_major_index(self@, 0, 0);
        }
        while left > 0
            invariant
                self.wf(),
                self.spec_size() == old(self).spec_size(),
                old(self).cells().len() > 0,
                left <= number <= room(old(self).cells()),
                self.cells() == stacked(old(self).cells(), (number - left) as nat),
                left == number ==> *self == *old(self),
            decreases left,
        {
            let ghost used = (number - left) as nat;
            proof {
                lemma_stacked_total(old(self).cells(), used);
            }
            let rest = self.raise_lowest(left);
            proof {
                lemma_stacked_in_turns(old(self).cells(), used, (left - rest) as nat);
            }
            left = rest;
        }
        proof {
            lemma_stacked_total(old(self).cells(), number as nat);
            lemma_in_rows_of_row_major(self@);
        }
    }
}

} // verus!
