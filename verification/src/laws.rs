//! What holds of stacking logs on a grid, whatever the grid and the number
//! of logs.

use crate::grid::Grid;
use crate::piles::{first_lowest, lemma_first_lowest_exists, lemma_stacked_total, total};
use crate::scan::{
    lemma_row_major_index, lemma_row_major_injective, lemma_row_major_place, scan_index,
};
use vstd::prelude::*;

verus! {

/// Stacking is a function of the rows and the number of logs: two grids
/// with the same rows, given the same number of logs, end with the same rows
/// and carry the same lowest height.
pub proof fn lemma_stacking_is_deterministic(
    one: Grid,
    other: Grid,
    one_after: Grid,
    other_after: Grid,
    logs: nat,
)
    requires
        one.wf(),
        other.wf(),
        one@ == other@,
        one_after.is_stacked_from(one, logs),
        other_after.is_stacked_from(other, logs),
    ensures
        one_after@ == other_after@,
        one_after.spec_min_pile_size() == other_after.spec_min_pile_size(),
{
    lemma_row_major_injective(one_after@, other_after@);
}

/// Stacking keeps the shape of the grid and loses no log: there are as many
/// rows as before, each as long as before, and the piles hold the logs that
/// they held and the logs that were stacked.
pub proof fn lemma_stacking_keeps_shape_and_logs(before: Grid, after: Grid, logs: nat)
    requires
        before.wf(),
        after.is_stacked_from(before, logs),
    ensures
        after@.len() == before@.len(),
        forall|r: int| 0 <= r < before@.len() ==> (#[trigger] after@[r]).len() == before@[r].len(),
        total(after.cells()) == total(before.cells()) + logs,
{
    lemma_row_major_index(before@, 0, 0);
    lemma_stacked_total(before.cells(), logs);
}

/// Stacking no logs leaves every pile and the lowest height as they were.
pub proof fn lemma_stacking_nothing(before: Grid, after: Grid)
    requires
        before.wf(),
        after.is_stacked_from(before, 0),
    ensures
        after@ == before@,
        after.spec_min_pile_size() == before.spec_min_pile_size(),
{
    lemma_row_major_injective(after@, before@);
}

/// After any number of logs the height that the grid carries as its lowest
/// is the height of its lowest pile: some pile stands at it, and none below.
pub proof fn lemma_lowest_is_tracked(before: Grid, after: Grid, logs: nat)
    requires
        before.wf(),
        after.is_stacked_from(before, logs),
    ensures
        exists|i: int, j: int|
            0 <= i < after@.len() && 0 <= j < after@.len() && #[trigger] after@[i][j]
                == after.spec_min_pile_size(),
        forall|i: int, j: int|
            0 <= i < after@.len() && 0 <= j < after@.len() ==> after.spec_min_pile_size()
                <= #[trigger] after@[i][j],
{
    let cells = after.cells();
    lemma_row_major_index(after@, 0, 0);
    lemma_first_lowest_exists(cells);
    let k = first_lowest(cells);
    lemma_row_major_place(after@, k);
    let n = after@.len() as int;
    assert(after@[k / n][k % n] == after.spec_min_pile_size());
    assert forall|i: int, j: int|
        0 <= i < after@.len() && 0 <= j < after@.len() implies after.spec_min_pile_size()
        <= #[trigger] after@[i][j] by {
        lemma_row_major_index(after@, i, j);
        assert(cells[k] <= cells[scan_index(after@, i, j)]);
    }
}

} // verus!
