//! The scan order of a square grid: its piles row by row from the top, each
//! row from left to right.

use crate::piles::pile_cap;
use vstd::arithmetic::div_mod::{
    lemma_div_pos_is_pos, lemma_fundamental_div_mod, lemma_fundamental_div_mod_converse,
    lemma_mod_pos_bound, lemma_multiply_divide_lt,
};
use vstd::prelude::*;

verus! {

/// There is at least one row, and every row is as long as there are rows.
pub open spec fn is_square(rows: Seq<Seq<u32>>) -> bool {
    &&& rows.len() >= 1
    &&& forall|i: int| 0 <= i < rows.len() ==> (#[trigger] rows[i]).len() == rows.len()
}

/// The piles of a square grid in scan order: top row first, each row from
/// left to right.
pub open spec fn row_major(rows: Seq<Seq<u32>>) -> Seq<int> {
    Seq::new(
        (rows.len() * rows.len()) as nat,
        |k: int| rows[k / (rows.len() as int)][k % (rows.len() as int)] as int,
    )
}

/// The place of a pile in scan order.
pub open spec fn scan_index(rows: Seq<Seq<u32>>, i: int, j: int) -> int {
    i * rows.len() + j
}

/// The pile in row `i`, column `j` is number `i * size + j` in scan order.
pub proof fn lemma_row_major_index(rows: Seq<Seq<u32>>, i: int, j: int)
    requires
        is_square(rows),
        0 <= i < rows.len(),
        0 <= j < rows.len(),
    ensures
        0 <= scan_index(rows, i, j) < row_major(rows).len(),
        row_major(rows)[scan_index(rows, i, j)] == rows[i][j],
{
    let n = rows.len() as int;
    assert(0 <= i * n + j < n * n) by (nonlinear_arith)
        requires
            0 <= i < n,
            0 <= j < n,
    ;
    lemma_fundamental_div_mod_converse(i * n + j, n, i, j);
}

/// Number `k` in scan order is the pile in row `k / size`, column `k % size`.
pub proof fn lemma_row_major_place(rows: Seq<Seq<u32>>, k: int)
    requires
        is_square(rows),
        0 <= k < row_major(rows).len(),
    ensures
        0 <= k / (rows.len() as int) < rows.len(),
        0 <= k % (rows.len() as int) < rows.len(),
        k == scan_index(rows, k / (rows.len() as int), k % (rows.len() as int)),
        row_major(rows)[k] == rows[k / (rows.len() as int)][k % (rows.len() as int)],
        0 <= row_major(rows)[k] <= pile_cap(),
{
    let n = rows.len() as int;
    lemma_multiply_divide_lt(k, n, n);
    lemma_div_pos_is_pos(k, n);
    lemma_mod_pos_bound(k, n);
    lemma_fundamental_div_mod(k, n);
    assert(n * (k / n) == (k / n) * n) by (nonlinear_arith);
}

/// Changing one pile of a grid changes that one pile of its scan order.
pub proof fn lemma_row_major_update(
    before: Seq<Seq<u32>>,
    after: Seq<Seq<u32>>,
    i: int,
    j: int,
    height: u32,
)
    requires
        is_square(before),
        0 <= i < before.len(),
        0 <= j < before.len(),
        after.len() == before.len(),
        after[i] == before[i].update(j, height),
        forall|r: int| 0 <= r < before.len() && r != i ==> #[trigger] after[r] == before[r],
    ensures
        is_square(after),
        row_major(after) == row_major(before).update(scan_index(before, i, j), height as int),
{
    let n = before.len() as int;
    assert(is_square(after)) by {
        assert forall|r: int| 0 <= r < after.len() implies (#[trigger] after[r]).len()
            == after.len() by {
            if r != i {
                assert(after[r] == before[r]);
            }
        }
    }
    lemma_row_major_index(before, i, j);
    let changed = row_major(before).update(scan_index(before, i, j), height as int);
    assert forall|k: int| 0 <= k < n * n implies #[trigger] row_major(after)[k] == changed[k] by {
        lemma_row_major_place(before, k);
        let r = k / n;
        let c = k % n;
        assert(before[r].len() == n);
        if k == scan_index(before, i, j) {
            lemma_fundamental_div_mod_converse(k, n, i, j);
        } else if r != i {
            assert(after[r] == before[r]);
        }
    }
    assert(row_major(after) =~= changed);
}

/// Two square grids with the same piles in scan order are the same grid.
pub proof fn lemma_row_major_injective(a: Seq<Seq<u32>>, b: Seq<Seq<u32>>)
    requires
        is_square(a),
        is_square(b),
        a.len() == b.len(),
        row_major(a) == row_major(b),
    ensures
        a == b,
{
    assert forall|i: int| 0 <= i < a.len() implies #[trigger] a[i] == b[i] by {
        assert forall|j: int| 0 <= j < a[i].len() implies a[i][j] == b[i][j] by {
            lemma_row_major_index(a, i, j);
            lemma_row_major_index(b, i, j);
        }
        assert(a[i] =~= b[i]);
    }
    assert(a =~= b);
}

/// The square grid of `size` rows whose piles in scan order are `piles`.
pub open spec fn in_rows(piles: Seq<int>, size: nat) -> Seq<Seq<u32>> {
    Seq::new(size, |i: int| Seq::new(size, |j: int| piles[i * size + j] as u32))
}

/// A square grid is its scan order laid out in rows again.
pub proof fn lemma_in_rows_of_row_major(rows: Seq<Seq<u32>>)
    requires
        is_square(rows),
    ensures
        in_rows(row_major(rows), rows.len()) == rows,
{
    let back = in_rows(row_major(rows), rows.len());
    assert forall|i: int| 0 <= i < rows.len() implies #[trigger] back[i] == rows[i] by {
        assert forall|j: int| 0 <= j < rows.len() implies back[i][j] == rows[i][j] by {
            lemma_row_major_index(rows, i, j);
        }
        assert(back[i] =~= rows[i]);
    }
    assert(back =~= rows);
}

/// The rows that a vector of rows holds.
pub open spec fn rows_of(rows: Vec<Vec<u32>>) -> Seq<Seq<u32>> {
    rows@.map_values(|row: Vec<u32>| row@)
}

} // verus!
