//! The stacking rule, stated on a plain row of pile heights.
//!
//! A yard is modelled here as a `Seq<int>`: its piles in scan order, heights
//! unbounded. One log always goes on the first pile that is as low as any
//! other; stacking several logs repeats that. Everything in this module is
//! ghost code: the definitions that the contracts of the grid speak of, and
//! the facts that hold of them.

use vstd::prelude::*;

verus! {

/// The tallest pile a grid cell can hold.
pub open spec fn pile_cap() -> int {
    u32::MAX as int
}

/// The number of logs in all piles together.
pub open spec fn total(piles: Seq<int>) -> int
    decreases piles.len(),
{
    if piles.len() == 0 {
        0
    } else {
        total(piles.drop_last()) + piles.last()
    }
}

/// The number of logs that can still be stacked before every pile stands at
/// [`pile_cap`].
pub open spec fn room(piles: Seq<int>) -> int {
    piles.len() * pile_cap() - total(piles)
}

/// `k` is the position of the first pile, in scan order, that no other pile
/// is lower than.
pub open spec fn is_first_lowest(piles: Seq<int>, k: int) -> bool {
    &&& 0 <= k < piles.len()
    &&& forall|i: int| 0 <= i < piles.len() ==> piles[k] <= #[trigger] piles[i]
    &&& forall|i: int| 0 <= i < k ==> piles[k] < #[trigger] piles[i]
}

/// The position on which the next log goes.
pub open spec fn first_lowest(piles: Seq<int>) -> int {
    choose|k: int| is_first_lowest(piles, k)
}

/// The height of the lowest pile.
pub open spec fn lowest(piles: Seq<int>) -> int {
    piles[first_lowest(piles)]
}

/// The piles after one more log.
pub open spec fn stack_one(piles: Seq<int>) -> Seq<int> {
    piles.update(first_lowest(piles), lowest(piles) + 1)
}

/// The piles after `logs` more logs, stacked one at a time.
pub open spec fn stacked(piles: Seq<int>, logs: nat) -> Seq<int>
    decreases logs,
{
    if logs == 0 {
        piles
    } else {
        stack_one(stacked(piles, (logs - 1) as nat))
    }
}

/// Every non-empty row of piles has a first lowest pile.
pub proof fn lemma_first_lowest_exists(piles: Seq<int>)
    requires
        piles.len() > 0,
    ensures
        is_first_lowest(piles, first_lowest(piles)),
    decreases piles.len(),
{
    if piles.len() == 1 {
        assert(is_first_lowest(piles, 0));
    } else {
        let front = piles.drop_last();
        lemma_first_lowest_exists(front);
        let k = first_lowest(front);
        let last = piles.len() - 1;
        assert(forall|i: int| 0 <= i < front.len() ==> front[i] == piles[i]);
        if piles[last] < piles[k] {
            assert forall|i: int| 0 <= i < last implies piles[last] < #[trigger] piles[i] by {
                assert(front[k] <= front[i]);
            }
            assert(is_first_lowest(piles, last));
        } else {
            assert forall|i: int| 0 <= i < piles.len() implies piles[k] <= #[trigger] piles[i] by {
                if i < last {
                    assert(front[k] <= front[i]);
                }
            }
            assert forall|i: int| 0 <= i < k implies piles[k] < #[trigger] piles[i] by {
                assert(front[k] < front[i]);
            }
            assert(is_first_lowest(piles, k));
        }
    }
}

/// A row of piles has one first lowest pile only.
pub proof fn lemma_first_lowest_unique(piles: Seq<int>, a: int, b: int)
    requires
        is_first_lowest(piles, a),
        is_first_lowest(piles, b),
    ensures
        a == b,
{
    if a < b {
        assert(piles[b] < piles[a]);
        assert(piles[a] <= piles[b]);
    } else if b < a {
        assert(piles[a] < piles[b]);
        assert(piles[b] <= piles[a]);
    }
}

/// A pile that none is lower than, with only taller piles in front of it,
/// is where the next log goes, and its height is the lowest.
pub proof fn lemma_first_lowest_is(piles: Seq<int>, k: int)
    requires
        is_first_lowest(piles, k),
    ensures
        first_lowest(piles) == k,
        lowest(piles) == piles[k],
{
    lemma_first_lowest_exists(piles);
    lemma_first_lowest_unique(piles, first_lowest(piles), k);
}

/// The lowest height is the one that some pile has and none goes below.
pub proof fn lemma_lowest_is(piles: Seq<int>, floor: int, k: int)
    requires
        0 <= k < piles.len(),
        piles[k] == floor,
        forall|i: int| 0 <= i < piles.len() ==> floor <= #[trigger] piles[i],
    ensures
        lowest(piles) == floor,
{
    lemma_first_lowest_exists(piles);
    let f = first_lowest(piles);
    assert(piles[f] <= piles[k]);
    assert(floor <= piles[f]);
}

/// Replacing one pile changes the total by the difference.
pub proof fn lemma_total_update(piles: Seq<int>, k: int, height: int)
    requires
        0 <= k < piles.len(),
    ensures
        total(piles.update(k, height)) == total(piles) - piles[k] + height,
    decreases piles.len(),
{
    let changed = piles.update(k, height);
    if k == piles.len() - 1 {
        assert(changed.drop_last() =~= piles.drop_last());
    } else {
        lemma_total_update(piles.drop_last(), k, height);
        assert(changed.drop_last() =~= piles.drop_last().update(k, height));
    }
}

/// Piles that all reach `floor` hold at least `floor` logs each.
pub proof fn lemma_total_at_least(piles: Seq<int>, floor: int)
    requires
        forall|i: int| 0 <= i < piles.len() ==> floor <= #[trigger] piles[i],
    ensures
        piles.len() * floor <= total(piles),
    decreases piles.len(),
{
    if piles.len() > 0 {
        let front = piles.drop_last();
        assert forall|i: int| 0 <= i < front.len() implies floor <= #[trigger] front[i] by {
            assert(front[i] == piles[i]);
        }
        lemma_total_at_least(front, floor);
        assert(piles.len() * floor == front.len() * floor + floor) by (nonlinear_arith)
            requires
                piles.len() == front.len() + 1,
        ;
    }
}

/// The room on the first `k` piles is part of the room on all of them, and
/// grows pile by pile.
pub proof fn lemma_room_of_front(piles: Seq<int>, k: int)
    requires
        forall|i: int| 0 <= i < piles.len() ==> #[trigger] piles[i] <= pile_cap(),
        0 <= k <= piles.len(),
    ensures
        room(piles.take(k)) <= room(piles),
        k > 0 ==> room(piles.take(k)) == room(piles.take(k - 1)) + pile_cap() - piles[k - 1],
    decreases piles.len() - k,
{
    if k > 0 {
        assert(piles.take(k).drop_last() =~= piles.take(k - 1));
    }
    if k == piles.len() {
        assert(piles.take(k) =~= piles);
    } else {
        lemma_room_of_front(piles, k + 1);
        assert(piles.take(k + 1).drop_last() =~= piles.take(k));
    }
}

/// While there is room, the lowest pile is below the cap.
pub proof fn lemma_room_keeps_lowest_below_cap(piles: Seq<int>)
    requires
        piles.len() > 0,
        room(piles) > 0,
    ensures
        lowest(piles) < pile_cap(),
{
    lemma_first_lowest_exists(piles);
    if lowest(piles) >= pile_cap() {
        let f = first_lowest(piles);
        assert forall|i: int| 0 <= i < piles.len() implies pile_cap() <= #[trigger] piles[i] by {
            assert(piles[f] <= piles[i]);
        }
        lemma_total_at_least(piles, pile_cap());
    }
}

/// One log raises the first lowest pile by one and leaves the others alone.
pub proof fn lemma_stack_one(piles: Seq<int>)
    requires
        piles.len() > 0,
    ensures
        stack_one(piles).len() == piles.len(),
        total(stack_one(piles)) == total(piles) + 1,
        room(stack_one(piles)) == room(piles) - 1,
        forall|i: int|
            0 <= i < piles.len() ==> #[trigger] stack_one(piles)[i] == if i == first_lowest(piles) {
                piles[i] + 1
            } else {
                piles[i]
            },
{
    lemma_first_lowest_exists(piles);
    lemma_total_update(piles, first_lowest(piles), lowest(piles) + 1);
}

/// Stacking keeps the number of piles.
pub proof fn lemma_stacked_len(piles: Seq<int>, logs: nat)
    requires
        piles.len() > 0,
    ensures
        stacked(piles, logs).len() == piles.len(),
    decreases logs,
{
    if logs > 0 {
        lemma_stacked_len(piles, (logs - 1) as nat);
        lemma_stack_one(stacked(piles, (logs - 1) as nat));
    }
}

/// Stacking loses no log and invents none: the total grows by exactly the
/// number of logs stacked, and the room shrinks by as much.
pub proof fn lemma_stacked_total(piles: Seq<int>, logs: nat)
    requires
        piles.len() > 0,
    ensures
        total(stacked(piles, logs)) == total(piles) + logs,
        room(stacked(piles, logs)) == room(piles) - logs,
    decreases logs,
{
    if logs > 0 {
        lemma_stacked_len(piles, (logs - 1) as nat);
        lemma_stacked_total(piles, (logs - 1) as nat);
        lemma_stack_one(stacked(piles, (logs - 1) as nat));
    }
}

/// Stacking no logs changes nothing.
pub proof fn lemma_stacked_none(piles: Seq<int>)
    ensures
        stacked(piles, 0) == piles,
{
}

/// Stacking `first` logs and then `then` more gives the piles that stacking
/// them all at once gives.
pub proof fn lemma_stacked_in_turns(piles: Seq<int>, first: nat, then: nat)
    ensures
        stacked(stacked(piles, first), then) == stacked(piles, first + then),
    decreases then,
{
    if then > 0 {
        lemma_stacked_in_turns(piles, first, (then - 1) as nat);
        assert(stacked(piles, first + then) == stack_one(
            stacked(piles, (first + then - 1) as nat),
        ));
    }
}

/// The lowest height never falls when logs are stacked.
pub proof fn lemma_stacked_lowest_rises(piles: Seq<int>, logs: nat)
    requires
        piles.len() > 0,
    ensures
        lowest(piles) <= lowest(stacked(piles, logs)),
    decreases logs,
{
    if logs > 0 {
        let before = stacked(piles, (logs - 1) as nat);
        lemma_stacked_len(piles, (logs - 1) as nat);
        lemma_stacked_lowest_rises(piles, (logs - 1) as nat);
        lemma_stack_one(before);
        lemma_first_lowest_exists(before);
        lemma_first_lowest_exists(stack_one(before));
        let f = first_lowest(stack_one(before));
        assert(before[first_lowest(before)] <= before[f]);
        assert(before[f] <= stack_one(before)[f]);
    }
}

/// Stacking levels the piles: a pile that has got a log stands at most one
/// log above the lowest pile.
pub proof fn lemma_stacked_is_level(piles: Seq<int>, logs: nat)
    requires
        piles.len() > 0,
    ensures
        forall|i: int|
            0 <= i < piles.len() ==> #[trigger] stacked(piles, logs)[i] == piles[i] || stacked(
                piles,
                logs,
            )[i] <= lowest(stacked(piles, logs)) + 1,
    decreases logs,
{
    if logs > 0 {
        let before = stacked(piles, (logs - 1) as nat);
        let after = stacked(piles, logs);
        lemma_stacked_len(piles, (logs - 1) as nat);
        lemma_stacked_is_level(piles, (logs - 1) as nat);
        lemma_stack_one(before);
        assert(lowest(before) <= lowest(after)) by {
            lemma_stacked_lowest_rises(before, 1);
            reveal_with_fuel(stacked, 2);
        }
        assert forall|i: int| 0 <= i < piles.len() implies #[trigger] after[i] == piles[i]
            || after[i] <= lowest(after) + 1 by {
            assert(after[i] == stack_one(before)[i]);
            assert(before[i] == piles[i] || before[i] <= lowest(before) + 1);
        }
    }
}

/// No pile ever shrinks, and none grows by more than the logs stacked.
pub proof fn lemma_stacked_grows(piles: Seq<int>, logs: nat)
    requires
        piles.len() > 0,
    ensures
        forall|i: int|
            0 <= i < piles.len() ==> piles[i] <= #[trigger] stacked(piles, logs)[i] <= piles[i]
                + logs,
    decreases logs,
{
    if logs > 0 {
        let before = stacked(piles, (logs - 1) as nat);
        lemma_stacked_len(piles, (logs - 1) as nat);
        lemma_stacked_grows(piles, (logs - 1) as nat);
        lemma_stack_one(before);
        assert forall|i: int| 0 <= i < piles.len() implies piles[i] <= #[trigger] stacked(
            piles,
            logs,
        )[i] <= piles[i] + logs by {
            assert(stacked(piles, logs)[i] == stack_one(before)[i]);
            assert(piles[i] <= before[i] <= piles[i] + logs - 1);
        }
    }
}

} // verus!
