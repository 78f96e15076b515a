//! The empty cells of a grid and the placing of a new tile in one of them.
use crate::tally::{
    count_at_least,
    lemma_count_all,
    lemma_count_bound,
    lemma_count_none,
    lemma_count_update,
    lemma_count_witness,
    ranks_within,
};
use vstd::prelude::*;

verus! {

/// A roll is drawn below this bound; one value of it gives the higher tile.
pub const ROLL_BOUND: usize = 64;

/// The indices of the empty cells of `cells`, in ascending order.
pub open spec fn empty_indices(cells: Seq<u8>) -> Seq<int>
    decreases cells.len(),
{
    if cells.len() == 0 {
        Seq::empty()
    } else if cells.last() == 0 {
        empty_indices(cells.drop_last()).push(cells.len() - 1)
    } else {
        empty_indices(cells.drop_last())
    }
}

/// The number of empty cells of `cells`.
pub open spec fn count_empty(cells: Seq<u8>) -> nat {
    empty_indices(cells).len()
}

/// Every cell of `cells` is empty.
pub open spec fn all_empty(cells: Seq<u8>) -> bool {
    forall|idx: int| 0 <= idx < cells.len() ==> cells[idx] == 0
}

/// The rank of the tile that a roll gives: rank 2 for a roll of 0, which is
/// one roll in `ROLL_BOUND`, and rank 1 for every other roll.
pub open spec fn spawn_rank(roll: int) -> u8 {
    if roll == 0 {
        2
    } else {
        1
    }
}

/// The grid after a tile of the rank that `roll` gives has been placed in
/// the empty cell numbered `pick` among the empty cells in ascending order.
pub open spec fn spawn_at(cells: Seq<u8>, pick: int, roll: int) -> Seq<u8> {
    cells.update(empty_indices(cells)[pick], spawn_rank(roll))
}

/// `after` is `before` with one new tile of rank 1 or 2 in a cell that was
/// empty.
pub open spec fn spawn_step(before: Seq<u8>, after: Seq<u8>) -> bool {
    exists|pick: int, roll: int|
        0 <= pick < count_empty(before) && 0 <= roll < ROLL_BOUND && after == #[trigger] spawn_at(
            before,
            pick,
            roll,
        )
}

/// What one call for new tiles makes of a grid with an empty cell: one new
/// tile, or two where the grid held no tile at all and has room for two.
pub open spec fn generated(before: Seq<u8>, after: Seq<u8>) -> bool {
    if all_empty(before) && before.len() >= 2 {
        exists|between: Seq<u8>| #[trigger]
            spawn_step(before, between) && spawn_step(between, after)
    } else {
        spawn_step(before, after)
    }
}

/// The list of empty cells names each empty cell once, in ascending order,
/// and nothing else; its length and the number of tiles add up to the number
/// of cells.
pub proof fn lemma_empty_indices(cells: Seq<u8>)
    ensures
        count_empty(cells) + count_at_least(cells, 1) == cells.len(),
        forall|k: int|
            0 <= k < count_empty(cells) ==> 0 <= #[trigger] empty_indices(cells)[k] < cells.len()
                && cells[empty_indices(cells)[k]] == 0,
        forall|j: int, k: int|
            0 <= j < k < count_empty(cells) ==> #[trigger] empty_indices(cells)[j]
                < #[trigger] empty_indices(cells)[k],
        forall|idx: int|
            0 <= idx < cells.len() && cells[idx] == 0 ==> empty_indices(cells).contains(idx),
    decreases cells.len(),
{
    if cells.len() > 0 {
        let front = cells.drop_last();
        lemma_empty_indices(front);
        let list = empty_indices(cells);
        assert forall|idx: int| 0 <= idx < cells.len() && cells[idx] == 0 implies list.contains(
            idx,
        ) by {
            if idx < front.len() {
                assert(front[idx] == 0);
                let k = choose|k: int|
                    0 <= k < empty_indices(front).len() && empty_indices(front)[k] == idx;
                assert(list[k] == idx);
            } else {
                assert(list[list.len() - 1] == idx);
            }
        }
    }
}

/// A grid is full exactly when it has no empty cell, and holds no tile
/// exactly when all its cells are empty.
pub proof fn lemma_count_empty_extremes(cells: Seq<u8>)
    ensures
        count_empty(cells) == cells.len() <==> all_empty(cells),
        count_empty(cells) == 0 <==> forall|idx: int| 0 <= idx < cells.len() ==> cells[idx] != 0,
{
    lemma_empty_indices(cells);
    if all_empty(cells) {
        lemma_count_none(cells, 1);
    }
    if count_empty(cells) == cells.len() {
        assert forall|idx: int| 0 <= idx < cells.len() implies cells[idx] == 0 by {
            if cells[idx] != 0 {
                lemma_count_witness(cells, 1, idx);
            }
        }
    }
    if forall|idx: int| 0 <= idx < cells.len() ==> cells[idx] != 0 {
        assert forall|idx: int| 0 <= idx < cells.len() implies cells[idx] >= 1 by {
            assert(cells[idx] != 0);
        }
        lemma_count_all(cells, 1);
    }
    if count_empty(cells) == 0 {
        assert forall|idx: int| 0 <= idx < cells.len() implies cells[idx] != 0 by {
            if cells[idx] == 0 {
                assert(empty_indices(cells).contains(idx));
            }
        }
    }
}

/// Placing a tile fills one empty cell with rank 1 or 2 and leaves every
/// other cell as it was.
pub proof fn lemma_spawn_at(cells: Seq<u8>, pick: int, roll: int)
    requires
        0 <= pick < count_empty(cells),
    ensures
        spawn_at(cells, pick, roll).len() == cells.len(),
        count_empty(spawn_at(cells, pick, roll)) == count_empty(cells) - 1,
        0 <= empty_indices(cells)[pick] < cells.len(),
        cells[empty_indices(cells)[pick]] == 0,
        spawn_at(cells, pick, roll)[empty_indices(cells)[pick]] == spawn_rank(roll),
        forall|idx: int|
            0 <= idx < cells.len() && idx != empty_indices(cells)[pick] ==> spawn_at(
                cells,
                pick,
                roll,
            )[idx] == cells[idx],
{
    lemma_empty_indices(cells);
    let target = empty_indices(cells)[pick];
    lemma_empty_indices(spawn_at(cells, pick, roll));
    lemma_count_update(cells, target, spawn_rank(roll), 1);
}

/// A new tile leaves the ranks within a bound that exceeds the number of
/// cells by 2 or more.
pub proof fn lemma_spawn_keeps_room(cells: Seq<u8>, pick: int, roll: int, cap: int)
    requires
        0 <= pick < count_empty(cells),
        ranks_within(cells, cap),
        cells.len() + 2 <= cap,
    ensures
        ranks_within(spawn_at(cells, pick, roll), cap),
{
    lemma_empty_indices(cells);
    let target = empty_indices(cells)[pick];
    let after = spawn_at(cells, pick, roll);
    assert forall|rank: int| 1 <= rank <= cap implies #[trigger] count_at_least(after, rank)
        + rank <= cap by {
        lemma_count_update(cells, target, spawn_rank(roll), rank);
        lemma_count_bound(after, rank);
        assert(count_at_least(cells, rank) + rank <= cap);
    }
}

/// One call for new tiles on an empty grid of two cells or more leaves all
/// but two cells empty; on any other grid with an empty cell it fills one.
/// Every new tile has rank 1 or 2, and no tile that was there changes.
pub proof fn lemma_generated(before: Seq<u8>, after: Seq<u8>)
    requires
        generated(before, after),
    ensures
        after.len() == before.len(),
        all_empty(before) && before.len() >= 2 ==> count_empty(after) == before.len() - 2,
        !(all_empty(before) && before.len() >= 2) ==> count_empty(after) == count_empty(before)
            - 1,
        forall|idx: int|
            0 <= idx < before.len() ==> after[idx] == before[idx] || (before[idx] == 0 && (
            after[idx] == 1 || after[idx] == 2)),
{
    lemma_count_empty_extremes(before);
    if all_empty(before) && before.len() >= 2 {
        let between = choose|between: Seq<u8>| #[trigger]
            spawn_step(before, between) && spawn_step(between, after);
        lemma_spawn_step(before, between);
        lemma_spawn_step(between, after);
    } else {
        lemma_spawn_step(before, after);
    }
}

/// One new tile: a cell that was empty holds rank 1 or 2, and nothing else
/// has changed.
pub proof fn lemma_spawn_step(before: Seq<u8>, after: Seq<u8>)
    requires
        spawn_step(before, after),
    ensures
        after.len() == before.len(),
        count_empty(after) == count_empty(before) - 1,
        exists|target: int|
            0 <= target < before.len() && before[target] == 0 && (after[target] == 1
                || after[target] == 2) && after == #[trigger] before.update(target, after[target]),
        forall|idx: int|
            0 <= idx < before.len() ==> after[idx] == before[idx] || (before[idx] == 0 && (
            after[idx] == 1 || after[idx] == 2)),
{
    let (pick, roll) = choose|pick: int, roll: int|
        0 <= pick < count_empty(before) && 0 <= roll < ROLL_BOUND && after == #[trigger] spawn_at(
            before,
            pick,
            roll,
        );
    lemma_spawn_at(before, pick, roll);
    let target = empty_indices(before)[pick];
    assert(after == before.update(target, after[target]));
}

/// One new tile leaves the ranks within every bound that they were within
/// and that exceeds the number of cells by 2 or more.
pub proof fn lemma_spawn_step_keeps_within(before: Seq<u8>, after: Seq<u8>, cap: int)
    requires
        spawn_step(before, after),
        ranks_within(before, cap),
        before.len() + 2 <= cap,
    ensures
        ranks_within(after, cap),
        after.len() == before.len(),
{
    let (pick, roll) = choose|pick: int, roll: int|
        0 <= pick < count_empty(before) && 0 <= roll < ROLL_BOUND && after == #[trigger] spawn_at(
            before,
            pick,
            roll,
        );
    lemma_spawn_keeps_room(before, pick, roll, cap);
    lemma_spawn_at(before, pick, roll);
}

} // verus!
