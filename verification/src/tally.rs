//! Counting the tiles of a grid by rank, and the bound on those counts that
//! keeps every rank within a byte however long the game goes on.
//!
//! A merge turns two tiles of rank `r` into one of rank `r + 1`, so a high
//! rank can only be reached while enough cells are left to hold the tiles it
//! is built from. `ranks_have_room` states this as a bound on the number of
//! tiles at or above each rank; slides and spawns both preserve it.
use crate::line::{
    all_tiles,
    compact,
    lemma_compact_props,
    lemma_compact_ranks,
    lemma_merge_keeps_tiles,
    lemma_merge_len,
    merge_line,
    pad,
    ranks_below,
    slide_line,
};
use vstd::prelude::*;

verus! {

/// The largest side a board may have. With more than `MAX_SIZE * MAX_SIZE`
/// cells the tiles could in the end merge to a rank that a byte cannot hold.
pub const MAX_SIZE: usize = 15;

/// The number of cells of `cells` that hold a tile of rank `rank` or more.
pub open spec fn count_at_least(cells: Seq<u8>, rank: int) -> nat
    decreases cells.len(),
{
    if cells.len() == 0 {
        0
    } else {
        count_at_least(cells.drop_last(), rank) + if cells.last() >= rank {
            1nat
        } else {
            0nat
        }
    }
}

/// For every rank from 1 to `cap`, the number of tiles at or above that
/// rank, added to the rank itself, stays within `cap`. In particular no tile
/// has rank `cap` or more, at most one has rank `cap - 1`, at most two have
/// rank `cap - 2` or more, and so on down.
pub open spec fn ranks_within(cells: Seq<u8>, cap: int) -> bool {
    forall|rank: int| 1 <= rank <= cap ==> #[trigger] count_at_least(cells, rank) + rank <= cap
}

/// The ranks are within 255: no tile has rank 255, so a merge never leaves
/// the range of a byte, and the ranks have the room to stay so.
pub open spec fn ranks_have_room(cells: Seq<u8>) -> bool {
    ranks_within(cells, 255)
}

/// A grid of side `size`: between 1 and `MAX_SIZE` cells a side, one rank
/// per cell, and room for the ranks to grow.
pub open spec fn valid_grid(size: nat, cells: Seq<u8>) -> bool {
    &&& 1 <= size <= MAX_SIZE
    &&& cells.len() == size * size
    &&& ranks_have_room(cells)
}

/// A count never exceeds the number of cells.
pub proof fn lemma_count_bound(cells: Seq<u8>, rank: int)
    ensures
        count_at_least(cells, rank) <= cells.len(),
    decreases cells.len(),
{
    if cells.len() > 0 {
        lemma_count_bound(cells.drop_last(), rank);
    }
}

/// The count of two sequences laid end to end is the sum of their counts.
pub proof fn lemma_count_concat(left: Seq<u8>, right: Seq<u8>, rank: int)
    ensures
        count_at_least(left + right, rank) == count_at_least(left, rank) + count_at_least(
            right,
            rank,
        ),
    decreases right.len(),
{
    if right.len() == 0 {
        assert(left + right =~= left);
    } else {
        assert((left + right).drop_last() =~= left + right.drop_last());
        lemma_count_concat(left, right.drop_last(), rank);
    }
}

/// Extending a prefix by one cell adds that cell to the count.
pub proof fn lemma_count_take_next(cells: Seq<u8>, upto: int, rank: int)
    requires
        0 <= upto < cells.len(),
    ensures
        count_at_least(cells.take(upto + 1), rank) == count_at_least(cells.take(upto), rank) + if cells[upto]
            >= rank {
            1nat
        } else {
            0nat
        },
{
    assert(cells.take(upto + 1).drop_last() =~= cells.take(upto));
}

/// A cell at or above the rank is counted, and a count of zero means that
/// no cell reaches the rank.
pub proof fn lemma_count_witness(cells: Seq<u8>, rank: int, idx: int)
    requires
        0 <= idx < cells.len(),
        cells[idx] >= rank,
    ensures
        count_at_least(cells, rank) >= 1,
    decreases cells.len(),
{
    if idx < cells.len() - 1 {
        lemma_count_witness(cells.drop_last(), rank, idx);
    }
}

/// Where every cell is counted, the count is the number of cells.
pub proof fn lemma_count_all(cells: Seq<u8>, rank: int)
    requires
        forall|idx: int| 0 <= idx < cells.len() ==> cells[idx] >= rank,
    ensures
        count_at_least(cells, rank) == cells.len(),
    decreases cells.len(),
{
    if cells.len() > 0 {
        let front = cells.drop_last();
        assert forall|idx: int| 0 <= idx < front.len() implies front[idx] >= rank by {
            assert(cells[idx] >= rank);
        }
        lemma_count_all(front, rank);
    }
}

/// Where no cell is counted, the count is zero.
pub proof fn lemma_count_none(cells: Seq<u8>, rank: int)
    requires
        forall|idx: int| 0 <= idx < cells.len() ==> cells[idx] < rank,
    ensures
        count_at_least(cells, rank) == 0,
    decreases cells.len(),
{
    if cells.len() > 0 {
        let front = cells.drop_last();
        assert forall|idx: int| 0 <= idx < front.len() implies front[idx] < rank by {
            assert(cells[idx] < rank);
        }
        lemma_count_none(front, rank);
    }
}

/// Writing one cell changes a count by what the old and the new rank
/// contribute to it.
pub proof fn lemma_count_update(cells: Seq<u8>, idx: int, value: u8, rank: int)
    requires
        0 <= idx < cells.len(),
    ensures
        count_at_least(cells.update(idx, value), rank) + (if cells[idx] >= rank {
            1nat
        } else {
            0nat
        }) == count_at_least(cells, rank) + (if value >= rank {
            1nat
        } else {
            0nat
        }),
    decreases cells.len(),
{
    let after = cells.update(idx, value);
    if idx == cells.len() - 1 {
        assert(after.drop_last() =~= cells.drop_last());
    } else {
        assert(after.drop_last() =~= cells.drop_last().update(idx, value));
        lemma_count_update(cells.drop_last(), idx, value, rank);
    }
}

/// Reading a sequence from its other end does not change a count.
pub proof fn lemma_count_reverse(cells: Seq<u8>, rank: int)
    ensures
        count_at_least(cells.reverse(), rank) == count_at_least(cells, rank),
    decreases cells.len(),
{
    if cells.len() == 0 {
        assert(cells.reverse() =~= cells);
    } else {
        let front = cells.drop_last();
        let tail = seq![cells.last()];
        assert(cells.reverse() =~= tail + front.reverse());
        assert(cells =~= front + tail);
        lemma_count_concat(tail, front.reverse(), rank);
        lemma_count_concat(front, tail, rank);
        lemma_count_reverse(front, rank);
    }
}

/// Ranks within `cap` are all below `cap`.
pub proof fn lemma_within_bounds_ranks(cells: Seq<u8>, cap: int)
    requires
        ranks_within(cells, cap),
        1 <= cap,
    ensures
        ranks_below(cells, cap),
{
    assert forall|idx: int| 0 <= idx < cells.len() implies cells[idx] < cap by {
        if cells[idx] >= cap {
            lemma_count_witness(cells, cap, idx);
            assert(count_at_least(cells, cap) + cap <= cap);
        }
    }
}

/// Room for the ranks to grow means that every rank is below 255.
pub proof fn lemma_room_bounds_ranks(cells: Seq<u8>)
    requires
        ranks_have_room(cells),
    ensures
        ranks_below(cells, 255),
{
    lemma_within_bounds_ranks(cells, 255);
}

/// The ranks of an empty grid are within every bound.
pub proof fn lemma_room_when_empty(cells: Seq<u8>, cap: int)
    requires
        forall|idx: int| 0 <= idx < cells.len() ==> cells[idx] == 0,
    ensures
        ranks_within(cells, cap),
{
    assert forall|rank: int| 1 <= rank <= cap implies #[trigger] count_at_least(cells, rank)
        + rank <= cap by {
        lemma_count_none(cells, rank);
    }
}

/// Dropping the empty cells of a line leaves the count of every rank from 1
/// on as it was.
pub proof fn lemma_count_compact(line: Seq<u8>, rank: int)
    requires
        1 <= rank,
    ensures
        count_at_least(compact(line), rank) == count_at_least(line, rank),
    decreases line.len(),
{
    if line.len() > 0 {
        lemma_count_compact(line.drop_last(), rank);
        if line.last() != 0 {
            assert(compact(line).drop_last() =~= compact(line.drop_last()));
        }
    }
}

/// Filling a line up with empty cells leaves the count of every rank from 1
/// on as it was.
pub proof fn lemma_count_pad(tiles: Seq<u8>, len: nat, rank: int)
    requires
        1 <= rank,
        tiles.len() <= len,
    ensures
        count_at_least(pad(tiles, len), rank) == count_at_least(tiles, rank),
    decreases len,
{
    if tiles.len() == len {
        assert(pad(tiles, len) =~= tiles);
    } else {
        assert(pad(tiles, len).drop_last() =~= pad(tiles, (len - 1) as nat));
        lemma_count_pad(tiles, (len - 1) as nat, rank);
    }
}

/// What a merge does to the counts of a line: the tiles at or above a rank
/// after the merge, taken twice, are no more than the tiles at or above that
/// rank and those at or above the rank below it put together, since each
/// tile newly at the rank has used up two of the rank below.
pub proof fn lemma_count_merge(tiles: Seq<u8>, rank: int)
    requires
        ranks_below(tiles, 255),
    ensures
        2 * count_at_least(merge_line(tiles), rank) <= count_at_least(tiles, rank)
            + count_at_least(tiles, rank - 1),
    decreases tiles.len(),
{
    if tiles.len() < 2 {
        lemma_count_below(tiles, rank);
    } else {
        let merged = tiles[0] == tiles[1];
        let used: int = if merged {
            2
        } else {
            1
        };
        let head = tiles.take(used);
        let rest = tiles.skip(used);
        let top = if merged {
            seq![(tiles[0] + 1) as u8]
        } else {
            seq![tiles[0]]
        };
        assert(tiles =~= head + rest);
        assert(merge_line(tiles) == top + merge_line(rest));
        assert(ranks_below(rest, 255)) by {
            assert forall|pos: int| 0 <= pos < rest.len() implies rest[pos] < 255 by {
                assert(rest[pos] == tiles[pos + used]);
            }
        }
        lemma_count_merge(rest, rank);
        lemma_count_concat(head, rest, rank);
        lemma_count_concat(head, rest, rank - 1);
        lemma_count_concat(top, merge_line(rest), rank);
        assert(tiles[0] < 255);
        lemma_count_single(top[0], rank);
        assert(top =~= seq![top[0]]);
        if merged {
            assert(head =~= seq![tiles[0]] + seq![tiles[1]]);
            lemma_count_concat(seq![tiles[0]], seq![tiles[1]], rank);
            lemma_count_concat(seq![tiles[0]], seq![tiles[1]], rank - 1);
            lemma_count_single(tiles[0], rank);
            lemma_count_single(tiles[0], rank - 1);
            lemma_count_single(tiles[1], rank);
            lemma_count_single(tiles[1], rank - 1);
        } else {
            assert(head =~= seq![tiles[0]]);
            lemma_count_single(tiles[0], rank - 1);
        }
    }
}

/// The count of a single cell.
pub proof fn lemma_count_single(value: u8, rank: int)
    ensures
        count_at_least(seq![value], rank) == if value >= rank {
            1nat
        } else {
            0nat
        },
{
    let one = seq![value];
    assert(one.drop_last() =~= Seq::<u8>::empty());
    assert(count_at_least(one.drop_last(), rank) == 0);
}

/// A lower rank counts at least the tiles of a higher one.
pub proof fn lemma_count_below(cells: Seq<u8>, rank: int)
    ensures
        count_at_least(cells, rank) <= count_at_least(cells, rank - 1),
    decreases cells.len(),
{
    if cells.len() > 0 {
        lemma_count_below(cells.drop_last(), rank);
    }
}

/// In a line without empty cells every cell counts as a tile.
pub proof fn lemma_tiles_counted(tiles: Seq<u8>)
    requires
        all_tiles(tiles),
    ensures
        count_at_least(tiles, 1) == tiles.len(),
{
    assert forall|idx: int| 0 <= idx < tiles.len() implies tiles[idx] >= 1 by {
        assert(tiles[idx] != 0);
    }
    lemma_count_all(tiles, 1);
}

/// Ranks that, added to the number of cells, stay within 255 have the room
/// they need: on a board of side 15, every rank up to 30 will do.
pub proof fn lemma_low_ranks_have_room(cells: Seq<u8>)
    requires
        forall|idx: int| 0 <= idx < cells.len() ==> cells[idx] + cells.len() <= 255,
    ensures
        ranks_have_room(cells),
{
    assert forall|rank: int| 1 <= rank <= 255 implies #[trigger] count_at_least(cells, rank)
        + rank <= 255 by {
        if rank + cells.len() <= 255 {
            lemma_count_bound(cells, rank);
        } else {
            assert forall|idx: int| 0 <= idx < cells.len() implies cells[idx] < rank by {
                assert(cells[idx] + cells.len() <= 255);
            }
            lemma_count_none(cells, rank);
        }
    }
}

/// What the slide of a line does to its counts: from rank 2 on, twice the
/// tiles at or above a rank after the slide are no more than the tiles at or
/// above that rank and those at or above the rank below it put together;
/// and the slide adds no tile.
pub proof fn lemma_count_slide_line(line: Seq<u8>, rank: int)
    requires
        ranks_below(line, 255),
        1 <= rank,
    ensures
        rank >= 2 ==> 2 * count_at_least(slide_line(line), rank) <= count_at_least(line, rank)
            + count_at_least(line, rank - 1),
        count_at_least(slide_line(line), 1) <= count_at_least(line, 1),
        count_at_least(line, 1) <= 2 * count_at_least(slide_line(line), 1),
{
    let tiles = compact(line);
    lemma_compact_props(line);
    lemma_compact_ranks(line, 255);
    lemma_merge_len(tiles);
    lemma_merge_keeps_tiles(tiles, 255);
    lemma_tiles_counted(tiles);
    lemma_tiles_counted(merge_line(tiles));
    lemma_count_pad(merge_line(tiles), line.len(), rank);
    lemma_count_pad(merge_line(tiles), line.len(), 1);
    lemma_count_merge(tiles, rank);
    lemma_count_compact(line, rank);
    lemma_count_compact(line, 1);
    if rank >= 2 {
        lemma_count_compact(line, rank - 1);
    }
}

/// Counts the cells that hold a tile of rank `rank` or more.
pub(crate) fn tiles_at_least(cells: &Vec<u8>, rank: u8) -> (count: usize)
    ensures
        count == count_at_least(cells@, rank as int),
{
    let mut count: usize = 0;
    let mut at: usize = 0;
    while at < cells.len()
        invariant
            at <= cells.len(),
            count <= at,
            count == count_at_least(cells@.take(at as int), rank as int),
        decreases cells.len() - at,
    {
        proof {
            lemma_count_take_next(cells@, at as int, rank as int);
        }
        if cells[at] >= rank {
            count += 1;
        }
        at += 1;
    }
    assert(cells@.take(at as int) =~= cells@);
    count
}

/// Tells whether the ranks of `cells` have the room that `ranks_have_room`
/// asks for.
pub(crate) fn has_room(cells: &Vec<u8>) -> (roomy: bool)
    ensures
        roomy == ranks_have_room(cells@),
{
    let mut rank: u8 = 1;
    loop
        invariant
            1 <= rank <= 255,
            forall|below: int|
                1 <= below < rank ==> #[trigger] count_at_least(cells@, below) + below <= 255,
        decreases 255 - rank,
    {
        let count: usize = tiles_at_least(cells, rank);
        if count > 255 - (rank as usize) {
            return false;
        }
        if rank == 255 {
            return true;
        }
        rank += 1;
    }
}

} // verus!
