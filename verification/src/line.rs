//! One line of the board, read from the edge the tiles slide toward.
//!
//! A slide treats every row or column on its own: the empty cells drop out,
//! equal neighbours merge pairwise starting at the leading edge, and the
//! result is packed against that edge.
use crate::direction::{is_reverse, Direction};
use vstd::prelude::*;

verus! {

/// The tiles of `line` in order, with the empty cells left out.
pub open spec fn compact(line: Seq<u8>) -> Seq<u8>
    decreases line.len(),
{
    if line.len() == 0 {
        line
    } else if line.last() == 0 {
        compact(line.drop_last())
    } else {
        compact(line.drop_last()).push(line.last())
    }
}

/// The merge of a compacted line, scanned from its leading edge: two equal
/// neighbours become one tile of the next rank and the scan resumes behind
/// both, so a tile that a merge produced never merges again in the same move.
pub open spec fn merge_line(tiles: Seq<u8>) -> Seq<u8>
    decreases tiles.len(),
{
    if tiles.len() < 2 {
        tiles
    } else if tiles[0] == tiles[1] {
        seq![(tiles[0] + 1) as u8] + merge_line(tiles.skip(2))
    } else {
        seq![tiles[0]] + merge_line(tiles.skip(1))
    }
}

/// `tiles` followed by empty cells, `len` cells in all.
pub open spec fn pad(tiles: Seq<u8>, len: nat) -> Seq<u8> {
    Seq::new(
        len,
        |pos: int|
            if pos < tiles.len() {
                tiles[pos]
            } else {
                0u8
            },
    )
}

/// A whole line after a slide toward its first cell.
pub open spec fn slide_line(line: Seq<u8>) -> Seq<u8> {
    pad(merge_line(compact(line)), line.len())
}

/// `tiles` as read from the edge that `dir` points to, where `tiles` is
/// given from index 0 upward; and the other way round.
pub open spec fn oriented(tiles: Seq<u8>, dir: Direction) -> Seq<u8> {
    if is_reverse(dir) {
        tiles.reverse()
    } else {
        tiles
    }
}

/// The merge of a compacted line that is given from index 0 upward, for a
/// slide in direction `dir`: the scan starts at the edge that `dir` points
/// to, and the result is again given from index 0 upward.
pub open spec fn merge_toward(tiles: Seq<u8>, dir: Direction) -> Seq<u8> {
    oriented(merge_line(oriented(tiles, dir)), dir)
}

/// No cell of `line` is empty.
pub open spec fn all_tiles(line: Seq<u8>) -> bool {
    forall|pos: int| 0 <= pos < line.len() ==> line[pos] != 0
}

/// The tiles at `pos` and behind it in `tiles` have different ranks.
pub open spec fn differs_from_next(tiles: Seq<u8>, pos: int) -> bool {
    tiles[pos] != tiles[pos + 1]
}

/// No two neighbours in `tiles` have the same rank.
pub open spec fn neighbours_differ(tiles: Seq<u8>) -> bool {
    forall|pos: int| 0 <= pos < tiles.len() - 1 ==> #[trigger] differs_from_next(tiles, pos)
}

/// Every rank in `line` is below `limit`.
pub open spec fn ranks_below(line: Seq<u8>, limit: int) -> bool {
    forall|pos: int| 0 <= pos < line.len() ==> line[pos] < limit
}

/// Compacting keeps the tiles and nothing else: the result is no longer than
/// the line, holds no empty cell, and every rank in it occurs in the line.
pub proof fn lemma_compact_props(line: Seq<u8>)
    ensures
        compact(line).len() <= line.len(),
        all_tiles(compact(line)),
        forall|k: int|
            0 <= k < compact(line).len() ==> line.contains(#[trigger] compact(line)[k]),
    decreases line.len(),
{
    if line.len() > 0 {
        let front = line.drop_last();
        lemma_compact_props(front);
        assert forall|k: int| 0 <= k < compact(line).len() implies line.contains(
            #[trigger] compact(line)[k],
        ) by {
            if k < compact(front).len() {
                let j = choose|j: int| 0 <= j < front.len() && front[j] == compact(front)[k];
                assert(line[j] == compact(line)[k]);
            } else {
                assert(line[line.len() - 1] == compact(line)[k]);
            }
        }
    }
}

/// Compacting two lines laid end to end compacts each of them.
pub proof fn lemma_compact_concat(left: Seq<u8>, right: Seq<u8>)
    ensures
        compact(left + right) == compact(left) + compact(right),
    decreases right.len(),
{
    if right.len() == 0 {
        assert(left + right =~= left);
        assert(compact(left) + compact(right) =~= compact(left));
    } else {
        let whole = left + right;
        assert(whole.drop_last() =~= left + right.drop_last());
        assert(whole.last() == right.last());
        lemma_compact_concat(left, right.drop_last());
        assert(compact(whole) =~= compact(left) + compact(right));
    }
}

/// A line without empty cells is its own compaction, and only such a line
/// keeps its length when compacted.
pub proof fn lemma_compact_full(line: Seq<u8>)
    ensures
        all_tiles(line) <==> compact(line).len() == line.len(),
        all_tiles(line) ==> compact(line) == line,
    decreases line.len(),
{
    if line.len() > 0 {
        let front = line.drop_last();
        lemma_compact_full(front);
        lemma_compact_props(front);
        if all_tiles(line) {
            assert(all_tiles(front)) by {
                assert forall|pos: int| 0 <= pos < front.len() implies front[pos] != 0 by {
                    assert(line[pos] != 0);
                }
            }
            assert(line.last() != 0);
            assert(compact(line) =~= line);
        }
        if compact(line).len() == line.len() {
            assert(line.last() != 0);
            assert(compact(front).len() == front.len());
            assert forall|pos: int| 0 <= pos < line.len() implies line[pos] != 0 by {
                if pos < front.len() {
                    assert(front[pos] != 0);
                }
            }
        }
    }
}

/// Compacting commutes with reading the line from its other end.
pub proof fn lemma_compact_reverse(line: Seq<u8>)
    ensures
        compact(line.reverse()) == compact(line).reverse(),
    decreases line.len(),
{
    if line.len() == 0 {
        assert(line.reverse() =~= line);
        assert(compact(line).reverse() =~= compact(line));
    } else {
        let front = line.drop_last();
        let tail = seq![line.last()];
        assert(line.reverse() =~= tail + front.reverse());
        lemma_compact_concat(tail, front.reverse());
        lemma_compact_reverse(front);
        assert(tail.drop_last() =~= Seq::<u8>::empty());
        assert(compact(tail.drop_last()) =~= Seq::<u8>::empty());
        if line.last() == 0 {
            assert(compact(tail) =~= Seq::<u8>::empty());
            assert(compact(line.reverse()) =~= compact(front).reverse());
        } else {
            assert(compact(tail) =~= tail);
            assert(compact(line).reverse() =~= tail + compact(front).reverse());
        }
    }
}

/// A merge never lengthens a line and at most halves it: every tile of the
/// result stands for one or two tiles of the line.
pub proof fn lemma_merge_len(tiles: Seq<u8>)
    ensures
        merge_line(tiles).len() <= tiles.len(),
        tiles.len() <= 2 * merge_line(tiles).len(),
    decreases tiles.len(),
{
    if tiles.len() >= 2 {
        if tiles[0] == tiles[1] {
            lemma_merge_len(tiles.skip(2));
        } else {
            lemma_merge_len(tiles.skip(1));
        }
    }
}

/// A merge that keeps the length of the line has merged nothing.
pub proof fn lemma_merge_same_len(tiles: Seq<u8>)
    requires
        merge_line(tiles).len() == tiles.len(),
    ensures
        merge_line(tiles) == tiles,
        neighbours_differ(tiles),
    decreases tiles.len(),
{
    if tiles.len() >= 2 {
        if tiles[0] == tiles[1] {
            lemma_merge_len(tiles.skip(2));
        } else {
            let rest = tiles.skip(1);
            lemma_merge_same_len(rest);
            assert(merge_line(tiles) =~= tiles);
            assert forall|pos: int| 0 <= pos < tiles.len() - 1 implies #[trigger] differs_from_next(
                tiles,
                pos,
            ) by {
                if pos > 0 {
                    assert(differs_from_next(rest, pos - 1));
                }
            }
        }
    }
}

/// Where no two neighbours are equal, the merge leaves the line as it is.
pub proof fn lemma_merge_distinct_neighbours(tiles: Seq<u8>)
    requires
        neighbours_differ(tiles),
    ensures
        merge_line(tiles) == tiles,
    decreases tiles.len(),
{
    if tiles.len() >= 2 {
        let rest = tiles.skip(1);
        assert(differs_from_next(tiles, 0));
        assert forall|pos: int| 0 <= pos < rest.len() - 1 implies #[trigger] differs_from_next(
            rest,
            pos,
        ) by {
            assert(differs_from_next(tiles, pos + 1));
        }
        lemma_merge_distinct_neighbours(rest);
        assert(merge_line(tiles) =~= tiles);
    }
}

/// Merging tiles whose ranks leave room for one more step yields tiles again:
/// no cell of the result is empty, and its ranks are at most one higher.
pub proof fn lemma_merge_keeps_tiles(tiles: Seq<u8>, limit: int)
    requires
        all_tiles(tiles),
        ranks_below(tiles, limit),
        limit <= 255,
    ensures
        all_tiles(merge_line(tiles)),
        ranks_below(merge_line(tiles), limit + 1),
    decreases tiles.len(),
{
    if tiles.len() >= 2 {
        let rest = if tiles[0] == tiles[1] {
            tiles.skip(2)
        } else {
            tiles.skip(1)
        };
        assert(all_tiles(rest) && ranks_below(rest, limit)) by {
            assert forall|pos: int| 0 <= pos < rest.len() implies rest[pos] != 0 && rest[pos]
                < limit by {
                if tiles[0] == tiles[1] {
                    assert(rest[pos] == tiles[pos + 2]);
                } else {
                    assert(rest[pos] == tiles[pos + 1]);
                }
            }
        }
        lemma_merge_keeps_tiles(rest, limit);
        assert(tiles[0] != 0 && tiles[0] < limit);
    }
}

/// A line compacts to nothing exactly when all its cells are empty.
pub proof fn lemma_compact_empty(line: Seq<u8>)
    ensures
        compact(line).len() == 0 <==> forall|pos: int| 0 <= pos < line.len() ==> line[pos] == 0,
    decreases line.len(),
{
    if line.len() > 0 {
        let front = line.drop_last();
        lemma_compact_empty(front);
        if compact(line).len() == 0 {
            assert forall|pos: int| 0 <= pos < line.len() implies line[pos] == 0 by {
                if pos < front.len() {
                    assert(front[pos] == 0);
                }
            }
        }
        if forall|pos: int| 0 <= pos < line.len() ==> line[pos] == 0 {
            assert(line.last() == 0);
            assert forall|pos: int| 0 <= pos < front.len() implies front[pos] == 0 by {
                assert(line[pos] == 0);
            }
        }
    }
}

/// Compacting does not raise any rank.
pub proof fn lemma_compact_ranks(line: Seq<u8>, limit: int)
    requires
        ranks_below(line, limit),
    ensures
        ranks_below(compact(line), limit),
{
    lemma_compact_props(line);
    assert forall|k: int| 0 <= k < compact(line).len() implies compact(line)[k] < limit by {
        let value = compact(line)[k];
        assert(line.contains(value));
        let pos = choose|pos: int| 0 <= pos < line.len() && line[pos] == value;
        assert(line[pos] < limit);
    }
}

/// A slide that leaves no empty cell in a line has found the line full and
/// has merged nothing.
pub proof fn lemma_slide_line_full(line: Seq<u8>)
    requires
        all_tiles(slide_line(line)),
    ensures
        slide_line(line) == line,
        all_tiles(line),
        neighbours_differ(line),
{
    let tiles = compact(line);
    let merged = merge_line(tiles);
    lemma_compact_props(line);
    lemma_merge_len(tiles);
    if merged.len() < line.len() {
        assert(slide_line(line)[merged.len() as int] == 0);
    }
    lemma_compact_full(line);
    lemma_merge_same_len(tiles);
    assert(slide_line(line) =~= line);
}

/// A slide leaves a line that is full and has no two equal neighbours as
/// it is.
pub proof fn lemma_slide_line_blocked(line: Seq<u8>)
    requires
        all_tiles(line),
        neighbours_differ(line),
    ensures
        slide_line(line) == line,
{
    lemma_compact_full(line);
    lemma_merge_distinct_neighbours(line);
    assert(slide_line(line) =~= line);
}

/// A slide leaves a line without tiles as it is.
pub proof fn lemma_slide_line_empty(line: Seq<u8>)
    requires
        compact(line).len() == 0,
    ensures
        slide_line(line) == line,
{
    lemma_compact_empty(line);
    assert(slide_line(line) =~= line);
}

/// The merge of a line keeps a tile whose rank no other tile of the line
/// has.
pub proof fn lemma_merge_keeps_lone_rank(tiles: Seq<u8>, at: int)
    requires
        0 <= at < tiles.len(),
        forall|other: int| 0 <= other < tiles.len() && other != at ==> tiles[other] != tiles[at],
    ensures
        merge_line(tiles).contains(tiles[at]),
    decreases tiles.len(),
{
    let rank = tiles[at];
    if tiles.len() < 2 {
        assert(merge_line(tiles)[at] == rank);
    } else {
        let used: int = if tiles[0] == tiles[1] {
            2
        } else {
            1
        };
        if at < used {
            assert(tiles[0] != tiles[1]);
            assert(merge_line(tiles)[0] == rank);
        } else {
            let rest = tiles.skip(used);
            assert(rest[at - used] == rank);
            assert forall|other: int| 0 <= other < rest.len() && other != at - used implies #[trigger] rest[other]
                != rank by {
                assert(rest[other] == tiles[other + used]);
            }
            lemma_merge_keeps_lone_rank(rest, at - used);
            let found = choose|found: int|
                0 <= found < merge_line(rest).len() && merge_line(rest)[found] == rank;
            assert(merge_line(tiles)[found + 1] == rank);
        }
    }
}

/// Compacting a line keeps a tile whose rank no other cell of the line
/// has, and leaves it the only one of its rank.
pub proof fn lemma_compact_keeps_lone_rank(line: Seq<u8>, at: int)
    requires
        0 <= at < line.len(),
        line[at] != 0,
        forall|other: int| 0 <= other < line.len() && other != at ==> line[other] != line[at],
    ensures
        exists|found: int|
            0 <= found < compact(line).len() && #[trigger] compact(line)[found] == line[at]
                && forall|other: int|
                0 <= other < compact(line).len() && other != found ==> compact(line)[other]
                    != line[at],
    decreases line.len(),
{
    let rank = line[at];
    let front = line.drop_last();
    let tiles = compact(line);
    if at == line.len() - 1 {
        lemma_compact_props(front);
        let found = tiles.len() - 1;
        assert(tiles[found] == rank);
        assert forall|other: int| 0 <= other < tiles.len() && other != found implies tiles[other]
            != rank by {
            let value = compact(front)[other];
            assert(front.contains(value));
            let pos = choose|pos: int| 0 <= pos < front.len() && front[pos] == value;
            assert(line[pos] == value);
        }
    } else {
        assert(front[at] == rank);
        assert forall|other: int| 0 <= other < front.len() && other != at implies front[other]
            != front[at] by {
            assert(front[other] == line[other]);
        }
        lemma_compact_keeps_lone_rank(front, at);
        let found = choose|found: int|
            0 <= found < compact(front).len() && #[trigger] compact(front)[found] == rank
                && forall|other: int|
                0 <= other < compact(front).len() && other != found ==> compact(front)[other]
                    != rank;
        assert(tiles[found] == rank);
        assert(line.last() != rank);
        assert forall|other: int| 0 <= other < tiles.len() && other != found implies tiles[other]
            != rank by {
            if other < compact(front).len() {
                assert(compact(front)[other] != rank);
            }
        }
    }
}

/// A line with no two equal neighbours has none when read from its other
/// end.
pub proof fn lemma_neighbours_differ_reverse(tiles: Seq<u8>)
    requires
        neighbours_differ(tiles),
    ensures
        neighbours_differ(tiles.reverse()),
{
    let turned = tiles.reverse();
    assert forall|pos: int| 0 <= pos < turned.len() - 1 implies #[trigger] differs_from_next(
        turned,
        pos,
    ) by {
        assert(differs_from_next(tiles, tiles.len() - 2 - pos));
    }
}

/// The tiles of `line` in reverse order.
pub(crate) fn reversed(line: &Vec<u8>) -> (out: Vec<u8>)
    ensures
        out@ == line@.reverse(),
{
    let mut out: Vec<u8> = Vec::new();
    let len: usize = line.len();
    let mut done: usize = 0;
    while done < len
        invariant
            len == line.len(),
            done <= len,
            out.len() == done,
            forall|k: int| 0 <= k < done ==> out[k] == line[len - 1 - k],
        decreases len - done,
    {
        out.push(line[len - 1 - done]);
        done += 1;
    }
    assert(out@ =~= line@.reverse());
    out
}

/// Merges a compacted line from its first tile on.
pub(crate) fn merge_forward(line: &Vec<u8>) -> (out: Vec<u8>)
    requires
        ranks_below(line@, 255),
    ensures
        out@ == merge_line(line@),
{
    let mut out: Vec<u8> = Vec::new();
    let len: usize = line.len();
    let mut at: usize = 0;
    assert(line@.skip(0) =~= line@);
    assert(out@ + merge_line(line@) =~= merge_line(line@));
    while at < len
        invariant
            len == line.len(),
            at <= len,
            ranks_below(line@, 255),
            out@ + merge_line(line@.skip(at as int)) == merge_line(line@),
        decreases len - at,
    {
        let ghost rest = line@.skip(at as int);
        let cell: u8 = line[at];
        assert(rest[0] == cell);
        if at + 1 < len && line[at + 1] == cell {
            assert(rest[1] == line[at + 1]);
            assert(rest.skip(2) =~= line@.skip(at + 2));
            out.push(cell + 1);
            at += 2;
        } else {
            assert(rest.skip(1) =~= line@.skip(at + 1));
            assert(rest.len() >= 2 ==> rest[1] == line[at + 1]);
            out.push(cell);
            at += 1;
        }
        assert(out@ + merge_line(line@.skip(at as int)) =~= merge_line(line@));
    }
    assert(out@ + merge_line(line@.skip(at as int)) =~= out@);
    out
}

} // verus!
