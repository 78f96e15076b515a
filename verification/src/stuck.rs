//! Grids that a slide leaves as they are, and what a slide that does change
//! the grid leaves behind.
use crate::direction::Direction;
use crate::grid::{
    lemma_equal_lines,
    lemma_line_pos,
    lemma_line_toward_forward,
    lemma_move_index,
    lemma_slide_line_toward,
    line_of,
    line_toward,
    move_index,
    pos_of,
    slide,
    slides_agree,
    stuck,
};
use crate::line::{
    all_tiles,
    compact,
    lemma_compact_keeps_lone_rank,
    lemma_compact_props,
    lemma_compact_ranks,
    lemma_merge_keeps_lone_rank,
    lemma_merge_keeps_tiles,
    lemma_merge_len,
    lemma_slide_line_empty,
    lemma_slide_line_full,
    merge_line,
    ranks_below,
    slide_line,
};
use crate::room::lemma_line_ranks;
use crate::spawn::{all_empty, count_empty, lemma_count_empty_extremes};
use crate::tally::{lemma_room_bounds_ranks, valid_grid};
use vstd::prelude::*;

verus! {

/// A line whose slide toward one end is the mirror image of its slide toward
/// the other end does not move at all: it is empty, or full with nothing to
/// merge.
pub proof fn lemma_line_both_ways(full: Seq<u8>)
    requires
        ranks_below(full, 255),
        slide_line(full.reverse()) == slide_line(full).reverse(),
    ensures
        slide_line(full) == full,
{
    let len = full.len() as int;
    let ahead = merge_line(compact(full));
    let behind = merge_line(compact(full.reverse()));
    assert forall|pos: int| 0 <= pos < len implies full.reverse()[pos] < 255 by {
        assert(full.reverse()[pos] == full[len - 1 - pos]);
    }
    lemma_compact_props(full);
    lemma_compact_props(full.reverse());
    lemma_compact_ranks(full, 255);
    lemma_compact_ranks(full.reverse(), 255);
    lemma_merge_len(compact(full));
    lemma_merge_len(compact(full.reverse()));
    lemma_merge_keeps_tiles(compact(full), 255);
    lemma_merge_keeps_tiles(compact(full.reverse()), 255);
    let there = slide_line(full);
    let back = slide_line(full.reverse());
    if ahead.len() == 0 {
        lemma_slide_line_empty(full);
    } else if ahead.len() == len {
        assert(all_tiles(there)) by {
            assert forall|pos: int| 0 <= pos < there.len() implies there[pos] != 0 by {
                assert(there[pos] == ahead[pos]);
            }
        }
        lemma_slide_line_full(full);
    } else {
        assert(there[len - 1] == 0);
        assert(there.reverse()[0] == there[len - 1]);
        assert(back[0] == 0);
        if behind.len() > 0 {
            assert(back[0] == behind[0]);
        }
        assert(back[len - 1] == 0);
        assert(there.reverse()[len - 1] == there[0]);
        assert(there[0] == ahead[0]);
    }
}

/// The four slides of a valid grid give one and the same grid exactly when
/// none of them changes the grid. That the slides up and down agree is
/// already enough for that.
pub proof fn lemma_agree_is_stuck(cells: Seq<u8>, size: nat)
    requires
        valid_grid(size, cells),
    ensures
        slides_agree(cells, size) <==> stuck(cells, size),
        slide(cells, size, Direction::Up) == slide(cells, size, Direction::Down) ==> slide(
            cells,
            size,
            Direction::Up,
        ) == cells,
{
    let up = slide(cells, size, Direction::Up);
    let down = slide(cells, size, Direction::Down);
    if stuck(cells, size) {
        assert(slide(cells, size, Direction::Up) == cells);
        assert(slide(cells, size, Direction::Down) == cells);
        assert(slide(cells, size, Direction::Left) == cells);
        assert(slide(cells, size, Direction::Right) == cells);
    }
    if up == down {
        lemma_room_bounds_ranks(cells);
        assert forall|line: int| 0 <= line < size implies #[trigger] line_toward(
            up,
            size,
            line,
            Direction::Up,
        ) == line_toward(cells, size, line, Direction::Up) by {
            let full = line_toward(cells, size, line, Direction::Up);
            lemma_line_ranks(cells, size, line, Direction::Up, 255);
            lemma_line_toward_forward(cells, size, line, Direction::Down);
            lemma_line_toward_forward(down, size, line, Direction::Down);
            lemma_slide_line_toward(cells, size, line, Direction::Up);
            lemma_slide_line_toward(cells, size, line, Direction::Down);
            lemma_line_both_ways(full);
        }
        lemma_equal_lines(up, cells, size, Direction::Up);
    }
    if slides_agree(cells, size) {
        assert forall|dir: Direction| #[trigger] slide(cells, size, dir) == cells by {
            match dir {
                Direction::Up => {},
                Direction::Down => {},
                Direction::Left => {},
                Direction::Right => {},
            }
        }
    }
}

/// A slide that leaves no cell empty has changed nothing: a slide that does
/// change the grid leaves an empty cell behind.
pub proof fn lemma_changed_slide_has_empty(cells: Seq<u8>, size: nat, dir: Direction)
    requires
        cells.len() == size * size,
        slide(cells, size, dir) != cells,
    ensures
        count_empty(slide(cells, size, dir)) >= 1,
{
    let next = slide(cells, size, dir);
    if count_empty(next) == 0 {
        lemma_count_empty_extremes(next);
        assert forall|line: int| 0 <= line < size implies #[trigger] line_toward(
            next,
            size,
            line,
            dir,
        ) == line_toward(cells, size, line, dir) by {
            let full = line_toward(cells, size, line, dir);
            lemma_slide_line_toward(cells, size, line, dir);
            assert forall|pos: int| 0 <= pos < slide_line(full).len() implies slide_line(
                full,
            )[pos] != 0 by {
                lemma_move_index(size, line, pos, dir);
                assert(line_toward(next, size, line, dir)[pos] != 0);
            }
            lemma_slide_line_full(full);
        }
        lemma_equal_lines(next, cells, size, dir);
    }
}

/// A slide does not clear the grid: a slide that changes a valid grid
/// leaves a tile on it.
pub proof fn lemma_changed_slide_has_tile(cells: Seq<u8>, size: nat, dir: Direction)
    requires
        valid_grid(size, cells),
        slide(cells, size, dir) != cells,
    ensures
        !all_empty(slide(cells, size, dir)),
{
    let next = slide(cells, size, dir);
    if all_empty(next) {
        lemma_room_bounds_ranks(cells);
        assert forall|line: int| 0 <= line < size implies #[trigger] line_toward(
            next,
            size,
            line,
            dir,
        ) == line_toward(cells, size, line, dir) by {
            let full = line_toward(cells, size, line, dir);
            let merged = merge_line(compact(full));
            lemma_slide_line_toward(cells, size, line, dir);
            lemma_line_ranks(cells, size, line, dir, 255);
            lemma_compact_props(full);
            lemma_compact_ranks(full, 255);
            lemma_merge_len(compact(full));
            lemma_merge_keeps_tiles(compact(full), 255);
            if merged.len() > 0 {
                lemma_move_index(size, line, 0, dir);
                assert(line_toward(next, size, line, dir)[0] == 0);
                assert(slide_line(full)[0] == merged[0]);
            }
            lemma_slide_line_empty(full);
        }
        lemma_equal_lines(next, cells, size, dir);
    }
}

/// A slide keeps a tile whose rank no other tile of the grid has: it has
/// nothing to merge with.
pub proof fn lemma_slide_keeps_lone_rank(cells: Seq<u8>, size: nat, dir: Direction, at: int)
    requires
        cells.len() == size * size,
        0 <= at < cells.len(),
        cells[at] != 0,
        forall|other: int| 0 <= other < cells.len() && other != at ==> cells[other] != cells[at],
    ensures
        slide(cells, size, dir).contains(cells[at]),
{
    let rank = cells[at];
    lemma_line_pos(size, at, dir);
    let line = line_of(size, at, dir);
    let pos = pos_of(size, at, dir);
    let full = line_toward(cells, size, line, dir);
    assert(full[pos] == rank);
    assert forall|other: int| 0 <= other < full.len() && other != pos implies full[other]
        != full[pos] by {
        lemma_move_index(size, line, other, dir);
    }
    lemma_compact_keeps_lone_rank(full, pos);
    let tiles = compact(full);
    let found = choose|found: int|
        0 <= found < tiles.len() && #[trigger] tiles[found] == rank && forall|other: int|
            0 <= other < tiles.len() && other != found ==> tiles[other] != rank;
    lemma_merge_keeps_lone_rank(tiles, found);
    let merged = merge_line(tiles);
    let kept = choose|kept: int| 0 <= kept < merged.len() && merged[kept] == rank;
    lemma_merge_len(tiles);
    lemma_compact_props(full);
    assert(slide_line(full)[kept] == rank);
    lemma_slide_line_toward(cells, size, line, dir);
    lemma_move_index(size, line, kept, dir);
    let target = move_index(size, line, kept, dir);
    assert(line_toward(slide(cells, size, dir), size, line, dir)[kept] == slide(
        cells,
        size,
        dir,
    )[target]);
    assert(slide(cells, size, dir)[target] == rank);
}

} // verus!
