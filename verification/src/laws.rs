//! What holds of every board and every move, stated over the model of the
//! board and proved from the contracts of its operations.
use crate::direction::{opposite, Direction};
use crate::game_board::{empty_state, has_won, moved, BoardState, WINNING_RANK};
use crate::grid::{
    lemma_equal_lines,
    lemma_line_toward_forward,
    lemma_move_index,
    lemma_slide_line_toward,
    line_of,
    line_toward,
    move_index,
    pos_of,
    slide,
    stuck,
};
use crate::line::{
    lemma_neighbours_differ_reverse,
    lemma_slide_line_blocked,
    neighbours_differ,
    ranks_below,
};
use crate::room::{lemma_slide_keeps_room, lemma_slide_keeps_within, lemma_slide_tile_count};
use crate::spawn::{
    all_empty,
    count_empty,
    generated,
    lemma_count_empty_extremes,
    lemma_generated,
    lemma_spawn_step,
    lemma_spawn_step_keeps_within,
    spawn_step,
};
use crate::stuck::{lemma_agree_is_stuck, lemma_slide_keeps_lone_rank};
use crate::tally::{
    count_at_least,
    lemma_low_ranks_have_room,
    lemma_room_bounds_ranks,
    lemma_room_when_empty,
    lemma_within_bounds_ranks,
    ranks_within,
    valid_grid,
    MAX_SIZE,
};
use vstd::prelude::*;

verus! {

/// The grid seen in a mirror that stands across the axis of `dir`: every
/// line is read from its other end.
pub open spec fn mirrored(cells: Seq<u8>, size: nat, dir: Direction) -> Seq<u8> {
    Seq::new(
        size * size,
        |idx: int|
            cells[move_index(
                size,
                line_of(size, idx, dir),
                pos_of(size, idx, dir),
                opposite(dir),
            )],
    )
}

/// A new board has one empty cell for every place of the square, has not
/// been won and has not ended; and its ranks are within every bound.
pub proof fn law_new_board_is_empty(size: nat)
    ensures
        empty_state(size).cells.len() == size * size,
        all_empty(empty_state(size).cells),
        !has_won(empty_state(size).cells),
        !empty_state(size).game_over,
        forall|cap: int| ranks_within(empty_state(size).cells, cap),
{
    assert forall|cap: int| ranks_within(empty_state(size).cells, cap) by {
        lemma_room_when_empty(empty_state(size).cells, cap);
    }
}

/// One call for new tiles on a grid with an empty cell places one tile, or
/// two where the grid held no tile at all and has two cells or more; so an
/// empty grid of side 2 or more is left with all but two cells empty. Every
/// new tile has rank 1 or 2 and stands in a cell that was empty.
pub proof fn law_generate_adds_one_or_two_tiles(before: Seq<u8>, after: Seq<u8>)
    requires
        generated(before, after),
    ensures
        after.len() == before.len(),
        all_empty(before) && before.len() >= 2 ==> count_empty(after) == before.len() - 2,
        !(all_empty(before) && before.len() >= 2) ==> count_empty(after) == count_empty(before)
            - 1,
        forall|idx: int|
            0 <= idx < before.len() ==> after[idx] == before[idx] || (before[idx] == 0 && (
            after[idx] == 1 || after[idx] == 2)),
{
    lemma_generated(before, after);
}

/// A move leaves the grid as it was or makes it the slide that was
/// predicted for its direction, with one new tile of rank 1 or 2 in a cell
/// that the slide had left empty; nothing in between.
pub proof fn law_move_follows_prediction(before: BoardState, dir: Direction, after: BoardState)
    requires
        moved(before, dir, after),
    ensures
        after.cells == before.cells || spawn_step(
            slide(before.cells, before.size, dir),
            after.cells,
        ),
        after.cells != before.cells ==> count_empty(after.cells) + 1 == count_empty(
            slide(before.cells, before.size, dir),
        ),
{
    let next = slide(before.cells, before.size, dir);
    if spawn_step(next, after.cells) {
        lemma_spawn_step(next, after.cells);
    }
}

/// A board that has been won stays won through a move, unless the slide
/// itself merges every tile of the winning rank away: the new tile never
/// takes the place of a tile.
pub proof fn law_win_persists(before: BoardState, dir: Direction, after: BoardState)
    requires
        moved(before, dir, after),
        has_won(before.cells),
        before.game_over || has_won(slide(before.cells, before.size, dir)),
    ensures
        has_won(after.cells),
{
    let next = slide(before.cells, before.size, dir);
    if !before.game_over && next != before.cells {
        lemma_spawn_step(next, after.cells);
        let idx = choose|idx: int| 0 <= idx < next.len() && next[idx] == WINNING_RANK;
        assert(after.cells[idx] == WINNING_RANK);
    }
}

/// A board on which one tile alone has the winning rank stays won through
/// every move.
pub proof fn law_lone_winner_stays(before: BoardState, dir: Direction, after: BoardState, at: int)
    requires
        before.cells.len() == before.size * before.size,
        moved(before, dir, after),
        0 <= at < before.cells.len(),
        before.cells[at] == WINNING_RANK,
        forall|other: int|
            0 <= other < before.cells.len() && other != at ==> before.cells[other] != WINNING_RANK,
    ensures
        has_won(after.cells),
{
    assert(has_won(before.cells));
    lemma_slide_keeps_lone_rank(before.cells, before.size, dir, at);
    law_win_persists(before, dir, after);
}

/// The end of the game is final: a move on a board whose game has ended
/// changes nothing.
pub proof fn law_game_over_is_final(before: BoardState, dir: Direction, after: BoardState)
    requires
        moved(before, dir, after),
        before.game_over,
    ensures
        after == before,
{
}

/// A move on a valid grid that no slide would change ends the game and
/// leaves the grid as it is, whatever its direction; and a move ends the
/// game only on a grid that no slide would change.
pub proof fn law_stuck_board_ends_game(before: BoardState, dir: Direction, after: BoardState)
    requires
        valid_grid(before.size, before.cells),
        moved(before, dir, after),
        !before.game_over,
    ensures
        stuck(before.cells, before.size) ==> after.game_over && after.cells == before.cells,
        after.game_over <==> stuck(after.cells, after.size),
{
    law_ranks_fit_a_byte(before, dir, after);
    lemma_agree_is_stuck(after.cells, after.size);
    if stuck(before.cells, before.size) {
        assert(slide(before.cells, before.size, dir) == before.cells);
    }
}

/// A grid without an empty cell in which no two neighbours, in a row or in
/// a column, have the same rank is stuck.
pub proof fn law_blocked_board_is_stuck(cells: Seq<u8>, size: nat)
    requires
        cells.len() == size * size,
        count_empty(cells) == 0,
        forall|line: int|
            0 <= line < size ==> neighbours_differ(
                #[trigger] line_toward(cells, size, line, Direction::Left),
            ),
        forall|line: int|
            0 <= line < size ==> neighbours_differ(
                #[trigger] line_toward(cells, size, line, Direction::Up),
            ),
    ensures
        stuck(cells, size),
{
    lemma_count_empty_extremes(cells);
    assert forall|dir: Direction| #[trigger] slide(cells, size, dir) == cells by {
        let next = slide(cells, size, dir);
        assert forall|line: int| 0 <= line < size implies #[trigger] line_toward(
            next,
            size,
            line,
            dir,
        ) == line_toward(cells, size, line, dir) by {
            let full = line_toward(cells, size, line, dir);
            lemma_slide_line_toward(cells, size, line, dir);
            assert forall|pos: int| 0 <= pos < full.len() implies full[pos] != 0 by {
                lemma_move_index(size, line, pos, dir);
            }
            lemma_line_toward_forward(cells, size, line, dir);
            match dir {
                Direction::Up => {},
                Direction::Left => {},
                Direction::Down => {
                    lemma_neighbours_differ_reverse(
                        line_toward(cells, size, line, Direction::Up),
                    );
                },
                Direction::Right => {
                    lemma_neighbours_differ_reverse(
                        line_toward(cells, size, line, Direction::Left),
                    );
                },
            }
            lemma_slide_line_blocked(full);
        }
        lemma_equal_lines(next, cells, size, dir);
    }
}

/// A slide adds no tile and at most halves the number of tiles: tiles merge
/// in pairs, and a tile that a merge has made does not merge again in the
/// same slide.
pub proof fn law_slide_merges_pairs(cells: Seq<u8>, size: nat, dir: Direction)
    requires
        valid_grid(size, cells),
    ensures
        valid_grid(size, slide(cells, size, dir)),
        count_at_least(slide(cells, size, dir), 1) <= count_at_least(cells, 1),
        count_at_least(cells, 1) <= 2 * count_at_least(slide(cells, size, dir), 1),
{
    lemma_slide_keeps_room(cells, size, dir);
    lemma_slide_tile_count(cells, size, dir);
}

/// A line of the mirrored grid is the line of the grid read from its other
/// end.
pub proof fn lemma_mirrored_line(cells: Seq<u8>, size: nat, line: int, dir: Direction)
    requires
        0 <= line < size,
    ensures
        line_toward(mirrored(cells, size, dir), size, line, dir) == line_toward(
            cells,
            size,
            line,
            opposite(dir),
        ),
{
    let seen = line_toward(mirrored(cells, size, dir), size, line, dir);
    let read = line_toward(cells, size, line, opposite(dir));
    assert forall|pos: int| 0 <= pos < size implies seen[pos] == read[pos] by {
        lemma_move_index(size, line, pos, dir);
    }
    assert(seen =~= read);
}

/// A slide of the mirrored grid is the mirrored slide toward the opposite
/// edge: left and right, and up and down, are mirror images of each other.
pub proof fn law_slides_mirror(cells: Seq<u8>, size: nat, dir: Direction)
    requires
        cells.len() == size * size,
    ensures
        slide(mirrored(cells, size, dir), size, dir) == mirrored(
            slide(cells, size, opposite(dir)),
            size,
            dir,
        ),
{
    let there = slide(mirrored(cells, size, dir), size, dir);
    let back = mirrored(slide(cells, size, opposite(dir)), size, dir);
    let other = opposite(dir);
    assert forall|line: int| 0 <= line < size implies #[trigger] line_toward(
        there,
        size,
        line,
        dir,
    ) == line_toward(back, size, line, dir) by {
        lemma_mirrored_line(cells, size, line, dir);
        lemma_mirrored_line(slide(cells, size, other), size, line, dir);
        lemma_slide_line_toward(mirrored(cells, size, dir), size, line, dir);
        lemma_slide_line_toward(cells, size, line, other);
    }
    lemma_equal_lines(there, back, size, dir);
}

/// A move leaves a valid grid valid, and no rank of a valid grid is above
/// 254: the ranks fit a byte before the move and after it.
pub proof fn law_ranks_fit_a_byte(before: BoardState, dir: Direction, after: BoardState)
    requires
        valid_grid(before.size, before.cells),
        moved(before, dir, after),
    ensures
        valid_grid(after.size, after.cells),
        ranks_below(before.cells, 255),
        ranks_below(after.cells, 255),
{
    let next = slide(before.cells, before.size, dir);
    lemma_room_bounds_ranks(before.cells);
    if !before.game_over && next != before.cells {
        lemma_slide_keeps_room(before.cells, before.size, dir);
        assert(next.len() <= 225) by (nonlinear_arith)
            requires
                next.len() == before.size * before.size,
                before.size <= 15,
        ;
        lemma_spawn_step_keeps_within(next, after.cells, 255);
    }
    lemma_room_bounds_ranks(after.cells);
}

/// A move leaves the ranks within every bound up to 255 that they were
/// within and that exceeds the number of cells by 2 or more. The empty grid
/// is within every bound; so in a game that starts on the empty board of
/// side `size`, no tile ever has a rank above `size * size + 1`, at most two
/// tiles have rank `size * size` or more, and so on down.
pub proof fn law_ranks_stay_within(before: BoardState, dir: Direction, after: BoardState, cap: int)
    requires
        before.cells.len() == before.size * before.size,
        moved(before, dir, after),
        ranks_within(before.cells, cap),
        before.cells.len() + 2 <= cap <= 255,
    ensures
        ranks_within(after.cells, cap),
        ranks_below(after.cells, cap),
{
    let next = slide(before.cells, before.size, dir);
    if !before.game_over && next != before.cells {
        lemma_slide_keeps_within(before.cells, before.size, dir, cap);
        lemma_spawn_step_keeps_within(next, after.cells, cap);
    }
    lemma_within_bounds_ranks(after.cells, cap);
}

/// New tiles leave the ranks within every bound that they were within and
/// that exceeds the number of cells by 2 or more.
pub proof fn law_generate_keeps_ranks_within(before: Seq<u8>, after: Seq<u8>, cap: int)
    requires
        generated(before, after),
        ranks_within(before, cap),
        before.len() + 2 <= cap,
    ensures
        ranks_within(after, cap),
{
    if all_empty(before) && before.len() >= 2 {
        let between = choose|between: Seq<u8>| #[trigger]
            spawn_step(before, between) && spawn_step(between, after);
        lemma_spawn_step_keeps_within(before, between, cap);
        lemma_spawn_step_keeps_within(between, after, cap);
    } else {
        lemma_spawn_step_keeps_within(before, after, cap);
    }
}

/// A grid of a side from 1 to 15 whose ranks are all at most 30 is valid:
/// such cells always make a board.
pub proof fn law_low_ranks_make_a_valid_grid(size: nat, cells: Seq<u8>)
    requires
        1 <= size <= MAX_SIZE,
        cells.len() == size * size,
        ranks_below(cells, 31),
    ensures
        valid_grid(size, cells),
{
    assert(cells.len() <= 225) by (nonlinear_arith)
        requires
            cells.len() == size * size,
            size <= 15,
    ;
    lemma_low_ranks_have_room(cells);
}

} // verus!
