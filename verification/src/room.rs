//! The counts of a grid taken line by line, and from them: a slide leaves
//! the ranks the room they need.
use crate::direction::{axis_of, forward, Direction};
use crate::grid::{
    lemma_line_toward_forward,
    lemma_move_index,
    lemma_slide_line_toward,
    line_toward,
    slide,
};
use crate::line::ranks_below;
use crate::tally::{
    count_at_least,
    lemma_count_concat,
    lemma_count_reverse,
    lemma_count_slide_line,
    lemma_count_take_next,
    lemma_room_bounds_ranks,
    lemma_within_bounds_ranks,
    ranks_within,
    valid_grid,
};
use vstd::prelude::*;

verus! {

/// The number of tiles of rank `rank` or more in the first `upto` lines
/// along the axis of `dir`.
pub open spec fn count_in_lines(
    cells: Seq<u8>,
    size: nat,
    dir: Direction,
    upto: nat,
    rank: int,
) -> nat
    decreases upto,
{
    if upto == 0 {
        0
    } else {
        count_in_lines(cells, size, dir, (upto - 1) as nat, rank) + count_at_least(
            line_toward(cells, size, upto - 1, dir),
            rank,
        )
    }
}

/// The number of tiles of rank `rank` or more in the first `rows` rows of
/// the first `cols` columns.
pub open spec fn count_in_columns(cells: Seq<u8>, size: nat, rows: nat, cols: nat, rank: int) -> nat
    decreases cols,
{
    if cols == 0 {
        0
    } else {
        count_in_columns(cells, size, rows, (cols - 1) as nat, rank) + count_at_least(
            line_toward(cells, size, cols - 1, Direction::Up).take(rows as int),
            rank,
        )
    }
}

/// The rows counted one after the other give the count of the cells they
/// cover.
pub proof fn lemma_rows_total(cells: Seq<u8>, size: nat, upto: nat, rank: int)
    requires
        cells.len() == size * size,
        upto <= size,
    ensures
        upto * size <= cells.len(),
        count_in_lines(cells, size, Direction::Left, upto, rank) == count_at_least(
            cells.take((upto * size) as int),
            rank,
        ),
    decreases upto,
{
    if upto == 0 {
        assert(upto * size == 0) by (nonlinear_arith)
            requires
                upto == 0,
        ;
        assert(cells.take(0) =~= Seq::<u8>::empty());
    } else {
        let done = (upto - 1) as nat;
        lemma_rows_total(cells, size, done, rank);
        let row = line_toward(cells, size, done as int, Direction::Left);
        assert(upto * size == done * size + size) by (nonlinear_arith)
            requires
                upto == done + 1,
        ;
        assert(upto * size <= size * size) by (nonlinear_arith)
            requires
                upto <= size,
        ;
        assert(cells.take((upto * size) as int) =~= cells.take((done * size) as int) + row);
        lemma_count_concat(cells.take((done * size) as int), row, rank);
    }
}

/// Nothing is counted in columns cut down to no row.
proof fn lemma_columns_none(cells: Seq<u8>, size: nat, cols: nat, rank: int)
    ensures
        count_in_columns(cells, size, 0, cols, rank) == 0,
    decreases cols,
{
    if cols > 0 {
        lemma_columns_none(cells, size, (cols - 1) as nat, rank);
        assert(line_toward(cells, size, cols - 1, Direction::Up).take(0) =~= Seq::<u8>::empty());
    }
}

/// One more row adds to the columns what that row holds in them.
proof fn lemma_columns_next_row(cells: Seq<u8>, size: nat, rows: nat, cols: nat, rank: int)
    requires
        rows < size,
        cols <= size,
    ensures
        count_in_columns(cells, size, rows + 1, cols, rank) == count_in_columns(
            cells,
            size,
            rows,
            cols,
            rank,
        ) + count_at_least(
            line_toward(cells, size, rows as int, Direction::Left).take(cols as int),
            rank,
        ),
    decreases cols,
{
    let row = line_toward(cells, size, rows as int, Direction::Left);
    if cols == 0 {
        assert(row.take(0) =~= Seq::<u8>::empty());
    } else {
        let col = (cols - 1) as nat;
        let column = line_toward(cells, size, col as int, Direction::Up);
        lemma_columns_next_row(cells, size, rows, col, rank);
        lemma_count_take_next(column, rows as int, rank);
        lemma_count_take_next(row, col as int, rank);
        assert(column[rows as int] == row[col as int]);
    }
}

/// Whole columns are lines along the vertical axis.
proof fn lemma_columns_whole(cells: Seq<u8>, size: nat, cols: nat, rank: int)
    ensures
        count_in_columns(cells, size, size, cols, rank) == count_in_lines(
            cells,
            size,
            Direction::Up,
            cols,
            rank,
        ),
    decreases cols,
{
    if cols > 0 {
        lemma_columns_whole(cells, size, (cols - 1) as nat, rank);
        let column = line_toward(cells, size, cols - 1, Direction::Up);
        assert(column.take(size as int) =~= column);
    }
}

/// The first rows counted column by column hold what they hold counted row
/// by row.
proof fn lemma_columns_are_rows(cells: Seq<u8>, size: nat, rows: nat, rank: int)
    requires
        rows <= size,
    ensures
        count_in_columns(cells, size, rows, size, rank) == count_in_lines(
            cells,
            size,
            Direction::Left,
            rows,
            rank,
        ),
    decreases rows,
{
    if rows == 0 {
        lemma_columns_none(cells, size, size, rank);
    } else {
        let done = (rows - 1) as nat;
        lemma_columns_are_rows(cells, size, done, rank);
        lemma_columns_next_row(cells, size, done, size, rank);
        let row = line_toward(cells, size, done as int, Direction::Left);
        assert(row.take(size as int) =~= row);
    }
}

/// Lines hold the same tiles from whichever end they are read.
proof fn lemma_lines_forward(cells: Seq<u8>, size: nat, dir: Direction, upto: nat, rank: int)
    ensures
        count_in_lines(cells, size, dir, upto, rank) == count_in_lines(
            cells,
            size,
            forward(axis_of(dir)),
            upto,
            rank,
        ),
    decreases upto,
{
    if upto > 0 {
        lemma_lines_forward(cells, size, dir, (upto - 1) as nat, rank);
        lemma_line_toward_forward(cells, size, upto - 1, dir);
        lemma_count_reverse(line_toward(cells, size, upto - 1, forward(axis_of(dir))), rank);
    }
}

/// Counting a grid line by line, along either axis and from either end,
/// gives the count of the grid.
pub proof fn lemma_lines_total(cells: Seq<u8>, size: nat, dir: Direction, rank: int)
    requires
        cells.len() == size * size,
    ensures
        count_in_lines(cells, size, dir, size, rank) == count_at_least(cells, rank),
{
    lemma_lines_forward(cells, size, dir, size, rank);
    lemma_rows_total(cells, size, size, rank);
    assert(cells.take((size * size) as int) =~= cells);
    lemma_columns_are_rows(cells, size, size, rank);
    lemma_columns_whole(cells, size, size, rank);
}

/// Every line of a grid with ranks below a limit has its ranks below it.
pub proof fn lemma_line_ranks(cells: Seq<u8>, size: nat, line: int, dir: Direction, limit: int)
    requires
        cells.len() == size * size,
        0 <= line < size,
        ranks_below(cells, limit),
    ensures
        ranks_below(line_toward(cells, size, line, dir), limit),
{
    let full = line_toward(cells, size, line, dir);
    assert forall|pos: int| 0 <= pos < full.len() implies full[pos] < limit by {
        lemma_move_index(size, line, pos, dir);
    }
}

/// What a slide does to the counts of the first lines: the bound that holds
/// of each line holds of their sum.
proof fn lemma_slide_lines_counts(
    cells: Seq<u8>,
    size: nat,
    dir: Direction,
    upto: nat,
    rank: int,
)
    requires
        cells.len() == size * size,
        ranks_below(cells, 255),
        upto <= size,
        1 <= rank,
    ensures
        rank >= 2 ==> 2 * count_in_lines(slide(cells, size, dir), size, dir, upto, rank)
            <= count_in_lines(cells, size, dir, upto, rank) + count_in_lines(
            cells,
            size,
            dir,
            upto,
            rank - 1,
        ),
        count_in_lines(slide(cells, size, dir), size, dir, upto, 1) <= count_in_lines(
            cells,
            size,
            dir,
            upto,
            1,
        ),
        count_in_lines(cells, size, dir, upto, 1) <= 2 * count_in_lines(
            slide(cells, size, dir),
            size,
            dir,
            upto,
            1,
        ),
    decreases upto,
{
    if upto > 0 {
        lemma_slide_lines_counts(cells, size, dir, (upto - 1) as nat, rank);
        lemma_slide_line_toward(cells, size, upto - 1, dir);
        lemma_line_ranks(cells, size, upto - 1, dir, 255);
        lemma_count_slide_line(line_toward(cells, size, upto - 1, dir), rank);
    }
}

/// A slide adds no tile to the grid and at most halves their number: every
/// tile after the slide stands for one tile or for two that have merged.
pub proof fn lemma_slide_tile_count(cells: Seq<u8>, size: nat, dir: Direction)
    requires
        valid_grid(size, cells),
    ensures
        count_at_least(slide(cells, size, dir), 1) <= count_at_least(cells, 1),
        count_at_least(cells, 1) <= 2 * count_at_least(slide(cells, size, dir), 1),
{
    lemma_room_bounds_ranks(cells);
    lemma_slide_lines_counts(cells, size, dir, size, 1);
    lemma_lines_total(cells, size, dir, 1);
    lemma_lines_total(slide(cells, size, dir), size, dir, 1);
}

/// A slide leaves the ranks within every bound up to 255 that they were
/// within.
pub proof fn lemma_slide_keeps_within(cells: Seq<u8>, size: nat, dir: Direction, cap: int)
    requires
        cells.len() == size * size,
        ranks_within(cells, cap),
        1 <= cap <= 255,
    ensures
        ranks_within(slide(cells, size, dir), cap),
{
    let next = slide(cells, size, dir);
    lemma_within_bounds_ranks(cells, cap);
    assert forall|rank: int| 1 <= rank <= cap implies #[trigger] count_at_least(next, rank)
        + rank <= cap by {
        lemma_slide_lines_counts(cells, size, dir, size, rank);
        lemma_lines_total(cells, size, dir, rank);
        lemma_lines_total(next, size, dir, rank);
        if rank >= 2 {
            lemma_lines_total(cells, size, dir, rank - 1);
            assert(count_at_least(cells, rank - 1) + (rank - 1) <= cap);
        }
        assert(count_at_least(cells, rank) + rank <= cap);
    }
}

/// A slide of a valid grid gives a valid grid: the ranks keep the room they
/// need, and so stay within a byte.
pub proof fn lemma_slide_keeps_room(cells: Seq<u8>, size: nat, dir: Direction)
    requires
        valid_grid(size, cells),
    ensures
        valid_grid(size, slide(cells, size, dir)),
{
    lemma_slide_keeps_within(cells, size, dir, 255);
}

} // verus!
