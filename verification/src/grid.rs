//! The grid as a sequence of `size * size` ranks, row by row, and what a
//! slide in one of the four directions makes of it.
use crate::direction::{axis_of, forward, is_reverse, Axis, Direction};
use crate::line::{compact, lemma_compact_reverse, merge_line, merge_toward, oriented, slide_line};
use vstd::arithmetic::div_mod::{
    lemma_fundamental_div_mod,
    lemma_fundamental_div_mod_converse,
    lemma_mod_bound,
};
use vstd::prelude::*;

verus! {

/// Flat index of the cell in row `row` and column `col`.
pub open spec fn cell_index(size: nat, row: int, col: int) -> int {
    row * size + col
}

/// Flat index of the cell that lies `pos` steps behind the edge that `dir`
/// points to, in the line numbered `line`: a column for `Up` and `Down`, a
/// row for `Left` and `Right`.
pub open spec fn move_index(size: nat, line: int, pos: int, dir: Direction) -> int {
    let along = if is_reverse(dir) {
        size - 1 - pos
    } else {
        pos
    };
    match axis_of(dir) {
        Axis::Vertical => cell_index(size, along, line),
        Axis::Horizontal => cell_index(size, line, along),
    }
}

/// Number of the line along the axis of `dir` that the cell `idx` belongs to.
pub open spec fn line_of(size: nat, idx: int, dir: Direction) -> int {
    match axis_of(dir) {
        Axis::Vertical => idx % (size as int),
        Axis::Horizontal => idx / (size as int),
    }
}

/// How many steps the cell `idx` lies behind the edge that `dir` points to.
pub open spec fn pos_of(size: nat, idx: int, dir: Direction) -> int {
    let along = match axis_of(dir) {
        Axis::Vertical => idx / (size as int),
        Axis::Horizontal => idx % (size as int),
    };
    if is_reverse(dir) {
        size - 1 - along
    } else {
        along
    }
}

/// The line numbered `line`, read from the edge that `dir` points to.
pub open spec fn line_toward(cells: Seq<u8>, size: nat, line: int, dir: Direction) -> Seq<u8> {
    Seq::new(size, |pos: int| cells[move_index(size, line, pos, dir)])
}

/// The grid after all tiles have slid in direction `dir`: every line, read
/// from the edge that `dir` points to, is replaced by its slide.
pub open spec fn slide(cells: Seq<u8>, size: nat, dir: Direction) -> Seq<u8> {
    Seq::new(
        size * size,
        |idx: int|
            slide_line(line_toward(cells, size, line_of(size, idx, dir), dir))[pos_of(
                size,
                idx,
                dir,
            )],
    )
}

/// No slide changes the grid.
pub open spec fn stuck(cells: Seq<u8>, size: nat) -> bool {
    forall|dir: Direction| #[trigger] slide(cells, size, dir) == cells
}

/// The four slides of the grid give one and the same grid.
pub open spec fn slides_agree(cells: Seq<u8>, size: nat) -> bool {
    &&& slide(cells, size, Direction::Up) == slide(cells, size, Direction::Down)
    &&& slide(cells, size, Direction::Up) == slide(cells, size, Direction::Left)
    &&& slide(cells, size, Direction::Up) == slide(cells, size, Direction::Right)
}

/// Row and column of a flat index, and back.
pub proof fn lemma_cell_index(size: nat, row: int, col: int)
    requires
        0 <= row < size,
        0 <= col < size,
    ensures
        0 <= cell_index(size, row, col) < size * size,
        cell_index(size, row, col) / (size as int) == row,
        cell_index(size, row, col) % (size as int) == col,
{
    let n = size as int;
    lemma_fundamental_div_mod_converse(row * n + col, n, row, col);
    assert(0 <= row * n <= (n - 1) * n) by (nonlinear_arith)
        requires
            0 <= row <= n - 1,
            n > 0,
    ;
    assert((n - 1) * n + n == n * n) by (nonlinear_arith);
}

/// Every flat index of the grid names one row and one column.
pub proof fn lemma_cell_split(size: nat, idx: int)
    requires
        0 <= idx < size * size,
    ensures
        0 <= idx / (size as int) < size,
        0 <= idx % (size as int) < size,
        cell_index(size, idx / (size as int), idx % (size as int)) == idx,
{
    let n = size as int;
    assert(n > 0) by (nonlinear_arith)
        requires
            0 <= idx < n * n,
            n >= 0,
    ;
    lemma_fundamental_div_mod(idx, n);
    lemma_mod_bound(idx, n);
    let q = idx / n;
    assert(n * q == q * n) by (nonlinear_arith);
    assert(0 <= q < n) by (nonlinear_arith)
        requires
            idx == q * n + idx % n,
            0 <= idx % n < n,
            0 <= idx < n * n,
    ;
}

/// A line and a position in it name one cell of the grid, from which both
/// are read back.
pub proof fn lemma_move_index(size: nat, line: int, pos: int, dir: Direction)
    requires
        0 <= line < size,
        0 <= pos < size,
    ensures
        0 <= move_index(size, line, pos, dir) < size * size,
        line_of(size, move_index(size, line, pos, dir), dir) == line,
        pos_of(size, move_index(size, line, pos, dir), dir) == pos,
{
    let along = if is_reverse(dir) {
        size - 1 - pos
    } else {
        pos
    };
    match axis_of(dir) {
        Axis::Vertical => lemma_cell_index(size, along, line),
        Axis::Horizontal => lemma_cell_index(size, line, along),
    }
}

/// Every cell of the grid lies in one line at one position, whatever the
/// direction.
pub proof fn lemma_line_pos(size: nat, idx: int, dir: Direction)
    requires
        0 <= idx < size * size,
    ensures
        0 <= line_of(size, idx, dir) < size,
        0 <= pos_of(size, idx, dir) < size,
        move_index(size, line_of(size, idx, dir), pos_of(size, idx, dir), dir) == idx,
{
    lemma_cell_split(size, idx);
}

/// What a slide puts into the cell at position `pos` of line `line`.
pub proof fn lemma_slide_at(cells: Seq<u8>, size: nat, line: int, pos: int, dir: Direction)
    requires
        0 <= line < size,
        0 <= pos < size,
    ensures
        slide(cells, size, dir)[move_index(size, line, pos, dir)] == slide_line(
            line_toward(cells, size, line, dir),
        )[pos],
{
    lemma_move_index(size, line, pos, dir);
}

/// A slide rewrites each line by itself: the line of the result is the slide
/// of the line.
pub proof fn lemma_slide_line_toward(cells: Seq<u8>, size: nat, line: int, dir: Direction)
    requires
        0 <= line < size,
    ensures
        line_toward(slide(cells, size, dir), size, line, dir) == slide_line(
            line_toward(cells, size, line, dir),
        ),
{
    let after = line_toward(slide(cells, size, dir), size, line, dir);
    let want = slide_line(line_toward(cells, size, line, dir));
    assert forall|pos: int| 0 <= pos < size implies after[pos] == want[pos] by {
        lemma_slide_at(cells, size, line, pos, dir);
    }
    assert(after =~= want);
}

/// A grid is what its lines hold: two grids of the same size whose lines
/// along one direction are equal are equal.
pub proof fn lemma_equal_lines(a: Seq<u8>, b: Seq<u8>, size: nat, dir: Direction)
    requires
        a.len() == size * size,
        b.len() == size * size,
        forall|line: int|
            0 <= line < size ==> #[trigger] line_toward(a, size, line, dir) == line_toward(
                b,
                size,
                line,
                dir,
            ),
    ensures
        a == b,
{
    assert forall|idx: int| 0 <= idx < a.len() implies a[idx] == b[idx] by {
        lemma_line_pos(size, idx, dir);
        let line = line_of(size, idx, dir);
        let pos = pos_of(size, idx, dir);
        assert(line_toward(a, size, line, dir)[pos] == a[idx]);
        assert(line_toward(b, size, line, dir)[pos] == b[idx]);
    }
    assert(a =~= b);
}

/// A line read from the edge that `dir` points to is the line read from
/// index 0 upward, turned round where `dir` packs toward the far end.
pub proof fn lemma_line_toward_forward(cells: Seq<u8>, size: nat, line: int, dir: Direction)
    ensures
        line_toward(cells, size, line, dir) == oriented(
            line_toward(cells, size, line, forward(axis_of(dir))),
            dir,
        ),
{
    assert(line_toward(cells, size, line, dir) =~= oriented(
        line_toward(cells, size, line, forward(axis_of(dir))),
        dir,
    ));
}

/// Compacting a line read from index 0 upward, merging it toward `dir` and
/// reading the result from the edge that `dir` points to gives the merge of
/// the compacted line as read from that edge.
pub proof fn lemma_merge_toward(full: Seq<u8>, dir: Direction)
    ensures
        oriented(merge_toward(compact(full), dir), dir) == merge_line(
            compact(oriented(full, dir)),
        ),
{
    if is_reverse(dir) {
        lemma_compact_reverse(full);
        let inner = merge_line(compact(full).reverse());
        assert(inner.reverse().reverse() =~= inner);
    }
}

} // verus!
