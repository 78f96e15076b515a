//! The board: its grid, the slide predicted for each direction, the random
//! source for new tiles, and the flag that ends the game.
use crate::direction::{axis_of, forward, is_reverse};
pub use crate::direction::{Axis, Direction};
use crate::grid::{
    cell_index,
    lemma_cell_index,
    lemma_line_pos,
    lemma_line_toward_forward,
    lemma_merge_toward,
    lemma_move_index,
    line_of,
    line_toward,
    pos_of,
    slide,
    slides_agree,
};
use crate::line::{
    compact,
    lemma_merge_len,
    merge_forward,
    merge_toward,
    oriented,
    pad,
    ranks_below,
    reversed,
};
use crate::rng::{pick_below, thread_generator};
use crate::room::lemma_slide_keeps_room;
use crate::spawn::{
    count_empty,
    empty_indices,
    generated,
    lemma_count_empty_extremes,
    lemma_spawn_at,
    lemma_spawn_keeps_room,
    spawn_at,
    spawn_step,
    ROLL_BOUND,
};
use crate::stuck::{lemma_changed_slide_has_empty, lemma_changed_slide_has_tile};
use crate::tally::{
    has_room,
    lemma_room_bounds_ranks,
    lemma_room_when_empty,
    valid_grid,
    MAX_SIZE,
};
use rand::rngs::ThreadRng;
use vstd::prelude::*;

verus! {

/// The rank that wins the game: the tile that shows 2048.
pub const WINNING_RANK: u8 = 11;

/// Why a board could not be made or a tile could not be placed.
#[derive(Clone, Copy, Debug, PartialEq, Eq, Structural)]
pub enum BoardError {
    /// The side of the board is zero or larger than `MAX_SIZE`.
    InvalidSize,
    /// The cells given do not make a valid grid of the given side.
    InvalidCells,
    /// The grid has no empty cell left for a new tile.
    BoardFull,
    /// The grid has fewer empty cells than the pick asks for.
    InvalidPick,
}

/// What a board is, as far as its behaviour goes: the side of the grid, the
/// rank in each cell row by row, and whether the game has ended.
pub struct BoardState {
    pub size: nat,
    pub cells: Seq<u8>,
    pub game_over: bool,
}

/// The board of side `size` that holds `cells`, the game not ended.
pub open spec fn fresh_state(size: nat, cells: Seq<u8>) -> BoardState {
    BoardState { size, cells, game_over: false }
}

/// The board of side `size` with no tile on it, the game not ended.
pub open spec fn empty_state(size: nat) -> BoardState {
    fresh_state(size, Seq::new(size * size, |idx: int| 0u8))
}

/// Some cell holds a tile of the winning rank.
pub open spec fn has_won(cells: Seq<u8>) -> bool {
    cells.contains(WINNING_RANK)
}

/// The board after a tile of the rank that `roll` gives has been placed in
/// the empty cell numbered `pick`.
pub open spec fn placed(before: BoardState, pick: int, roll: int) -> BoardState {
    BoardState {
        size: before.size,
        cells: spawn_at(before.cells, pick, roll),
        game_over: before.game_over,
    }
}

/// What a move in direction `dir` makes of a board. A board whose game has
/// ended stays as it is. Otherwise the grid stays as it is where the slide
/// changes nothing, and else becomes the slide with one new tile; and the
/// game has ended exactly if the four slides of the new grid agree.
pub open spec fn moved(before: BoardState, dir: Direction, after: BoardState) -> bool {
    let next = slide(before.cells, before.size, dir);
    if before.game_over {
        after == before
    } else {
        &&& after.size == before.size
        &&& if next == before.cells {
            after.cells == before.cells
        } else {
            spawn_step(next, after.cells)
        }
        &&& after.game_over == slides_agree(after.cells, after.size)
    }
}

/// The grids that the four slides of the current grid would give.
#[derive(Debug)]
struct MergePrediction {
    up: Vec<u8>,
    down: Vec<u8>,
    left: Vec<u8>,
    right: Vec<u8>,
}

/// A square grid of tiles with the state of the game played on it.
#[derive(Debug)]
pub struct GameBoard {
    size: usize,
    cells: Vec<u8>,
    rng: ThreadRng,
    game_over: bool,
    merge_prediction: MergePrediction,
}

impl View for GameBoard {
    type V = BoardState;

    closed spec fn view(&self) -> BoardState {
        BoardState { size: self.size as nat, cells: self.cells@, game_over: self.game_over }
    }
}

impl GameBoard {
    /// The grid is valid: it has the cells of a square of a side from 1 to
    /// `MAX_SIZE`, and its ranks have room to grow.
    pub open spec fn grid_valid(&self) -> bool {
        valid_grid(self@.size, self@.cells)
    }

    /// The stored prediction for each direction is the slide of the current
    /// grid in that direction.
    pub closed spec fn predictions_hold(&self) -> bool {
        &&& self.merge_prediction.up@ == slide(self.cells@, self.size as nat, Direction::Up)
        &&& self.merge_prediction.down@ == slide(self.cells@, self.size as nat, Direction::Down)
        &&& self.merge_prediction.left@ == slide(self.cells@, self.size as nat, Direction::Left)
        &&& self.merge_prediction.right@ == slide(
            self.cells@,
            self.size as nat,
            Direction::Right,
        )
    }

    /// The board is well formed: its grid is valid and its predictions are
    /// those of its grid.
    pub open spec fn wf(&self) -> bool {
        self.grid_valid() && self.predictions_hold()
    }

    /// Makes a board of side `s` with no tile on it.
    pub fn new(s: usize) -> (made: Result<GameBoard, BoardError>)
        ensures
            match made {
                Ok(board) => 1 <= s <= MAX_SIZE && board.wf() && board@ == empty_state(s as nat),
                Err(error) => error == BoardError::InvalidSize && (s == 0 || s > MAX_SIZE),
            },
    {
        if s == 0 || s > MAX_SIZE {
            return Err(BoardError::InvalidSize);
        }
        let size: usize = s;
        assert(size * size <= 225) by (nonlinear_arith)
            requires
                size <= 15,
        ;
        let cells: Vec<u8> = vec![0; size * size];
        proof {
            lemma_room_when_empty(cells@, 255);
            assert(cells@ =~= empty_state(s as nat).cells);
        }
        Ok(GameBoard::holding(size, cells))
    }

    /// Makes a board of side `size` that holds `cells`, row by row, the
    /// game not ended. Fails where the side is not one that `new` takes, and
    /// where the cells are not as many as the square has or their ranks
    /// lack the room to grow that `ranks_have_room` asks for.
    pub fn from_cells(size: usize, cells: Vec<u8>) -> (made: Result<GameBoard, BoardError>)
        ensures
            match made {
                Ok(board) => valid_grid(size as nat, cells@) && board.wf() && board@
                    == fresh_state(size as nat, cells@),
                Err(error) => if size == 0 || size > MAX_SIZE {
                    error == BoardError::InvalidSize
                } else {
                    error == BoardError::InvalidCells && !valid_grid(size as nat, cells@)
                },
            },
    {
        if size == 0 || size > MAX_SIZE {
            return Err(BoardError::InvalidSize);
        }
        assert(size * size <= 225) by (nonlinear_arith)
            requires
                size <= 15,
        ;
        if cells.len() != size * size || !has_room(&cells) {
            return Err(BoardError::InvalidCells);
        }
        Ok(GameBoard::holding(size, cells))
    }

    /// The board of side `size` that holds the valid grid `cells`, with a
    /// random source of its own and the predictions of its grid.
    fn holding(size: usize, cells: Vec<u8>) -> (board: GameBoard)
        requires
            valid_grid(size as nat, cells@),
        ensures
            board.wf(),
            board@ == fresh_state(size as nat, cells@),
    {
        let rng: ThreadRng = thread_generator();
        let merge_prediction = MergePrediction {
            up: Vec::new(),
            down: Vec::new(),
            left: Vec::new(),
            right: Vec::new(),
        };
        let mut board = GameBoard { size, cells, rng, game_over: false, merge_prediction };
        board.predict_merge();
        board
    }

    /// The side of the grid.
    pub fn size(&self) -> (size: usize)
        ensures
            size == self@.size,
    {
        self.size
    }

    /// The ranks in the cells of the grid, row by row.
    pub fn cells(&self) -> (cells: &Vec<u8>)
        ensures
            cells@ == self@.cells,
    {
        &self.cells
    }

    /// Whether the game has ended.
    pub fn is_game_over(&self) -> (over: bool)
        ensures
            over == self@.game_over,
    {
        self.game_over
    }

    /// Whether some cell holds a tile of the winning rank.
    pub fn is_game_win(&self) -> (won: bool)
        ensures
            won == has_won(self@.cells),
    {
        let mut at: usize = 0;
        while at < self.cells.len()
            invariant
                at <= self.cells.len(),
                forall|idx: int| 0 <= idx < at ==> self.cells@[idx] != WINNING_RANK,
            decreases self.cells.len() - at,
        {
            if self.cells[at] == WINNING_RANK {
                assert(self.cells@[at as int] == WINNING_RANK);
                return true;
            }
            at += 1;
        }
        false
    }

    /// The indices of the empty cells, in ascending order.
    pub fn empty_cells(&self) -> (empty: Vec<usize>)
        ensures
            empty.len() == count_empty(self@.cells),
            forall|k: int| 0 <= k < empty.len() ==> empty[k] == empty_indices(self@.cells)[k],
    {
        let mut empty: Vec<usize> = Vec::new();
        let mut at: usize = 0;
        while at < self.cells.len()
            invariant
                at <= self.cells.len(),
                empty.len() == count_empty(self.cells@.take(at as int)),
                forall|k: int|
                    0 <= k < empty.len() ==> empty[k] == empty_indices(
                        self.cells@.take(at as int),
                    )[k],
            decreases self.cells.len() - at,
        {
            assert(self.cells@.take(at + 1).drop_last() =~= self.cells@.take(at as int));
            if self.cells[at] == 0 {
                empty.push(at);
            }
            at += 1;
        }
        assert(self.cells@.take(at as int) =~= self.cells@);
        empty
    }

    /// Places a tile of the rank that `roll` gives in the empty cell
    /// numbered `pick`, counting the empty cells from 0 in ascending order
    /// of their index. A roll of 0 gives rank 2, any other roll rank 1.
    /// Fails, and leaves the board as it is, where the grid is full or has
    /// too few empty cells for `pick`.
    pub fn place_tile(&mut self, pick: usize, roll: usize) -> (done: Result<(), BoardError>)
        requires
            old(self).wf(),
        ensures
            final(self).wf(),
            match done {
                Ok(()) => pick < count_empty(old(self)@.cells) && final(self)@ == placed(
                    old(self)@,
                    pick as int,
                    roll as int,
                ),
                Err(error) => final(self)@ == old(self)@ && pick >= count_empty(old(self)@.cells)
                    && error == if count_empty(old(self)@.cells) == 0 {
                    BoardError::BoardFull
                } else {
                    BoardError::InvalidPick
                },
            },
    {
        let empty = self.empty_cells();
        if empty.len() == 0 {
            return Err(BoardError::BoardFull);
        }
        if pick >= empty.len() {
            return Err(BoardError::InvalidPick);
        }
        self.spawn(empty[pick], pick, roll);
        self.predict_merge();
        Ok(())
    }

    /// Writes the tile that `roll` gives into the cell `idx`, which is the
    /// empty cell numbered `pick`.
    fn spawn(&mut self, idx: usize, pick: usize, roll: usize)
        requires
            old(self).grid_valid(),
            pick < count_empty(old(self)@.cells),
            idx == empty_indices(old(self)@.cells)[pick as int],
        ensures
            final(self).grid_valid(),
            final(self)@ == placed(old(self)@, pick as int, roll as int),
    {
        proof {
            lemma_spawn_at(self.cells@, pick as int, roll as int);
            assert(self.size * self.size <= 225) by (nonlinear_arith)
                requires
                    self.size <= 15,
            ;
            lemma_spawn_keeps_room(self.cells@, pick as int, roll as int, 255);
        }
        let rank: u8 = if roll == 0 {
            2
        } else {
            1
        };
        self.cells.set(idx, rank);
    }

    /// Places a new tile in an empty cell chosen at random: of rank 2 one
    /// time in `ROLL_BOUND`, else of rank 1. Where the grid held no tile at
    /// all and has room for two, a second tile follows in the same way, so
    /// that a game starts with two tiles. Fails, and leaves the grid as it
    /// is, where the grid is full.
    pub fn generate(&mut self) -> (done: Result<(), BoardError>)
        requires
            old(self).grid_valid(),
        ensures
            final(self).wf(),
            final(self)@.size == old(self)@.size,
            final(self)@.game_over == old(self)@.game_over,
            match done {
                Ok(()) => count_empty(old(self)@.cells) > 0 && generated(
                    old(self)@.cells,
                    final(self)@.cells,
                ),
                Err(error) => error == BoardError::BoardFull && count_empty(old(self)@.cells)
                    == 0 && final(self)@.cells == old(self)@.cells,
            },
        decreases count_empty(old(self)@.cells),
    {
        let empty = self.empty_cells();
        if empty.len() == 0 {
            self.predict_merge();
            return Err(BoardError::BoardFull);
        }
        let pick: usize = pick_below(&mut self.rng, empty.len());
        let roll: usize = pick_below(&mut self.rng, ROLL_BOUND);
        let ghost before = self.cells@;
        proof {
            lemma_spawn_at(before, pick as int, roll as int);
            lemma_count_empty_extremes(before);
        }
        self.spawn(empty[pick], pick, roll);
        let ghost between = self.cells@;
        assert(spawn_step(before, between)) by {
            assert(between == spawn_at(before, pick as int, roll as int));
        }
        if empty.len() - 1 == self.cells.len() - 1 && empty.len() > 1 {
            proof {
                lemma_count_empty_extremes(between);
                let target = empty_indices(before)[pick as int];
                assert(between[target] != 0);
            }
            let again = self.generate();
            assert(again is Ok);
            assert(spawn_step(before, between) && spawn_step(between, self.cells@));
            again
        } else {
            self.predict_merge();
            Ok(())
        }
    }

    /// Makes the move in direction `dir`. Nothing happens where the game
    /// has ended. Else the tiles slide; where that changes the grid, a new
    /// tile is placed at random; and the game ends if after that no slide
    /// would change the grid.
    pub fn move_cells(&mut self, dir: Direction)
        requires
            old(self).wf(),
        ensures
            final(self).wf(),
            moved(old(self)@, dir, final(self)@),
    {
        if self.game_over {
            return ;
        }
        let next: Vec<u8> = self.merge_prediction(dir).clone();
        let same: bool = self.cells == next;
        assert(same <==> self.cells@ =~= next@);
        if !same {
            proof {
                lemma_slide_keeps_room(self.cells@, self.size as nat, dir);
                lemma_changed_slide_has_empty(self.cells@, self.size as nat, dir);
                lemma_changed_slide_has_tile(self.cells@, self.size as nat, dir);
            }
            self.cells = next;
            let spawned = self.generate();
            assert(spawned is Ok);
        }
        self.check_if_game_over();
    }

    /// Ends the game if the four predictions are one and the same grid,
    /// and tells whether they are.
    fn check_if_game_over(&mut self) -> (over: bool)
        requires
            old(self).wf(),
        ensures
            final(self).wf(),
            over == slides_agree(old(self)@.cells, old(self)@.size),
            final(self)@.size == old(self)@.size,
            final(self)@.cells == old(self)@.cells,
            final(self)@.game_over == (old(self)@.game_over || over),
    {
        let len: usize = self.merge_prediction.up.len();
        let mut i: usize = 0;
        while i < len
            invariant
                self.wf(),
                *self == *old(self),
                len == self.size * self.size,
                i <= len,
                forall|k: int|
                    0 <= k < i ==> {
                        &&& self.merge_prediction.up@[k] == self.merge_prediction.down@[k]
                        &&& self.merge_prediction.up@[k] == self.merge_prediction.left@[k]
                        &&& self.merge_prediction.up@[k] == self.merge_prediction.right@[k]
                    },
            decreases len - i,
        {
            if self.merge_prediction.up[i] != self.merge_prediction.down[i]
                || self.merge_prediction.up[i] != self.merge_prediction.left[i]
                || self.merge_prediction.up[i] != self.merge_prediction.right[i] {
                return false;
            }
            i += 1;
        }
        assert(self.merge_prediction.up@ =~= self.merge_prediction.down@);
        assert(self.merge_prediction.up@ =~= self.merge_prediction.left@);
        assert(self.merge_prediction.up@ =~= self.merge_prediction.right@);
        self.game_over = true;
        true
    }

    /// The grid that a slide in direction `dir` would give.
    pub fn merge_prediction(&self, dir: Direction) -> (next: &Vec<u8>)
        requires
            self.wf(),
        ensures
            next@ == slide(self@.cells, self@.size, dir),
    {
        match dir {
            Direction::Up => &self.merge_prediction.up,
            Direction::Down => &self.merge_prediction.down,
            Direction::Left => &self.merge_prediction.left,
            Direction::Right => &self.merge_prediction.right,
        }
    }

    /// Computes anew the prediction for each direction from the grid.
    fn predict_merge(&mut self)
        requires
            old(self).grid_valid(),
        ensures
            final(self).wf(),
            final(self)@ == old(self)@,
    {
        let vertical = self.lines(Axis::Vertical);
        let horizontal = self.lines(Axis::Horizontal);
        let up = self.predict(&vertical, Direction::Up);
        let down = self.predict(&vertical, Direction::Down);
        let left = self.predict(&horizontal, Direction::Left);
        let right = self.predict(&horizontal, Direction::Right);
        self.merge_prediction = MergePrediction { up, down, left, right };
    }

    /// The slide in direction `dir`, from the compacted lines along its axis.
    fn predict(&self, lines: &Vec<Vec<u8>>, dir: Direction) -> (next: Vec<u8>)
        requires
            self.grid_valid(),
            lines.len() == self.size,
            forall|line: int|
                0 <= line < self.size ==> {
                    &&& (#[trigger] lines@[line])@ == compact(
                        line_toward(self.cells@, self.size as nat, line, forward(axis_of(dir))),
                    )
                    &&& ranks_below(lines@[line]@, 255)
                    &&& lines@[line].len() <= self.size
                },
        ensures
            next@ == slide(self.cells@, self.size as nat, dir),
    {
        let merged = self.merge(lines, dir);
        let next = self.lines_to_vec(&merged, dir);
        proof {
            let size = self.size as nat;
            let want = slide(self.cells@, size, dir);
            assert forall|idx: int| 0 <= idx < next.len() implies next@[idx] == want[idx] by {
                lemma_line_pos(size, idx, dir);
                let line = line_of(size, idx, dir);
                let full = line_toward(self.cells@, size, line, forward(axis_of(dir)));
                assert(lines@[line]@ == compact(full));
                assert(merged@[line]@ == merge_toward(lines@[line]@, dir));
                lemma_line_toward_forward(self.cells@, size, line, dir);
                lemma_merge_toward(full, dir);
            }
            assert(next@ =~= want);
        }
        next
    }

    /// Flat index of the cell in row `row` and column `col`.
    fn index(&self, row: usize, col: usize) -> (idx: usize)
        requires
            self.grid_valid(),
            row < self.size,
            col < self.size,
        ensures
            idx == cell_index(self.size as nat, row as int, col as int),
            idx < self.cells.len(),
    {
        proof {
            lemma_cell_index(self.size as nat, row as int, col as int);
            assert(row * self.size <= 14 * 15) by (nonlinear_arith)
                requires
                    row <= 14,
                    self.size <= 15,
            ;
        }
        row * self.size + col
    }

    /// Flat index of the cell `j` steps behind the edge that `dir` points
    /// to, in line `i` along the axis of `dir`.
    fn move_index(&self, i: usize, j: usize, dir: Direction) -> (idx: usize)
        requires
            self.grid_valid(),
            i < self.size,
            j < self.size,
        ensures
            idx == crate::grid::move_index(self.size as nat, i as int, j as int, dir),
            idx < self.cells.len(),
    {
        let along: usize = if GameBoard::is_dir_rev(dir) {
            self.size - j - 1
        } else {
            j
        };
        match GameBoard::dir_to_axis(dir) {
            Axis::Vertical => self.index(along, i),
            Axis::Horizontal => self.index(i, along),
        }
    }

    /// The axis along which a slide in direction `dir` moves the tiles.
    fn dir_to_axis(dir: Direction) -> (axis: Axis)
        ensures
            axis == axis_of(dir),
    {
        match dir {
            Direction::Up | Direction::Down => Axis::Vertical,
            Direction::Left | Direction::Right => Axis::Horizontal,
        }
    }

    /// Whether a slide in direction `dir` packs toward the far end of a line.
    fn is_dir_rev(dir: Direction) -> (rev: bool)
        ensures
            rev == is_reverse(dir),
    {
        match dir {
            Direction::Up | Direction::Left => false,
            Direction::Down | Direction::Right => true,
        }
    }

    /// The lines of the grid along `axis`, each from index 0 upward and
    /// without its empty cells.
    fn lines(&self, axis: Axis) -> (lines: Vec<Vec<u8>>)
        requires
            self.grid_valid(),
        ensures
            lines.len() == self.size,
            forall|line: int|
                0 <= line < self.size ==> {
                    &&& (#[trigger] lines@[line])@ == compact(
                        line_toward(self.cells@, self.size as nat, line, forward(axis)),
                    )
                    &&& ranks_below(lines@[line]@, 255)
                    &&& lines@[line].len() <= self.size
                },
    {
        let mut lines: Vec<Vec<u8>> = Vec::new();
        let mut i: usize = 0;
        proof {
            lemma_room_bounds_ranks(self.cells@);
        }
        while i < self.size
            invariant
                self.grid_valid(),
                ranks_below(self.cells@, 255),
                i <= self.size,
                lines.len() == i,
                forall|line: int|
                    0 <= line < i ==> {
                        &&& (#[trigger] lines@[line])@ == compact(
                            line_toward(self.cells@, self.size as nat, line, forward(axis)),
                        )
                        &&& ranks_below(lines@[line]@, 255)
                        &&& lines@[line].len() <= self.size
                    },
            decreases self.size - i,
        {
            let ghost full = line_toward(self.cells@, self.size as nat, i as int, forward(axis));
            let mut line: Vec<u8> = Vec::new();
            let mut j: usize = 0;
            assert(compact(full.take(0)) =~= line@);
            while j < self.size
                invariant
                    self.grid_valid(),
                    ranks_below(self.cells@, 255),
                    i < self.size,
                    j <= self.size,
                    full == line_toward(self.cells@, self.size as nat, i as int, forward(axis)),
                    line@ == compact(full.take(j as int)),
                    ranks_below(line@, 255),
                    line.len() <= j,
                decreases self.size - j,
            {
                let idx: usize = match axis {
                    Axis::Vertical => self.index(j, i),
                    Axis::Horizontal => self.index(i, j),
                };
                let cell: u8 = self.cells[idx];
                proof {
                    assert(full.take(j + 1).drop_last() =~= full.take(j as int));
                    assert(full.take(j + 1).last() == cell);
                }
                if cell > 0 {
                    line.push(cell);
                }
                j += 1;
            }
            assert(full.take(j as int) =~= full);
            lines.push(line);
            i += 1;
        }
        lines
    }

    /// Merges each compacted line for a slide in direction `dir`. The lines
    /// come and go from index 0 upward; the scan of each starts at the edge
    /// that `dir` points to.
    fn merge(&self, lines: &Vec<Vec<u8>>, dir: Direction) -> (merged: Vec<Vec<u8>>)
        requires
            forall|line: int|
                0 <= line < lines.len() ==> ranks_below((#[trigger] lines@[line])@, 255),
        ensures
            merged.len() == lines.len(),
            forall|line: int|
                0 <= line < lines.len() ==> {
                    &&& (#[trigger] merged@[line])@ == merge_toward(lines@[line]@, dir)
                    &&& merged@[line].len() <= lines@[line].len()
                },
    {
        let is_dir_rev: bool = GameBoard::is_dir_rev(dir);
        let mut merged: Vec<Vec<u8>> = Vec::new();
        let mut i: usize = 0;
        while i < lines.len()
            invariant
                i <= lines.len(),
                merged.len() == i,
                is_dir_rev == is_reverse(dir),
                forall|line: int|
                    0 <= line < lines.len() ==> ranks_below((#[trigger] lines@[line])@, 255),
                forall|line: int|
                    0 <= line < i ==> {
                        &&& (#[trigger] merged@[line])@ == merge_toward(lines@[line]@, dir)
                        &&& merged@[line].len() <= lines@[line].len()
                    },
            decreases lines.len() - i,
        {
            let line: &Vec<u8> = &lines[i];
            assert(ranks_below(lines@[i as int]@, 255));
            proof {
                lemma_merge_len(oriented(line@, dir));
            }
            let line_merge: Vec<u8> = if is_dir_rev {
                let turned = reversed(line);
                assert(ranks_below(turned@, 255)) by {
                    assert forall|pos: int| 0 <= pos < turned@.len() implies turned@[pos]
                        < 255 by {
                        assert(turned@[pos] == line@[line@.len() - 1 - pos]);
                    }
                }
                let scanned = merge_forward(&turned);
                reversed(&scanned)
            } else {
                merge_forward(line)
            };
            merged.push(line_merge);
            i += 1;
        }
        merged
    }

    /// Lays merged lines out as a grid: each line is packed against the edge
    /// that `dir` points to, and the rest of it is left empty.
    fn lines_to_vec(&self, lines: &Vec<Vec<u8>>, dir: Direction) -> (next: Vec<u8>)
        requires
            self.grid_valid(),
            lines.len() == self.size,
            forall|line: int|
                0 <= line < lines.len() ==> (#[trigger] lines@[line]).len() <= self.size,
        ensures
            next.len() == self.size * self.size,
            forall|idx: int|
                0 <= idx < next.len() ==> #[trigger] next@[idx] == pad(
                    oriented(lines@[line_of(self.size as nat, idx, dir)]@, dir),
                    self.size as nat,
                )[pos_of(self.size as nat, idx, dir)],
    {
        let ghost size = self.size as nat;
        assert(self.size * self.size <= 225) by (nonlinear_arith)
            requires
                self.size <= 15,
        ;
        let mut next: Vec<u8> = vec![0; self.size * self.size];
        let is_dir_rev: bool = GameBoard::is_dir_rev(dir);
        let mut i: usize = 0;
        while i < self.size
            invariant
                self.grid_valid(),
                size == self.size,
                lines.len() == self.size,
                forall|line: int|
                    0 <= line < lines.len() ==> (#[trigger] lines@[line]).len() <= self.size,
                is_dir_rev == is_reverse(dir),
                i <= self.size,
                next.len() == self.size * self.size,
                forall|idx: int|
                    0 <= idx < next.len() ==> #[trigger] next@[idx] == if line_of(size, idx, dir)
                        < i {
                        pad(oriented(lines@[line_of(size, idx, dir)]@, dir), size)[pos_of(
                            size,
                            idx,
                            dir,
                        )]
                    } else {
                        0u8
                    },
            decreases self.size - i,
        {
            let line: &Vec<u8> = &lines[i];
            let len: usize = line.len();
            let ghost placed = oriented(line@, dir);
            let mut j: usize = 0;
            proof {
                assert forall|idx: int| 0 <= idx < next.len() implies 0 <= pos_of(
                    size,
                    idx,
                    dir,
                ) by {
                    lemma_line_pos(size, idx, dir);
                }
            }
            while j < len
                invariant
                    self.grid_valid(),
                    size == self.size,
                    lines.len() == self.size,
                    is_dir_rev == is_reverse(dir),
                    i < self.size,
                    line == lines@[i as int],
                    len == line.len(),
                    len <= self.size,
                    placed == oriented(line@, dir),
                    j <= len,
                    next.len() == self.size * self.size,
                    forall|idx: int|
                        0 <= idx < next.len() ==> #[trigger] next@[idx] == if line_of(
                            size,
                            idx,
                            dir,
                        ) < i {
                            pad(oriented(lines@[line_of(size, idx, dir)]@, dir), size)[pos_of(
                                size,
                                idx,
                                dir,
                            )]
                        } else if line_of(size, idx, dir) == i && pos_of(size, idx, dir) < j {
                            placed[pos_of(size, idx, dir)]
                        } else {
                            0u8
                        },
                decreases len - j,
            {
                let cell: u8 = if is_dir_rev {
                    line[len - 1 - j]
                } else {
                    line[j]
                };
                let at: usize = self.move_index(i, j, dir);
                let ghost before = next@;
                next.set(at, cell);
                proof {
                    lemma_move_index(size, i as int, j as int, dir);
                    assert(cell == placed[j as int]);
                    assert forall|idx: int| 0 <= idx < next.len() implies #[trigger] next@[idx]
                        == if line_of(size, idx, dir) < i {
                        pad(oriented(lines@[line_of(size, idx, dir)]@, dir), size)[pos_of(
                            size,
                            idx,
                            dir,
                        )]
                    } else if line_of(size, idx, dir) == i && pos_of(size, idx, dir) < j + 1 {
                        placed[pos_of(size, idx, dir)]
                    } else {
                        0u8
                    } by {
                        lemma_line_pos(size, idx, dir);
                        if idx != at {
                            assert(next@[idx] == before[idx]);
                        }
                    }
                }
                j += 1;
            }
            proof {
                assert forall|idx: int| 0 <= idx < next.len() implies #[trigger] next@[idx]
                    == if line_of(size, idx, dir) < i + 1 {
                    pad(oriented(lines@[line_of(size, idx, dir)]@, dir), size)[pos_of(
                        size,
                        idx,
                        dir,
                    )]
                } else {
                    0u8
                } by {
                    lemma_line_pos(size, idx, dir);
                }
            }
            i += 1;
        }
        proof {
            assert forall|idx: int| 0 <= idx < next.len() implies line_of(size, idx, dir)
                < size by {
                lemma_line_pos(size, idx, dir);
            }
        }
        next
    }
}

} // verus!
