//! The four directions in which the tiles slide, and the axis each moves along.
use vstd::prelude::*;

verus! {

/// A direction in which all tiles of the board slide at once.
#[derive(Clone, Copy, Debug, PartialEq, Eq, Hash, Structural)]
pub enum Direction {
    Up,
    Down,
    Left,
    Right,
}

/// The axis a slide runs along: columns for `Vertical`, rows for `Horizontal`.
#[derive(Clone, Copy, Debug, PartialEq, Eq, Hash, Structural)]
pub enum Axis {
    Vertical,
    Horizontal,
}

/// The axis along which a slide in direction `dir` moves the tiles.
pub open spec fn axis_of(dir: Direction) -> Axis {
    match dir {
        Direction::Up | Direction::Down => Axis::Vertical,
        Direction::Left | Direction::Right => Axis::Horizontal,
    }
}

/// Whether `dir` packs the tiles against the far end of a line (the bottom
/// row or the rightmost column) rather than against index 0.
pub open spec fn is_reverse(dir: Direction) -> bool {
    match dir {
        Direction::Up | Direction::Left => false,
        Direction::Down | Direction::Right => true,
    }
}

/// The direction along `axis` that packs toward index 0: `Up` for the
/// columns, `Left` for the rows.
pub open spec fn forward(axis: Axis) -> Direction {
    match axis {
        Axis::Vertical => Direction::Up,
        Axis::Horizontal => Direction::Left,
    }
}

/// The direction that packs toward the opposite edge of the same axis.
pub open spec fn opposite(dir: Direction) -> Direction {
    match dir {
        Direction::Up => Direction::Down,
        Direction::Down => Direction::Up,
        Direction::Left => Direction::Right,
        Direction::Right => Direction::Left,
    }
}

} // verus!
