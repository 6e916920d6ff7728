use vstd::prelude::*;

verus! {

/// What a cell holds: a mine, nothing, or the number of mines around it.
#[derive(Copy, Clone, Debug, PartialEq, Eq, Structural)]
pub enum CellValue {
    Mine,
    NearMine(usize),
    Empty,
}

/// One square of the board.
#[derive(Copy, Clone, Debug, PartialEq, Eq, Structural)]
pub struct Cell {
    pub is_revealed: bool,
    pub value: CellValue,
}

/// Where a game stands; derived from the board after each reveal.
#[derive(Copy, Clone, Debug, PartialEq, Eq, Structural)]
pub enum GameState {
    Playing,
    Won,
    Lost,
}

/// Errors surfaced by board construction and reveals.
#[derive(Copy, Clone, Debug, PartialEq, Eq, Structural)]
pub enum BoardError {
    /// The board size is zero.
    InvalidSize,
    /// The mine count leaves no safe cell.
    TooManyMines,
    /// A coordinate lies outside the board.
    OutOfBounds,
}

/// What a reveal ran into.
#[derive(Copy, Clone, Debug, PartialEq, Eq, Structural)]
pub enum Outcome {
    HitMine,
    Revealed,
}

impl Cell {
    /// A hidden cell with nothing in it.
    pub fn new() -> (r: Cell)
        ensures
            r == (Cell { is_revealed: false, value: CellValue::Empty }),
    {
        Cell { is_revealed: false, value: CellValue::Empty }
    }
}

} // verus!
