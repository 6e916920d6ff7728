use vstd::prelude::*;

use crate::cell::{BoardError, Cell, CellValue, GameState, Outcome};
use crate::flood::{
    empty_path, expanded, lemma_path_on_fewer_revealed, newly, no_mine_revealed, reachable,
    recursive_reveal, revealed, reveals_more,
};
use crate::grid::{
    MineGrid, cell_at, count_cells, generate_empty_grid, in_bounds, is_mine, revealed_count, rows,
    set_cell, wf, with_cell,
};

verus! {

/// `h` is what a flood reveal from the empty cell `(x, y)` of `g` leaves:
/// only safe cells got revealed, `(x, y)` among them, and the surroundings of
/// `(x, y)` and of every empty cell newly revealed are revealed too; every
/// other cell newly revealed is one that a flood from `(x, y)` reaches.
pub open spec fn flood_closed(g: Seq<Vec<Cell>>, h: Seq<Vec<Cell>>, n: int, x: int, y: int) -> bool {
    &&& reveals_more(g, h, n)
    &&& no_mine_revealed(g, h, n)
    &&& revealed(h, x, y)
    &&& expanded(h, n, x, y)
    &&& forall|i: int, j: int|
        #![trigger cell_at(h, i, j)]
        in_bounds(n, i, j) && newly(g, h, i, j) && cell_at(h, i, j).value is Empty ==> expanded(
            h,
            n,
            i,
            j,
        )
    &&& forall|i: int, j: int|
        #![trigger cell_at(h, i, j)]
        in_bounds(n, i, j) && newly(g, h, i, j) && !(i == x && j == y) ==> reachable(g, n, x, y, i, j)
}

/// What revealing the cell `c` reports.
pub open spec fn outcome_of(c: Cell) -> Outcome {
    if is_mine(c) {
        Outcome::HitMine
    } else {
        Outcome::Revealed
    }
}

/// The game is won once exactly the safe cells are revealed.
pub open spec fn won(g: Seq<Vec<Cell>>, total_cells: int, mine_count: int) -> bool {
    revealed_count(g) + mine_count == total_cells
}

/// A fresh `size` by `size` board: every cell hidden and empty. Fails with
/// `InvalidSize` when `size` is zero.
pub fn new_board(size: usize) -> (r: Result<MineGrid, BoardError>)
    requires
        size * size <= usize::MAX,
    ensures
        size == 0 <==> r == Err::<MineGrid, BoardError>(BoardError::InvalidSize),
        r is Ok ==> {
            let g = r->Ok_0@;
            &&& wf(g, size as int)
            &&& forall|i: int, j: int|
                in_bounds(size as int, i, j) ==> #[trigger] cell_at(g, i, j) == (Cell {
                    is_revealed: false,
                    value: CellValue::Empty,
                })
        },
{
    if size == 0 {
        return Err(BoardError::InvalidSize);
    }
    Ok(generate_empty_grid(size))
}

/// Reveals the cell in row `reveal_x`, column `reveal_y`.
///
/// A hidden mine is revealed alone and reported as `HitMine`; a hidden
/// numbered cell is revealed alone; a hidden empty cell is revealed and flooded
/// from. A cell already revealed leaves the board as it is and reports the same
/// outcome again. Coordinates off the board fail with `OutOfBounds` and change
/// nothing.
pub fn reveal_cell(reveal_x: usize, reveal_y: usize, grid: &mut MineGrid) -> (r: Result<
    Outcome,
    BoardError,
>)
    requires
        wf(old(grid)@, old(grid)@.len() as int),
    ensures
        wf(final(grid)@, old(grid)@.len() as int),
        !in_bounds(old(grid)@.len() as int, reveal_x as int, reveal_y as int) ==> r == Err::<
            Outcome,
            BoardError,
        >(BoardError::OutOfBounds) && final(grid)@ == old(grid)@,
        in_bounds(old(grid)@.len() as int, reveal_x as int, reveal_y as int) ==> {
            let n = old(grid)@.len() as int;
            let c = cell_at(old(grid)@, reveal_x as int, reveal_y as int);
            &&& r == Ok::<Outcome, BoardError>(outcome_of(c))
            &&& c.is_revealed ==> final(grid)@ == old(grid)@
            &&& !c.is_revealed && !(c.value is Empty) ==> rows(final(grid)@) == with_cell(
                old(grid)@,
                reveal_x as int,
                reveal_y as int,
                Cell { is_revealed: true, value: c.value },
            )
            &&& !c.is_revealed && c.value is Empty ==> flood_closed(
                old(grid)@,
                final(grid)@,
                n,
                reveal_x as int,
                reveal_y as int,
            )
        },
{
    let n = grid.len();
    if reveal_x >= n || reveal_y >= n {
        return Err(BoardError::OutOfBounds);
    }
    let cell = grid[reveal_x][reveal_y];
    let outcome = match cell.value {
        CellValue::Mine => Outcome::HitMine,
        _ => Outcome::Revealed,
    };
    if cell.is_revealed {
        return Ok(outcome);
    }
    let ghost g0 = grid@;
    set_cell(grid, reveal_x, reveal_y, Cell { is_revealed: true, value: cell.value });
    if let CellValue::Empty = cell.value {
        let ghost g1 = grid@;
        recursive_reveal(reveal_x, reveal_y, grid);
        proof {
            assert forall|i: int, j: int|
                in_bounds(n as int, i, j) && newly(g0, grid@, i, j) implies !is_mine(
                #[trigger] cell_at(grid@, i, j),
            ) by {
                if !(i == reveal_x && j == reveal_y) {
                    assert(newly(g1, grid@, i, j));
                }
            }
            assert forall|i: int, j: int|
                in_bounds(n as int, i, j) && newly(g0, grid@, i, j) && !(i == reveal_x && j
                    == reveal_y) implies reachable(
                g0,
                n as int,
                reveal_x as int,
                reveal_y as int,
                i,
                j,
            ) by {
                assert(newly(g1, grid@, i, j));
                let path = choose|path: Seq<(int, int)>|
                    #[trigger] empty_path(g1, n as int, reveal_x as int, reveal_y as int, path)
                        && path.last() == (i, j);
                lemma_path_on_fewer_revealed(g0, g1, n as int, reveal_x as int, reveal_y as int, path);
            }
        }
    }
    Ok(outcome)
}

/// Whether the revealed cells number `total_cells - mine_count`.
pub fn is_won(grid: &MineGrid, total_cells: usize, mine_count: usize) -> (r: bool)
    requires
        wf(grid@, grid@.len() as int),
    ensures
        r == won(grid@, total_cells as int, mine_count as int),
{
    let revealed = count_cells(grid);
    mine_count <= total_cells && revealed == total_cells - mine_count
}

/// Where the game stands after a reveal: lost on a mine, won once
/// `cells_revealed` reaches `cells_to_reveal`, still playing otherwise.
pub fn game_state_after(outcome: Outcome, cells_revealed: usize, cells_to_reveal: usize) -> (r:
    GameState)
    ensures
        outcome == Outcome::HitMine ==> r == GameState::Lost,
        outcome == Outcome::Revealed && cells_revealed >= cells_to_reveal ==> r == GameState::Won,
        outcome == Outcome::Revealed && cells_revealed < cells_to_reveal ==> r == GameState::Playing,
{
    match outcome {
        Outcome::HitMine => GameState::Lost,
        Outcome::Revealed => if cells_revealed >= cells_to_reveal {
            GameState::Won
        } else {
            GameState::Playing
        },
    }
}

} // verus!
