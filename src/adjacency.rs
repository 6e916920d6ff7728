use vstd::prelude::*;

use crate::cell::{Cell, CellValue};
use crate::grid::{MineGrid, cell_at, in_bounds, is_mine, set_cell, wf};

verus! {

/// 1 when `(a, b)` lies on the board and holds a mine, else 0.
pub open spec fn mine_at(g: Seq<Vec<Cell>>, n: int, a: int, b: int) -> nat {
    if in_bounds(n, a, b) && is_mine(cell_at(g, a, b)) {
        1
    } else {
        0
    }
}

/// Number of mines among the up to eight cells around `(i, j)`; cells off the
/// board count for nothing.
#[verifier::opaque]
pub open spec fn neighbour_mines(g: Seq<Vec<Cell>>, n: int, i: int, j: int) -> nat {
    mine_at(g, n, i - 1, j - 1) + mine_at(g, n, i - 1, j) + mine_at(g, n, i - 1, j + 1)
        + mine_at(g, n, i, j - 1) + mine_at(g, n, i, j + 1) + mine_at(g, n, i + 1, j - 1)
        + mine_at(g, n, i + 1, j) + mine_at(g, n, i + 1, j + 1)
}

/// What a safe cell holds once `k` mines are around it.
pub open spec fn annotated(k: nat) -> CellValue {
    if k == 0 {
        CellValue::Empty
    } else {
        CellValue::NearMine(k as usize)
    }
}

/// The two boards have their mines in the same places.
pub open spec fn same_mines(g: Seq<Vec<Cell>>, h: Seq<Vec<Cell>>, n: int) -> bool {
    forall|a: int, b: int|
        #![trigger cell_at(g, a, b)]
        #![trigger cell_at(h, a, b)]
        in_bounds(n, a, b) ==> (is_mine(cell_at(g, a, b)) <==> is_mine(cell_at(h, a, b)))
}

/// Boards with the same mines give every cell the same neighbour count.
pub proof fn lemma_same_mines_same_count(g: Seq<Vec<Cell>>, h: Seq<Vec<Cell>>, n: int, i: int, j: int)
    requires
        same_mines(g, h, n),
    ensures
        neighbour_mines(g, n, i, j) == neighbour_mines(h, n, i, j),
{
    reveal(neighbour_mines);
    assert(mine_at(g, n, i - 1, j - 1) == mine_at(h, n, i - 1, j - 1));
    assert(mine_at(g, n, i - 1, j) == mine_at(h, n, i - 1, j));
    assert(mine_at(g, n, i - 1, j + 1) == mine_at(h, n, i - 1, j + 1));
    assert(mine_at(g, n, i, j - 1) == mine_at(h, n, i, j - 1));
    assert(mine_at(g, n, i, j + 1) == mine_at(h, n, i, j + 1));
    assert(mine_at(g, n, i + 1, j - 1) == mine_at(h, n, i + 1, j - 1));
    assert(mine_at(g, n, i + 1, j) == mine_at(h, n, i + 1, j));
    assert(mine_at(g, n, i + 1, j + 1) == mine_at(h, n, i + 1, j + 1));
}

/// 1 when `(a, b)` is on the board and holds a mine.
fn mine_indicator(grid: &MineGrid, grid_size: usize, a: usize, b: usize) -> (r: usize)
    requires
        wf(grid@, grid_size as int),
    ensures
        r == mine_at(grid@, grid_size as int, a as int, b as int),
{
    if a < grid_size && b < grid_size {
        match grid[a][b].value {
            CellValue::Mine => 1,
            _ => 0,
        }
    } else {
        0
    }
}

/// Counts the mines among the up to eight cells around `(cell_i, cell_j)`,
/// leaving out the cell itself and whatever lies past the board's edges.
pub fn count_cell_mine_neighbours(
    cell_i: usize,
    cell_j: usize,
    grid_size: usize,
    grid: &MineGrid,
) -> (r: usize)
    requires
        wf(grid@, grid_size as int),
        in_bounds(grid_size as int, cell_i as int, cell_j as int),
    ensures
        r == neighbour_mines(grid@, grid_size as int, cell_i as int, cell_j as int),
        r <= 8,
{
    reveal(neighbour_mines);
    let mut result: usize = 0;
    if cell_i > 0 {
        if cell_j > 0 {
            result += mine_indicator(grid, grid_size, cell_i - 1, cell_j - 1);
        }
        result += mine_indicator(grid, grid_size, cell_i - 1, cell_j);
        result += mine_indicator(grid, grid_size, cell_i - 1, cell_j + 1);
    }
    if cell_j > 0 {
        result += mine_indicator(grid, grid_size, cell_i, cell_j - 1);
        result += mine_indicator(grid, grid_size, cell_i + 1, cell_j - 1);
    }
    result += mine_indicator(grid, grid_size, cell_i, cell_j + 1);
    result += mine_indicator(grid, grid_size, cell_i + 1, cell_j);
    result += mine_indicator(grid, grid_size, cell_i + 1, cell_j + 1);
    result
}

/// Annotates every safe cell with the number of mines around it: `NearMine(k)`
/// for `k > 0`, `Empty` otherwise. Mines and revealed flags stay as they are.
pub fn count_nearby_mines(grid: &mut MineGrid, grid_size: usize)
    requires
        wf(old(grid)@, grid_size as int),
    ensures
        wf(final(grid)@, grid_size as int),
        forall|i: int, j: int|
            #![trigger cell_at(final(grid)@, i, j)]
            in_bounds(grid_size as int, i, j) ==> {
                let before = cell_at(old(grid)@, i, j);
                let after = cell_at(final(grid)@, i, j);
                &&& after.is_revealed == before.is_revealed
                &&& is_mine(before) ==> after == before
                &&& !is_mine(before) ==> after.value == annotated(
                    neighbour_mines(old(grid)@, grid_size as int, i, j),
                )
            },
{
    let ghost g0 = grid@;
    let ghost n = grid_size as int;
    let mut i: usize = 0;
    while i < grid_size
        invariant
            wf(grid@, n),
            wf(g0, n),
            n == grid_size as int,
            same_mines(g0, grid@, n),
            i <= n,
            forall|a: int, b: int|
                #![trigger cell_at(grid@, a, b)]
                in_bounds(n, a, b) ==> {
                    let before = cell_at(g0, a, b);
                    let after = cell_at(grid@, a, b);
                    &&& after.is_revealed == before.is_revealed
                    &&& (is_mine(before) || a >= i) ==> after == before
                    &&& !is_mine(before) && a < i ==> after.value == annotated(
                        neighbour_mines(g0, n, a, b),
                    )
                },
        decreases n - i,
    {
        let mut j: usize = 0;
        while j < grid_size
            invariant
                wf(grid@, n),
                wf(g0, n),
                n == grid_size as int,
                same_mines(g0, grid@, n),
                i < n,
                j <= n,
                forall|a: int, b: int|
                    #![trigger cell_at(grid@, a, b)]
                    in_bounds(n, a, b) ==> {
                        let before = cell_at(g0, a, b);
                        let after = cell_at(grid@, a, b);
                        &&& after.is_revealed == before.is_revealed
                        &&& (is_mine(before) || a > i || (a == i && b >= j)) ==> after == before
                        &&& !is_mine(before) && (a < i || (a == i && b < j)) ==> after.value
                            == annotated(neighbour_mines(g0, n, a, b))
                    },
            decreases n - j,
        {
            let cell = grid[i][j];
            match cell.value {
                CellValue::Mine => {},
                _ => {
                    let amt = count_cell_mine_neighbours(i, j, grid_size, grid);
                    proof {
                        lemma_same_mines_same_count(g0, grid@, n, i as int, j as int);
                    }
                    let value = if amt > 0 {
                        CellValue::NearMine(amt)
                    } else {
                        CellValue::Empty
                    };
                    set_cell(grid, i, j, Cell { is_revealed: cell.is_revealed, value });
                },
            }
            j += 1;
        }
        i += 1;
    }
}

} // verus!
