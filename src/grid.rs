use vstd::prelude::*;

use crate::cell::{Cell, CellValue};

verus! {

/// A square board, stored row by row.
pub type MineGrid = Vec<Vec<Cell>>;

/// The board has `n` rows of `n` cells each, and `n * n` fits a `usize`.
pub open spec fn wf(g: Seq<Vec<Cell>>, n: int) -> bool {
    &&& 1 <= n
    &&& n * n <= usize::MAX
    &&& g.len() == n
    &&& forall|i: int| 0 <= i < n ==> (#[trigger] g[i])@.len() == n
}

/// The cell in row `i`, column `j`.
pub open spec fn cell_at(g: Seq<Vec<Cell>>, i: int, j: int) -> Cell {
    g[i]@[j]
}

pub open spec fn in_bounds(n: int, i: int, j: int) -> bool {
    0 <= i < n && 0 <= j < n
}

/// `(a, b)` is one of the up to eight cells around `(i, j)`.
pub open spec fn adjacent(i: int, j: int, a: int, b: int) -> bool {
    &&& i - 1 <= a <= i + 1
    &&& j - 1 <= b <= j + 1
    &&& !(a == i && b == j)
}

pub open spec fn is_mine(c: Cell) -> bool {
    c.value is Mine
}

/// The board `g` with the cell at `(i, j)` replaced by `c`.
pub open spec fn with_cell(g: Seq<Vec<Cell>>, i: int, j: int, c: Cell) -> Seq<Seq<Cell>> {
    rows(g).update(i, g[i]@.update(j, c))
}

/// The board as a sequence of rows of cells.
pub open spec fn rows(g: Seq<Vec<Cell>>) -> Seq<Seq<Cell>> {
    g.map_values(|r: Vec<Cell>| r@)
}

/// Number of cells of a row that satisfy `p`.
pub open spec fn row_count(r: Seq<Cell>, p: spec_fn(Cell) -> bool) -> nat
    decreases r.len(),
{
    if r.len() == 0 {
        0
    } else {
        row_count(r.drop_last(), p) + if p(r.last()) { 1nat } else { 0nat }
    }
}

/// Number of cells of a board that satisfy `p`.
pub open spec fn grid_count(g: Seq<Seq<Cell>>, p: spec_fn(Cell) -> bool) -> nat
    decreases g.len(),
{
    if g.len() == 0 {
        0
    } else {
        grid_count(g.drop_last(), p) + row_count(g.last(), p)
    }
}

pub open spec fn revealed_pred() -> spec_fn(Cell) -> bool {
    |c: Cell| c.is_revealed
}

pub open spec fn mine_pred() -> spec_fn(Cell) -> bool {
    |c: Cell| c.value is Mine
}

/// Number of revealed cells.
pub open spec fn revealed_count(g: Seq<Vec<Cell>>) -> nat {
    grid_count(rows(g), revealed_pred())
}

/// Number of mines.
pub open spec fn mine_count(g: Seq<Vec<Cell>>) -> nat {
    grid_count(rows(g), mine_pred())
}

/// A `size` by `size` board of hidden, empty cells.
pub fn generate_empty_grid(size: usize) -> (grid: MineGrid)
    requires
        size * size <= usize::MAX,
    ensures
        grid@.len() == size,
        forall|i: int, j: int|
            in_bounds(size as int, i, j) ==> #[trigger] cell_at(grid@, i, j) == (Cell { is_revealed: false, value: CellValue::Empty }),
        forall|i: int| 0 <= i < size ==> (#[trigger] grid@[i])@.len() == size,
{
    let mut grid: MineGrid = Vec::new();
    let mut i: usize = 0;
    while i < size
        invariant
            i <= size,
            grid@.len() == i,
            forall|a: int, j: int|
                0 <= a < i && 0 <= j < size ==> #[trigger] cell_at(grid@, a, j) == (Cell { is_revealed: false, value: CellValue::Empty }),
            forall|a: int| 0 <= a < i ==> (#[trigger] grid@[a])@.len() == size,
        decreases size - i,
    {
        let mut row: Vec<Cell> = Vec::new();
        let mut j: usize = 0;
        while j < size
            invariant
                i < size,
                grid@.len() == i,
                forall|a: int, b: int|
                    0 <= a < i && 0 <= b < size ==> #[trigger] cell_at(grid@, a, b) == (Cell {
                        is_revealed: false,
                        value: CellValue::Empty,
                    }),
                forall|a: int| 0 <= a < i ==> (#[trigger] grid@[a])@.len() == size,
                j <= size,
                row@.len() == j,
                forall|b: int| 0 <= b < j ==> #[trigger] row@[b] == (Cell { is_revealed: false, value: CellValue::Empty }),
            decreases size - j,
        {
            row.push(Cell::new());
            j += 1;
        }
        let ghost prev = grid@;
        grid.push(row);
        assert forall|a: int, j: int|
            0 <= a <= i && 0 <= j < size implies #[trigger] cell_at(grid@, a, j) == (Cell {
                is_revealed: false,
                value: CellValue::Empty,
            }) by {
            if a < i {
                assert(grid@[a] == prev[a]);
                assert(cell_at(prev, a, j) == (Cell { is_revealed: false, value: CellValue::Empty }));
            } else {
                assert(grid@[a] == row);
                assert(row@[j] == (Cell { is_revealed: false, value: CellValue::Empty }));
            }
        }
        i += 1;
    }
    grid
}


/// Changing one cell of a row changes its count by that cell alone.
pub proof fn lemma_row_count_update(r: Seq<Cell>, j: int, c: Cell, p: spec_fn(Cell) -> bool)
    requires
        0 <= j < r.len(),
    ensures
        row_count(r.update(j, c), p) + (if p(r[j]) { 1int } else { 0int }) == row_count(r, p) + (
        if p(c) { 1int } else { 0int }),
    decreases r.len(),
{
    let u = r.update(j, c);
    if j == r.len() - 1 {
        assert(u.drop_last() =~= r.drop_last());
    } else {
        assert(u.drop_last() =~= r.drop_last().update(j, c));
        lemma_row_count_update(r.drop_last(), j, c, p);
    }
}

/// Changing one row of a board changes its count by that row alone.
pub proof fn lemma_grid_count_update(
    g: Seq<Seq<Cell>>,
    i: int,
    row: Seq<Cell>,
    p: spec_fn(Cell) -> bool,
)
    requires
        0 <= i < g.len(),
    ensures
        grid_count(g.update(i, row), p) + row_count(g[i], p) == grid_count(g, p) + row_count(
            row,
            p,
        ),
    decreases g.len(),
{
    let u = g.update(i, row);
    if i == g.len() - 1 {
        assert(u.drop_last() =~= g.drop_last());
    } else {
        assert(u.drop_last() =~= g.drop_last().update(i, row));
        lemma_grid_count_update(g.drop_last(), i, row, p);
    }
}

pub proof fn lemma_row_count_le(r: Seq<Cell>, p: spec_fn(Cell) -> bool)
    ensures
        row_count(r, p) <= r.len(),
    decreases r.len(),
{
    if r.len() > 0 {
        lemma_row_count_le(r.drop_last(), p);
    }
}

/// A board of rows of length `n` has at most `g.len() * n` cells satisfying `p`.
pub proof fn lemma_grid_count_le(g: Seq<Seq<Cell>>, n: int, p: spec_fn(Cell) -> bool)
    requires
        0 <= n,
        forall|i: int| 0 <= i < g.len() ==> (#[trigger] g[i]).len() == n,
    ensures
        grid_count(g, p) <= g.len() * n,
    decreases g.len(),
{
    if g.len() > 0 {
        lemma_grid_count_le(g.drop_last(), n, p);
        lemma_row_count_le(g.last(), p);
        assert((g.len() - 1) * n + n == g.len() * n) by (nonlinear_arith);
    }
}

/// Replaces the cell at `(i, j)` by `c`.
pub fn set_cell(grid: &mut MineGrid, i: usize, j: usize, c: Cell)
    requires
        i < old(grid)@.len(),
        j < old(grid)@[i as int]@.len(),
    ensures
        rows(final(grid)@) == with_cell(old(grid)@, i as int, j as int, c),
        final(grid)@.len() == old(grid)@.len(),
        forall|a: int|
            0 <= a < old(grid)@.len() ==> (#[trigger] final(grid)@[a])@.len() == old(
                grid,
            )@[a]@.len(),
        forall|a: int, b: int|
            #![trigger cell_at(final(grid)@, a, b)]
            0 <= a < old(grid)@.len() && 0 <= b < old(grid)@[a]@.len() ==> cell_at(
                final(grid)@,
                a,
                b,
            ) == if a == i && b == j {
                c
            } else {
                cell_at(old(grid)@, a, b)
            },
{
    let mut row: Vec<Cell> = Vec::new();
    grid.set_and_swap(i, &mut row);
    row.set(j, c);
    grid.set_and_swap(i, &mut row);
    assert(rows(grid@) =~= with_cell(old(grid)@, i as int, j as int, c));
}

/// Number of revealed cells on the board.
pub fn count_cells(grid: &MineGrid) -> (r: usize)
    requires
        wf(grid@, grid@.len() as int),
    ensures
        r == revealed_count(grid@),
{
    let ghost g = rows(grid@);
    let ghost n = grid@.len() as int;
    let mut result: usize = 0;
    let mut i: usize = 0;
    while i < grid.len()
        invariant
            wf(grid@, n),
            g == rows(grid@),
            i <= n,
            result == grid_count(g.subrange(0, i as int), revealed_pred()),
        decreases n - i,
    {
        let row = &grid[i];
        let mut j: usize = 0;
        let ghost before = result as int;
        proof {
            lemma_grid_count_le(g.subrange(0, i as int), n, revealed_pred());
            assert(i * n + n <= n * n) by (nonlinear_arith)
                requires
                    i < n,
            ;
        }
        while j < row.len()
            invariant
                wf(grid@, n),
                g == rows(grid@),
                i < n,
                *row == grid@[i as int],
                j <= n,
                before <= i * n,
                i * n + n <= n * n,
                result == before + row_count(row@.subrange(0, j as int), revealed_pred()),
            decreases n - j,
        {
            proof {
                lemma_row_count_le(row@.subrange(0, j as int), revealed_pred());
                assert(row@.subrange(0, j + 1).drop_last() =~= row@.subrange(0, j as int));
            }
            if row[j].is_revealed {
                result += 1;
            }
            j += 1;
        }
        proof {
            assert(row@.subrange(0, j as int) =~= row@);
            assert(g.subrange(0, i + 1).drop_last() =~= g.subrange(0, i as int));
        }
        i += 1;
    }
    proof {
        assert(g.subrange(0, n) =~= g);
    }
    result
}


pub proof fn lemma_row_count_none(r: Seq<Cell>, p: spec_fn(Cell) -> bool)
    requires
        forall|j: int| 0 <= j < r.len() ==> !p(#[trigger] r[j]),
    ensures
        row_count(r, p) == 0,
    decreases r.len(),
{
    if r.len() > 0 {
        lemma_row_count_none(r.drop_last(), p);
    }
}

/// A board on which no cell satisfies `p` counts none.
pub proof fn lemma_grid_count_none(g: Seq<Seq<Cell>>, p: spec_fn(Cell) -> bool)
    requires
        forall|i: int, j: int| 0 <= i < g.len() && 0 <= j < g[i].len() ==> !p(#[trigger] g[i][j]),
    ensures
        grid_count(g, p) == 0,
    decreases g.len(),
{
    if g.len() > 0 {
        lemma_grid_count_none(g.drop_last(), p);
        lemma_row_count_none(g.last(), p);
    }
}

} // verus!
