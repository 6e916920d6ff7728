use vstd::prelude::*;

use rand::Rng;
use rand::rngs::StdRng;

use crate::cell::{BoardError, Cell, CellValue};
use crate::grid::{
    MineGrid, cell_at, in_bounds, is_mine, lemma_grid_count_none,
    lemma_grid_count_update, lemma_row_count_update, mine_count, mine_pred, rows, set_cell, wf,
};

verus! {

/// rand's seedable standard generator, carried through as an opaque value.
#[verifier::external_type_specification]
#[verifier::external_body]
pub struct ExStdRng(StdRng);

/// Relies on `rand::Rng::gen_range` over `0..bound`: the value drawn lies in
/// that range. It panics on an empty range, which `requires` rules out.
#[verifier::external_body]
fn random_below(rng: &mut StdRng, bound: usize) -> (r: usize)
    requires
        0 < bound,
    ensures
        r < bound,
{
    rng.gen_range(0..bound)
}

/// `(a, b)` comes before `(c, d)` in row-major order.
pub open spec fn before(p: (usize, usize), q: (usize, usize)) -> bool {
    p.0 < q.0 || (p.0 == q.0 && p.1 < q.1)
}

/// Every cell of the board, in row-major order.
fn all_positions(grid_size: usize) -> (v: Vec<(usize, usize)>)
    requires
        grid_size * grid_size <= usize::MAX,
    ensures
        v@.len() == grid_size * grid_size,
        forall|p: int| 0 <= p < v@.len() ==> (#[trigger] v@[p]).0 < grid_size && v@[p].1 < grid_size,
        forall|p: int, q: int| 0 <= p < q < v@.len() ==> before(#[trigger] v@[p], #[trigger] v@[q]),
{
    let mut v: Vec<(usize, usize)> = Vec::new();
    let mut i: usize = 0;
    while i < grid_size
        invariant
            grid_size * grid_size <= usize::MAX,
            i <= grid_size,
            v@.len() == i * grid_size,
            forall|p: int| 0 <= p < v@.len() ==> (#[trigger] v@[p]).0 < i && v@[p].1 < grid_size,
            forall|p: int, q: int| 0 <= p < q < v@.len() ==> before(#[trigger] v@[p], #[trigger] v@[q]),
        decreases grid_size - i,
    {
        let mut j: usize = 0;
        proof {
            assert(i * grid_size + grid_size <= grid_size * grid_size) by (nonlinear_arith)
                requires
                    i < grid_size,
            ;
        }
        while j < grid_size
            invariant
                grid_size * grid_size <= usize::MAX,
                i < grid_size,
                j <= grid_size,
                i * grid_size + grid_size <= grid_size * grid_size,
                v@.len() == i * grid_size + j,
                forall|p: int|
                    0 <= p < v@.len() ==> {
                        let e = #[trigger] v@[p];
                        (e.0 < i || (e.0 == i && e.1 < j)) && e.1 < grid_size
                    },
                forall|p: int, q: int| 0 <= p < q < v@.len() ==> before(#[trigger] v@[p], #[trigger] v@[q]),
            decreases grid_size - j,
        {
            v.push((i, j));
            j += 1;
        }
        assert(i * grid_size + grid_size == (i + 1) * grid_size) by (nonlinear_arith);
        i += 1;
    }
    v
}

/// Places `num_mines` mines on distinct cells chosen at random, on a board that
/// holds none yet. Each mine is drawn among the cells still free, so the
/// placement ends whatever the draws are. Fails with `TooManyMines`, leaving
/// the board as it is, unless at least one safe cell would remain.
pub fn place_mines_in_grid(
    grid: &mut MineGrid,
    num_mines: usize,
    grid_size: usize,
    rng: &mut StdRng,
) -> (r: Result<(), BoardError>)
    requires
        wf(old(grid)@, grid_size as int),
        forall|i: int, j: int|
            in_bounds(grid_size as int, i, j) ==> !is_mine(#[trigger] cell_at(old(grid)@, i, j)),
    ensures
        wf(final(grid)@, grid_size as int),
        r is Err <==> num_mines >= grid_size * grid_size,
        r is Err ==> r == Err::<(), BoardError>(BoardError::TooManyMines) && final(grid)@ == old(
            grid,
        )@,
        r is Ok ==> mine_count(final(grid)@) == num_mines,
        forall|i: int, j: int|
            #![trigger cell_at(final(grid)@, i, j)]
            in_bounds(grid_size as int, i, j) ==> {
                let before = cell_at(old(grid)@, i, j);
                let after = cell_at(final(grid)@, i, j);
                &&& after.is_revealed == before.is_revealed
                &&& !is_mine(after) ==> after == before
            },
{
    if num_mines >= grid_size * grid_size {
        return Err(BoardError::TooManyMines);
    }
    let ghost g0 = grid@;
    let ghost n = grid_size as int;
    let mut free = all_positions(grid_size);
    proof {
        assert forall|i: int, j: int|
            0 <= i < rows(g0).len() && 0 <= j < rows(g0)[i].len() implies !mine_pred()(
            #[trigger] rows(g0)[i][j]) by {
            assert(rows(g0)[i][j] == cell_at(g0, i, j));
        }
        lemma_grid_count_none(rows(g0), mine_pred());
    }
    let mut placed: usize = 0;
    while placed < num_mines
        invariant
            n == grid_size as int,
            wf(grid@, n),
            wf(g0, n),
            placed <= num_mines,
            num_mines < n * n,
            free@.len() == n * n - placed,
            forall|p: int|
                0 <= p < free@.len() ==> {
                    let e = #[trigger] free@[p];
                    e.0 < n && e.1 < n && !is_mine(cell_at(grid@, e.0 as int, e.1 as int))
                },
            forall|p: int, q: int| 0 <= p < q < free@.len() ==> #[trigger] free@[p] != #[trigger] free@[q],
            mine_count(grid@) == placed,
            forall|i: int, j: int|
                #![trigger cell_at(grid@, i, j)]
                in_bounds(n, i, j) ==> {
                    let before = cell_at(g0, i, j);
                    let after = cell_at(grid@, i, j);
                    &&& after.is_revealed == before.is_revealed
                    &&& !is_mine(after) ==> after == before
                },
        decreases num_mines - placed,
    {
        let k = random_below(rng, free.len());
        let ghost fprev = free@;
        let ghost gprev = grid@;
        let (a, b) = free.swap_remove(k);
        let c = grid[a][b];
        let mine = Cell { is_revealed: c.is_revealed, value: CellValue::Mine };
        set_cell(grid, a, b, mine);
        proof {
            lemma_row_count_update(gprev[a as int]@, b as int, mine, mine_pred());
            lemma_grid_count_update(rows(gprev), a as int, gprev[a as int]@.update(b as int, mine), mine_pred());
            assert(rows(gprev)[a as int] == gprev[a as int]@);
            assert forall|p: int| 0 <= p < free@.len() implies free@[p] != (a, b) && (#[trigger] free@[p]) == if p == k {
                fprev[fprev.len() - 1]
            } else {
                fprev[p]
            } by {
                if p == k {
                    assert(fprev[fprev.len() - 1] != fprev[k as int]);
                } else {
                    assert(fprev[p] != fprev[k as int]);
                }
            }
        }
        placed += 1;
    }
    Ok(())
}

} // verus!
