use vstd::prelude::*;

use crate::cell::Cell;
use crate::flood::{empty_path, expanded, newly, reachable, revealed};
use crate::game::{flood_closed, won};
use crate::grid::{
    adjacent, cell_at, grid_count, in_bounds, is_mine, mine_count, mine_pred, revealed_count,
    revealed_pred, row_count, rows, wf,
};

verus! {

proof fn lemma_path_prefix_revealed(
    g: Seq<Vec<Cell>>,
    h: Seq<Vec<Cell>>,
    n: int,
    x: int,
    y: int,
    path: Seq<(int, int)>,
    k: int,
)
    requires
        flood_closed(g, h, n, x, y),
        empty_path(g, n, x, y, path),
        0 <= k < path.len(),
    ensures
        revealed(h, path[k].0, path[k].1),
    decreases k,
{
    if k > 0 {
        let (a, b) = path[k - 1];
        let (c, d) = path[k];
        lemma_path_prefix_revealed(g, h, n, x, y, path, k - 1);
        assert(adjacent(a, b, c, d));
        assert(in_bounds(n, a, b) && in_bounds(n, c, d));
        assert(cell_at(h, a, b).value == cell_at(g, a, b).value);
        assert(cell_at(h, c, d).value == cell_at(g, c, d).value);
        if k - 1 > 0 {
            assert(cell_at(g, a, b).value is Empty);
            assert(!revealed(g, a, b));
            assert(newly(g, h, a, b));
            assert(expanded(h, n, a, b));
        }
        if k < path.len() - 1 {
            assert(cell_at(g, c, d).value is Empty);
        }
        assert(!is_mine(cell_at(h, c, d)));
    }
}

/// A flood reveal from an empty cell reveals exactly the cells that it can
/// reach: the whole connected region of hidden empty cells around it and the
/// numbered cells that border that region. Cells revealed before stay so, and
/// no mine that was hidden is revealed.
pub proof fn lemma_flood_reveals_region(
    g: Seq<Vec<Cell>>,
    h: Seq<Vec<Cell>>,
    n: int,
    x: int,
    y: int,
    i: int,
    j: int,
)
    requires
        flood_closed(g, h, n, x, y),
        in_bounds(n, i, j),
    ensures
        revealed(h, i, j) <==> (revealed(g, i, j) || reachable(g, n, x, y, i, j)),
        is_mine(cell_at(h, i, j)) ==> (revealed(h, i, j) <==> revealed(g, i, j)),
{
    if newly(g, h, i, j) && i == x && j == y {
        let single = seq![(x, y)];
        assert(single.last() == (x, y) && single[0] == (x, y));
        assert(cell_at(h, x, y).value == cell_at(g, x, y).value);
        assert(empty_path(g, n, x, y, single));
    }
    if reachable(g, n, x, y, i, j) {
        let path = choose|path: Seq<(int, int)>|
            #[trigger] empty_path(g, n, x, y, path) && path.last() == (i, j);
        lemma_path_prefix_revealed(g, h, n, x, y, path, path.len() - 1);
    }
}

proof fn lemma_row_split(r: Seq<Cell>)
    requires
        forall|j: int| 0 <= j < r.len() ==> ((#[trigger] r[j]).is_revealed <==> !is_mine(r[j])),
    ensures
        row_count(r, revealed_pred()) + row_count(r, mine_pred()) == r.len(),
    decreases r.len(),
{
    if r.len() > 0 {
        lemma_row_split(r.drop_last());
    }
}

proof fn lemma_grid_split(g: Seq<Seq<Cell>>, n: int)
    requires
        forall|i: int| 0 <= i < g.len() ==> (#[trigger] g[i]).len() == n,
        forall|i: int, j: int|
            0 <= i < g.len() && 0 <= j < g[i].len() ==> ((#[trigger] g[i][j]).is_revealed <==> !is_mine(
                g[i][j],
            )),
    ensures
        grid_count(g, revealed_pred()) + grid_count(g, mine_pred()) == g.len() * n,
    decreases g.len(),
{
    if g.len() > 0 {
        lemma_grid_split(g.drop_last(), n);
        lemma_row_split(g.last());
        assert((g.len() - 1) * n + n == g.len() * n) by (nonlinear_arith);
    }
}

/// Once exactly the safe cells are revealed, the revealed cells number
/// `size * size` less the mines, and the game is won.
pub proof fn lemma_all_safe_revealed_wins(g: Seq<Vec<Cell>>, n: int)
    requires
        wf(g, n),
        forall|i: int, j: int|
            in_bounds(n, i, j) ==> (#[trigger] cell_at(g, i, j).is_revealed <==> !is_mine(
                cell_at(g, i, j),
            )),
    ensures
        revealed_count(g) == n * n - mine_count(g),
        won(g, n * n, mine_count(g) as int),
{
    let r = rows(g);
    assert forall|i: int, j: int|
        0 <= i < r.len() && 0 <= j < r[i].len() implies ((#[trigger] r[i][j]).is_revealed <==> !is_mine(
        r[i][j],
    )) by {
        assert(r[i][j] == cell_at(g, i, j));
    }
    lemma_grid_split(r, n);
}

} // verus!
