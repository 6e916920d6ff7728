use vstd::prelude::*;

use crate::cell::{Cell, CellValue};
use crate::grid::{
    MineGrid, adjacent, cell_at, in_bounds, is_mine, lemma_grid_count_le, lemma_grid_count_update,
    lemma_row_count_update, revealed_count, revealed_pred, rows, set_cell, wf,
};

verus! {

/// `x` brought into `min..=max`.
pub open spec fn clamp_spec(x: int, min: int, max: int) -> int {
    if x < min {
        min
    } else if x > max {
        max
    } else {
        x
    }
}

/// Brings `x` into `min..=max`, as an index.
pub fn clamp(x: i64, min: i64, max: i64) -> (r: usize)
    requires
        0 <= min <= max,
        max <= usize::MAX,
    ensures
        r == clamp_spec(x as int, min as int, max as int),
{
    if x < min {
        return min as usize;
    }
    if x > max {
        return max as usize;
    }
    x as usize
}

pub open spec fn revealed(g: Seq<Vec<Cell>>, i: int, j: int) -> bool {
    cell_at(g, i, j).is_revealed
}

/// The cell `(i, j)` is hidden on `g` and revealed on `h`.
pub open spec fn newly(g: Seq<Vec<Cell>>, h: Seq<Vec<Cell>>, i: int, j: int) -> bool {
    !revealed(g, i, j) && revealed(h, i, j)
}

/// `h` is `g` with some more cells revealed: contents are kept, and a
/// revealed cell stays revealed.
pub open spec fn reveals_more(g: Seq<Vec<Cell>>, h: Seq<Vec<Cell>>, n: int) -> bool {
    &&& wf(h, n)
    &&& forall|i: int, j: int|
        #![trigger cell_at(h, i, j)]
        in_bounds(n, i, j) ==> cell_at(h, i, j).value == cell_at(g, i, j).value && (cell_at(
            g,
            i,
            j,
        ).is_revealed ==> cell_at(h, i, j).is_revealed)
}

/// No mine is revealed on `h` that was hidden on `g`.
pub open spec fn no_mine_revealed(g: Seq<Vec<Cell>>, h: Seq<Vec<Cell>>, n: int) -> bool {
    forall|i: int, j: int|
        #![trigger cell_at(h, i, j)]
        in_bounds(n, i, j) && newly(g, h, i, j) ==> !is_mine(cell_at(h, i, j))
}

/// Every safe cell around `(i, j)` is revealed on `h`.
pub open spec fn expanded(h: Seq<Vec<Cell>>, n: int, i: int, j: int) -> bool {
    forall|a: int, b: int|
        #![trigger cell_at(h, a, b)]
        in_bounds(n, a, b) && adjacent(i, j, a, b) && !is_mine(cell_at(h, a, b)) ==> cell_at(
            h,
            a,
            b,
        ).is_revealed
}

/// `(i, j)` is on the stack `s`.
pub open spec fn pending(s: Seq<(usize, usize)>, i: int, j: int) -> bool {
    exists|p: int| 0 <= p < s.len() && (#[trigger] s[p]).0 == i && s[p].1 == j
}

/// Reveals `(a, b)` unless it is already revealed or holds a mine; an empty
/// cell so revealed goes on the stack, to have its own surroundings revealed.
fn visit(grid: &mut MineGrid, n: usize, a: usize, b: usize, stack: &mut Vec<(usize, usize)>)
    requires
        wf(old(grid)@, n as int),
        in_bounds(n as int, a as int, b as int),
    ensures
        reveals_more(old(grid)@, final(grid)@, n as int),
        forall|i: int, j: int|
            #![trigger cell_at(final(grid)@, i, j)]
            in_bounds(n as int, i, j) && !(i == a && j == b) ==> cell_at(final(grid)@, i, j)
                == cell_at(old(grid)@, i, j),
        revealed(final(grid)@, a as int, b as int) || is_mine(cell_at(final(grid)@, a as int, b as int)),
        no_mine_revealed(old(grid)@, final(grid)@, n as int),
        revealed_count(final(grid)@) == revealed_count(old(grid)@) + if newly(
            old(grid)@,
            final(grid)@,
            a as int,
            b as int,
        ) {
            1int
        } else {
            0int
        },
        if newly(old(grid)@, final(grid)@, a as int, b as int) && cell_at(
            final(grid)@,
            a as int,
            b as int,
        ).value is Empty {
            final(stack)@ == old(stack)@.push((a, b))
        } else {
            final(stack)@ == old(stack)@
        },
{
    let c = grid[a][b];
    if c.is_revealed {
        return;
    }
    match c.value {
        CellValue::Mine => {},
        _ => {
            let ghost g = grid@;
            let shown = Cell { is_revealed: true, value: c.value };
            set_cell(grid, a, b, shown);
            proof {
                lemma_row_count_update(g[a as int]@, b as int, shown, revealed_pred());
                lemma_grid_count_update(rows(g), a as int, g[a as int]@.update(b as int, shown), revealed_pred());
                assert(rows(g)[a as int] == g[a as int]@);
            }
            if let CellValue::Empty = c.value {
                stack.push((a, b));
            }
        },
    }
}


/// The entries of `s` from index `k` on are empty cells hidden on `g` and
/// revealed on `h`.
pub open spec fn pushed_since(g: Seq<Vec<Cell>>, h: Seq<Vec<Cell>>, k: int, s: Seq<(usize, usize)>) -> bool {
    forall|p: int|
        k <= p < s.len() ==> {
            let e = #[trigger] s[p];
            newly(g, h, e.0 as int, e.1 as int) && cell_at(h, e.0 as int, e.1 as int).value is Empty
        }
}

/// A chain of cells from `(x, y)` along which a flood travels: each on the
/// board and next to the one before, each after the first hidden on `g`, and
/// each between the first and the last empty on `g`.
pub open spec fn empty_path(g: Seq<Vec<Cell>>, n: int, x: int, y: int, path: Seq<(int, int)>) -> bool {
    &&& path.len() >= 1
    &&& path[0] == (x, y)
    &&& forall|k: int| 0 <= k < path.len() ==> in_bounds(n, (#[trigger] path[k]).0, path[k].1)
    &&& forall|k: int| 1 <= k < path.len() ==> !revealed(g, (#[trigger] path[k]).0, path[k].1)
    &&& forall|k: int|
        0 <= k < path.len() - 1 ==> adjacent(
            (#[trigger] path[k]).0,
            path[k].1,
            path[k + 1].0,
            path[k + 1].1,
        )
    &&& forall|k: int|
        1 <= k < path.len() - 1 ==> cell_at(g, (#[trigger] path[k]).0, path[k].1).value is Empty
    &&& !is_mine(cell_at(g, path.last().0, path.last().1))
}

/// One more safe hidden cell next to the end of a path, from an empty cell or
/// from the start, lengthens it.
pub proof fn lemma_path_extend(g: Seq<Vec<Cell>>, n: int, x: int, y: int, path: Seq<(int, int)>, a: int, b: int)
    requires
        empty_path(g, n, x, y, path),
        in_bounds(n, a, b),
        !revealed(g, a, b),
        !is_mine(cell_at(g, a, b)),
        adjacent(path.last().0, path.last().1, a, b),
        path.len() >= 2 ==> cell_at(g, path.last().0, path.last().1).value is Empty,
    ensures
        empty_path(g, n, x, y, path.push((a, b))),
{
    let q = path.push((a, b));
    assert forall|k: int| 0 <= k < q.len() - 1 implies adjacent(
        (#[trigger] q[k]).0,
        q[k].1,
        q[k + 1].0,
        q[k + 1].1,
    ) by {
        if k < path.len() - 1 {
            assert(q[k] == path[k] && q[k + 1] == path[k + 1]);
        }
    }
    assert forall|k: int| 1 <= k < q.len() - 1 implies cell_at(g, (#[trigger] q[k]).0, q[k].1).value is Empty by {
        assert(q[k] == path[k]);
    }
    assert forall|k: int| 1 <= k < q.len() implies !revealed(g, (#[trigger] q[k]).0, q[k].1) by {
        if k < path.len() {
            assert(q[k] == path[k]);
        }
    }
    assert forall|k: int| 0 <= k < q.len() implies in_bounds(n, (#[trigger] q[k]).0, q[k].1) by {
        if k < path.len() {
            assert(q[k] == path[k]);
        }
    }
}

/// A safe hidden cell next to the start makes a path of two cells.
proof fn lemma_path_first_step(g: Seq<Vec<Cell>>, n: int, x: int, y: int, a: int, b: int)
    requires
        in_bounds(n, x, y),
        in_bounds(n, a, b),
        !revealed(g, a, b),
        !is_mine(cell_at(g, a, b)),
        adjacent(x, y, a, b),
    ensures
        empty_path(g, n, x, y, seq![(x, y), (a, b)]),
{
    let q = seq![(x, y), (a, b)];
    assert(q[0] == (x, y) && q[1] == (a, b) && q.last() == (a, b));
}

/// A path on `h` is one on `g` too, where `h` only reveals more than `g`.
pub proof fn lemma_path_on_fewer_revealed(
    g: Seq<Vec<Cell>>,
    h: Seq<Vec<Cell>>,
    n: int,
    x: int,
    y: int,
    path: Seq<(int, int)>,
)
    requires
        reveals_more(g, h, n),
        empty_path(h, n, x, y, path),
    ensures
        empty_path(g, n, x, y, path),
{
    assert forall|k: int| 1 <= k < path.len() implies !revealed(g, (#[trigger] path[k]).0, path[k].1) by {
        assert(cell_at(h, path[k].0, path[k].1).is_revealed == revealed(h, path[k].0, path[k].1));
    }
    assert forall|k: int| 1 <= k < path.len() - 1 implies cell_at(
        g,
        (#[trigger] path[k]).0,
        path[k].1,
    ).value is Empty by {
        assert(cell_at(h, path[k].0, path[k].1).value == cell_at(g, path[k].0, path[k].1).value);
    }
    assert(cell_at(h, path.last().0, path.last().1).value == cell_at(g, path.last().0, path.last().1).value);
}

/// A flood from `(x, y)` on `g` can reach `(i, j)`.
pub open spec fn reachable(g: Seq<Vec<Cell>>, n: int, x: int, y: int, i: int, j: int) -> bool {
    exists|path: Seq<(int, int)>| #[trigger] empty_path(g, n, x, y, path) && path.last() == (i, j)
}

/// `t` is `s` with perhaps more entries pushed on top.
pub open spec fn extends(s: Seq<(usize, usize)>, t: Seq<(usize, usize)>) -> bool {
    s.len() <= t.len() && forall|p: int| 0 <= p < s.len() ==> #[trigger] t[p] == s[p]
}

/// Every entry of `s` is a cell of a board of size `n`.
pub open spec fn on_board(s: Seq<(usize, usize)>, n: int) -> bool {
    forall|p: int| 0 <= p < s.len() ==> (#[trigger] s[p]).0 < n && s[p].1 < n
}

proof fn lemma_pending_extends(s: Seq<(usize, usize)>, t: Seq<(usize, usize)>, i: int, j: int)
    requires
        extends(s, t),
        pending(s, i, j),
    ensures
        pending(t, i, j),
{
    let p = choose|p: int| 0 <= p < s.len() && (#[trigger] s[p]).0 == i && s[p].1 == j;
    assert(t[p] == s[p]);
}

/// Revealing more cells keeps a cell's surroundings revealed.
proof fn lemma_expanded_more(g: Seq<Vec<Cell>>, h: Seq<Vec<Cell>>, n: int, i: int, j: int)
    requires
        reveals_more(g, h, n),
        expanded(g, n, i, j),
    ensures
        expanded(h, n, i, j),
{
    assert forall|a: int, b: int|
        in_bounds(n, a, b) && adjacent(i, j, a, b) && !is_mine(
            #[trigger] cell_at(h, a, b),
        ) implies cell_at(h, a, b).is_revealed by {
        assert(cell_at(h, a, b).value == cell_at(g, a, b).value);
    }
}

/// Visits the cells `(a, b)` for `b` in `y_min..=y_max`, all but `(i, j)`.
fn visit_row(
    grid: &mut MineGrid,
    n: usize,
    i: usize,
    j: usize,
    a: usize,
    y_min: usize,
    y_max: usize,
    stack: &mut Vec<(usize, usize)>,
)
    requires
        wf(old(grid)@, n as int),
        a < n,
        y_min <= y_max < n,
        on_board(old(stack)@, n as int),
    ensures
        reveals_more(old(grid)@, final(grid)@, n as int),
        no_mine_revealed(old(grid)@, final(grid)@, n as int),
        forall|b: int|
            y_min <= b <= y_max && !(a == i && b == j) ==> revealed(final(grid)@, a as int, b)
                || is_mine(#[trigger] cell_at(final(grid)@, a as int, b)),
        forall|x: int, y: int|
            #![trigger cell_at(final(grid)@, x, y)]
            in_bounds(n as int, x, y) && newly(old(grid)@, final(grid)@, x, y) && cell_at(
                final(grid)@,
                x,
                y,
            ).value is Empty ==> pending(final(stack)@, x, y),
        extends(old(stack)@, final(stack)@),
        on_board(final(stack)@, n as int),
        final(stack)@.len() + 2 * revealed_count(old(grid)@) <= old(stack)@.len() + 2
            * revealed_count(final(grid)@),
        forall|x: int, y: int|
            #![trigger cell_at(final(grid)@, x, y)]
            in_bounds(n as int, x, y) && newly(old(grid)@, final(grid)@, x, y) ==> x == a && y_min
                <= y <= y_max && !(x == i && y == j),
        pushed_since(old(grid)@, final(grid)@, old(stack)@.len() as int, final(stack)@),
{
    let ghost g0 = grid@;
    let ghost s0 = stack@;
    let mut b = y_min;
    while b <= y_max
        invariant
            wf(g0, n as int),
            y_min <= b <= y_max + 1,
            y_max < n,
            a < n,
            reveals_more(g0, grid@, n as int),
            no_mine_revealed(g0, grid@, n as int),
            forall|c: int|
                y_min <= c < b && !(a == i && c == j) ==> revealed(grid@, a as int, c) || is_mine(
                    #[trigger] cell_at(grid@, a as int, c),
                ),
            forall|x: int, y: int|
                #![trigger cell_at(grid@, x, y)]
                in_bounds(n as int, x, y) && newly(g0, grid@, x, y) && cell_at(grid@, x, y).value is Empty
                    ==> pending(stack@, x, y),
            extends(s0, stack@),
            on_board(stack@, n as int),
            stack@.len() + 2 * revealed_count(g0) <= s0.len() + 2 * revealed_count(grid@),
            forall|x: int, y: int|
                #![trigger cell_at(grid@, x, y)]
                in_bounds(n as int, x, y) && newly(g0, grid@, x, y) ==> x == a && y_min <= y < b
                    && !(x == i && y == j),
            pushed_since(g0, grid@, s0.len() as int, stack@),
        decreases y_max + 1 - b,
    {
        if !(a == i && b == j) {
            let ghost g1 = grid@;
            let ghost s1 = stack@;
            visit(grid, n, a, b, stack);
            proof {
                assert forall|x: int, y: int|
                    in_bounds(n as int, x, y) && newly(g0, grid@, x, y) && (#[trigger] cell_at(
                        grid@,
                        x,
                        y,
                    )).value is Empty implies pending(stack@, x, y) by {
                    if newly(g0, g1, x, y) {
                        assert(cell_at(g1, x, y) == cell_at(grid@, x, y) || (x == a && y == b));
                        lemma_pending_extends(s1, stack@, x, y);
                    } else {
                        assert(stack@[s1.len() as int] == (a, b));
                    }
                }
                assert forall|p: int| 0 <= p < s0.len() implies #[trigger] stack@[p] == s0[p] by {
                    assert(s1[p] == s0[p]);
                }
                assert forall|p: int| s0.len() <= p < stack@.len() implies {
                    let e = #[trigger] stack@[p];
                    newly(g0, grid@, e.0 as int, e.1 as int) && cell_at(grid@, e.0 as int, e.1 as int).value is Empty
                } by {
                    if p < s1.len() {
                        assert(stack@[p] == s1[p]);
                        let e = s1[p];
                        assert(cell_at(grid@, e.0 as int, e.1 as int).value == cell_at(g1, e.0 as int, e.1 as int).value);
                    }
                }
            }
        }
        b += 1;
    }
}

/// Reveals every safe hidden cell around `(i, j)`, pushing the empty ones.
fn reveal_neighbours(grid: &mut MineGrid, n: usize, i: usize, j: usize, stack: &mut Vec<(usize, usize)>)
    requires
        wf(old(grid)@, n as int),
        in_bounds(n as int, i as int, j as int),
        on_board(old(stack)@, n as int),
    ensures
        reveals_more(old(grid)@, final(grid)@, n as int),
        no_mine_revealed(old(grid)@, final(grid)@, n as int),
        expanded(final(grid)@, n as int, i as int, j as int),
        forall|x: int, y: int|
            #![trigger cell_at(final(grid)@, x, y)]
            in_bounds(n as int, x, y) && newly(old(grid)@, final(grid)@, x, y) && cell_at(
                final(grid)@,
                x,
                y,
            ).value is Empty ==> pending(final(stack)@, x, y),
        extends(old(stack)@, final(stack)@),
        on_board(final(stack)@, n as int),
        final(stack)@.len() + 2 * revealed_count(old(grid)@) <= old(stack)@.len() + 2
            * revealed_count(final(grid)@),
        forall|x: int, y: int|
            #![trigger cell_at(final(grid)@, x, y)]
            in_bounds(n as int, x, y) && newly(old(grid)@, final(grid)@, x, y) ==> adjacent(
                i as int,
                j as int,
                x,
                y,
            ),
        pushed_since(old(grid)@, final(grid)@, old(stack)@.len() as int, final(stack)@),
{
    let ghost g0 = grid@;
    let ghost s0 = stack@;
    proof {
        assert(n <= 0x1_0000_0000) by (nonlinear_arith)
            requires
                n * n <= usize::MAX,
                usize::MAX <= 0xffff_ffff_ffff_ffff,
        ;
    }
    let size: i64 = n as i64;
    let x_min = clamp(i as i64 - 1, 0, size - 1);
    let x_max = clamp(i as i64 + 1, 0, size - 1);
    let y_min = clamp(j as i64 - 1, 0, size - 1);
    let y_max = clamp(j as i64 + 1, 0, size - 1);
    let mut a = x_min;
    while a <= x_max
        invariant
            wf(g0, n as int),
            in_bounds(n as int, i as int, j as int),
            x_min == clamp_spec(i - 1, 0, n - 1),
            x_max == clamp_spec(i + 1, 0, n - 1),
            y_min == clamp_spec(j - 1, 0, n - 1),
            y_max == clamp_spec(j + 1, 0, n - 1),
            x_min <= a <= x_max + 1,
            reveals_more(g0, grid@, n as int),
            no_mine_revealed(g0, grid@, n as int),
            forall|x: int, y: int|
                #![trigger cell_at(grid@, x, y)]
                in_bounds(n as int, x, y) && adjacent(i as int, j as int, x, y) && x < a ==> revealed(
                    grid@,
                    x,
                    y,
                ) || is_mine(cell_at(grid@, x, y)),
            forall|x: int, y: int|
                #![trigger cell_at(grid@, x, y)]
                in_bounds(n as int, x, y) && newly(g0, grid@, x, y) && cell_at(grid@, x, y).value is Empty
                    ==> pending(stack@, x, y),
            extends(s0, stack@),
            on_board(stack@, n as int),
            stack@.len() + 2 * revealed_count(g0) <= s0.len() + 2 * revealed_count(grid@),
            forall|x: int, y: int|
                #![trigger cell_at(grid@, x, y)]
                in_bounds(n as int, x, y) && newly(g0, grid@, x, y) ==> adjacent(i as int, j as int, x, y),
            pushed_since(g0, grid@, s0.len() as int, stack@),
        decreases x_max + 1 - a,
    {
        let ghost g1 = grid@;
        let ghost s1 = stack@;
        visit_row(grid, n, i, j, a, y_min, y_max, stack);
        proof {
            assert forall|x: int, y: int|
                in_bounds(n as int, x, y) && newly(g0, grid@, x, y) && (#[trigger] cell_at(
                    grid@,
                    x,
                    y,
                )).value is Empty implies pending(stack@, x, y) by {
                if newly(g0, g1, x, y) {
                    lemma_pending_extends(s1, stack@, x, y);
                }
            }
            assert forall|p: int| 0 <= p < s0.len() implies #[trigger] stack@[p] == s0[p] by {
                assert(s1[p] == s0[p]);
            }
            assert forall|p: int| s0.len() <= p < stack@.len() implies {
                let e = #[trigger] stack@[p];
                newly(g0, grid@, e.0 as int, e.1 as int) && cell_at(grid@, e.0 as int, e.1 as int).value is Empty
            } by {
                if p < s1.len() {
                    assert(stack@[p] == s1[p]);
                    let e = s1[p];
                    assert(cell_at(grid@, e.0 as int, e.1 as int).value == cell_at(g1, e.0 as int, e.1 as int).value);
                }
            }
            assert forall|x: int, y: int|
                in_bounds(n as int, x, y) && newly(g0, grid@, x, y) implies adjacent(
                    i as int,
                    j as int,
                    x,
                    y,
                ) by {
            }
            assert forall|x: int, y: int|
                in_bounds(n as int, x, y) && adjacent(i as int, j as int, x, y) && x < a + 1 implies revealed(
                    grid@,
                    x,
                    y,
                ) || is_mine(#[trigger] cell_at(grid@, x, y)) by {
                if x < a {
                    assert(cell_at(g1, x, y).value == cell_at(grid@, x, y).value);
                }
            }
        }
        a += 1;
    }
}

/// Flood reveal from `(selected_x, selected_y)`: reveals the safe cells
/// around it, and goes on from every empty cell so revealed, stopping at
/// numbered cells. Mines are never revealed here.
pub fn recursive_reveal(selected_x: usize, selected_y: usize, grid: &mut MineGrid)
    requires
        wf(old(grid)@, old(grid)@.len() as int),
        in_bounds(old(grid)@.len() as int, selected_x as int, selected_y as int),
    ensures
        final(grid)@.len() == old(grid)@.len(),
        reveals_more(old(grid)@, final(grid)@, old(grid)@.len() as int),
        no_mine_revealed(old(grid)@, final(grid)@, old(grid)@.len() as int),
        expanded(final(grid)@, old(grid)@.len() as int, selected_x as int, selected_y as int),
        forall|x: int, y: int|
            #![trigger cell_at(final(grid)@, x, y)]
            in_bounds(old(grid)@.len() as int, x, y) && newly(old(grid)@, final(grid)@, x, y)
                && cell_at(final(grid)@, x, y).value is Empty ==> expanded(
                final(grid)@,
                old(grid)@.len() as int,
                x,
                y,
            ),
        forall|x: int, y: int|
            #![trigger cell_at(final(grid)@, x, y)]
            in_bounds(old(grid)@.len() as int, x, y) && newly(old(grid)@, final(grid)@, x, y)
                ==> reachable(
                old(grid)@,
                old(grid)@.len() as int,
                selected_x as int,
                selected_y as int,
                x,
                y,
            ),
{
    let ghost g0 = grid@;
    let ghost sx = selected_x as int;
    let ghost sy = selected_y as int;
    let n = grid.len();
    let mut stack: Vec<(usize, usize)> = Vec::new();
    reveal_neighbours(grid, n, selected_x, selected_y, &mut stack);
    proof {
        lemma_grid_count_le(rows(grid@), n as int, revealed_pred());
        assert forall|x: int, y: int|
            in_bounds(n as int, x, y) && newly(g0, grid@, x, y) implies reachable(
            g0,
            n as int,
            sx,
            sy,
            x,
            y,
        ) by {
            assert(cell_at(grid@, x, y).value == cell_at(g0, x, y).value);
            lemma_path_first_step(g0, n as int, sx, sy, x, y);
            assert(seq![(sx, sy), (x, y)].last() == (x, y));
        }
    }
    while stack.len() > 0
        invariant
            wf(g0, n as int),
            n == g0.len(),
            reveals_more(g0, grid@, n as int),
            no_mine_revealed(g0, grid@, n as int),
            expanded(grid@, n as int, selected_x as int, selected_y as int),
            on_board(stack@, n as int),
            forall|x: int, y: int|
                #![trigger cell_at(grid@, x, y)]
                in_bounds(n as int, x, y) && newly(g0, grid@, x, y) && cell_at(grid@, x, y).value is Empty
                    ==> expanded(grid@, n as int, x, y) || pending(stack@, x, y),
            revealed_count(grid@) <= n * n,
            sx == selected_x as int,
            sy == selected_y as int,
            pushed_since(g0, grid@, 0, stack@),
            forall|x: int, y: int|
                #![trigger cell_at(grid@, x, y)]
                in_bounds(n as int, x, y) && newly(g0, grid@, x, y) ==> reachable(
                    g0,
                    n as int,
                    sx,
                    sy,
                    x,
                    y,
                ),
        decreases 2 * (n * n - revealed_count(grid@)) + stack@.len(),
    {
        let ghost g1 = grid@;
        let ghost s1 = stack@;
        let (i, j) = stack.pop().unwrap();
        let ghost s2 = stack@;
        proof {
            assert(s1[s1.len() - 1] == (i, j));
            assert(newly(g0, g1, i as int, j as int));
        }
        reveal_neighbours(grid, n, i, j, &mut stack);
        proof {
            let path = choose|path: Seq<(int, int)>|
                #[trigger] empty_path(g0, n as int, sx, sy, path) && path.last() == (i as int, j as int);
            assert forall|x: int, y: int|
                in_bounds(n as int, x, y) && newly(g0, grid@, x, y) implies reachable(
                g0,
                n as int,
                sx,
                sy,
                x,
                y,
            ) by {
                if !newly(g0, g1, x, y) {
                    assert(newly(g1, grid@, x, y));
                    assert(cell_at(grid@, x, y).value == cell_at(g0, x, y).value);
                    assert(cell_at(g1, i as int, j as int).value == cell_at(g0, i as int, j as int).value);
                    lemma_path_extend(g0, n as int, sx, sy, path, x, y);
                    assert(path.push((x, y)).last() == (x, y));
                }
            }
            assert forall|p: int| 0 <= p < stack@.len() implies {
                let e = #[trigger] stack@[p];
                newly(g0, grid@, e.0 as int, e.1 as int) && cell_at(grid@, e.0 as int, e.1 as int).value is Empty
            } by {
                let e = stack@[p];
                if p < s2.len() {
                    assert(stack@[p] == s2[p]);
                    assert(s2[p] == s1[p]);
                    assert(cell_at(grid@, e.0 as int, e.1 as int).value == cell_at(g1, e.0 as int, e.1 as int).value);
                } else {
                }
            }
            lemma_grid_count_le(rows(grid@), n as int, revealed_pred());
            lemma_expanded_more(g1, grid@, n as int, selected_x as int, selected_y as int);
            assert forall|x: int, y: int|
                in_bounds(n as int, x, y) && newly(g0, grid@, x, y) && (#[trigger] cell_at(
                    grid@,
                    x,
                    y,
                )).value is Empty implies expanded(grid@, n as int, x, y) || pending(stack@, x, y) by {
                if newly(g0, g1, x, y) {
                    if expanded(g1, n as int, x, y) {
                        lemma_expanded_more(g1, grid@, n as int, x, y);
                    } else {
                        let p = choose|p: int|
                            0 <= p < s1.len() && (#[trigger] s1[p]).0 == x && s1[p].1 == y;
                        if p < s2.len() {
                            assert(s2[p] == s1[p]);
                            lemma_pending_extends(s2, stack@, x, y);
                        }
                    }
                }
            }
        }
    }
}

} // verus!
