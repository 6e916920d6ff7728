use minesweeper::adjacency::{count_cell_mine_neighbours, count_nearby_mines};
use minesweeper::cell::{BoardError, Cell, CellValue, GameState, Outcome};
use minesweeper::flood::{clamp, recursive_reveal};
use minesweeper::game::{game_state_after, is_won, new_board, reveal_cell};
use minesweeper::grid::{count_cells, generate_empty_grid, set_cell, MineGrid};
use minesweeper::mines::place_mines_in_grid;
use rand::rngs::StdRng;
use rand::SeedableRng;

fn board_with_mines(size: usize, mines: &[(usize, usize)]) -> MineGrid {
    let mut grid = generate_empty_grid(size);
    for &(i, j) in mines {
        set_cell(&mut grid, i, j, Cell { is_revealed: false, value: CellValue::Mine });
    }
    count_nearby_mines(&mut grid, size);
    grid
}

fn mines_on(grid: &MineGrid) -> usize {
    grid.iter().flatten().filter(|c| c.value == CellValue::Mine).count()
}

fn revealed_cells(grid: &MineGrid) -> Vec<(usize, usize)> {
    let mut v = Vec::new();
    for (i, row) in grid.iter().enumerate() {
        for (j, c) in row.iter().enumerate() {
            if c.is_revealed {
                v.push((i, j));
            }
        }
    }
    v
}

#[test]
fn new_cell_is_hidden_and_empty() {
    let c = Cell::new();
    assert!(!c.is_revealed);
    assert_eq!(c.value, CellValue::Empty);
}

#[test]
fn empty_grid_has_size_rows_of_hidden_empty_cells() {
    let g = generate_empty_grid(3);
    assert_eq!(g.len(), 3);
    for row in &g {
        assert_eq!(row.len(), 3);
        for c in row {
            assert_eq!(*c, Cell::new());
        }
    }
}

#[test]
fn new_board_rejects_zero_size() {
    assert_eq!(new_board(0), Err(BoardError::InvalidSize));
    let g = new_board(2).unwrap();
    assert_eq!(g.len(), 2);
    assert_eq!(count_cells(&g), 0);
}

#[test]
fn placing_mines_sets_exactly_that_many() {
    for seed in 0..20u64 {
        let mut rng = StdRng::seed_from_u64(seed);
        let mut grid = generate_empty_grid(5);
        assert_eq!(place_mines_in_grid(&mut grid, 7, 5, &mut rng), Ok(()));
        assert_eq!(mines_on(&grid), 7);
        assert_eq!(count_cells(&grid), 0);
    }
}

#[test]
fn placing_all_but_one_mine_terminates() {
    let mut rng = StdRng::seed_from_u64(3);
    let mut grid = generate_empty_grid(4);
    assert_eq!(place_mines_in_grid(&mut grid, 15, 4, &mut rng), Ok(()));
    assert_eq!(mines_on(&grid), 15);
}

#[test]
fn placing_too_many_mines_fails_and_leaves_board() {
    let mut rng = StdRng::seed_from_u64(1);
    let mut grid = generate_empty_grid(3);
    assert_eq!(place_mines_in_grid(&mut grid, 9, 3, &mut rng), Err(BoardError::TooManyMines));
    assert_eq!(place_mines_in_grid(&mut grid, 10, 3, &mut rng), Err(BoardError::TooManyMines));
    assert_eq!(mines_on(&grid), 0);
}

#[test]
fn neighbour_counts_clamp_at_edges() {
    let grid = board_with_mines(3, &[(0, 0), (0, 1), (2, 2)]);
    assert_eq!(count_cell_mine_neighbours(1, 1, 3, &grid), 3);
    assert_eq!(count_cell_mine_neighbours(0, 0, 3, &grid), 1);
    assert_eq!(count_cell_mine_neighbours(2, 0, 3, &grid), 0);
    assert_eq!(count_cell_mine_neighbours(1, 2, 3, &grid), 2);
}

#[test]
fn neighbour_count_reaches_eight() {
    let all_but_centre: Vec<(usize, usize)> =
        (0..3).flat_map(|i| (0..3).map(move |j| (i, j))).filter(|&p| p != (1, 1)).collect();
    let grid = board_with_mines(3, &all_but_centre);
    assert_eq!(count_cell_mine_neighbours(1, 1, 3, &grid), 8);
    assert_eq!(grid[1][1].value, CellValue::NearMine(8));
}

#[test]
fn adjacency_pass_annotates_safe_cells() {
    let grid = board_with_mines(4, &[(0, 0)]);
    assert_eq!(grid[0][0].value, CellValue::Mine);
    assert_eq!(grid[0][1].value, CellValue::NearMine(1));
    assert_eq!(grid[1][0].value, CellValue::NearMine(1));
    assert_eq!(grid[1][1].value, CellValue::NearMine(1));
    assert_eq!(grid[2][2].value, CellValue::Empty);
    assert_eq!(grid[3][3].value, CellValue::Empty);
}

#[test]
fn single_mine_in_centre_scenario() {
    let mut grid = board_with_mines(3, &[(1, 1)]);
    for i in 0..3 {
        for j in 0..3 {
            if (i, j) != (1, 1) {
                assert_eq!(grid[i][j].value, CellValue::NearMine(1));
            }
        }
    }
    assert_eq!(reveal_cell(0, 0, &mut grid), Ok(Outcome::Revealed));
    assert_eq!(revealed_cells(&grid), vec![(0, 0)]);
    assert_eq!(reveal_cell(1, 1, &mut grid), Ok(Outcome::HitMine));
    assert_eq!(revealed_cells(&grid), vec![(0, 0), (1, 1)]);
}

#[test]
fn mine_free_board_floods_in_one_reveal() {
    for (x, y) in [(0, 0), (1, 2), (3, 3)] {
        let mut grid = board_with_mines(4, &[]);
        assert_eq!(reveal_cell(x, y, &mut grid), Ok(Outcome::Revealed));
        assert_eq!(count_cells(&grid), 16);
        assert!(is_won(&grid, 16, 0));
    }
}

#[test]
fn revealing_a_mine_changes_only_that_cell() {
    let mut grid = board_with_mines(4, &[(2, 1), (0, 3)]);
    let before = grid.clone();
    assert_eq!(reveal_cell(2, 1, &mut grid), Ok(Outcome::HitMine));
    for i in 0..4 {
        for j in 0..4 {
            if (i, j) == (2, 1) {
                assert!(grid[i][j].is_revealed);
            } else {
                assert_eq!(grid[i][j], before[i][j]);
            }
        }
    }
}

#[test]
fn flood_reveals_region_and_border_but_no_mine() {
    // Mines down column 2: the left two columns are one region.
    let mut grid = board_with_mines(5, &[(0, 2), (1, 2), (2, 2), (3, 2), (4, 2)]);
    assert_eq!(reveal_cell(4, 0, &mut grid), Ok(Outcome::Revealed));
    for i in 0..5 {
        assert!(grid[i][0].is_revealed);
        assert!(grid[i][1].is_revealed);
        assert!(!grid[i][2].is_revealed);
        assert!(!grid[i][3].is_revealed);
        assert!(!grid[i][4].is_revealed);
    }
    assert_eq!(count_cells(&grid), 10);
}

#[test]
fn flood_stops_at_numbered_cells() {
    let mut grid = board_with_mines(5, &[(4, 4)]);
    assert_eq!(reveal_cell(0, 0, &mut grid), Ok(Outcome::Revealed));
    assert!(!grid[4][4].is_revealed);
    assert!(grid[3][3].is_revealed);
    assert_eq!(count_cells(&grid), 24);
    assert!(is_won(&grid, 25, 1));
}

#[test]
fn revealing_twice_changes_nothing() {
    let mut grid = board_with_mines(4, &[(3, 3)]);
    assert_eq!(reveal_cell(0, 0, &mut grid), Ok(Outcome::Revealed));
    let once = grid.clone();
    assert_eq!(reveal_cell(0, 0, &mut grid), Ok(Outcome::Revealed));
    assert_eq!(grid, once);
    assert_eq!(reveal_cell(3, 3, &mut grid), Ok(Outcome::HitMine));
    let after_mine = grid.clone();
    assert_eq!(reveal_cell(3, 3, &mut grid), Ok(Outcome::HitMine));
    assert_eq!(grid, after_mine);
}

#[test]
fn reveal_off_the_board_fails() {
    let mut grid = board_with_mines(3, &[(0, 0)]);
    let before = grid.clone();
    assert_eq!(reveal_cell(3, 0, &mut grid), Err(BoardError::OutOfBounds));
    assert_eq!(reveal_cell(0, 7, &mut grid), Err(BoardError::OutOfBounds));
    assert_eq!(grid, before);
}

#[test]
fn recursive_reveal_from_a_numbered_cell() {
    let mut grid = board_with_mines(3, &[(0, 0)]);
    recursive_reveal(1, 1, &mut grid);
    assert!(!grid[0][0].is_revealed);
    // the empty cells around it flood back into the starting cell
    assert!(grid[1][1].is_revealed);
    assert_eq!(count_cells(&grid), 8);
}

#[test]
fn all_safe_cells_revealed_wins() {
    let mut grid = board_with_mines(3, &[(0, 0), (2, 2)]);
    assert!(!is_won(&grid, 9, 2));
    for i in 0..3 {
        for j in 0..3 {
            if grid[i][j].value != CellValue::Mine {
                assert_eq!(reveal_cell(i, j, &mut grid), Ok(Outcome::Revealed));
            }
        }
    }
    assert_eq!(count_cells(&grid), 9 - 2);
    assert!(is_won(&grid, 9, 2));
    assert!(!is_won(&grid, 9, 3));
    assert!(!is_won(&grid, 1, 2));
}

#[test]
fn game_state_follows_outcome_and_count() {
    assert_eq!(game_state_after(Outcome::HitMine, 5, 5), GameState::Lost);
    assert_eq!(game_state_after(Outcome::Revealed, 5, 5), GameState::Won);
    assert_eq!(game_state_after(Outcome::Revealed, 4, 5), GameState::Playing);
}

#[test]
fn clamp_bounds_values() {
    assert_eq!(clamp(-1, 0, 9), 0);
    assert_eq!(clamp(10, 0, 9), 9);
    assert_eq!(clamp(4, 0, 9), 4);
    assert_eq!(clamp(0, 0, 0), 0);
}
