use battleship_odds::brain::{exclusion_mask, CellState};

fn open_board(n: usize) -> Vec<Vec<CellState>> {
    vec![vec![CellState::EMPTY; n]; n]
}

#[test]
fn open_board_permits_every_cell() {
    assert_eq!(exclusion_mask(&open_board(4), 4), vec![vec![true; 4]; 4]);
    assert_eq!(exclusion_mask(&open_board(0), 0), Vec::<Vec<bool>>::new());
}

#[test]
fn miss_forbids_its_own_cell_only() {
    for i in 0..4 {
        for j in 0..4 {
            let mut grid = open_board(4);
            grid[i][j] = CellState::MISS;
            let mut expected = vec![vec![true; 4]; 4];
            expected[i][j] = false;
            assert_eq!(exclusion_mask(&grid, 4), expected);
        }
    }
}

#[test]
fn hit_forbids_its_corners_only() {
    let mut grid = open_board(4);
    grid[1][2] = CellState::HIT;
    let expected = vec![
        vec![true, false, true, false],
        vec![true, true, true, true],
        vec![true, false, true, false],
        vec![true, true, true, true],
    ];
    assert_eq!(exclusion_mask(&grid, 4), expected);
}

#[test]
fn hit_in_a_corner_forbids_one_cell() {
    let mut grid = open_board(3);
    grid[0][0] = CellState::HIT;
    let expected = vec![
        vec![true, true, true],
        vec![true, false, true],
        vec![true, true, true],
    ];
    assert_eq!(exclusion_mask(&grid, 3), expected);
}

#[test]
fn sunk_segment_forbids_its_cell_and_its_ring() {
    let mut grid = open_board(5);
    grid[2][1] = CellState::SUNK;
    let expected = vec![
        vec![true, true, true, true, true],
        vec![false, false, false, true, true],
        vec![false, false, false, true, true],
        vec![false, false, false, true, true],
        vec![true, true, true, true, true],
    ];
    assert_eq!(exclusion_mask(&grid, 5), expected);
}

#[test]
fn sunk_segment_in_a_corner_forbids_four_cells() {
    let mut grid = open_board(3);
    grid[2][2] = CellState::SUNK;
    let expected = vec![
        vec![true, true, true],
        vec![true, false, false],
        vec![true, false, false],
    ];
    assert_eq!(exclusion_mask(&grid, 3), expected);
}

#[test]
fn observations_add_up_whatever_their_order() {
    let mut grid = open_board(4);
    grid[0][0] = CellState::HIT;
    grid[0][1] = CellState::HIT;
    grid[3][3] = CellState::SUNK;
    grid[2][0] = CellState::MISS;
    let expected = vec![
        vec![true, true, true, true],
        vec![false, false, false, true],
        vec![false, true, false, false],
        vec![true, true, false, false],
    ];
    assert_eq!(exclusion_mask(&grid, 4), expected);
}

fn scrambled_board(n: usize, seed: u64) -> Vec<Vec<CellState>> {
    let mut state = seed.wrapping_mul(2862933555777941757).wrapping_add(7046029254386353087);
    let mut grid = open_board(n);
    for i in 0..n {
        for j in 0..n {
            state = state
                .wrapping_mul(6364136223846793005)
                .wrapping_add(1442695040888963407);
            grid[i][j] = match (state >> 33) % 9 {
                0 => CellState::MISS,
                1 => CellState::HIT,
                2 => CellState::SUNK,
                _ => CellState::EMPTY,
            };
        }
    }
    grid
}

/// The mask, cell by cell: whether any observation near the cell forbids it.
fn mask_by_cells(grid: &Vec<Vec<CellState>>, n: usize) -> Vec<Vec<bool>> {
    let mut mask = vec![vec![true; n]; n];
    for r in 0..n as i64 {
        for c in 0..n as i64 {
            for di in -1..=1i64 {
                for dj in -1..=1i64 {
                    let (i, j) = (r + di, c + dj);
                    if i < 0 || j < 0 || i >= n as i64 || j >= n as i64 {
                        continue;
                    }
                    let forbids = match grid[i as usize][j as usize] {
                        CellState::EMPTY => false,
                        CellState::MISS => di == 0 && dj == 0,
                        CellState::HIT => di != 0 && dj != 0,
                        CellState::SUNK => true,
                    };
                    if forbids {
                        mask[r as usize][c as usize] = false;
                    }
                }
            }
        }
    }
    mask
}

#[test]
fn mask_agrees_with_looking_around_each_cell() {
    for seed in 0..60u64 {
        let n = seed as usize % 8;
        let grid = scrambled_board(n, seed);
        assert_eq!(exclusion_mask(&grid, n), mask_by_cells(&grid, n));
    }
}
