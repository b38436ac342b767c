use battleship_odds::brain::{extract_sunken_ships, reduce_fleet, CellState, GridState};

fn board_from(rows: &[&str]) -> Vec<Vec<CellState>> {
    rows.iter()
        .map(|row| {
            row.chars()
                .map(|c| match c {
                    'o' => CellState::MISS,
                    'x' => CellState::HIT,
                    '#' => CellState::SUNK,
                    _ => CellState::EMPTY,
                })
                .collect()
        })
        .collect()
}

#[test]
fn sunk_top_row_is_one_wreck_of_three() {
    let grid = board_from(&["###", "...", "..."]);
    assert_eq!(extract_sunken_ships(&grid, 3), vec![3]);
}

#[test]
fn board_of_sunk_segments_is_one_wreck() {
    for n in 1..7 {
        let grid = vec![vec![CellState::SUNK; n]; n];
        assert_eq!(extract_sunken_ships(&grid, n), vec![n * n]);
    }
}

#[test]
fn empty_board_has_no_wreck() {
    let grid: Vec<Vec<CellState>> = Vec::new();
    assert_eq!(extract_sunken_ships(&grid, 0), Vec::<usize>::new());
}

#[test]
fn board_without_sunk_segments_has_no_wreck() {
    let grid = board_from(&["ox.", ".xo", "..."]);
    assert_eq!(extract_sunken_ships(&grid, 3), Vec::<usize>::new());
}

#[test]
fn wrecks_come_in_the_order_of_their_first_cells() {
    let grid = board_from(&[
        "#.##.",
        "#....",
        "...#.",
        "#..#.",
        "...#.",
    ]);
    assert_eq!(extract_sunken_ships(&grid, 5), vec![2, 2, 3, 1]);
}

#[test]
fn segments_that_touch_at_a_corner_are_separate_wrecks() {
    let grid = board_from(&["#..", ".#.", "..#"]);
    assert_eq!(extract_sunken_ships(&grid, 3), vec![1, 1, 1]);
}

#[test]
fn winding_wreck_is_counted_once() {
    let grid = board_from(&[
        "####",
        "...#",
        "####",
        "#...",
    ]);
    assert_eq!(extract_sunken_ships(&grid, 4), vec![10]);
}

#[test]
fn wreck_reached_from_below_is_counted_once() {
    let grid = board_from(&[
        ".#.#",
        ".#.#",
        ".###",
        "....",
    ]);
    assert_eq!(extract_sunken_ships(&grid, 4), vec![7]);
}

#[test]
fn hits_and_misses_do_not_join_wrecks() {
    let grid = board_from(&["#x#", "o.o", "#o#"]);
    assert_eq!(extract_sunken_ships(&grid, 3), vec![1, 1, 1, 1]);
}

#[test]
fn reduce_fleet_takes_the_first_ship_of_each_size() {
    assert_eq!(reduce_fleet(&vec![4, 3, 3, 2], &vec![3]), vec![4, 3, 2]);
    assert_eq!(reduce_fleet(&vec![2, 3, 2, 3], &vec![3, 3]), vec![2, 2]);
    assert_eq!(reduce_fleet(&vec![2, 3, 2, 3], &vec![2]), vec![3, 2, 3]);
}

#[test]
fn reduce_fleet_ignores_sizes_without_a_ship() {
    assert_eq!(reduce_fleet(&vec![4, 3], &vec![5, 1]), vec![4, 3]);
    assert_eq!(reduce_fleet(&vec![3], &vec![3, 3]), Vec::<usize>::new());
    assert_eq!(reduce_fleet(&vec![], &vec![3]), Vec::<usize>::new());
    assert_eq!(reduce_fleet(&vec![4, 3], &vec![]), vec![4, 3]);
}

#[test]
fn grid_state_knows_a_square_board() {
    let square = GridState {
        cells: board_from(&["..", ".."]),
    };
    assert!(square.is_board(2));
    assert!(!square.is_board(3));
    let ragged = GridState {
        cells: board_from(&["..", "."]),
    };
    assert!(!ragged.is_board(2));
    let empty = GridState { cells: Vec::new() };
    assert!(empty.is_board(0));
    assert!(!empty.is_board(1));
}

#[test]
fn cell_states_have_their_signs() {
    assert_eq!(CellState::EMPTY.to_text(), "");
    assert_eq!(CellState::MISS.to_text(), "o");
    assert_eq!(CellState::HIT.to_text(), "x");
    assert_eq!(CellState::SUNK.to_text(), "X");
    assert_eq!(CellState::default(), CellState::EMPTY);
}

fn scrambled_board(n: usize, seed: u64) -> Vec<Vec<CellState>> {
    let mut state = seed.wrapping_mul(2862933555777941757).wrapping_add(3037000493);
    let mut grid = vec![vec![CellState::EMPTY; n]; n];
    for i in 0..n {
        for j in 0..n {
            state = state
                .wrapping_mul(6364136223846793005)
                .wrapping_add(1442695040888963407);
            grid[i][j] = match (state >> 33) % 5 {
                0 => CellState::MISS,
                1 => CellState::HIT,
                2 | 3 => CellState::SUNK,
                _ => CellState::EMPTY,
            };
        }
    }
    grid
}

/// The sizes of the wrecks, found by giving every sunk cell a label and merging the
/// labels of cells that share an edge until none changes.
fn sizes_by_labels(grid: &Vec<Vec<CellState>>, n: usize) -> Vec<usize> {
    let mut label = vec![vec![usize::MAX; n]; n];
    for i in 0..n {
        for j in 0..n {
            if grid[i][j] == CellState::SUNK {
                label[i][j] = i * n + j;
            }
        }
    }
    let mut changed = true;
    while changed {
        changed = false;
        for i in 0..n {
            for j in 0..n {
                if grid[i][j] != CellState::SUNK {
                    continue;
                }
                let mut lowest = label[i][j];
                if i > 0 && grid[i - 1][j] == CellState::SUNK {
                    lowest = lowest.min(label[i - 1][j]);
                }
                if j > 0 && grid[i][j - 1] == CellState::SUNK {
                    lowest = lowest.min(label[i][j - 1]);
                }
                if i + 1 < n && grid[i + 1][j] == CellState::SUNK {
                    lowest = lowest.min(label[i + 1][j]);
                }
                if j + 1 < n && grid[i][j + 1] == CellState::SUNK {
                    lowest = lowest.min(label[i][j + 1]);
                }
                if lowest != label[i][j] {
                    label[i][j] = lowest;
                    changed = true;
                }
            }
        }
    }
    let mut sizes = Vec::new();
    for first in 0..n * n {
        let count = label.iter().flatten().filter(|&&l| l == first).count();
        if count > 0 {
            sizes.push(count);
        }
    }
    sizes
}

#[test]
fn wreck_sizes_agree_with_labelling() {
    for seed in 0..60u64 {
        let n = seed as usize % 9;
        let grid = scrambled_board(n, seed);
        assert_eq!(extract_sunken_ships(&grid, n), sizes_by_labels(&grid, n));
    }
}

#[test]
fn wreck_sizes_add_up_to_the_sunk_cells() {
    for seed in 100..130u64 {
        let n = 7;
        let grid = scrambled_board(n, seed);
        let sunk_cells = grid
            .iter()
            .flatten()
            .filter(|&&state| state == CellState::SUNK)
            .count();
        let sizes = extract_sunken_ships(&grid, n);
        assert_eq!(sizes.iter().sum::<usize>(), sunk_cells);
        assert!(sizes.iter().all(|&size| size >= 1));
    }
}
