use battleship_odds::brain::{
    calculate_chances, count_placements, exclusion_mask, extract_sunken_ships, reduce_fleet,
    CellState,
};

fn board(n: usize, state: CellState) -> Vec<Vec<CellState>> {
    vec![vec![state; n]; n]
}

/// The score of every cell, by going through every window of every ship.
fn scores_by_enumeration(mask: &Vec<Vec<bool>>, n: usize, fleet: &Vec<usize>) -> Vec<Vec<usize>> {
    let mut scores = vec![vec![0usize; n]; n];
    for &s in fleet {
        if s == 0 || s > n {
            continue;
        }
        for line in 0..n {
            for start in 0..=(n - s) {
                if (start..start + s).all(|k| mask[line][k]) {
                    for k in start..start + s {
                        scores[line][k] += 1;
                    }
                }
                if (start..start + s).all(|k| mask[k][line]) {
                    for k in start..start + s {
                        scores[k][line] += 1;
                    }
                }
            }
        }
    }
    scores
}

fn scrambled_board(n: usize, seed: u64) -> Vec<Vec<CellState>> {
    let mut state = seed;
    let mut grid = board(n, CellState::EMPTY);
    for i in 0..n {
        for j in 0..n {
            state = state
                .wrapping_mul(6364136223846793005)
                .wrapping_add(1442695040888963407);
            grid[i][j] = match (state >> 33) % 8 {
                0 => CellState::MISS,
                1 => CellState::HIT,
                2 => CellState::SUNK,
                _ => CellState::EMPTY,
            };
        }
    }
    grid
}

#[test]
fn open_board_of_four_counts_windows_of_two() {
    let grid = board(4, CellState::EMPTY);
    let chances = calculate_chances(&grid, 4, &vec![2]);
    let expected = vec![
        vec![2, 3, 3, 2],
        vec![3, 4, 4, 3],
        vec![3, 4, 4, 3],
        vec![2, 3, 3, 2],
    ];
    assert_eq!(chances, expected);
}

#[test]
fn sunk_top_row_takes_the_ship_of_three() {
    let mut grid = board(3, CellState::EMPTY);
    for j in 0..3 {
        grid[0][j] = CellState::SUNK;
    }
    assert_eq!(extract_sunken_ships(&grid, 3), vec![3]);
    assert_eq!(reduce_fleet(&vec![3], &vec![3]), Vec::<usize>::new());
    let chances = calculate_chances(&grid, 3, &vec![3]);
    assert_eq!(chances, vec![vec![0; 3]; 3]);
}

#[test]
fn sunk_top_row_leaves_the_other_ships() {
    let mut grid = board(4, CellState::EMPTY);
    for j in 0..3 {
        grid[0][j] = CellState::SUNK;
    }
    let chances = calculate_chances(&grid, 4, &vec![3, 2]);
    let expected = vec![
        vec![0, 0, 0, 0],
        vec![0, 0, 0, 0],
        vec![2, 3, 3, 2],
        vec![2, 3, 3, 2],
    ];
    assert_eq!(chances, expected);
}

#[test]
fn single_cell_board_counts_both_axes() {
    let grid = board(1, CellState::EMPTY);
    assert_eq!(calculate_chances(&grid, 1, &vec![1]), vec![vec![2]]);
}

#[test]
fn ship_longer_than_the_board_scores_nothing() {
    let grid = board(1, CellState::EMPTY);
    assert_eq!(calculate_chances(&grid, 1, &vec![2]), vec![vec![0]]);
    let grid = board(3, CellState::EMPTY);
    assert_eq!(calculate_chances(&grid, 3, &vec![4, 7]), vec![vec![0; 3]; 3]);
}

#[test]
fn ship_of_length_zero_scores_nothing() {
    let grid = board(3, CellState::EMPTY);
    assert_eq!(calculate_chances(&grid, 3, &vec![0]), vec![vec![0; 3]; 3]);
    assert_eq!(
        calculate_chances(&grid, 3, &vec![0, 3]),
        calculate_chances(&grid, 3, &vec![3])
    );
}

#[test]
fn empty_fleet_scores_nothing() {
    let grid = board(3, CellState::EMPTY);
    assert_eq!(calculate_chances(&grid, 3, &vec![]), vec![vec![0; 3]; 3]);
}

#[test]
fn empty_board_has_no_scores() {
    let grid: Vec<Vec<CellState>> = Vec::new();
    assert_eq!(
        calculate_chances(&grid, 0, &vec![2, 3]),
        Vec::<Vec<usize>>::new()
    );
}

#[test]
fn ship_that_spans_the_board_has_one_window_per_line() {
    let grid = board(3, CellState::EMPTY);
    assert_eq!(calculate_chances(&grid, 3, &vec![3]), vec![vec![2; 3]; 3]);
}

#[test]
fn each_ship_of_a_length_counts_on_its_own() {
    let grid = board(4, CellState::EMPTY);
    let once = calculate_chances(&grid, 4, &vec![2]);
    let thrice = calculate_chances(&grid, 4, &vec![2, 2, 2]);
    for i in 0..4 {
        for j in 0..4 {
            assert_eq!(thrice[i][j], 3 * once[i][j]);
        }
    }
}

#[test]
fn open_board_scores_every_cell_above_zero() {
    for n in 1..6 {
        let grid = board(n, CellState::EMPTY);
        for len in 1..=n {
            let chances = calculate_chances(&grid, n, &vec![len]);
            for row in &chances {
                for &score in row {
                    assert!(score > 0);
                }
            }
        }
    }
}

#[test]
fn miss_scores_zero_and_changes_its_lines_only() {
    let before = calculate_chances(&board(4, CellState::EMPTY), 4, &vec![2]);
    let mut grid = board(4, CellState::EMPTY);
    grid[1][2] = CellState::MISS;
    let after = calculate_chances(&grid, 4, &vec![2]);
    let expected = vec![
        vec![2, 3, 2, 2],
        vec![3, 3, 0, 2],
        vec![3, 4, 3, 3],
        vec![2, 3, 3, 2],
    ];
    assert_eq!(after, expected);
    for i in 0..4 {
        for j in 0..4 {
            assert!(after[i][j] <= before[i][j]);
            if i != 1 && j != 2 {
                assert_eq!(after[i][j], before[i][j]);
            }
        }
    }
}

#[test]
fn one_more_miss_never_raises_a_score() {
    for seed in 0..20u64 {
        let n = 5;
        let fleet = vec![4, 3, 3, 2, 2, 1];
        let grid = scrambled_board(n, seed);
        let before = calculate_chances(&grid, n, &fleet);
        for i in 0..n {
            for j in 0..n {
                if grid[i][j] != CellState::EMPTY {
                    continue;
                }
                let mut with_miss = grid.clone();
                with_miss[i][j] = CellState::MISS;
                let after = calculate_chances(&with_miss, n, &fleet);
                assert_eq!(after[i][j], 0);
                for r in 0..n {
                    for c in 0..n {
                        assert!(after[r][c] <= before[r][c]);
                    }
                }
            }
        }
    }
}

#[test]
fn same_inputs_give_the_same_scores() {
    for seed in 0..10u64 {
        let grid = scrambled_board(6, seed);
        let fleet = vec![4, 3, 3, 2, 2, 2];
        let first = calculate_chances(&grid, 6, &fleet);
        let second = calculate_chances(&grid, 6, &fleet);
        assert_eq!(first, second);
    }
}

#[test]
fn scores_agree_with_enumeration() {
    for seed in 0..50u64 {
        let n = 1 + (seed as usize % 7);
        let fleet = vec![4, 3, 3, 2, 2, 2, 1, 0, 9];
        let grid = scrambled_board(n, seed);
        let mask = exclusion_mask(&grid, n);
        let left = reduce_fleet(&fleet, &extract_sunken_ships(&grid, n));
        let expected = scores_by_enumeration(&mask, n, &left);
        assert_eq!(count_placements(&mask, n, &left), expected);
        assert_eq!(calculate_chances(&grid, n, &fleet), expected);
    }
}

#[test]
fn count_placements_stops_at_forbidden_cells() {
    let mask = vec![
        vec![true, true, false],
        vec![true, true, true],
        vec![false, true, true],
    ];
    let expected = vec![vec![2, 2, 0], vec![2, 4, 2], vec![0, 2, 2]];
    assert_eq!(count_placements(&mask, 3, &vec![2]), expected);
    let expected = vec![vec![0, 1, 0], vec![1, 2, 1], vec![0, 1, 0]];
    assert_eq!(count_placements(&mask, 3, &vec![3]), expected);
}

#[test]
fn hit_keeps_its_own_cell_in_play() {
    let mut grid = board(3, CellState::EMPTY);
    grid[1][1] = CellState::HIT;
    let chances = calculate_chances(&grid, 3, &vec![2]);
    let expected = vec![vec![0, 1, 0], vec![1, 4, 1], vec![0, 1, 0]];
    assert_eq!(chances, expected);
}
