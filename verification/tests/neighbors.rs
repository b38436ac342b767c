use battleship_odds::brain::{
    get_diagonal_neighbours, get_moore_neighbors, get_neumann_neighbors, neighbors,
    DIAGONAL_NEIGHBORHOOD, MOORE_NEIGHBORHOOD, NEUMANN_NEIGHBORHOOD,
};

#[test]
fn cross_of_a_corner_has_two_cells() {
    assert_eq!(get_neumann_neighbors(3, 0, 0), vec![(1, 0), (0, 1)]);
    assert_eq!(get_neumann_neighbors(3, 2, 2), vec![(1, 2), (2, 1)]);
}

#[test]
fn cross_of_an_inner_cell_keeps_the_order_of_the_offsets() {
    assert_eq!(
        get_neumann_neighbors(3, 1, 1),
        vec![(2, 1), (1, 2), (0, 1), (1, 0)]
    );
}

#[test]
fn diagonal_of_an_inner_cell_keeps_the_order_of_the_offsets() {
    assert_eq!(
        get_diagonal_neighbours(3, 1, 1),
        vec![(2, 2), (2, 0), (0, 0), (0, 2)]
    );
}

#[test]
fn diagonal_of_a_corner_has_one_cell() {
    assert_eq!(get_diagonal_neighbours(3, 0, 0), vec![(1, 1)]);
    assert_eq!(get_diagonal_neighbours(3, 0, 2), vec![(1, 1)]);
    assert_eq!(get_diagonal_neighbours(3, 2, 0), vec![(1, 1)]);
    assert_eq!(get_diagonal_neighbours(3, 2, 2), vec![(1, 1)]);
}

#[test]
fn ring_of_an_inner_cell_has_eight_cells_in_order() {
    assert_eq!(
        get_moore_neighbors(3, 1, 1),
        vec![
            (1, 2),
            (2, 1),
            (1, 0),
            (0, 1),
            (2, 2),
            (2, 0),
            (0, 0),
            (0, 2)
        ]
    );
}

#[test]
fn ring_of_an_edge_cell_has_five_cells() {
    assert_eq!(
        get_moore_neighbors(3, 0, 1),
        vec![(0, 2), (1, 1), (0, 0), (1, 2), (1, 0)]
    );
}

#[test]
fn single_cell_board_has_no_neighbours() {
    assert!(get_neumann_neighbors(1, 0, 0).is_empty());
    assert!(get_diagonal_neighbours(1, 0, 0).is_empty());
    assert!(get_moore_neighbors(1, 0, 0).is_empty());
}

#[test]
fn empty_board_has_no_neighbours() {
    assert!(get_moore_neighbors(0, 0, 0).is_empty());
}

#[test]
fn cell_beyond_the_board_keeps_only_cells_on_the_board() {
    assert_eq!(get_neumann_neighbors(3, 3, 1), vec![(2, 1)]);
    assert!(get_neumann_neighbors(3, usize::MAX, usize::MAX).is_empty());
    assert_eq!(
        get_moore_neighbors(usize::MAX, usize::MAX, 0),
        vec![(usize::MAX - 1, 0), (usize::MAX - 1, 1)]
    );
}

#[test]
fn neighbors_follow_any_list_of_offsets() {
    let offsets: [(isize, isize); 3] = [(2, 0), (0, -2), (isize::MIN, isize::MAX)];
    assert_eq!(neighbors(&offsets, 5, 2, 2), vec![(4, 2), (2, 0)]);
    assert_eq!(neighbors(&offsets, 5, 3, 1), Vec::<(usize, usize)>::new());
    assert!(neighbors(&[], 5, 2, 2).is_empty());
}

#[test]
fn offset_lists_have_their_entries() {
    assert_eq!(DIAGONAL_NEIGHBORHOOD, [(1, 1), (1, -1), (-1, -1), (-1, 1)]);
    assert_eq!(NEUMANN_NEIGHBORHOOD, [(1, 0), (0, 1), (-1, 0), (0, -1)]);
    assert_eq!(
        MOORE_NEIGHBORHOOD,
        [
            (0, 1),
            (1, 0),
            (0, -1),
            (-1, 0),
            (1, 1),
            (1, -1),
            (-1, -1),
            (-1, 1)
        ]
    );
}
