use battleship_odds::battlemap::{Battlemap, CellData, Mark};

fn overlap(size: u32, ships: &[u32], x: u32, y: u32) -> u32 {
    let mut sum = 0;
    for &s in ships {
        sum += (x + 1).min(size - x).min(s);
        sum += (y + 1).min(size - y).min(s);
    }
    sum
}

#[test]
fn corner_and_centre_of_the_usual_board() {
    let ships = vec![4, 3, 3, 2, 2, 2, 1, 1, 1, 1];
    let map = Battlemap::new(10, ships);
    let corner = map.get(0, 0).unwrap();
    assert_eq!(corner.mark, None);
    assert_eq!(corner.ship_overlap, 20);
    assert_eq!(corner.chance_numerator, 0);
    assert_eq!(corner.chance_denominator, 20);
    let centre = map.get(4, 5).unwrap();
    assert_eq!(centre.ship_overlap, 40);
    assert_eq!(centre.chance_numerator, 20);
    assert_eq!(centre.chance_denominator, 20);
    let edge = map.get(1, 0).unwrap();
    assert_eq!(edge.ship_overlap, 26);
    assert_eq!(edge.chance_numerator, 6);
}

#[test]
fn every_cell_has_the_overlap_of_the_formula() {
    let ships = vec![5, 1, 3, 0, 7];
    for size in 1..8u32 {
        let map = Battlemap::new(size, ships.clone());
        let mut lowest = u32::MAX;
        let mut highest = 0;
        for x in 0..size {
            for y in 0..size {
                lowest = lowest.min(overlap(size, &ships, x, y));
                highest = highest.max(overlap(size, &ships, x, y));
            }
        }
        for x in 0..size {
            for y in 0..size {
                let expected = if lowest < highest {
                    CellData {
                        mark: None,
                        ship_overlap: overlap(size, &ships, x, y),
                        chance_numerator: overlap(size, &ships, x, y) - lowest,
                        chance_denominator: highest - lowest,
                    }
                } else {
                    CellData {
                        mark: None,
                        ship_overlap: overlap(size, &ships, x, y),
                        chance_numerator: 0,
                        chance_denominator: 1,
                    }
                };
                assert_eq!(map.get(x, y), Some(expected));
            }
        }
    }
}

#[test]
fn cells_off_the_board_are_unknown_to_the_map() {
    let map = Battlemap::new(3, vec![2]);
    assert_eq!(map.get(3, 0), None);
    assert_eq!(map.get(0, 3), None);
    assert_eq!(map.get(u32::MAX, u32::MAX), None);
    let empty = Battlemap::new(0, vec![2]);
    assert_eq!(empty.get(0, 0), None);
}

#[test]
fn map_without_ships_has_no_overlap() {
    let map = Battlemap::new(2, Vec::new());
    let cell = map.get(1, 1).unwrap();
    assert_eq!(cell.ship_overlap, 0);
    assert_eq!(cell.chance_numerator, 0);
    assert_eq!(cell.chance_denominator, 1);
}

#[test]
fn board_of_one_overlap_has_the_chance_zero_over_one() {
    let map = Battlemap::new(1, vec![1]);
    let cell = map.get(0, 0).unwrap();
    assert_eq!(cell.ship_overlap, 2);
    assert_eq!(cell.chance_numerator, 0);
    assert_eq!(cell.chance_denominator, 1);
    let map = Battlemap::new(2, vec![3, 1]);
    for x in 0..2 {
        for y in 0..2 {
            let cell = map.get(x, y).unwrap();
            assert_eq!(cell.ship_overlap, 4);
            assert_eq!(cell.chance_numerator, 0);
            assert_eq!(cell.chance_denominator, 1);
        }
    }
}

#[test]
fn chance_is_a_ratio_from_zero_to_one() {
    for size in 1..9u32 {
        for ships in [vec![], vec![1], vec![2, 2], vec![4, 3, 3, 2], vec![0, 9]] {
            let map = Battlemap::new(size, ships);
            let mut lowest_seen = false;
            let mut highest_seen = false;
            for x in 0..size {
                for y in 0..size {
                    let cell = map.get(x, y).unwrap();
                    assert!(cell.chance_denominator > 0);
                    assert!(cell.chance_numerator <= cell.chance_denominator);
                    lowest_seen |= cell.chance_numerator == 0;
                    highest_seen |= cell.chance_numerator == cell.chance_denominator
                        || cell.chance_denominator == 1;
                }
            }
            assert!(lowest_seen && highest_seen);
        }
    }
}

#[test]
fn overlap_is_not_the_same_along_both_axes() {
    let map = Battlemap::new(4, vec![3]);
    assert_eq!(map.get(0, 1).unwrap().ship_overlap, 3);
    assert_eq!(map.get(1, 1).unwrap().ship_overlap, 4);
    assert_eq!(map.get(3, 2).unwrap().ship_overlap, 3);
}

#[test]
fn marks_can_be_told_apart() {
    assert_ne!(Mark::Sunk, Mark::Hurt);
    assert_ne!(Mark::Hurt, Mark::Miss);
    assert_eq!(Mark::Miss, Mark::Miss);
}
