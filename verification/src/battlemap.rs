//! The static view of a board: how many ways the ships of a fleet can overlap each
//! cell when nothing has been observed yet.

use std::collections::HashMap;
use vstd::prelude::*;

verus! {

/// What a player has marked on a cell.
#[derive(Debug, Clone, Copy, PartialEq, Eq, Structural)]
pub enum Mark {
    Sunk,
    Hurt,
    Miss,
}

/// What the map knows of one cell. The chance of a hit there, relative to the other
/// cells, is `chance_numerator / chance_denominator`, a number from 0 to 1: the
/// denominator is above zero and the numerator is not above the denominator.
#[derive(Debug, Clone, Copy, PartialEq, Eq)]
pub struct CellData {
    pub mark: Option<Mark>,
    pub ship_overlap: u32,
    /// By how much the overlap of this cell exceeds the lowest overlap on the board;
    /// zero where all cells have the same overlap.
    pub chance_numerator: u32,
    /// By how much the highest overlap on the board exceeds the lowest; one where all
    /// cells have the same overlap.
    pub chance_denominator: u32,
}

/// A square board with the fleet that plays on it and the overlap of every cell.
#[derive(Debug)]
pub struct Battlemap {
    size: u32,
    ships: Vec<u32>,
    marked: HashMap<u64, Mark>,
    ship_overlap_map: Vec<u32>,
}

/// The smaller of two numbers.
pub open spec fn smaller(a: int, b: int) -> int {
    if a <= b {
        a
    } else {
        b
    }
}

/// The number of cells from position `i` to the nearer edge of a line of `size` cells,
/// `i` itself counted.
pub open spec fn reach_to_edge(size: int, i: int) -> int {
    smaller(i + 1, size - i)
}

/// The overlap that one ship of length `len` gives the cell `(x, y)`: along each axis
/// the reach to the nearer edge, but no more than the ship's length.
pub open spec fn ship_overlap_at(size: int, len: int, x: int, y: int) -> int {
    smaller(reach_to_edge(size, x), len) + smaller(reach_to_edge(size, y), len)
}

/// The overlap that the ships of a fleet give the cell `(x, y)` together.
pub open spec fn fleet_overlap_at(size: int, ships: Seq<u32>, x: int, y: int) -> int
    decreases ships.len(),
{
    if ships.len() == 0 {
        0
    } else {
        fleet_overlap_at(size, ships.drop_last(), x, y) + ship_overlap_at(
            size,
            ships.last() as int,
            x,
            y,
        )
    }
}

/// Where the cell `(x, y)` stands when the rows of the board are laid end to end.
pub open spec fn cell_index(size: int, x: int, y: int) -> int {
    y * size + x
}

/// The entry for the cell `(x, y)` in a list that holds one entry for each cell.
pub open spec fn entry_of(entries: Seq<u32>, size: int, x: int, y: int) -> u32 {
    entries[cell_index(size, x, y)]
}

/// `m` is the overlap of some cell of the board, and no cell has a lower one.
pub open spec fn is_lowest_overlap(size: int, ships: Seq<u32>, m: int) -> bool {
    &&& exists|x: int, y: int|
        0 <= x < size && 0 <= y < size && #[trigger] fleet_overlap_at(size, ships, x, y) == m
    &&& forall|x: int, y: int|
        0 <= x < size && 0 <= y < size ==> m <= #[trigger] fleet_overlap_at(size, ships, x, y)
}

/// `m` is the overlap of some cell of the board, and no cell has a higher one.
pub open spec fn is_highest_overlap(size: int, ships: Seq<u32>, m: int) -> bool {
    &&& exists|x: int, y: int|
        0 <= x < size && 0 <= y < size && #[trigger] fleet_overlap_at(size, ships, x, y) == m
    &&& forall|x: int, y: int|
        0 <= x < size && 0 <= y < size ==> m >= #[trigger] fleet_overlap_at(size, ships, x, y)
}

/// The lowest overlap of a cell of the board.
pub open spec fn lowest_overlap(size: int, ships: Seq<u32>) -> int {
    choose|m: int| is_lowest_overlap(size, ships, m)
}

/// The highest overlap of a cell of the board.
pub open spec fn highest_overlap(size: int, ships: Seq<u32>) -> int {
    choose|m: int| is_highest_overlap(size, ships, m)
}

/// The numerator and the denominator of the chance of a hit on a cell with the given
/// overlap: how far the overlap lies above the lowest, over how far the highest lies
/// above the lowest; zero over one where all cells have the same overlap.
pub open spec fn chance_terms(size: int, ships: Seq<u32>, overlap: int) -> (int, int) {
    let lowest = lowest_overlap(size, ships);
    let highest = highest_overlap(size, ships);
    if lowest < highest {
        (overlap - lowest, highest - lowest)
    } else {
        (0, 1)
    }
}

/// A board has one lowest overlap: a number that is one is the lowest overlap.
pub proof fn lemma_lowest_overlap_is(size: int, ships: Seq<u32>, m: int)
    requires
        is_lowest_overlap(size, ships, m),
    ensures
        lowest_overlap(size, ships) == m,
{
    let other = lowest_overlap(size, ships);
    assert(is_lowest_overlap(size, ships, other));
    let (x, y) = choose|x: int, y: int|
        0 <= x < size && 0 <= y < size && #[trigger] fleet_overlap_at(size, ships, x, y) == m;
    let (v, w) = choose|v: int, w: int|
        0 <= v < size && 0 <= w < size && #[trigger] fleet_overlap_at(size, ships, v, w) == other;
    assert(other <= fleet_overlap_at(size, ships, x, y));
    assert(m <= fleet_overlap_at(size, ships, v, w));
}

/// A board has one highest overlap: a number that is one is the highest overlap.
pub proof fn lemma_highest_overlap_is(size: int, ships: Seq<u32>, m: int)
    requires
        is_highest_overlap(size, ships, m),
    ensures
        highest_overlap(size, ships) == m,
{
    let other = highest_overlap(size, ships);
    assert(is_highest_overlap(size, ships, other));
    let (x, y) = choose|x: int, y: int|
        0 <= x < size && 0 <= y < size && #[trigger] fleet_overlap_at(size, ships, x, y) == m;
    let (v, w) = choose|v: int, w: int|
        0 <= v < size && 0 <= w < size && #[trigger] fleet_overlap_at(size, ships, v, w) == other;
    assert(other >= fleet_overlap_at(size, ships, x, y));
    assert(m >= fleet_overlap_at(size, ships, v, w));
}

/// The cells of a board have their places within its `size * size` entries.
pub proof fn lemma_cell_index_in_range(size: int, x: int, y: int)
    requires
        0 <= x < size,
        0 <= y < size,
    ensures
        0 <= cell_index(size, x, y) < size * size,
{
    assert(y * size + x < size * size) by (nonlinear_arith)
        requires
            0 <= x < size,
            0 <= y < size,
    ;
    assert(0 <= y * size) by (nonlinear_arith)
        requires
            0 <= y,
            0 < size,
    ;
}

/// Two cells of a board have different places.
pub proof fn lemma_cell_index_distinct(size: int, x1: int, y1: int, x2: int, y2: int)
    requires
        0 <= x1 < size,
        0 <= x2 < size,
        cell_index(size, x1, y1) == cell_index(size, x2, y2),
    ensures
        x1 == x2,
        y1 == y2,
{
    assert(y1 == y2) by (nonlinear_arith)
        requires
            0 <= x1 < size,
            0 <= x2 < size,
            y1 * size + x1 == y2 * size + x2,
    ;
}

/// A ship gives no cell of the board a negative overlap, and none above the side of
/// the board plus one.
pub proof fn lemma_ship_overlap_bounds(size: int, len: int, x: int, y: int)
    requires
        0 <= x < size,
        0 <= y < size,
        0 <= len,
    ensures
        0 <= ship_overlap_at(size, len, x, y) <= size + 1,
{
}

/// A part of the fleet, taken from its start, gives a cell no more overlap than the
/// whole fleet.
pub proof fn lemma_fleet_overlap_grows(size: int, ships: Seq<u32>, k: int, x: int, y: int)
    requires
        0 <= x < size,
        0 <= y < size,
        0 <= k <= ships.len(),
    ensures
        0 <= fleet_overlap_at(size, ships.take(k), x, y) <= fleet_overlap_at(size, ships, x, y),
    decreases ships.len(),
{
    if ships.len() == 0 {
        assert(ships.take(k) =~= ships);
    } else if k == ships.len() {
        assert(ships.take(k) =~= ships);
        lemma_fleet_overlap_grows(size, ships.drop_last(), k - 1, x, y);
        assert(ships.drop_last().take(k - 1) =~= ships.drop_last());
        lemma_ship_overlap_bounds(size, ships.last() as int, x, y);
    } else {
        lemma_fleet_overlap_grows(size, ships.drop_last(), k, x, y);
        assert(ships.drop_last().take(k) =~= ships.take(k));
        lemma_ship_overlap_bounds(size, ships.last() as int, x, y);
    }
}

/// The smaller of two numbers.
fn lesser(a: u32, b: u32) -> (m: u32)
    ensures
        m == smaller(a as int, b as int),
{
    if a <= b {
        a
    } else {
        b
    }
}

impl Battlemap {
    /// The side of the board.
    pub closed spec fn side(&self) -> u32 {
        self.size
    }

    /// The lengths of the ships that play on the board.
    pub closed spec fn fleet(&self) -> Seq<u32> {
        self.ships@
    }

    /// The marks set on the board, by the place of their cell.
    pub closed spec fn marks(&self) -> Map<u64, Mark> {
        self.marked@
    }

    #[verifier::type_invariant]
    spec fn well_formed(&self) -> bool {
        &&& self.size * self.size <= u32::MAX
        &&& self.ship_overlap_map@.len() == self.size * self.size
        &&& forall|x: int, y: int|
            0 <= x < self.size && 0 <= y < self.size ==> #[trigger] entry_of(
                self.ship_overlap_map@,
                self.size as int,
                x,
                y,
            ) == fleet_overlap_at(self.size as int, self.ships@, x, y)
    }

    /// The place of the cell `(x, y)`, if it is on the board.
    fn pos_to_idx(&self, x: u32, y: u32) -> (idx: Option<u64>)
        ensures
            idx is Some <==> x < self.side() && y < self.side(),
            idx matches Some(place) ==> place == cell_index(self.side() as int, x as int, y as int),
    {
        if x >= self.size || y >= self.size {
            return None;
        }
        proof {
            use_type_invariant(self);
            lemma_cell_index_in_range(self.size as int, x as int, y as int);
            assert(self.size * y == y * self.size) by (nonlinear_arith);
        }
        Some((self.size as u64) * (y as u64) + (x as u64))
    }

    /// The cell for a place that lies a whole number of boards from the start: its
    /// column is the place's remainder by the side, its row the quotient, cut to 32 bits.
    /// Any other place has no cell.
    #[allow(dead_code)]
    fn index_to_pos(&self, idx: u64) -> (pos: Option<(u32, u32)>)
        requires
            self.side() > 0,
        ensures
            pos == (if idx % ((self.side() * self.side()) as u64) == 0 {
                Some(((idx % self.side() as u64) as u32, (idx / self.side() as u64) as u32))
            } else {
                None
            }),
    {
        proof {
            use_type_invariant(self);
            assert(self.size * self.size > 0) by (nonlinear_arith)
                requires
                    self.size > 0,
            ;
        }
        if idx % ((self.size * self.size) as u64) != 0 {
            return None;
        }
        Some(
            (
                (idx % self.size as u64) as u32,
                #[verifier::truncate]
                ((idx / self.size as u64) as u32),
            ),
        )
    }

    /// The highest overlap on the board; zero on a board without cells.
    fn max_overlap(&self) -> (m: u32)
        ensures
            self.side() == 0 ==> m == 0,
            self.side() > 0 ==> is_highest_overlap(self.side() as int, self.fleet(), m as int),
    {
        proof {
            use_type_invariant(self);
        }
        if self.size == 0 {
            return 0;
        }
        proof {
            lemma_cell_index_in_range(self.size as int, 0, 0);
        }
        let ghost size = self.size as int;
        let ghost ships = self.ships@;
        let mut m: u32 = self.ship_overlap_map[0];
        assert(m == entry_of(self.ship_overlap_map@, self.size as int, 0, 0));
        let ghost mut at: (int, int) = (0, 0);
        let mut x: u32 = 0;
        while x < self.size
            invariant
                x <= self.size,
                size == self.size,
                ships == self.ships@,
                self.well_formed(),
                0 <= at.0 < size && 0 <= at.1 < size,
                fleet_overlap_at(size, ships, at.0, at.1) == m,
                forall|i: int, j: int|
                    0 <= i < x && 0 <= j < size ==> m >= #[trigger] fleet_overlap_at(
                        size,
                        ships,
                        i,
                        j,
                    ),
            decreases self.size - x,
        {
            let mut y: u32 = 0;
            while y < self.size
                invariant
                    x < self.size,
                    y <= self.size,
                    size == self.size,
                    ships == self.ships@,
                    self.well_formed(),
                    0 <= at.0 < size && 0 <= at.1 < size,
                    fleet_overlap_at(size, ships, at.0, at.1) == m,
                    forall|i: int, j: int|
                        0 <= i < x && 0 <= j < size ==> m >= #[trigger] fleet_overlap_at(
                            size,
                            ships,
                            i,
                            j,
                        ),
                    forall|j: int|
                        0 <= j < y ==> m >= #[trigger] fleet_overlap_at(size, ships, x as int, j),
                decreases self.size - y,
            {
                proof {
                    lemma_cell_index_in_range(size, x as int, y as int);
                    assert(y * self.size + x == cell_index(size, x as int, y as int));
                }
                let here: u32 = self.ship_overlap_map[(y * self.size + x) as usize];
                assert(here == entry_of(self.ship_overlap_map@, size, x as int, y as int));
                if here > m {
                    m = here;
                    proof {
                        at = (x as int, y as int);
                    }
                }
                y += 1;
            }
            x += 1;
        }
        m
    }

    /// The lowest overlap on the board; zero on a board without cells.
    fn min_overlap(&self) -> (m: u32)
        ensures
            self.side() == 0 ==> m == 0,
            self.side() > 0 ==> is_lowest_overlap(self.side() as int, self.fleet(), m as int),
    {
        proof {
            use_type_invariant(self);
        }
        if self.size == 0 {
            return 0;
        }
        proof {
            lemma_cell_index_in_range(self.size as int, 0, 0);
        }
        let ghost size = self.size as int;
        let ghost ships = self.ships@;
        let mut m: u32 = self.ship_overlap_map[0];
        assert(m == entry_of(self.ship_overlap_map@, self.size as int, 0, 0));
        let ghost mut at: (int, int) = (0, 0);
        let mut x: u32 = 0;
        while x < self.size
            invariant
                x <= self.size,
                size == self.size,
                ships == self.ships@,
                self.well_formed(),
                0 <= at.0 < size && 0 <= at.1 < size,
                fleet_overlap_at(size, ships, at.0, at.1) == m,
                forall|i: int, j: int|
                    0 <= i < x && 0 <= j < size ==> m <= #[trigger] fleet_overlap_at(
                        size,
                        ships,
                        i,
                        j,
                    ),
            decreases self.size - x,
        {
            let mut y: u32 = 0;
            while y < self.size
                invariant
                    x < self.size,
                    y <= self.size,
                    size == self.size,
                    ships == self.ships@,
                    self.well_formed(),
                    0 <= at.0 < size && 0 <= at.1 < size,
                    fleet_overlap_at(size, ships, at.0, at.1) == m,
                    forall|i: int, j: int|
                        0 <= i < x && 0 <= j < size ==> m <= #[trigger] fleet_overlap_at(
                            size,
                            ships,
                            i,
                            j,
                        ),
                    forall|j: int|
                        0 <= j < y ==> m <= #[trigger] fleet_overlap_at(size, ships, x as int, j),
                decreases self.size - y,
            {
                proof {
                    lemma_cell_index_in_range(size, x as int, y as int);
                    assert(y * self.size + x == cell_index(size, x as int, y as int));
                }
                let here: u32 = self.ship_overlap_map[(y * self.size + x) as usize];
                assert(here == entry_of(self.ship_overlap_map@, size, x as int, y as int));
                if here < m {
                    m = here;
                    proof {
                        at = (x as int, y as int);
                    }
                }
                y += 1;
            }
            x += 1;
        }
        m
    }

    /// A board of side `size` for the fleet `ships`, without marks, with the overlap of
    /// every cell worked out.
    pub fn new(size: u32, ships: Vec<u32>) -> (map: Battlemap)
        requires
            size * size <= u32::MAX,
            forall|x: int, y: int|
                0 <= x < size && 0 <= y < size ==> #[trigger] fleet_overlap_at(
                    size as int,
                    ships@,
                    x,
                    y,
                ) <= u32::MAX,
        ensures
            map.side() == size,
            map.fleet() == ships@,
            map.marks() == Map::<u64, Mark>::empty(),
    {
        let ghost n = size as int;
        let cells: u32 = size * size;
        let mut ship_overlap_map: Vec<u32> = Vec::new();
        let mut k: u32 = 0;
        while k < cells
            invariant
                k <= cells,
                ship_overlap_map@.len() == k,
                forall|w: int| 0 <= w < k ==> ship_overlap_map@[w] == 0,
            decreases cells - k,
        {
            ship_overlap_map.push(0);
            k += 1;
        }
        proof {
            assert forall|x: int, y: int| 0 <= x < size && 0 <= y < size implies #[trigger] entry_of(
                ship_overlap_map@,
                n,
                x,
                y,
            ) == 0 by {
                lemma_cell_index_in_range(n, x, y);
            }
        }
        let mut i: u32 = 0;
        while i < size
            invariant
                i <= size,
                n == size,
                cells == size * size,
                ship_overlap_map@.len() == cells,
                forall|x: int, y: int|
                    0 <= x < size && 0 <= y < size ==> #[trigger] fleet_overlap_at(
                        n,
                        ships@,
                        x,
                        y,
                    ) <= u32::MAX,
                forall|x: int, y: int|
                    0 <= x < size && 0 <= y < size ==> #[trigger] entry_of(
                        ship_overlap_map@,
                        n,
                        x,
                        y,
                    ) == (if x < i {
                        fleet_overlap_at(n, ships@, x, y)
                    } else {
                        0
                    }),
            decreases size - i,
        {
            let mut j: u32 = 0;
            while j < size
                invariant
                    i < size,
                    j <= size,
                    n == size,
                    cells == size * size,
                    ship_overlap_map@.len() == cells,
                    forall|x: int, y: int|
                        0 <= x < size && 0 <= y < size ==> #[trigger] fleet_overlap_at(
                            n,
                            ships@,
                            x,
                            y,
                        ) <= u32::MAX,
                    forall|x: int, y: int|
                        0 <= x < size && 0 <= y < size ==> #[trigger] entry_of(
                            ship_overlap_map@,
                            n,
                            x,
                            y,
                        ) == (if x < i || (x == i && y < j) {
                            fleet_overlap_at(n, ships@, x, y)
                        } else {
                            0
                        }),
                decreases size - j,
            {
                proof {
                    lemma_cell_index_in_range(n, i as int, j as int);
                    assert(j * size + i == cell_index(n, i as int, j as int));
                }
                let idx: usize = (j * size + i) as usize;
                let ghost before = ship_overlap_map@;
                let mut s: usize = 0;
                proof {
                    assert(ships@.take(0).len() == 0);
                    assert(entry_of(before, n, i as int, j as int) == 0);
                }
                while s < ships.len()
                    invariant
                        s <= ships@.len(),
                        i < size,
                        j < size,
                        n == size,
                        idx == cell_index(n, i as int, j as int),
                        ship_overlap_map@.len() == before.len(),
                        idx < before.len(),
                        fleet_overlap_at(n, ships@, i as int, j as int) <= u32::MAX,
                        ship_overlap_map@[idx as int] == fleet_overlap_at(
                            n,
                            ships@.take(s as int),
                            i as int,
                            j as int,
                        ),
                        forall|w: int|
                            0 <= w < before.len() && w != idx ==> ship_overlap_map@[w] == before[w],
                    decreases ships@.len() - s,
                {
                    let len: u32 = ships[s];
                    let along: u32 = lesser(lesser(i + 1, size - i), len);
                    let across: u32 = lesser(lesser(j + 1, size - j), len);
                    proof {
                        assert(ships@.take(s + 1).drop_last() =~= ships@.take(s as int));
                        assert(ships@.take(s + 1).last() == len);
                        lemma_fleet_overlap_grows(n, ships@, s + 1, i as int, j as int);
                        lemma_ship_overlap_bounds(n, len as int, i as int, j as int);
                    }
                    let so_far: u32 = ship_overlap_map[idx];
                    ship_overlap_map.set(idx, so_far + along + across);
                    s += 1;
                }
                proof {
                    assert(ships@.take(s as int) =~= ships@);
                    assert forall|x: int, y: int|
                        0 <= x < size && 0 <= y < size implies #[trigger] entry_of(
                        ship_overlap_map@,
                        n,
                        x,
                        y,
                    ) == (if x < i || (x == i && y < j + 1) {
                        fleet_overlap_at(n, ships@, x, y)
                    } else {
                        0
                    }) by {
                        lemma_cell_index_in_range(n, x, y);
                        if cell_index(n, x, y) == idx {
                            lemma_cell_index_distinct(n, x, y, i as int, j as int);
                        } else {
                            assert(entry_of(before, n, x, y) == (if x < i || (x == i && y < j) {
                                fleet_overlap_at(n, ships@, x, y)
                            } else {
                                0
                            }));
                        }
                    }
                }
                j += 1;
            }
            i += 1;
        }
        Battlemap { size, marked: HashMap::new(), ships, ship_overlap_map }
    }

    /// What the map knows of the cell `(x, y)`; nothing where the cell is off the board.
    pub fn get(&self, x: u32, y: u32) -> (cell: Option<CellData>)
        ensures
            cell is Some <==> x < self.side() && y < self.side(),
            cell matches Some(data) ==> {
                &&& data.mark == (if self.marks().contains_key(
                    cell_index(self.side() as int, x as int, y as int) as u64,
                ) {
                    Some(self.marks()[cell_index(self.side() as int, x as int, y as int) as u64])
                } else {
                    None
                })
                &&& data.ship_overlap == fleet_overlap_at(
                    self.side() as int,
                    self.fleet(),
                    x as int,
                    y as int,
                )
                &&& is_lowest_overlap(
                    self.side() as int,
                    self.fleet(),
                    lowest_overlap(self.side() as int, self.fleet()),
                )
                &&& is_highest_overlap(
                    self.side() as int,
                    self.fleet(),
                    highest_overlap(self.side() as int, self.fleet()),
                )
                &&& (data.chance_numerator as int, data.chance_denominator as int)
                    == chance_terms(self.side() as int, self.fleet(), data.ship_overlap as int)
                &&& data.chance_denominator > 0
                &&& data.chance_numerator <= data.chance_denominator
            },
    {
        broadcast use vstd::std_specs::hash::group_hash_axioms;

        proof {
            use_type_invariant(self);
        }
        let idx = match self.pos_to_idx(x, y) {
            Some(idx) => idx,
            None => {
                return None;
            },
        };
        let mark = match self.marked.get(&idx) {
            Some(m) => Some(*m),
            None => None,
        };
        proof {
            lemma_cell_index_in_range(self.size as int, x as int, y as int);
        }
        let ship_overlap: u32 = self.ship_overlap_map[idx as usize];
        assert(ship_overlap == entry_of(
            self.ship_overlap_map@,
            self.size as int,
            x as int,
            y as int,
        ));
        let max_overlap: u32 = self.max_overlap();
        let min_overlap: u32 = self.min_overlap();
        proof {
            lemma_lowest_overlap_is(self.size as int, self.ships@, min_overlap as int);
            lemma_highest_overlap_is(self.size as int, self.ships@, max_overlap as int);
            assert(min_overlap <= fleet_overlap_at(
                self.size as int,
                self.ships@,
                x as int,
                y as int,
            ) <= max_overlap);
        }
        if min_overlap < max_overlap {
            Some(
                CellData {
                    mark,
                    ship_overlap,
                    chance_numerator: ship_overlap - min_overlap,
                    chance_denominator: max_overlap - min_overlap,
                },
            )
        } else {
            Some(CellData { mark, ship_overlap, chance_numerator: 0, chance_denominator: 1 })
        }
    }
}

} // verus!
