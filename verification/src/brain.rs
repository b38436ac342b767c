//! The targeting engine: from what has been observed on a board and the fleet in play
//! to a score for every cell, the higher the likelier a ship segment lies there.

use crate::components::{
    adjacent, component, component_sizes, connected, is_leader, leader_sizes,
    leader_sizes_in_row, lemma_closed_set_holds_component, lemma_connected_refl,
    lemma_connected_step, lemma_connected_sunk, lemma_distinct_cells_len,
    lemma_leader_component_unreached, lemma_reached_at_start, lemma_reached_next,
    lemma_reached_next_same, lemma_reached_row_end, reached_before, sunk_at,
};
use crate::matrix::{is_square, rows_of};
use crate::neighborhood::{
    lemma_diagonal_cells, lemma_moore_cells, lemma_neighbor_cells_len,
    lemma_neighbor_cells_on_board, lemma_neumann_cells, neighbor_cells, shifted_cell,
};
use crate::placement::{
    capped, column_placements_done, column_run_free, fleet_placements_over, is_chance_grid,
    is_mask_of, is_placement_count, lemma_fleet_placements_step, lemma_permitted_at_end,
    lemma_permitted_at_start, lemma_permitted_next, lemma_permitted_row_end,
    lemma_without_ship_absent, lemma_without_ship_at, mask_of, one_more, permitted,
    permitted_before, reduced_fleet, row_placements_done, row_run_free, rules_out,
    ship_placements_over, without_ship,
};
use vstd::prelude::*;

verus! {

/// What is known about one cell of the board.
#[derive(Debug, Default, Clone, Copy, Hash, PartialEq, Eq, Structural)]
#[allow(non_camel_case_types)]
pub enum CellState {
    /// Nothing is known yet.
    #[default]
    EMPTY,
    /// A shot here hit water.
    MISS,
    /// A shot here hit a ship that is still afloat.
    HIT,
    /// A segment of a ship that has been sunk entirely.
    SUNK,
}

impl CellState {
    /// The sign that stands for the state: nothing for a cell of which nothing is
    /// known, `o` for a miss, `x` for a hit, `X` for a sunk segment.
    pub open spec fn sign(self) -> Seq<char> {
        match self {
            CellState::EMPTY => Seq::empty(),
            CellState::MISS => seq!['o'],
            CellState::HIT => seq!['x'],
            CellState::SUNK => seq!['X'],
        }
    }

    /// The sign that stands for the state, as text.
    pub fn to_text(&self) -> (text: String)
        ensures
            text@ == self.sign(),
    {
        proof {
            reveal_strlit("");
            reveal_strlit("o");
            reveal_strlit("x");
            reveal_strlit("X");
        }
        let text = match self {
            CellState::EMPTY => String::from_str(""),
            CellState::MISS => String::from_str("o"),
            CellState::HIT => String::from_str("x"),
            CellState::SUNK => String::from_str("X"),
        };
        assert(text@ =~= self.sign());
        text
    }
}

/// The observations of a game, row by row.
pub struct GridState {
    pub cells: Vec<Vec<CellState>>,
}

impl GridState {
    /// The observations as a matrix.
    pub open spec fn rows(&self) -> Seq<Seq<CellState>> {
        rows_of(self.cells@)
    }

    /// Whether the observations form a square board of side `n`.
    pub fn is_board(&self, n: usize) -> (ok: bool)
        ensures
            ok == is_square(self.rows(), n as int),
    {
        if self.cells.len() != n {
            return false;
        }
        let mut i: usize = 0;
        while i < n
            invariant
                i <= n,
                self.cells@.len() == n,
                forall|r: int| 0 <= r < i ==> (#[trigger] self.rows()[r]).len() == n,
            decreases n - i,
        {
            if self.cells[i].len() != n {
                proof {
                    assert(self.rows()[i as int].len() != n);
                }
                return false;
            }
            proof {
                assert(self.rows()[i as int].len() == n);
            }
            i += 1;
        }
        true
    }
}

/// Offsets to the four cells that touch a cell at a corner only.
pub const DIAGONAL_NEIGHBORHOOD: [(isize, isize); 4] = [(1, 1), (1, -1), (-1, -1), (-1, 1)];

/// `i + d` where that is an index below `n`.
fn shift_index(n: usize, i: usize, d: isize) -> (r: Option<usize>)
    ensures
        r == (if 0 <= i + d < n { Some((i + d) as usize) } else { None }),
{
    if d >= 0 {
        let up: usize = d as usize;
        if i < n && up < n - i {
            Some(i + up)
        } else {
            None
        }
    } else {
        let down: usize = (-(d + 1)) as usize + 1;
        if i >= down && i - down < n {
            Some(i - down)
        } else {
            None
        }
    }
}

/// The cells that the offsets of `neighborhood` lead to from `(i, j)`, in the order of the
/// offsets, without those that fall off a board of side `grid_size`.
pub fn neighbors(neighborhood: &[(isize, isize)], grid_size: usize, i: usize, j: usize) -> (cells:
    Vec<(usize, usize)>)
    ensures
        cells@ == neighbor_cells(neighborhood@, grid_size, i, j),
        cells@.len() <= neighborhood@.len(),
        forall|k: int|
            0 <= k < cells@.len() ==> (#[trigger] cells@[k]).0 < grid_size && cells@[k].1
                < grid_size,
{
    let mut cells: Vec<(usize, usize)> = Vec::new();
    let mut k: usize = 0;
    while k < neighborhood.len()
        invariant
            k <= neighborhood@.len(),
            cells@ == neighbor_cells(neighborhood@.take(k as int), grid_size, i, j),
        decreases neighborhood@.len() - k,
    {
        let d = neighborhood[k];
        proof {
            neighborhood@.lemma_filter_map_take_succ(
                |d: (isize, isize)| shifted_cell(grid_size, i, j, d),
                k as int,
            );
        }
        match shift_index(grid_size, i, d.0) {
            Some(ix) => match shift_index(grid_size, j, d.1) {
                Some(jy) => {
                    cells.push((ix, jy));
                },
                None => {},
            },
            None => {},
        }
        k += 1;
    }
    proof {
        assert(neighborhood@.take(k as int) =~= neighborhood@);
        lemma_neighbor_cells_len(neighborhood@, grid_size, i, j);
        assert forall|k: int| 0 <= k < cells@.len() implies (#[trigger] cells@[k]).0 < grid_size
            && cells@[k].1 < grid_size by {
            lemma_neighbor_cells_on_board(neighborhood@, grid_size, i, j, k);
        }
    }
    cells
}

/// Offsets to the eight cells around a cell.
pub const MOORE_NEIGHBORHOOD: [(isize, isize); 8] = [
    (0, 1),
    (1, 0),
    (0, -1),
    (-1, 0),
    (1, 1),
    (1, -1),
    (-1, -1),
    (-1, 1),
];

/// Offsets to the four cells that share an edge with a cell.
pub const NEUMANN_NEIGHBORHOOD: [(isize, isize); 4] = [(1, 0), (0, 1), (-1, 0), (0, -1)];

/// The cells of a board of side `n` that share an edge with `(i, j)`.
pub fn get_neumann_neighbors(n: usize, i: usize, j: usize) -> (cells: Vec<(usize, usize)>)
    ensures
        cells@ == neighbor_cells(NEUMANN_NEIGHBORHOOD@, n, i, j),
        cells@.len() <= 4,
        forall|k: int| 0 <= k < cells@.len() ==> (#[trigger] cells@[k]).0 < n && cells@[k].1 < n,
{
    neighbors(&NEUMANN_NEIGHBORHOOD, n, i, j)
}

/// The cells of a board of side `n` around `(i, j)`.
pub fn get_moore_neighbors(n: usize, i: usize, j: usize) -> (cells: Vec<(usize, usize)>)
    ensures
        cells@ == neighbor_cells(MOORE_NEIGHBORHOOD@, n, i, j),
        cells@.len() <= 8,
        forall|k: int| 0 <= k < cells@.len() ==> (#[trigger] cells@[k]).0 < n && cells@[k].1 < n,
{
    neighbors(&MOORE_NEIGHBORHOOD, n, i, j)
}

/// The cells of a board of side `n` that touch `(i, j)` at a corner only.
pub fn get_diagonal_neighbours(n: usize, i: usize, j: usize) -> (cells: Vec<(usize, usize)>)
    ensures
        cells@ == neighbor_cells(DIAGONAL_NEIGHBORHOOD@, n, i, j),
        cells@.len() <= 4,
        forall|k: int| 0 <= k < cells@.len() ==> (#[trigger] cells@[k]).0 < n && cells@[k].1 < n,
{
    neighbors(&DIAGONAL_NEIGHBORHOOD, n, i, j)
}

/// A square matrix of side `n` that holds `value` in every entry.
fn filled<T: Copy>(n: usize, value: T) -> (m: Vec<Vec<T>>)
    ensures
        is_square(rows_of(m@), n as int),
        forall|i: int, j: int| 0 <= i < n && 0 <= j < n ==> #[trigger] rows_of(m@)[i][j] == value,
{
    let mut m: Vec<Vec<T>> = Vec::new();
    let mut i: usize = 0;
    while i < n
        invariant
            i <= n,
            m@.len() == i,
            forall|r: int| 0 <= r < i ==> (#[trigger] m@[r])@.len() == n,
            forall|r: int, c: int| 0 <= r < i && 0 <= c < n ==> (#[trigger] m@[r]@[c]) == value,
        decreases n - i,
    {
        let mut row: Vec<T> = Vec::new();
        let mut j: usize = 0;
        while j < n
            invariant
                j <= n,
                row@.len() == j,
                forall|c: int| 0 <= c < j ==> (#[trigger] row@[c]) == value,
            decreases n - j,
        {
            row.push(value);
            j += 1;
        }
        m.push(row);
        i += 1;
    }
    m
}

/// Collects the wreck that the unvisited sunk cell `(x, y)` belongs to, and marks its
/// cells as visited.
fn flood_fill(
    grid: &Vec<Vec<CellState>>,
    n: usize,
    visited: &mut Vec<Vec<bool>>,
    x: usize,
    y: usize,
) -> (wreck: Vec<(usize, usize)>)
    requires
        is_square(rows_of(grid@), n as int),
        is_square(rows_of(old(visited)@), n as int),
        sunk_at(rows_of(grid@), (x, y)),
        forall|c: (usize, usize)| #[trigger]
            connected(rows_of(grid@), (x, y), c) ==> !rows_of(
                old(visited)@,
            )[c.0 as int][c.1 as int],
    ensures
        is_square(rows_of(final(visited)@), n as int),
        forall|r: int, c: int|
            0 <= r < n && 0 <= c < n ==> #[trigger] rows_of(final(visited)@)[r][c] == (rows_of(
                old(visited)@,
            )[r][c] || connected(rows_of(grid@), (x, y), (r as usize, c as usize))),
        wreck@.no_duplicates(),
        wreck@.to_set() == component(rows_of(grid@), (x, y)),
{
    let ghost g = rows_of(grid@);
    let ghost seen = rows_of(visited@);
    let mut wreck: Vec<(usize, usize)> = Vec::new();
    let mut stack: Vec<(usize, usize)> = Vec::new();
    stack.push((x, y));
    proof {
        lemma_connected_refl(g, (x, y));
        assert(stack@[0] == (x, y));
    }
    while stack.len() > 0
        invariant
            g == rows_of(grid@),
            is_square(g, n as int),
            is_square(rows_of(visited@), n as int),
            forall|c: (usize, usize)| #[trigger]
                connected(g, (x, y), c) ==> !seen[c.0 as int][c.1 as int],
            forall|k: int| 0 <= k < stack@.len() ==> connected(g, (x, y), #[trigger] stack@[k]),
            forall|k: int| 0 <= k < wreck@.len() ==> connected(g, (x, y), #[trigger] wreck@[k]),
            wreck@.no_duplicates(),
            forall|r: int, c: int|
                0 <= r < n && 0 <= c < n ==> #[trigger] rows_of(visited@)[r][c] == (seen[r][c]
                    || wreck@.contains((r as usize, c as usize))),
            wreck@.contains((x, y)) || stack@.contains((x, y)),
            forall|c: (usize, usize), d: (usize, usize)|
                wreck@.contains(c) && sunk_at(g, d) && #[trigger] adjacent(c, d) ==> wreck@.contains(
                    d,
                ) || stack@.contains(d),
        decreases n * n - wreck@.len(), stack@.len(),
    {
        let ghost stack_before = stack@;
        let ghost wreck_before = wreck@;
        let cell = stack.pop().unwrap();
        let i: usize = cell.0;
        let j: usize = cell.1;
        proof {
            assert(cell == stack_before[stack_before.len() - 1]);
            lemma_connected_sunk(g, (x, y), cell);
            assert(rows_of(visited@)[i as int][j as int] == visited@[i as int]@[j as int]);
            assert(rows_of(visited@)[i as int].len() == n);
            assert forall|d: (usize, usize)| stack_before.contains(d) implies stack@.contains(d)
                || d == cell by {
                let k = choose|k: int| 0 <= k < stack_before.len() && stack_before[k] == d;
                if k < stack@.len() {
                    assert(stack@[k] == d);
                }
            }
        }
        if !visited[i][j] {
            let ghost marks_before = rows_of(visited@);
            visited[i][j] = true;
            proof {
                assert forall|r: int| 0 <= r < n implies (#[trigger] rows_of(visited@)[r]).len()
                    == n by {
                    assert(marks_before[r].len() == n);
                }
            }
            let around = get_neumann_neighbors(n, i, j);
            let ghost stack_popped = stack@;
            let mut k: usize = 0;
            while k < around.len()
                invariant
                    k <= around@.len(),
                    around@ == neighbor_cells(NEUMANN_NEIGHBORHOOD@, n, i, j),
                    i < n,
                    j < n,
                    g == rows_of(grid@),
                    is_square(g, n as int),
                    connected(g, (x, y), (i, j)),
                    stack_popped.len() <= stack@.len(),
                    forall|m: int| 0 <= m < stack_popped.len() ==> stack@[m] == stack_popped[m],
                    forall|m: int|
                        0 <= m < stack@.len() ==> connected(g, (x, y), #[trigger] stack@[m]),
                    forall|m: int|
                        0 <= m < k && sunk_at(g, around@[m]) ==> stack@.contains(
                            #[trigger] around@[m],
                        ),
                decreases around@.len() - k,
            {
                let q = around[k];
                let ghost stack_inner = stack@;
                proof {
                    assert(around@.contains(q));
                    lemma_neumann_cells(n, i, j, q);
                    assert(g[q.0 as int].len() == n);
                    assert(g[q.0 as int][q.1 as int] == grid@[q.0 as int]@[q.1 as int]);
                }
                if grid[q.0][q.1] == CellState::SUNK {
                    proof {
                        lemma_connected_step(g, (x, y), (i, j), q);
                    }
                    stack.push(q);
                    proof {
                        assert(stack@[stack@.len() - 1] == q);
                    }
                }
                proof {
                    assert forall|m: int|
                        0 <= m < k && sunk_at(g, around@[m]) implies stack@.contains(
                        #[trigger] around@[m],
                    ) by {
                        let w = choose|w: int|
                            0 <= w < stack_inner.len() && stack_inner[w] == around@[m];
                        assert(stack@[w] == around@[m]);
                    }
                }
                k += 1;
            }
            wreck.push((i, j));
            proof {
                assert(wreck@[wreck@.len() - 1] == (i, j));
                assert(!wreck_before.contains((i, j)));
                assert forall|r: int, c: int| 0 <= r < n && 0 <= c < n implies #[trigger] rows_of(
                    visited@,
                )[r][c] == (seen[r][c] || wreck@.contains((r as usize, c as usize))) by {
                    let d = (r as usize, c as usize);
                    assert(marks_before[r][c] == (seen[r][c] || wreck_before.contains(d)));
                    if wreck_before.contains(d) {
                        let w = choose|w: int| 0 <= w < wreck_before.len() && wreck_before[w] == d;
                        assert(wreck@[w] == d);
                    }
                    if wreck@.contains(d) && d != (i, j) {
                        let w = choose|w: int| 0 <= w < wreck@.len() && wreck@[w] == d;
                        assert(wreck_before[w] == d);
                    }
                }
                assert forall|c: (usize, usize), d: (usize, usize)|
                    wreck@.contains(c) && sunk_at(g, d) && #[trigger] adjacent(c, d) implies (
                    wreck@.contains(d) || stack@.contains(d)) by {
                    if c == (i, j) {
                        lemma_neumann_cells(n, i, j, d);
                        let m = choose|m: int| 0 <= m < around@.len() && around@[m] == d;
                        assert(stack@.contains(around@[m]));
                    } else {
                        let w = choose|w: int| 0 <= w < wreck@.len() && wreck@[w] == c;
                        assert(wreck_before[w] == c);
                        assert(wreck_before.contains(d) || stack_before.contains(d));
                        if wreck_before.contains(d) {
                            let v = choose|v: int|
                                0 <= v < wreck_before.len() && wreck_before[v] == d;
                            assert(wreck@[v] == d);
                        } else if d != cell {
                            let v = choose|v: int|
                                0 <= v < stack_popped.len() && stack_popped[v] == d;
                            assert(stack@[v] == d);
                        }
                    }
                }
                assert(wreck@.contains((x, y)) || stack@.contains((x, y))) by {
                    if wreck_before.contains((x, y)) {
                        let w = choose|w: int|
                            0 <= w < wreck_before.len() && wreck_before[w] == (x, y);
                        assert(wreck@[w] == (x, y));
                    } else if (x, y) != cell {
                        let v = choose|v: int|
                            0 <= v < stack_popped.len() && stack_popped[v] == (x, y);
                        assert(stack@[v] == (x, y));
                    }
                }
                assert forall|k: int| 0 <= k < wreck@.len() implies (#[trigger] wreck@[k]).0 < n
                    && wreck@[k].1 < n by {
                    lemma_connected_sunk(g, (x, y), wreck@[k]);
                    assert(g[wreck@[k].0 as int].len() == n);
                }
                lemma_distinct_cells_len(n as int, wreck@);
            }
        } else {
            proof {
                assert(wreck@.contains(cell));
            }
        }
    }
    proof {
        let s = wreck@.to_set();
        assert(!stack@.contains((x, y)));
        assert forall|c: (usize, usize), d: (usize, usize)|
            s.contains(c) && sunk_at(g, d) && #[trigger] adjacent(c, d) implies s.contains(d) by {
            assert(wreck@.contains(d) || stack@.contains(d));
        }
        lemma_closed_set_holds_component(g, (x, y), s);
        assert(s =~= component(g, (x, y))) by {
            assert forall|c: (usize, usize)| s.contains(c) implies component(g, (x, y)).contains(
                c,
            ) by {
                let w = choose|w: int| 0 <= w < wreck@.len() && wreck@[w] == c;
                assert(connected(g, (x, y), wreck@[w]));
            }
        }
        assert forall|r: int, c: int| 0 <= r < n && 0 <= c < n implies #[trigger] rows_of(
            visited@,
        )[r][c] == (seen[r][c] || connected(g, (x, y), (r as usize, c as usize))) by {
            let d = (r as usize, c as usize);
            assert(s.contains(d) == wreck@.contains(d));
            assert(component(g, (x, y)).contains(d) == connected(g, (x, y), d));
        }
    }
    wreck
}

/// The sizes of the wrecks on the board: one entry for each group of sunk cells joined
/// edge to edge, ordered by the first cell of each group when the board is read row by
/// row.
pub fn extract_sunken_ships(grid: &Vec<Vec<CellState>>, grid_size: usize) -> (sunk: Vec<usize>)
    requires
        is_square(rows_of(grid@), grid_size as int),
    ensures
        sunk@.map_values(|s: usize| s as nat) == component_sizes(
            rows_of(grid@),
            grid_size as int,
        ),
{
    let n: usize = grid_size;
    let ghost g = rows_of(grid@);
    let mut sunk: Vec<usize> = Vec::new();
    let mut visited: Vec<Vec<bool>> = filled(n, false);
    proof {
        assert(sunk@.map_values(|s: usize| s as nat) =~= leader_sizes(g, n as int, 0));
        assert forall|r: int, c: int| 0 <= r < n && 0 <= c < n implies #[trigger] rows_of(
            visited@,
        )[r][c] == reached_before(g, (0usize, 0usize), (r as usize, c as usize)) by {
            lemma_reached_at_start(g, (r as usize, c as usize));
        }
    }
    let mut i: usize = 0;
    while i < n
        invariant
            i <= n,
            g == rows_of(grid@),
            is_square(g, n as int),
            is_square(rows_of(visited@), n as int),
            sunk@.map_values(|s: usize| s as nat) == leader_sizes(g, n as int, i as int),
            forall|r: int, c: int|
                0 <= r < n && 0 <= c < n ==> #[trigger] rows_of(visited@)[r][c] == reached_before(
                    g,
                    (i, 0usize),
                    (r as usize, c as usize),
                ),
        decreases n - i,
    {
        let mut j: usize = 0;
        proof {
            assert(sunk@.map_values(|s: usize| s as nat) =~= leader_sizes(g, n as int, i as int)
                + leader_sizes_in_row(g, i as int, 0));
        }
        while j < n
            invariant
                i < n,
                j <= n,
                g == rows_of(grid@),
                is_square(g, n as int),
                is_square(rows_of(visited@), n as int),
                sunk@.map_values(|s: usize| s as nat) == leader_sizes(g, n as int, i as int)
                    + leader_sizes_in_row(g, i as int, j as int),
                forall|r: int, c: int|
                    0 <= r < n && 0 <= c < n ==> #[trigger] rows_of(visited@)[r][c]
                        == reached_before(g, (i, j), (r as usize, c as usize)),
            decreases n - j,
        {
            let ghost marks = rows_of(visited@);
            let ghost sizes = sunk@.map_values(|s: usize| s as nat);
            proof {
                assert(g[i as int].len() == n);
                assert(g[i as int][j as int] == grid@[i as int]@[j as int]);
                assert(marks[i as int].len() == n);
                assert(marks[i as int][j as int] == visited@[i as int]@[j as int]);
                assert(marks[i as int][j as int] == reached_before(g, (i, j), (i, j)));
            }
            if grid[i][j] == CellState::SUNK && !visited[i][j] {
                proof {
                    assert(is_leader(g, (i, j)));
                    assert forall|c: (usize, usize)| #[trigger]
                        connected(g, (i, j), c) implies !marks[c.0 as int][c.1 as int] by {
                        lemma_connected_sunk(g, (i, j), c);
                        lemma_leader_component_unreached(g, (i, j), c);
                        assert(g[c.0 as int].len() == n);
                        assert(marks[c.0 as int][c.1 as int] == reached_before(g, (i, j), c));
                    }
                }
                let wreck = flood_fill(grid, n, &mut visited, i, j);
                proof {
                    wreck@.unique_seq_to_set();
                }
                sunk.push(wreck.len());
                proof {
                    assert(sunk@.map_values(|s: usize| s as nat) =~= sizes.push(
                        component(g, (i, j)).len(),
                    ));
                    assert forall|r: int, c: int| 0 <= r < n && 0 <= c < n implies #[trigger] rows_of(
                        visited@,
                    )[r][c] == reached_before(
                        g,
                        (i, (j + 1) as usize),
                        (r as usize, c as usize),
                    ) by {
                        lemma_reached_next(g, i, j, (r as usize, c as usize));
                        assert(marks[r][c] == reached_before(g, (i, j), (r as usize, c as usize)));
                    }
                }
            } else {
                proof {
                    assert(!is_leader(g, (i, j)));
                    assert forall|r: int, c: int| 0 <= r < n && 0 <= c < n implies #[trigger] rows_of(
                        visited@,
                    )[r][c] == reached_before(
                        g,
                        (i, (j + 1) as usize),
                        (r as usize, c as usize),
                    ) by {
                        lemma_reached_next_same(g, i, j, (r as usize, c as usize));
                    }
                }
            }
            j += 1;
        }
        proof {
            assert forall|r: int, c: int| 0 <= r < n && 0 <= c < n implies #[trigger] rows_of(
                visited@,
            )[r][c] == reached_before(g, ((i + 1) as usize, 0usize), (r as usize, c as usize)) by {
                lemma_reached_row_end(g, n, i, (r as usize, c as usize));
            }
        }
        i += 1;
    }
    sunk
}

/// Forbids a ship segment at each of `cells`.
fn clear_cells(mask: &mut Vec<Vec<bool>>, n: usize, cells: &Vec<(usize, usize)>)
    requires
        is_square(rows_of(old(mask)@), n as int),
        forall|k: int| 0 <= k < cells@.len() ==> (#[trigger] cells@[k]).0 < n && cells@[k].1 < n,
    ensures
        is_square(rows_of(final(mask)@), n as int),
        forall|r: int, c: int|
            0 <= r < n && 0 <= c < n ==> #[trigger] rows_of(final(mask)@)[r][c] == (rows_of(
                old(mask)@,
            )[r][c] && !cells@.contains((r as usize, c as usize))),
{
    let ghost before = rows_of(mask@);
    let mut k: usize = 0;
    while k < cells.len()
        invariant
            k <= cells@.len(),
            is_square(before, n as int),
            is_square(rows_of(mask@), n as int),
            forall|m: int|
                0 <= m < cells@.len() ==> (#[trigger] cells@[m]).0 < n && cells@[m].1 < n,
            forall|r: int, c: int|
                0 <= r < n && 0 <= c < n ==> #[trigger] rows_of(mask@)[r][c] == (before[r][c]
                    && !cells@.take(k as int).contains((r as usize, c as usize))),
        decreases cells@.len() - k,
    {
        let q = cells[k];
        let ghost marks = rows_of(mask@);
        proof {
            assert(cells@[k as int].0 < n);
            assert(marks[q.0 as int].len() == n);
        }
        mask[q.0][q.1] = false;
        proof {
            let done = cells@.take(k as int);
            let more = cells@.take(k + 1);
            assert(more =~= done.push(q));
            assert(more[k as int] == q);
            assert forall|r: int| 0 <= r < n implies (#[trigger] rows_of(mask@)[r]).len() == n by {
                assert(marks[r].len() == n);
            }
            assert forall|r: int, c: int| 0 <= r < n && 0 <= c < n implies #[trigger] rows_of(
                mask@,
            )[r][c] == (before[r][c] && !more.contains((r as usize, c as usize))) by {
                let d = (r as usize, c as usize);
                assert(marks[r][c] == (before[r][c] && !done.contains(d)));
                if done.contains(d) {
                    let w = choose|w: int| 0 <= w < done.len() && done[w] == d;
                    assert(more[w] == d);
                }
                if more.contains(d) && d != q {
                    let w = choose|w: int| 0 <= w < more.len() && more[w] == d;
                    assert(done[w] == d);
                }
            }
        }
        k += 1;
    }
    proof {
        assert(cells@.take(k as int) =~= cells@);
    }
}

/// For each cell of the board, whether a ship segment may still lie there: not on a
/// miss, not at the corners of a hit, and neither on a sunk segment nor on any of the
/// eight cells around one.
pub fn exclusion_mask(grid: &Vec<Vec<CellState>>, grid_size: usize) -> (mask: Vec<Vec<bool>>)
    requires
        is_square(rows_of(grid@), grid_size as int),
    ensures
        is_mask_of(rows_of(mask@), rows_of(grid@), grid_size as int),
{
    let n: usize = grid_size;
    let ghost g = rows_of(grid@);
    let mut mask: Vec<Vec<bool>> = filled(n, true);
    proof {
        assert forall|r: int, c: int| 0 <= r < n && 0 <= c < n implies #[trigger] rows_of(
            mask@,
        )[r][c] == permitted_before(g, 0, 0, r, c) by {
            lemma_permitted_at_start(g, r, c);
        }
    }
    let mut i: usize = 0;
    while i < n
        invariant
            i <= n,
            g == rows_of(grid@),
            is_square(g, n as int),
            is_square(rows_of(mask@), n as int),
            forall|r: int, c: int|
                0 <= r < n && 0 <= c < n ==> #[trigger] rows_of(mask@)[r][c] == permitted_before(
                    g,
                    i as int,
                    0,
                    r,
                    c,
                ),
        decreases n - i,
    {
        let mut j: usize = 0;
        while j < n
            invariant
                i < n,
                j <= n,
                g == rows_of(grid@),
                is_square(g, n as int),
                is_square(rows_of(mask@), n as int),
                forall|r: int, c: int|
                    0 <= r < n && 0 <= c < n ==> #[trigger] rows_of(mask@)[r][c]
                        == permitted_before(g, i as int, j as int, r, c),
            decreases n - j,
        {
            let ghost marks = rows_of(mask@);
            proof {
                assert(g[i as int].len() == n);
                assert(g[i as int][j as int] == grid@[i as int]@[j as int]);
                assert(marks[i as int].len() == n);
            }
            match grid[i][j] {
                CellState::EMPTY => {},
                CellState::MISS => {
                    mask[i][j] = false;
                    proof {
                        assert forall|r: int| 0 <= r < n implies (#[trigger] rows_of(mask@)[r]).len()
                            == n by {
                            assert(marks[r].len() == n);
                        }
                    }
                },
                CellState::HIT => {
                    let cells = get_diagonal_neighbours(n, i, j);
                    proof {
                        assert forall|r: int, c: int| 0 <= r < n && 0 <= c < n implies (
                        #[trigger] cells@.contains((r as usize, c as usize)) == rules_out(
                            g,
                            i as int,
                            j as int,
                            r,
                            c,
                        )) by {
                            lemma_diagonal_cells(n, i, j, (r as usize, c as usize));
                        }
                    }
                    clear_cells(&mut mask, n, &cells);
                },
                CellState::SUNK => {
                    mask[i][j] = false;
                    proof {
                        assert forall|r: int| 0 <= r < n implies (#[trigger] rows_of(mask@)[r]).len()
                            == n by {
                            assert(marks[r].len() == n);
                        }
                    }
                    let cells = get_moore_neighbors(n, i, j);
                    proof {
                        assert forall|r: int, c: int| 0 <= r < n && 0 <= c < n implies (
                        #[trigger] cells@.contains((r as usize, c as usize)) || (r == i && c == j))
                            == rules_out(g, i as int, j as int, r, c) by {
                            lemma_moore_cells(n, i, j, (r as usize, c as usize));
                        }
                    }
                    clear_cells(&mut mask, n, &cells);
                },
            }
            proof {
                assert forall|r: int, c: int| 0 <= r < n && 0 <= c < n implies #[trigger] rows_of(
                    mask@,
                )[r][c] == permitted_before(g, i as int, j + 1, r, c) by {
                    lemma_permitted_next(g, i as int, j as int, r, c);
                    assert(marks[r][c] == permitted_before(g, i as int, j as int, r, c));
                    assert(rows_of(mask@)[r][c] == (marks[r][c] && !rules_out(
                        g,
                        i as int,
                        j as int,
                        r,
                        c,
                    )));
                }
            }
            j += 1;
        }
        proof {
            assert forall|r: int, c: int| 0 <= r < n && 0 <= c < n implies #[trigger] rows_of(
                mask@,
            )[r][c] == permitted_before(g, i + 1, 0, r, c) by {
                lemma_permitted_row_end(g, n as int, i as int, r, c);
            }
        }
        i += 1;
    }
    proof {
        assert forall|r: int, c: int| 0 <= r < n && 0 <= c < n implies #[trigger] rows_of(
            mask@,
        )[r][c] == permitted(g, r, c) by {
            lemma_permitted_at_end(g, n as int, r, c);
        }
    }
    mask
}

/// Takes the first ship of length `size` out of the fleet, if it has one.
fn remove_ship(fleet: &mut Vec<usize>, size: usize)
    ensures
        final(fleet)@ == without_ship(old(fleet)@, size as nat),
{
    let mut k: usize = 0;
    while k < fleet.len() && fleet[k] != size
        invariant
            k <= fleet@.len(),
            fleet@ == old(fleet)@,
            forall|m: int| 0 <= m < k ==> fleet@[m] != size,
        decreases fleet@.len() - k,
    {
        k += 1;
    }
    if k < fleet.len() {
        proof {
            lemma_without_ship_at(fleet@, size as nat, k as int);
        }
        fleet.remove(k);
    } else {
        proof {
            lemma_without_ship_absent(fleet@, size as nat);
        }
    }
}

/// The ships that are still to be found: the fleet without one ship for each wreck
/// size in `sunk`, taken in turn, where a ship of that length is left to take.
pub fn reduce_fleet(ships: &Vec<usize>, sunk: &Vec<usize>) -> (left: Vec<usize>)
    ensures
        left@ == reduced_fleet(ships@, sunk@.map_values(|s: usize| s as nat)),
{
    let ghost sizes = sunk@.map_values(|s: usize| s as nat);
    let mut left: Vec<usize> = Vec::new();
    let mut k: usize = 0;
    while k < ships.len()
        invariant
            k <= ships@.len(),
            left@ == ships@.take(k as int),
        decreases ships@.len() - k,
    {
        left.push(ships[k]);
        proof {
            assert(ships@.take(k + 1) =~= ships@.take(k as int).push(ships@[k as int]));
        }
        k += 1;
    }
    proof {
        assert(ships@.take(k as int) =~= ships@);
        assert(sizes.take(0).len() == 0);
    }
    let mut t: usize = 0;
    while t < sunk.len()
        invariant
            t <= sunk@.len(),
            sizes == sunk@.map_values(|s: usize| s as nat),
            left@ == reduced_fleet(ships@, sizes.take(t as int)),
        decreases sunk@.len() - t,
    {
        proof {
            assert(sizes.take(t + 1).drop_last() =~= sizes.take(t as int));
            assert(sizes.take(t + 1).last() == sunk@[t as int] as nat);
        }
        remove_ship(&mut left, sunk[t]);
        t += 1;
    }
    proof {
        assert(sizes.take(t as int) =~= sizes);
    }
    left
}

/// Whether a ship segment may lie on each of the `len` cells of row `r` from column
/// `start` on.
fn row_run_is_free(mask: &Vec<Vec<bool>>, n: usize, r: usize, start: usize, len: usize) -> (free:
    bool)
    requires
        is_square(rows_of(mask@), n as int),
        r < n,
        start + len <= n,
    ensures
        free == row_run_free(rows_of(mask@), r as int, start as int, len as int),
{
    let ghost m = rows_of(mask@);
    let mut k: usize = start;
    while k < start + len
        invariant
            start <= k <= start + len,
            start + len <= n,
            r < n,
            m == rows_of(mask@),
            is_square(m, n as int),
            forall|w: int| start <= w < k ==> #[trigger] m[r as int][w],
        decreases start + len - k,
    {
        proof {
            assert(m[r as int].len() == n);
            assert(m[r as int][k as int] == mask@[r as int]@[k as int]);
        }
        if !mask[r][k] {
            return false;
        }
        k += 1;
    }
    true
}

/// Whether a ship segment may lie on each of the `len` cells of column `c` from row
/// `start` on.
fn column_run_is_free(mask: &Vec<Vec<bool>>, n: usize, c: usize, start: usize, len: usize) -> (free:
    bool)
    requires
        is_square(rows_of(mask@), n as int),
        c < n,
        start + len <= n,
    ensures
        free == column_run_free(rows_of(mask@), c as int, start as int, len as int),
{
    let ghost m = rows_of(mask@);
    let mut k: usize = start;
    while k < start + len
        invariant
            start <= k <= start + len,
            start + len <= n,
            c < n,
            m == rows_of(mask@),
            is_square(m, n as int),
            forall|w: int| start <= w < k ==> #[trigger] m[w][c as int],
        decreases start + len - k,
    {
        proof {
            assert(m[k as int].len() == n);
            assert(m[k as int][c as int] == mask@[k as int]@[c as int]);
        }
        if !mask[k][c] {
            return false;
        }
        k += 1;
    }
    true
}

/// Counts one more placement for each of the `len` cells of row `r` from column `start`
/// on; a count that has reached the largest number stays there.
fn count_row_run(chances: &mut Vec<Vec<usize>>, n: usize, r: usize, start: usize, len: usize)
    requires
        is_square(rows_of(old(chances)@), n as int),
        r < n,
        start + len <= n,
    ensures
        is_square(rows_of(final(chances)@), n as int),
        forall|i: int, j: int|
            0 <= i < n && 0 <= j < n ==> #[trigger] rows_of(final(chances)@)[i][j] == (if i == r
                && start <= j < start + len {
                one_more(rows_of(old(chances)@)[i][j])
            } else {
                rows_of(old(chances)@)[i][j]
            }),
{
    let ghost before = rows_of(chances@);
    let mut k: usize = start;
    while k < start + len
        invariant
            start <= k <= start + len,
            start + len <= n,
            r < n,
            is_square(before, n as int),
            is_square(rows_of(chances@), n as int),
            forall|i: int, j: int|
                0 <= i < n && 0 <= j < n ==> #[trigger] rows_of(chances@)[i][j] == (if i == r
                    && start <= j < k {
                    one_more(before[i][j])
                } else {
                    before[i][j]
                }),
        decreases start + len - k,
    {
        let ghost now = rows_of(chances@);
        proof {
            assert(now[r as int].len() == n);
            assert(now[r as int][k as int] == chances@[r as int]@[k as int]);
            assert(now[r as int][k as int] == before[r as int][k as int]);
        }
        if chances[r][k] < usize::MAX {
            chances[r][k] += 1;
        }
        proof {
            assert forall|i: int| 0 <= i < n implies (#[trigger] rows_of(chances@)[i]).len()
                == n by {
                assert(now[i].len() == n);
            }
            assert forall|i: int, j: int| 0 <= i < n && 0 <= j < n implies #[trigger] rows_of(
                chances@,
            )[i][j] == (if i == r && start <= j < k + 1 {
                one_more(before[i][j])
            } else {
                before[i][j]
            }) by {
                assert(now[i][j] == (if i == r && start <= j < k {
                    one_more(before[i][j])
                } else {
                    before[i][j]
                }));
            }
        }
        k += 1;
    }
}

/// Counts one more placement for each of the `len` cells of column `c` from row `start`
/// on; a count that has reached the largest number stays there.
fn count_column_run(chances: &mut Vec<Vec<usize>>, n: usize, c: usize, start: usize, len: usize)
    requires
        is_square(rows_of(old(chances)@), n as int),
        c < n,
        start + len <= n,
    ensures
        is_square(rows_of(final(chances)@), n as int),
        forall|i: int, j: int|
            0 <= i < n && 0 <= j < n ==> #[trigger] rows_of(final(chances)@)[i][j] == (if j == c
                && start <= i < start + len {
                one_more(rows_of(old(chances)@)[i][j])
            } else {
                rows_of(old(chances)@)[i][j]
            }),
{
    let ghost before = rows_of(chances@);
    let mut k: usize = start;
    while k < start + len
        invariant
            start <= k <= start + len,
            start + len <= n,
            c < n,
            is_square(before, n as int),
            is_square(rows_of(chances@), n as int),
            forall|i: int, j: int|
                0 <= i < n && 0 <= j < n ==> #[trigger] rows_of(chances@)[i][j] == (if j == c
                    && start <= i < k {
                    one_more(before[i][j])
                } else {
                    before[i][j]
                }),
        decreases start + len - k,
    {
        let ghost now = rows_of(chances@);
        proof {
            assert(now[k as int].len() == n);
            assert(now[k as int][c as int] == chances@[k as int]@[c as int]);
            assert(now[k as int][c as int] == before[k as int][c as int]);
        }
        if chances[k][c] < usize::MAX {
            chances[k][c] += 1;
        }
        proof {
            assert forall|i: int| 0 <= i < n implies (#[trigger] rows_of(chances@)[i]).len()
                == n by {
                assert(now[i].len() == n);
            }
            assert forall|i: int, j: int| 0 <= i < n && 0 <= j < n implies #[trigger] rows_of(
                chances@,
            )[i][j] == (if j == c && start <= i < k + 1 {
                one_more(before[i][j])
            } else {
                before[i][j]
            }) by {
                assert(now[i][j] == (if j == c && start <= i < k {
                    one_more(before[i][j])
                } else {
                    before[i][j]
                }));
            }
        }
        k += 1;
    }
}

/// Adds to each cell's count the placements of one ship of length `len` that cover it;
/// `done` holds the ships that have been counted before.
fn count_ship_placements(
    mask: &Vec<Vec<bool>>,
    n: usize,
    len: usize,
    chances: &mut Vec<Vec<usize>>,
    Ghost(done): Ghost<Seq<usize>>,
)
    requires
        is_square(rows_of(mask@), n as int),
        is_square(rows_of(old(chances)@), n as int),
        1 <= len <= n,
        forall|r: int, c: int|
            0 <= r < n && 0 <= c < n ==> #[trigger] rows_of(old(chances)@)[r][c] == capped(
                fleet_placements_over(rows_of(mask@), n as int, done, r, c),
            ),
    ensures
        is_square(rows_of(final(chances)@), n as int),
        forall|r: int, c: int|
            0 <= r < n && 0 <= c < n ==> #[trigger] rows_of(final(chances)@)[r][c] == capped(
                fleet_placements_over(rows_of(mask@), n as int, done, r, c) + ship_placements_over(
                    rows_of(mask@),
                    n as int,
                    len as int,
                    r,
                    c,
                ),
            ),
{
    let ghost m = rows_of(mask@);
    let starts: usize = n - len + 1;
    let mut i: usize = 0;
    while i < n
        invariant
            i <= n,
            1 <= len <= n,
            starts == n - len + 1,
            m == rows_of(mask@),
            is_square(m, n as int),
            is_square(rows_of(chances@), n as int),
            forall|r: int, c: int|
                0 <= r < n && 0 <= c < n ==> #[trigger] rows_of(chances@)[r][c] == capped(
                    fleet_placements_over(m, n as int, done, r, c) + row_placements_done(
                        m,
                        len as int,
                        starts as int,
                        i as int,
                        0,
                        r,
                        c,
                    ) + column_placements_done(m, len as int, starts as int, i as int, 0, r, c),
                ),
        decreases n - i,
    {
        let mut j: usize = 0;
        while j < starts
            invariant
                i < n,
                j <= starts,
                1 <= len <= n,
                starts == n - len + 1,
                m == rows_of(mask@),
                is_square(m, n as int),
                is_square(rows_of(chances@), n as int),
                forall|r: int, c: int|
                    0 <= r < n && 0 <= c < n ==> #[trigger] rows_of(chances@)[r][c] == capped(
                        fleet_placements_over(m, n as int, done, r, c) + row_placements_done(
                            m,
                            len as int,
                            starts as int,
                            i as int,
                            j as int,
                            r,
                            c,
                        ) + column_placements_done(
                            m,
                            len as int,
                            starts as int,
                            i as int,
                            j as int,
                            r,
                            c,
                        ),
                    ),
            decreases starts - j,
        {
            let ghost first = rows_of(chances@);
            if row_run_is_free(mask, n, i, j, len) {
                count_row_run(chances, n, i, j, len);
            }
            let ghost second = rows_of(chances@);
            proof {
                assert forall|r: int, c: int| 0 <= r < n && 0 <= c < n implies #[trigger] second[r][c]
                    == capped(
                    fleet_placements_over(m, n as int, done, r, c) + row_placements_done(
                        m,
                        len as int,
                        starts as int,
                        i as int,
                        j + 1,
                        r,
                        c,
                    ) + column_placements_done(
                        m,
                        len as int,
                        starts as int,
                        i as int,
                        j as int,
                        r,
                        c,
                    ),
                ) by {
                    assert(first[r][c] == capped(
                        fleet_placements_over(m, n as int, done, r, c) + row_placements_done(
                            m,
                            len as int,
                            starts as int,
                            i as int,
                            j as int,
                            r,
                            c,
                        ) + column_placements_done(
                            m,
                            len as int,
                            starts as int,
                            i as int,
                            j as int,
                            r,
                            c,
                        ),
                    ));
                }
            }
            if column_run_is_free(mask, n, i, j, len) {
                count_column_run(chances, n, i, j, len);
            }
            proof {
                assert forall|r: int, c: int| 0 <= r < n && 0 <= c < n implies #[trigger] rows_of(
                    chances@,
                )[r][c] == capped(
                    fleet_placements_over(m, n as int, done, r, c) + row_placements_done(
                        m,
                        len as int,
                        starts as int,
                        i as int,
                        j + 1,
                        r,
                        c,
                    ) + column_placements_done(
                        m,
                        len as int,
                        starts as int,
                        i as int,
                        j + 1,
                        r,
                        c,
                    ),
                ) by {
                    assert(second[r][c] == capped(
                        fleet_placements_over(m, n as int, done, r, c) + row_placements_done(
                            m,
                            len as int,
                            starts as int,
                            i as int,
                            j + 1,
                            r,
                            c,
                        ) + column_placements_done(
                            m,
                            len as int,
                            starts as int,
                            i as int,
                            j as int,
                            r,
                            c,
                        ),
                    ));
                }
            }
            j += 1;
        }
        i += 1;
    }
}

/// For each cell of a board of side `n`, the number of placements of the ships of
/// `fleet` that cover it, where a placement is a run of free cells of the ship's
/// length along a row or a column. A ship of length zero or longer than the board has
/// no placement. A number too large for the machine is held as the largest number.
pub fn count_placements(mask: &Vec<Vec<bool>>, n: usize, fleet: &Vec<usize>) -> (chances: Vec<
    Vec<usize>,
>)
    requires
        is_square(rows_of(mask@), n as int),
    ensures
        is_placement_count(rows_of(chances@), rows_of(mask@), n as int, fleet@),
{
    let ghost m = rows_of(mask@);
    let mut chances: Vec<Vec<usize>> = filled(n, 0usize);
    let mut t: usize = 0;
    proof {
        assert(fleet@.take(0).len() == 0);
    }
    while t < fleet.len()
        invariant
            t <= fleet@.len(),
            m == rows_of(mask@),
            is_square(m, n as int),
            is_square(rows_of(chances@), n as int),
            forall|r: int, c: int|
                0 <= r < n && 0 <= c < n ==> #[trigger] rows_of(chances@)[r][c] == capped(
                    fleet_placements_over(m, n as int, fleet@.take(t as int), r, c),
                ),
        decreases fleet@.len() - t,
    {
        let len: usize = fleet[t];
        let ghost so_far = rows_of(chances@);
        if 1 <= len && len <= n {
            count_ship_placements(mask, n, len, &mut chances, Ghost(fleet@.take(t as int)));
        }
        proof {
            assert forall|r: int, c: int| 0 <= r < n && 0 <= c < n implies #[trigger] rows_of(
                chances@,
            )[r][c] == capped(fleet_placements_over(m, n as int, fleet@.take(t + 1), r, c)) by {
                lemma_fleet_placements_step(m, n as int, fleet@, t as int, r, c);
                assert(so_far[r][c] == capped(
                    fleet_placements_over(m, n as int, fleet@.take(t as int), r, c),
                ));
            }
        }
        t += 1;
    }
    proof {
        assert(fleet@.take(t as int) =~= fleet@);
    }
    chances
}

/// The score of each cell of the board: the number of placements of the ships that
/// are still afloat which cover the cell and are consistent with what has been
/// observed. The higher the score, the likelier a ship segment lies there. A number
/// too large for the machine is held as the largest number.
pub fn calculate_chances(
    grid: &Vec<Vec<CellState>>,
    grid_size: usize,
    ships: &Vec<usize>,
) -> (chances: Vec<Vec<usize>>)
    requires
        is_square(rows_of(grid@), grid_size as int),
    ensures
        is_chance_grid(rows_of(chances@), rows_of(grid@), grid_size as int, ships@),
{
    let sunk = extract_sunken_ships(grid, grid_size);
    let left = reduce_fleet(ships, &sunk);
    let mask = exclusion_mask(grid, grid_size);
    proof {
        assert(rows_of(mask@) =~~= mask_of(rows_of(grid@), grid_size as int));
    }
    count_placements(&mask, grid_size, &left)
}

} // verus!
