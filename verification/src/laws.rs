//! What holds of the scores, the mask and the wrecks on every board.

use crate::battlemap::{fleet_overlap_at, lemma_ship_overlap_bounds};
use crate::brain::CellState;
use crate::components::{
    all_sunk, before, component_sizes, connected, is_leader, lemma_all_sunk_sizes,
    lemma_connected_refl, lemma_connected_sunk, lemma_connected_sym, lemma_connected_trans,
    lemma_no_sunk_no_sizes, lemma_same_sunk_same_sizes, reaches_from_before, same_sunk_cells,
    sunk_at,
};
use crate::matrix::is_square;
use crate::placement::{
    chance_at, closes_cell, column_run_free, fleet_placements_through, holds, is_chance_grid,
    is_diagonal, is_near, lemma_closed_cell_takes_placements_through, score_at,
    lemma_fleet_covers_as_ship, lemma_forbidden_cell_uncovered, lemma_free_row_has_placement,
    lemma_fleet_placements_bound, lemma_looser_mask_more_placements, lemma_reduced_fleet_len,
    mask_of, no_tighter_along, permitted, reduced_fleet, row_run_free, rules_out,
};
use vstd::prelude::*;

verus! {

/// Nothing has been observed on the board `g` of side `n`.
pub open spec fn all_unknown(g: Seq<Seq<CellState>>, n: int) -> bool {
    &&& is_square(g, n)
    &&& forall|i: int, j: int| 0 <= i < n && 0 <= j < n ==> #[trigger] g[i][j] == CellState::EMPTY
}

/// `after` is the board `before` of side `n` with a miss observed at `(i, j)`, where
/// nothing was known.
pub open spec fn adds_miss(
    before: Seq<Seq<CellState>>,
    after: Seq<Seq<CellState>>,
    n: int,
    i: int,
    j: int,
) -> bool {
    &&& is_square(before, n)
    &&& is_square(after, n)
    &&& 0 <= i < n
    &&& 0 <= j < n
    &&& before[i][j] == CellState::EMPTY
    &&& after[i][j] == CellState::MISS
    &&& forall|r: int, c: int|
        0 <= r < n && 0 <= c < n && !(r == i && c == j) ==> #[trigger] after[r][c] == before[r][c]
}

/// The board `g` of side `n` holds a hit at `(i, j)` and nothing else.
pub open spec fn only_hit_at(g: Seq<Seq<CellState>>, n: int, i: int, j: int) -> bool {
    &&& is_square(g, n)
    &&& 0 <= i < n
    &&& 0 <= j < n
    &&& g[i][j] == CellState::HIT
    &&& forall|r: int, c: int|
        0 <= r < n && 0 <= c < n && !(r == i && c == j) ==> #[trigger] g[r][c] == CellState::EMPTY
}

/// On a board where nothing has been observed, every cell has a positive score as soon
/// as the fleet holds one ship that fits on the board.
pub proof fn law_open_board_scores_positive(
    g: Seq<Seq<CellState>>,
    n: int,
    ships: Seq<usize>,
    r: int,
    c: int,
)
    requires
        all_unknown(g, n),
        exists|k: int| 0 <= k < ships.len() && 1 <= #[trigger] ships[k] <= n,
        0 <= r < n,
        0 <= c < n,
    ensures
        chance_at(g, n, ships, r, c) > 0,
        score_at(g, n, ships, r, c) > 0,
{
    let k = choose|k: int| 0 <= k < ships.len() && 1 <= #[trigger] ships[k] <= n;
    let mask = mask_of(g, n);
    assert forall|p: (usize, usize)| !#[trigger] sunk_at(g, p) by {
        if p.0 < n && p.1 < n {
            assert(g[p.0 as int][p.1 as int] == CellState::EMPTY);
        }
    }
    lemma_no_sunk_no_sizes(g, n);
    assert(reduced_fleet(ships, component_sizes(g, n)) == ships);
    assert forall|q: int| 0 <= q < n implies #[trigger] mask[r][q] by {
        assert forall|pi: int, pj: int| !#[trigger] rules_out(g, pi, pj, r, q) by {
            if 0 <= pi < n && 0 <= pj < n {
                assert(g[pi][pj] == CellState::EMPTY);
            }
        }
    }
    lemma_free_row_has_placement(mask, n, ships[k] as int, r, c);
    lemma_fleet_covers_as_ship(mask, n, ships, k, r, c);
}

/// A miss forbids a ship segment on its own cell.
pub proof fn law_miss_forbids_its_cell(g: Seq<Seq<CellState>>, i: int, j: int)
    requires
        holds(g, i, j, CellState::MISS),
    ensures
        !permitted(g, i, j),
{
    assert(rules_out(g, i, j, i, j));
}

/// A cell that holds a miss has the score zero: no placement passes through it.
pub proof fn law_miss_scores_zero(g: Seq<Seq<CellState>>, n: int, ships: Seq<usize>, i: int, j: int)
    requires
        is_square(g, n),
        0 <= i < n,
        0 <= j < n,
        g[i][j] == CellState::MISS,
    ensures
        chance_at(g, n, ships, i, j) == 0,
        score_at(g, n, ships, i, j) == 0,
{
    law_miss_forbids_its_cell(g, i, j);
    lemma_forbidden_cell_uncovered(
        mask_of(g, n),
        n,
        reduced_fleet(ships, component_sizes(g, n)),
        i,
        j,
    );
}

/// No placement passes through a miss, along its row or along its column.
pub proof fn law_no_placement_through_miss(
    g: Seq<Seq<CellState>>,
    n: int,
    i: int,
    j: int,
    start: int,
    len: int,
)
    requires
        is_square(g, n),
        0 <= i < n,
        0 <= j < n,
        g[i][j] == CellState::MISS,
    ensures
        start <= j < start + len ==> !row_run_free(mask_of(g, n), i, start, len),
        start <= i < start + len ==> !column_run_free(mask_of(g, n), j, start, len),
{
    law_miss_forbids_its_cell(g, i, j);
    assert(!mask_of(g, n)[i][j]);
}

/// A miss observed where nothing was known forbids its own cell and leaves every other
/// cell as it was; the wrecks stay what they were.
pub proof fn law_miss_changes_its_cell_only(
    before: Seq<Seq<CellState>>,
    after: Seq<Seq<CellState>>,
    n: int,
    i: int,
    j: int,
)
    requires
        adds_miss(before, after, n, i, j),
    ensures
        !permitted(after, i, j),
        forall|r: int, c: int|
            !(r == i && c == j) ==> #[trigger] permitted(after, r, c) == permitted(before, r, c),
        component_sizes(after, n) == component_sizes(before, n),
{
    law_miss_forbids_its_cell(after, i, j);
    assert forall|pi: int, pj: int, r: int, c: int| !(r == i && c == j) implies #[trigger] rules_out(
        after,
        pi,
        pj,
        r,
        c,
    ) == rules_out(before, pi, pj, r, c) by {
        if 0 <= pi < n && 0 <= pj < n && !(pi == i && pj == j) {
            assert(after[pi][pj] == before[pi][pj]);
        }
    }
    assert forall|r: int, c: int| !(r == i && c == j) implies #[trigger] permitted(after, r, c)
        == permitted(before, r, c) by {
        if permitted(after, r, c) {
            assert forall|pi: int, pj: int| !#[trigger] rules_out(before, pi, pj, r, c) by {
                assert(!rules_out(after, pi, pj, r, c));
            }
        }
        if permitted(before, r, c) {
            assert forall|pi: int, pj: int| !#[trigger] rules_out(after, pi, pj, r, c) by {
                assert(!rules_out(before, pi, pj, r, c));
            }
        }
    }
    assert(same_sunk_cells(after, before)) by {
        assert forall|p: (usize, usize)| #[trigger] sunk_at(after, p) == sunk_at(before, p) by {
            if p.0 < n && p.1 < n && !(p.0 == i && p.1 == j) {
                assert(after[p.0 as int][p.1 as int] == before[p.0 as int][p.1 as int]);
            }
        }
    }
    lemma_same_sunk_same_sizes(after, before, n);
}

/// A miss observed where nothing was known leaves every placement on the board that
/// does not pass through it as free or as blocked as it was.
pub proof fn law_miss_keeps_other_placements(
    before: Seq<Seq<CellState>>,
    after: Seq<Seq<CellState>>,
    n: int,
    i: int,
    j: int,
    line: int,
    start: int,
    len: int,
)
    requires
        adds_miss(before, after, n, i, j),
        0 <= line < n,
        0 <= start,
        start + len <= n,
    ensures
        !(line == i && start <= j < start + len) ==> row_run_free(
            mask_of(after, n),
            line,
            start,
            len,
        ) == row_run_free(mask_of(before, n), line, start, len),
        !(line == j && start <= i < start + len) ==> column_run_free(
            mask_of(after, n),
            line,
            start,
            len,
        ) == column_run_free(mask_of(before, n), line, start, len),
{
    law_miss_changes_its_cell_only(before, after, n, i, j);
    let old_mask = mask_of(before, n);
    let new_mask = mask_of(after, n);
    if !(line == i && start <= j < start + len) {
        assert forall|k: int| start <= k < start + len implies #[trigger] new_mask[line][k]
            == old_mask[line][k] by {
            assert(permitted(after, line, k) == permitted(before, line, k));
        }
        if row_run_free(new_mask, line, start, len) {
            assert forall|k: int| start <= k < start + len implies #[trigger] old_mask[line][k] by {
                assert(new_mask[line][k]);
            }
        }
        if row_run_free(old_mask, line, start, len) {
            assert forall|k: int| start <= k < start + len implies #[trigger] new_mask[line][k] by {
                assert(old_mask[line][k]);
            }
        }
    }
    if !(line == j && start <= i < start + len) {
        assert forall|k: int| start <= k < start + len implies #[trigger] new_mask[k][line]
            == old_mask[k][line] by {
            assert(permitted(after, k, line) == permitted(before, k, line));
        }
        if column_run_free(new_mask, line, start, len) {
            assert forall|k: int| start <= k < start + len implies #[trigger] old_mask[k][line] by {
                assert(new_mask[k][line]);
            }
        }
        if column_run_free(old_mask, line, start, len) {
            assert forall|k: int| start <= k < start + len implies #[trigger] new_mask[k][line] by {
                assert(old_mask[k][line]);
            }
        }
    }
}

/// A miss observed where nothing was known takes from the score of every cell the
/// placements that covered both the cell and the miss, and nothing else.
pub proof fn law_miss_takes_placements_through_it(
    before: Seq<Seq<CellState>>,
    after: Seq<Seq<CellState>>,
    n: int,
    ships: Seq<usize>,
    i: int,
    j: int,
    r: int,
    c: int,
)
    requires
        adds_miss(before, after, n, i, j),
        0 <= r < n,
        0 <= c < n,
    ensures
        chance_at(before, n, ships, r, c) == chance_at(after, n, ships, r, c)
            + fleet_placements_through(
            mask_of(before, n),
            n,
            reduced_fleet(ships, component_sizes(before, n)),
            r,
            c,
            i,
            j,
        ),
{
    law_miss_changes_its_cell_only(before, after, n, i, j);
    let wider = mask_of(before, n);
    let tighter = mask_of(after, n);
    assert(closes_cell(wider, tighter, n, i, j)) by {
        assert forall|a: int, b: int|
            0 <= a < n && 0 <= b < n && !(a == i && b == j) implies #[trigger] tighter[a][b]
            == wider[a][b] by {
            assert(permitted(after, a, b) == permitted(before, a, b));
        }
    }
    lemma_closed_cell_takes_placements_through(
        wider,
        tighter,
        n,
        reduced_fleet(ships, component_sizes(before, n)),
        r,
        c,
        i,
        j,
    );
}

/// A miss observed where nothing was known raises the score of no cell.
pub proof fn law_miss_never_raises_score(
    before: Seq<Seq<CellState>>,
    after: Seq<Seq<CellState>>,
    n: int,
    ships: Seq<usize>,
    i: int,
    j: int,
    r: int,
    c: int,
)
    requires
        adds_miss(before, after, n, i, j),
        0 <= r < n,
        0 <= c < n,
    ensures
        chance_at(after, n, ships, r, c) <= chance_at(before, n, ships, r, c),
        score_at(after, n, ships, r, c) <= score_at(before, n, ships, r, c),
{
    law_miss_changes_its_cell_only(before, after, n, i, j);
    let loose = mask_of(before, n);
    let tight = mask_of(after, n);
    assert(no_tighter_along(loose, tight, n, r, c)) by {
        assert forall|k: int| 0 <= k < n && #[trigger] tight[r][k] implies loose[r][k] by {
            assert(permitted(after, r, k));
            assert(!(r == i && k == j));
        }
        assert forall|k: int| 0 <= k < n && #[trigger] tight[k][c] implies loose[k][c] by {
            assert(permitted(after, k, c));
            assert(!(k == i && c == j));
        }
    }
    lemma_looser_mask_more_placements(
        loose,
        tight,
        n,
        reduced_fleet(ships, component_sizes(before, n)),
        r,
        c,
    );
}

/// A miss observed where nothing was known leaves the score of every cell outside its
/// row and its column as it was.
pub proof fn law_miss_keeps_scores_off_its_lines(
    before: Seq<Seq<CellState>>,
    after: Seq<Seq<CellState>>,
    n: int,
    ships: Seq<usize>,
    i: int,
    j: int,
    r: int,
    c: int,
)
    requires
        adds_miss(before, after, n, i, j),
        0 <= r < n,
        0 <= c < n,
        r != i,
        c != j,
    ensures
        chance_at(after, n, ships, r, c) == chance_at(before, n, ships, r, c),
        score_at(after, n, ships, r, c) == score_at(before, n, ships, r, c),
{
    law_miss_changes_its_cell_only(before, after, n, i, j);
    law_miss_never_raises_score(before, after, n, ships, i, j, r, c);
    let old_mask = mask_of(before, n);
    let new_mask = mask_of(after, n);
    assert(no_tighter_along(new_mask, old_mask, n, r, c)) by {
        assert forall|k: int| 0 <= k < n && #[trigger] old_mask[r][k] implies new_mask[r][k] by {
            assert(permitted(after, r, k) == permitted(before, r, k));
        }
        assert forall|k: int| 0 <= k < n && #[trigger] old_mask[k][c] implies new_mask[k][c] by {
            assert(permitted(after, k, c) == permitted(before, k, c));
        }
    }
    lemma_looser_mask_more_placements(
        new_mask,
        old_mask,
        n,
        reduced_fleet(ships, component_sizes(before, n)),
        r,
        c,
    );
}

/// On a board that holds one hit and nothing else, the cells on which no ship segment
/// may lie are the cells at the corners of the hit; the hit's own cell stays free.
pub proof fn law_single_hit_forbids_its_corners(g: Seq<Seq<CellState>>, n: int, i: int, j: int)
    requires
        only_hit_at(g, n, i, j),
    ensures
        permitted(g, i, j),
        forall|r: int, c: int| #[trigger] permitted(g, r, c) == !is_diagonal(i, j, r, c),
{
    assert forall|r: int, c: int| #[trigger] permitted(g, r, c) == !is_diagonal(i, j, r, c) by {
        if is_diagonal(i, j, r, c) {
            assert(rules_out(g, i, j, r, c));
        } else {
            assert forall|pi: int, pj: int| !#[trigger] rules_out(g, pi, pj, r, c) by {
                if 0 <= pi < n && 0 <= pj < n && !(pi == i && pj == j) {
                    assert(g[pi][pj] == CellState::EMPTY);
                }
            }
        }
    }
}

/// A sunk segment forbids a ship segment on its own cell and on each of the eight cells
/// around it.
pub proof fn law_sunk_forbids_its_surroundings(
    g: Seq<Seq<CellState>>,
    i: int,
    j: int,
    r: int,
    c: int,
)
    requires
        holds(g, i, j, CellState::SUNK),
        is_near(i, j, r, c),
    ensures
        !permitted(g, r, c),
{
    assert(rules_out(g, i, j, r, c));
}

/// Every sunk cell belongs to the wreck of exactly one first cell, so that the sizes of
/// the wrecks, taken by their first cells, count each wreck once.
pub proof fn law_wreck_has_one_first_cell(g: Seq<Seq<CellState>>, c: (usize, usize)) -> (first: (
    usize,
    usize,
))
    requires
        sunk_at(g, c),
    ensures
        is_leader(g, first),
        connected(g, first, c),
        forall|other: (usize, usize)|
            is_leader(g, other) && #[trigger] connected(g, other, c) ==> other == first,
    decreases c.0, c.1,
{
    if is_leader(g, c) {
        lemma_connected_refl(g, c);
        assert forall|other: (usize, usize)|
            is_leader(g, other) && #[trigger] connected(g, other, c) implies other == c by {
            if before(other, c) {
                assert(reaches_from_before(g, c, other, c));
            } else if before(c, other) {
                lemma_connected_sym(g, other, c);
                assert(reaches_from_before(g, other, c, other));
            }
        }
        c
    } else {
        let a = choose|a: (usize, usize)| #[trigger] reaches_from_before(g, c, a, c);
        lemma_connected_sunk(g, a, c);
        let first = law_wreck_has_one_first_cell(g, a);
        lemma_connected_trans(g, first, a, c);
        assert forall|other: (usize, usize)|
            is_leader(g, other) && #[trigger] connected(g, other, c) implies other == first by {
            lemma_connected_sym(g, a, c);
            lemma_connected_trans(g, other, c, a);
        }
        first
    }
}

/// A board without cells has no wreck.
pub proof fn law_empty_board_has_no_wreck(g: Seq<Seq<CellState>>)
    ensures
        component_sizes(g, 0) == Seq::<nat>::empty(),
{
}

/// A board of side `n` that holds sunk segments only has a single wreck, of `n * n`
/// cells.
pub proof fn law_all_sunk_is_one_wreck(g: Seq<Seq<CellState>>, n: int)
    requires
        all_sunk(g, n),
        1 <= n <= usize::MAX,
    ensures
        component_sizes(g, n) == seq![(n * n) as nat],
{
    lemma_all_sunk_sizes(g, n);
}

/// The scores depend on the board and the fleet alone: two score grids for the same
/// board and fleet are equal.
pub proof fn law_chances_are_determined(
    first: Seq<Seq<usize>>,
    second: Seq<Seq<usize>>,
    g: Seq<Seq<CellState>>,
    n: int,
    ships: Seq<usize>,
)
    requires
        is_chance_grid(first, g, n, ships),
        is_chance_grid(second, g, n, ships),
    ensures
        first == second,
{
    assert forall|r: int| 0 <= r < n implies #[trigger] first[r] == second[r] by {
        assert forall|c: int| 0 <= c < n implies #[trigger] first[r][c] == second[r][c] by {
            assert(first[r][c] == score_at(g, n, ships, r, c));
            assert(second[r][c] == score_at(g, n, ships, r, c));
        }
        assert(first[r].len() == n);
        assert(second[r].len() == n);
        assert(first[r] =~= second[r]);
    }
    assert(first =~= second);
}

/// No score on a board of side `n` is above `2 * n` for each ship of the fleet: where
/// that product fits in the machine's numbers, every score is held as it is.
pub proof fn law_score_within_bound(
    g: Seq<Seq<CellState>>,
    n: int,
    ships: Seq<usize>,
    r: int,
    c: int,
)
    requires
        0 <= n,
    ensures
        chance_at(g, n, ships, r, c) <= 2 * n * ships.len(),
        2 * n * ships.len() <= usize::MAX ==> score_at(g, n, ships, r, c) == chance_at(
            g,
            n,
            ships,
            r,
            c,
        ),
{
    let left = reduced_fleet(ships, component_sizes(g, n));
    lemma_reduced_fleet_len(ships, component_sizes(g, n));
    lemma_fleet_placements_bound(mask_of(g, n), n, left, r, c);
    assert(2 * n * left.len() <= 2 * n * ships.len()) by (nonlinear_arith)
        requires
            0 <= n,
            left.len() <= ships.len(),
    ;
}

/// No cell has more overlap than the side of the board plus one for each ship: where
/// that product fits in the machine's numbers, every overlap does.
pub proof fn law_overlap_within_bound(size: int, ships: Seq<u32>, x: int, y: int)
    requires
        0 <= x < size,
        0 <= y < size,
    ensures
        0 <= fleet_overlap_at(size, ships, x, y) <= ships.len() * (size + 1),
    decreases ships.len(),
{
    if ships.len() > 0 {
        law_overlap_within_bound(size, ships.drop_last(), x, y);
        lemma_ship_overlap_bounds(size, ships.last() as int, x, y);
        assert((ships.len() - 1) * (size + 1) + (size + 1) == ships.len() * (size + 1))
            by (nonlinear_arith);
    }
}

} // verus!
