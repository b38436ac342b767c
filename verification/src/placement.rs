//! Where ship segments may lie, given what has been observed, and how many placements
//! of the remaining ships cover each cell.

use crate::brain::CellState;
use crate::components::component_sizes;
use crate::matrix::is_square;
use vstd::prelude::*;

verus! {

/// Cell `(i, j)` lies on the board `g` and holds the state `s`.
pub open spec fn holds(g: Seq<Seq<CellState>>, i: int, j: int, s: CellState) -> bool {
    0 <= i < g.len() && 0 <= j < g[i].len() && g[i][j] == s
}

/// `(qi, qj)` touches `(pi, pj)` at a corner only.
pub open spec fn is_diagonal(pi: int, pj: int, qi: int, qj: int) -> bool {
    (qi == pi + 1 || qi == pi - 1) && (qj == pj + 1 || qj == pj - 1)
}

/// `(qi, qj)` is `(pi, pj)` itself or one of the eight cells around it.
pub open spec fn is_near(pi: int, pj: int, qi: int, qj: int) -> bool {
    pi - 1 <= qi <= pi + 1 && pj - 1 <= qj <= pj + 1
}

/// What is observed at `(pi, pj)` forbids a ship segment at `(qi, qj)`: a miss forbids
/// its own cell, a hit the cells at its corners, a sunk segment its own cell and the
/// eight cells around it.
pub open spec fn rules_out(g: Seq<Seq<CellState>>, pi: int, pj: int, qi: int, qj: int) -> bool {
    ||| holds(g, pi, pj, CellState::MISS) && qi == pi && qj == pj
    ||| holds(g, pi, pj, CellState::HIT) && is_diagonal(pi, pj, qi, qj)
    ||| holds(g, pi, pj, CellState::SUNK) && is_near(pi, pj, qi, qj)
}

/// No observation on the board forbids a ship segment at `(qi, qj)`.
pub open spec fn permitted(g: Seq<Seq<CellState>>, qi: int, qj: int) -> bool {
    forall|pi: int, pj: int| !#[trigger] rules_out(g, pi, pj, qi, qj)
}

/// `mask` says of each cell of the board `g` of side `n` whether a ship segment may lie
/// there.
pub open spec fn is_mask_of(mask: Seq<Seq<bool>>, g: Seq<Seq<CellState>>, n: int) -> bool {
    &&& is_square(mask, n)
    &&& forall|i: int, j: int|
        0 <= i < n && 0 <= j < n ==> #[trigger] mask[i][j] == permitted(g, i, j)
}

/// The mask of the board `g` of side `n`.
pub open spec fn mask_of(g: Seq<Seq<CellState>>, n: int) -> Seq<Seq<bool>> {
    Seq::new(n as nat, |i: int| Seq::new(n as nat, |j: int| permitted(g, i, j)))
}

/// `(pi, pj)` comes before `(i, j)` when the board is read row by row.
pub open spec fn comes_before(pi: int, pj: int, i: int, j: int) -> bool {
    pi < i || (pi == i && pj < j)
}

/// An observation that comes before `(i, j)` forbids a ship segment at `(qi, qj)`.
pub open spec fn ruled_out_from(
    g: Seq<Seq<CellState>>,
    i: int,
    j: int,
    pi: int,
    pj: int,
    qi: int,
    qj: int,
) -> bool {
    comes_before(pi, pj, i, j) && rules_out(g, pi, pj, qi, qj)
}

/// No observation that comes before `(i, j)` forbids a ship segment at `(qi, qj)`.
pub open spec fn permitted_before(
    g: Seq<Seq<CellState>>,
    i: int,
    j: int,
    qi: int,
    qj: int,
) -> bool {
    forall|pi: int, pj: int| !#[trigger] ruled_out_from(g, i, j, pi, pj, qi, qj)
}

/// `fleet[k]` is the first ship of the fleet of length `size`.
pub open spec fn is_first_of_size(fleet: Seq<usize>, size: nat, k: int) -> bool {
    &&& 0 <= k < fleet.len()
    &&& fleet[k] == size
    &&& forall|m: int| 0 <= m < k ==> fleet[m] != size
}

/// The fleet without its first ship of length `size`; the fleet itself where it has no
/// such ship.
pub open spec fn without_ship(fleet: Seq<usize>, size: nat) -> Seq<usize> {
    if exists|k: int| is_first_of_size(fleet, size, k) {
        fleet.remove(choose|k: int| is_first_of_size(fleet, size, k))
    } else {
        fleet
    }
}

/// The fleet after one ship has been taken out for each wreck size in turn, where the
/// fleet still has a ship of that length.
pub open spec fn reduced_fleet(fleet: Seq<usize>, sizes: Seq<nat>) -> Seq<usize>
    decreases sizes.len(),
{
    if sizes.len() == 0 {
        fleet
    } else {
        without_ship(reduced_fleet(fleet, sizes.drop_last()), sizes.last())
    }
}

/// The `len` cells of row `r` from column `start` on may all hold a ship segment.
pub open spec fn row_run_free(mask: Seq<Seq<bool>>, r: int, start: int, len: int) -> bool {
    forall|k: int| start <= k < start + len ==> #[trigger] mask[r][k]
}

/// The `len` cells of column `c` from row `start` on may all hold a ship segment.
pub open spec fn column_run_free(mask: Seq<Seq<bool>>, c: int, start: int, len: int) -> bool {
    forall|k: int| start <= k < start + len ==> #[trigger] mask[k][c]
}

/// A ship of length `len` may lie in row `r` from column `start` on, and then covers
/// `(r, c)`.
pub open spec fn row_placement_covers(
    mask: Seq<Seq<bool>>,
    len: int,
    r: int,
    c: int,
    start: int,
) -> bool {
    start <= c < start + len && row_run_free(mask, r, start, len)
}

/// A ship of length `len` may lie in column `c` from row `start` on, and then covers
/// `(r, c)`.
pub open spec fn column_placement_covers(
    mask: Seq<Seq<bool>>,
    len: int,
    r: int,
    c: int,
    start: int,
) -> bool {
    start <= r < start + len && column_run_free(mask, c, start, len)
}

/// How many of the placements along row `r` that start in one of the first `starts`
/// columns cover `(r, c)`.
pub open spec fn row_placements_over(
    mask: Seq<Seq<bool>>,
    len: int,
    r: int,
    c: int,
    starts: int,
) -> nat
    decreases starts,
{
    if starts <= 0 {
        0
    } else {
        let earlier = row_placements_over(mask, len, r, c, starts - 1);
        if row_placement_covers(mask, len, r, c, starts - 1) {
            earlier + 1
        } else {
            earlier
        }
    }
}

/// How many of the placements along column `c` that start in one of the first `starts`
/// rows cover `(r, c)`.
pub open spec fn column_placements_over(
    mask: Seq<Seq<bool>>,
    len: int,
    r: int,
    c: int,
    starts: int,
) -> nat
    decreases starts,
{
    if starts <= 0 {
        0
    } else {
        let earlier = column_placements_over(mask, len, r, c, starts - 1);
        if column_placement_covers(mask, len, r, c, starts - 1) {
            earlier + 1
        } else {
            earlier
        }
    }
}

/// How many placements of one ship of length `len` on a board of side `n` cover `(r, c)`,
/// along its row and along its column together. A length of zero or above `n` has none.
pub open spec fn ship_placements_over(
    mask: Seq<Seq<bool>>,
    n: int,
    len: int,
    r: int,
    c: int,
) -> nat {
    if 1 <= len <= n {
        row_placements_over(mask, len, r, c, n - len + 1) + column_placements_over(
            mask,
            len,
            r,
            c,
            n - len + 1,
        )
    } else {
        0
    }
}

/// How many placements of the ships of `fleet` cover `(r, c)`, each ship counted on its
/// own.
pub open spec fn fleet_placements_over(
    mask: Seq<Seq<bool>>,
    n: int,
    fleet: Seq<usize>,
    r: int,
    c: int,
) -> nat
    decreases fleet.len(),
{
    if fleet.len() == 0 {
        0
    } else {
        fleet_placements_over(mask, n, fleet.drop_last(), r, c) + ship_placements_over(
            mask,
            n,
            fleet.last() as int,
            r,
            c,
        )
    }
}

/// A count as the machine holds it: the count itself, or the largest number where the
/// count is above it.
pub open spec fn capped(count: nat) -> usize {
    if count <= usize::MAX {
        count as usize
    } else {
        usize::MAX
    }
}

/// A held count after one more has been counted: a count at the largest number stays
/// there.
pub open spec fn one_more(count: usize) -> usize {
    if count < usize::MAX {
        (count + 1) as usize
    } else {
        count
    }
}

/// `chances` holds, for each cell of a board of side `n`, the number of placements of
/// the ships of `fleet` that cover it.
pub open spec fn is_placement_count(
    chances: Seq<Seq<usize>>,
    mask: Seq<Seq<bool>>,
    n: int,
    fleet: Seq<usize>,
) -> bool {
    &&& is_square(chances, n)
    &&& forall|r: int, c: int|
        0 <= r < n && 0 <= c < n ==> #[trigger] chances[r][c] == capped(
            fleet_placements_over(mask, n, fleet, r, c),
        )
}

/// The score of `(r, c)`: the number of placements that cover it, of the ships that are
/// left once a ship has been taken out for each wreck, on the cells that the
/// observations leave open.
pub open spec fn chance_at(
    g: Seq<Seq<CellState>>,
    n: int,
    ships: Seq<usize>,
    r: int,
    c: int,
) -> nat {
    fleet_placements_over(mask_of(g, n), n, reduced_fleet(ships, component_sizes(g, n)), r, c)
}

/// The score of `(r, c)` as the machine holds it.
pub open spec fn score_at(
    g: Seq<Seq<CellState>>,
    n: int,
    ships: Seq<usize>,
    r: int,
    c: int,
) -> usize {
    capped(chance_at(g, n, ships, r, c))
}

/// `chances` holds the score of each cell of the board `g` of side `n` for the fleet
/// `ships`.
pub open spec fn is_chance_grid(
    chances: Seq<Seq<usize>>,
    g: Seq<Seq<CellState>>,
    n: int,
    ships: Seq<usize>,
) -> bool {
    &&& is_square(chances, n)
    &&& forall|r: int, c: int|
        0 <= r < n && 0 <= c < n ==> #[trigger] chances[r][c] == score_at(g, n, ships, r, c)
}


/// Nothing comes before the first cell of the board.
pub proof fn lemma_permitted_at_start(g: Seq<Seq<CellState>>, qi: int, qj: int)
    ensures
        permitted_before(g, 0, 0, qi, qj),
{
}

/// What is permitted once `(i, j)` has been read is what was permitted before it and
/// is not forbidden by `(i, j)`.
pub proof fn lemma_permitted_next(g: Seq<Seq<CellState>>, i: int, j: int, qi: int, qj: int)
    ensures
        permitted_before(g, i, j + 1, qi, qj) <==> (permitted_before(g, i, j, qi, qj) && !rules_out(
            g,
            i,
            j,
            qi,
            qj,
        )),
{
    if permitted_before(g, i, j + 1, qi, qj) {
        assert forall|pi: int, pj: int| !#[trigger] ruled_out_from(g, i, j, pi, pj, qi, qj) by {
            assert(!ruled_out_from(g, i, j + 1, pi, pj, qi, qj));
        }
        assert(!ruled_out_from(g, i, j + 1, i, j, qi, qj));
    }
    if permitted_before(g, i, j, qi, qj) && !rules_out(g, i, j, qi, qj) {
        assert forall|pi: int, pj: int| !#[trigger] ruled_out_from(g, i, j + 1, pi, pj, qi, qj) by {
            assert(!ruled_out_from(g, i, j, pi, pj, qi, qj));
        }
    }
}

/// On a board of side `n`, the end of row `i` and the start of the next row have the
/// same cells before them.
pub proof fn lemma_permitted_row_end(g: Seq<Seq<CellState>>, n: int, i: int, qi: int, qj: int)
    requires
        is_square(g, n),
    ensures
        permitted_before(g, i, n, qi, qj) <==> permitted_before(g, i + 1, 0, qi, qj),
{
    if permitted_before(g, i, n, qi, qj) {
        assert forall|pi: int, pj: int| !#[trigger] ruled_out_from(g, i + 1, 0, pi, pj, qi, qj) by {
            assert(!ruled_out_from(g, i, n, pi, pj, qi, qj));
        }
    }
    if permitted_before(g, i + 1, 0, qi, qj) {
        assert forall|pi: int, pj: int| !#[trigger] ruled_out_from(g, i, n, pi, pj, qi, qj) by {
            assert(!ruled_out_from(g, i + 1, 0, pi, pj, qi, qj));
        }
    }
}

/// Once every row of a board of side `n` has been read, every observation has been.
pub proof fn lemma_permitted_at_end(g: Seq<Seq<CellState>>, n: int, qi: int, qj: int)
    requires
        is_square(g, n),
    ensures
        permitted_before(g, n, 0, qi, qj) <==> permitted(g, qi, qj),
{
    if permitted_before(g, n, 0, qi, qj) {
        assert forall|pi: int, pj: int| !#[trigger] rules_out(g, pi, pj, qi, qj) by {
            assert(!ruled_out_from(g, n, 0, pi, pj, qi, qj));
        }
    }
    if permitted(g, qi, qj) {
        assert forall|pi: int, pj: int| !#[trigger] ruled_out_from(g, n, 0, pi, pj, qi, qj) by {
            assert(!rules_out(g, pi, pj, qi, qj));
        }
    }
}


/// Of a ship's placements along a row, those that start in the first `i` rows at all,
/// and in row `i` in one of its first `j` columns, as far as they cover `(r, c)`;
/// `starts` is the number of columns in which a placement can start.
pub open spec fn row_placements_done(
    mask: Seq<Seq<bool>>,
    len: int,
    starts: int,
    i: int,
    j: int,
    r: int,
    c: int,
) -> nat {
    if r < i {
        row_placements_over(mask, len, r, c, starts)
    } else if r == i {
        row_placements_over(mask, len, r, c, j)
    } else {
        0
    }
}

/// Of a ship's placements along a column, those in the first `i` columns at all, and
/// in column `i` those that start in one of its first `j` rows, as far as they cover
/// `(r, c)`; `starts` is the number of rows in which a placement can start.
pub open spec fn column_placements_done(
    mask: Seq<Seq<bool>>,
    len: int,
    starts: int,
    i: int,
    j: int,
    r: int,
    c: int,
) -> nat {
    if c < i {
        column_placements_over(mask, len, r, c, starts)
    } else if c == i {
        column_placements_over(mask, len, r, c, j)
    } else {
        0
    }
}

/// Counting more starting columns never counts fewer placements.
pub proof fn lemma_row_placements_grow(
    mask: Seq<Seq<bool>>,
    len: int,
    r: int,
    c: int,
    a: int,
    b: int,
)
    requires
        a <= b,
    ensures
        row_placements_over(mask, len, r, c, a) <= row_placements_over(mask, len, r, c, b),
    decreases b - a,
{
    if a < b {
        lemma_row_placements_grow(mask, len, r, c, a, b - 1);
    }
}

/// The first `k + 1` ships cover a cell as often as the first `k` and the next ship
/// together.
pub proof fn lemma_fleet_placements_step(
    mask: Seq<Seq<bool>>,
    n: int,
    fleet: Seq<usize>,
    k: int,
    r: int,
    c: int,
)
    requires
        0 <= k < fleet.len(),
    ensures
        fleet_placements_over(mask, n, fleet.take(k + 1), r, c) == fleet_placements_over(
            mask,
            n,
            fleet.take(k),
            r,
            c,
        ) + ship_placements_over(mask, n, fleet[k] as int, r, c),
{
    assert(fleet.take(k + 1).drop_last() =~= fleet.take(k));
}

/// A part of the fleet, taken from its start, covers a cell no more often than the
/// whole fleet.
pub proof fn lemma_fleet_placements_grow(
    mask: Seq<Seq<bool>>,
    n: int,
    fleet: Seq<usize>,
    k: int,
    r: int,
    c: int,
)
    requires
        0 <= k <= fleet.len(),
    ensures
        fleet_placements_over(mask, n, fleet.take(k), r, c) <= fleet_placements_over(
            mask,
            n,
            fleet,
            r,
            c,
        ),
    decreases fleet.len() - k,
{
    if k < fleet.len() {
        lemma_fleet_placements_step(mask, n, fleet, k, r, c);
        lemma_fleet_placements_grow(mask, n, fleet, k + 1, r, c);
    } else {
        assert(fleet.take(k) =~= fleet);
    }
}

/// The first ship of a given length is the same whichever way it was found.
pub proof fn lemma_without_ship_at(fleet: Seq<usize>, size: nat, k: int)
    requires
        is_first_of_size(fleet, size, k),
    ensures
        without_ship(fleet, size) == fleet.remove(k),
{
    let w = choose|w: int| is_first_of_size(fleet, size, w);
    assert(w == k) by {
        if w < k {
            assert(fleet[w] != size);
        }
        if k < w {
            assert(fleet[k] != size);
        }
    }
}

/// A fleet without a ship of the given length stays as it is.
pub proof fn lemma_without_ship_absent(fleet: Seq<usize>, size: nat)
    requires
        forall|k: int| 0 <= k < fleet.len() ==> fleet[k] != size,
    ensures
        without_ship(fleet, size) == fleet,
{
}


proof fn lemma_forbidden_cell_row(mask: Seq<Seq<bool>>, len: int, r: int, c: int, starts: int)
    requires
        !mask[r][c],
    ensures
        row_placements_over(mask, len, r, c, starts) == 0,
    decreases starts,
{
    if starts > 0 {
        lemma_forbidden_cell_row(mask, len, r, c, starts - 1);
        if row_placement_covers(mask, len, r, c, starts - 1) {
            assert(mask[r][c]);
        }
    }
}

proof fn lemma_forbidden_cell_column(mask: Seq<Seq<bool>>, len: int, r: int, c: int, starts: int)
    requires
        !mask[r][c],
    ensures
        column_placements_over(mask, len, r, c, starts) == 0,
    decreases starts,
{
    if starts > 0 {
        lemma_forbidden_cell_column(mask, len, r, c, starts - 1);
        if column_placement_covers(mask, len, r, c, starts - 1) {
            assert(mask[r][c]);
        }
    }
}

/// No placement covers a cell on which no ship segment may lie.
pub proof fn lemma_forbidden_cell_uncovered(
    mask: Seq<Seq<bool>>,
    n: int,
    fleet: Seq<usize>,
    r: int,
    c: int,
)
    requires
        !mask[r][c],
    ensures
        fleet_placements_over(mask, n, fleet, r, c) == 0,
    decreases fleet.len(),
{
    if fleet.len() > 0 {
        let len = fleet.last() as int;
        lemma_forbidden_cell_uncovered(mask, n, fleet.drop_last(), r, c);
        lemma_forbidden_cell_row(mask, len, r, c, n - len + 1);
        lemma_forbidden_cell_column(mask, len, r, c, n - len + 1);
    }
}

/// Every cell of row `r` and of column `c` that `tight` leaves free, `loose` leaves free
/// too, on a board of side `n`.
pub open spec fn no_tighter_along(
    loose: Seq<Seq<bool>>,
    tight: Seq<Seq<bool>>,
    n: int,
    r: int,
    c: int,
) -> bool {
    &&& forall|k: int| 0 <= k < n && #[trigger] tight[r][k] ==> loose[r][k]
    &&& forall|k: int| 0 <= k < n && #[trigger] tight[k][c] ==> loose[k][c]
}

proof fn lemma_looser_row(
    loose: Seq<Seq<bool>>,
    tight: Seq<Seq<bool>>,
    n: int,
    len: int,
    r: int,
    c: int,
    starts: int,
)
    requires
        no_tighter_along(loose, tight, n, r, c),
        starts <= n - len + 1,
    ensures
        row_placements_over(tight, len, r, c, starts) <= row_placements_over(
            loose,
            len,
            r,
            c,
            starts,
        ),
    decreases starts,
{
    if starts > 0 {
        lemma_looser_row(loose, tight, n, len, r, c, starts - 1);
        if row_placement_covers(tight, len, r, c, starts - 1) {
            assert forall|k: int| starts - 1 <= k < starts - 1 + len implies #[trigger] loose[r][k]
            by {
                assert(tight[r][k]);
            }
        }
    }
}

proof fn lemma_looser_column(
    loose: Seq<Seq<bool>>,
    tight: Seq<Seq<bool>>,
    n: int,
    len: int,
    r: int,
    c: int,
    starts: int,
)
    requires
        no_tighter_along(loose, tight, n, r, c),
        starts <= n - len + 1,
    ensures
        column_placements_over(tight, len, r, c, starts) <= column_placements_over(
            loose,
            len,
            r,
            c,
            starts,
        ),
    decreases starts,
{
    if starts > 0 {
        lemma_looser_column(loose, tight, n, len, r, c, starts - 1);
        if column_placement_covers(tight, len, r, c, starts - 1) {
            assert forall|k: int| starts - 1 <= k < starts - 1 + len implies #[trigger] loose[k][c]
            by {
                assert(tight[k][c]);
            }
        }
    }
}

/// Where one mask leaves free, along the row and the column of a cell, whatever another
/// leaves free, it lets at least as many placements cover that cell.
pub proof fn lemma_looser_mask_more_placements(
    loose: Seq<Seq<bool>>,
    tight: Seq<Seq<bool>>,
    n: int,
    fleet: Seq<usize>,
    r: int,
    c: int,
)
    requires
        no_tighter_along(loose, tight, n, r, c),
    ensures
        fleet_placements_over(tight, n, fleet, r, c) <= fleet_placements_over(
            loose,
            n,
            fleet,
            r,
            c,
        ),
    decreases fleet.len(),
{
    if fleet.len() > 0 {
        let len = fleet.last() as int;
        lemma_looser_mask_more_placements(loose, tight, n, fleet.drop_last(), r, c);
        if 1 <= len <= n {
            lemma_looser_row(loose, tight, n, len, r, c, n - len + 1);
            lemma_looser_column(loose, tight, n, len, r, c, n - len + 1);
        }
    }
}

/// The fleet covers a cell at least as often as any one of its ships does.
pub proof fn lemma_fleet_covers_as_ship(
    mask: Seq<Seq<bool>>,
    n: int,
    fleet: Seq<usize>,
    k: int,
    r: int,
    c: int,
)
    requires
        0 <= k < fleet.len(),
    ensures
        ship_placements_over(mask, n, fleet[k] as int, r, c) <= fleet_placements_over(
            mask,
            n,
            fleet,
            r,
            c,
        ),
{
    lemma_fleet_placements_step(mask, n, fleet, k, r, c);
    lemma_fleet_placements_grow(mask, n, fleet, k + 1, r, c);
}

/// In a row without a forbidden cell, a ship that fits on the board has a placement
/// over each cell of the row.
pub proof fn lemma_free_row_has_placement(mask: Seq<Seq<bool>>, n: int, len: int, r: int, c: int)
    requires
        1 <= len <= n,
        0 <= c < n,
        forall|k: int| 0 <= k < n ==> #[trigger] mask[r][k],
    ensures
        ship_placements_over(mask, n, len, r, c) >= 1,
{
    let start = if c <= n - len {
        c
    } else {
        n - len
    };
    assert(row_placement_covers(mask, len, r, c, start));
    lemma_row_placements_grow(mask, len, r, c, start + 1, n - len + 1);
}


proof fn lemma_row_placements_bound(mask: Seq<Seq<bool>>, len: int, r: int, c: int, starts: int)
    requires
        0 <= starts,
    ensures
        row_placements_over(mask, len, r, c, starts) <= starts,
    decreases starts,
{
    if starts > 0 {
        lemma_row_placements_bound(mask, len, r, c, starts - 1);
    }
}

proof fn lemma_column_placements_bound(mask: Seq<Seq<bool>>, len: int, r: int, c: int, starts: int)
    requires
        0 <= starts,
    ensures
        column_placements_over(mask, len, r, c, starts) <= starts,
    decreases starts,
{
    if starts > 0 {
        lemma_column_placements_bound(mask, len, r, c, starts - 1);
    }
}

/// A fleet covers no cell of a board of side `n` more than `2 * n` times for each of
/// its ships.
pub proof fn lemma_fleet_placements_bound(
    mask: Seq<Seq<bool>>,
    n: int,
    fleet: Seq<usize>,
    r: int,
    c: int,
)
    requires
        0 <= n,
    ensures
        fleet_placements_over(mask, n, fleet, r, c) <= 2 * n * fleet.len(),
    decreases fleet.len(),
{
    if fleet.len() > 0 {
        let len = fleet.last() as int;
        lemma_fleet_placements_bound(mask, n, fleet.drop_last(), r, c);
        if 1 <= len <= n {
            lemma_row_placements_bound(mask, len, r, c, n - len + 1);
            lemma_column_placements_bound(mask, len, r, c, n - len + 1);
        }
        assert(2 * n * (fleet.len() - 1) + 2 * n == 2 * n * fleet.len()) by (nonlinear_arith);
    }
}

/// Taking ships out for wrecks never makes the fleet longer.
pub proof fn lemma_reduced_fleet_len(fleet: Seq<usize>, sizes: Seq<nat>)
    ensures
        reduced_fleet(fleet, sizes).len() <= fleet.len(),
    decreases sizes.len(),
{
    if sizes.len() > 0 {
        lemma_reduced_fleet_len(fleet, sizes.drop_last());
    }
}

/// How many of the placements along row `r` that start in one of the first `starts`
/// columns cover both `(r, c)` and `(i, j)`.
pub open spec fn row_placements_through(
    mask: Seq<Seq<bool>>,
    len: int,
    r: int,
    c: int,
    i: int,
    j: int,
    starts: int,
) -> nat
    decreases starts,
{
    if starts <= 0 {
        0
    } else {
        let earlier = row_placements_through(mask, len, r, c, i, j, starts - 1);
        if row_placement_covers(mask, len, r, c, starts - 1) && row_placement_covers(
            mask,
            len,
            i,
            j,
            starts - 1,
        ) && r == i {
            earlier + 1
        } else {
            earlier
        }
    }
}

/// How many of the placements along column `c` that start in one of the first `starts`
/// rows cover both `(r, c)` and `(i, j)`.
pub open spec fn column_placements_through(
    mask: Seq<Seq<bool>>,
    len: int,
    r: int,
    c: int,
    i: int,
    j: int,
    starts: int,
) -> nat
    decreases starts,
{
    if starts <= 0 {
        0
    } else {
        let earlier = column_placements_through(mask, len, r, c, i, j, starts - 1);
        if column_placement_covers(mask, len, r, c, starts - 1) && column_placement_covers(
            mask,
            len,
            i,
            j,
            starts - 1,
        ) && c == j {
            earlier + 1
        } else {
            earlier
        }
    }
}

/// How many placements of one ship of length `len` on a board of side `n` cover both
/// `(r, c)` and `(i, j)`.
pub open spec fn ship_placements_through(
    mask: Seq<Seq<bool>>,
    n: int,
    len: int,
    r: int,
    c: int,
    i: int,
    j: int,
) -> nat {
    if 1 <= len <= n {
        row_placements_through(mask, len, r, c, i, j, n - len + 1) + column_placements_through(
            mask,
            len,
            r,
            c,
            i,
            j,
            n - len + 1,
        )
    } else {
        0
    }
}

/// How many placements of the ships of `fleet` cover both `(r, c)` and `(i, j)`, each
/// ship counted on its own.
pub open spec fn fleet_placements_through(
    mask: Seq<Seq<bool>>,
    n: int,
    fleet: Seq<usize>,
    r: int,
    c: int,
    i: int,
    j: int,
) -> nat
    decreases fleet.len(),
{
    if fleet.len() == 0 {
        0
    } else {
        fleet_placements_through(mask, n, fleet.drop_last(), r, c, i, j)
            + ship_placements_through(mask, n, fleet.last() as int, r, c, i, j)
    }
}

/// `tighter` is `wider` with the cell `(i, j)` forbidden, on a board of side `n`.
pub open spec fn closes_cell(
    wider: Seq<Seq<bool>>,
    tighter: Seq<Seq<bool>>,
    n: int,
    i: int,
    j: int,
) -> bool {
    &&& 0 <= i < n
    &&& 0 <= j < n
    &&& !tighter[i][j]
    &&& forall|a: int, b: int|
        0 <= a < n && 0 <= b < n && !(a == i && b == j) ==> #[trigger] tighter[a][b] == wider[a][b]
}

proof fn lemma_closed_cell_row(
    wider: Seq<Seq<bool>>,
    tighter: Seq<Seq<bool>>,
    n: int,
    len: int,
    r: int,
    c: int,
    i: int,
    j: int,
    starts: int,
)
    requires
        closes_cell(wider, tighter, n, i, j),
        0 <= r < n,
        starts <= n - len + 1,
    ensures
        row_placements_over(wider, len, r, c, starts) == row_placements_over(
            tighter,
            len,
            r,
            c,
            starts,
        ) + row_placements_through(wider, len, r, c, i, j, starts),
    decreases starts,
{
    if starts > 0 {
        let start = starts - 1;
        lemma_closed_cell_row(wider, tighter, n, len, r, c, i, j, start);
        if r == i && start <= j < start + len {
            assert(!tighter[r][j]);
        } else {
            if row_run_free(wider, r, start, len) {
                assert forall|k: int| start <= k < start + len implies #[trigger] tighter[r][k] by {
                    assert(wider[r][k]);
                }
            }
            if row_run_free(tighter, r, start, len) {
                assert forall|k: int| start <= k < start + len implies #[trigger] wider[r][k] by {
                    assert(tighter[r][k]);
                }
            }
        }
    }
}

proof fn lemma_closed_cell_column(
    wider: Seq<Seq<bool>>,
    tighter: Seq<Seq<bool>>,
    n: int,
    len: int,
    r: int,
    c: int,
    i: int,
    j: int,
    starts: int,
)
    requires
        closes_cell(wider, tighter, n, i, j),
        0 <= c < n,
        starts <= n - len + 1,
    ensures
        column_placements_over(wider, len, r, c, starts) == column_placements_over(
            tighter,
            len,
            r,
            c,
            starts,
        ) + column_placements_through(wider, len, r, c, i, j, starts),
    decreases starts,
{
    if starts > 0 {
        let start = starts - 1;
        lemma_closed_cell_column(wider, tighter, n, len, r, c, i, j, start);
        if c == j && start <= i < start + len {
            assert(!tighter[i][c]);
        } else {
            if column_run_free(wider, c, start, len) {
                assert forall|k: int| start <= k < start + len implies #[trigger] tighter[k][c] by {
                    assert(wider[k][c]);
                }
            }
            if column_run_free(tighter, c, start, len) {
                assert forall|k: int| start <= k < start + len implies #[trigger] wider[k][c] by {
                    assert(tighter[k][c]);
                }
            }
        }
    }
}

/// Forbidding one cell takes from the count of every cell the placements that cover
/// both cells, and nothing else.
pub proof fn lemma_closed_cell_takes_placements_through(
    wider: Seq<Seq<bool>>,
    tighter: Seq<Seq<bool>>,
    n: int,
    fleet: Seq<usize>,
    r: int,
    c: int,
    i: int,
    j: int,
)
    requires
        closes_cell(wider, tighter, n, i, j),
        0 <= r < n,
        0 <= c < n,
    ensures
        fleet_placements_over(wider, n, fleet, r, c) == fleet_placements_over(
            tighter,
            n,
            fleet,
            r,
            c,
        ) + fleet_placements_through(wider, n, fleet, r, c, i, j),
    decreases fleet.len(),
{
    if fleet.len() > 0 {
        let len = fleet.last() as int;
        lemma_closed_cell_takes_placements_through(wider, tighter, n, fleet.drop_last(), r, c, i, j);
        if 1 <= len <= n {
            lemma_closed_cell_row(wider, tighter, n, len, r, c, i, j, n - len + 1);
            lemma_closed_cell_column(wider, tighter, n, len, r, c, i, j, n - len + 1);
        }
    }
}

} // verus!
