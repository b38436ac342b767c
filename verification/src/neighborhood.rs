//! The cells around a cell: what a list of offsets picks out on a board, and what the
//! three lists in use pick out.

use crate::brain::{DIAGONAL_NEIGHBORHOOD, MOORE_NEIGHBORHOOD, NEUMANN_NEIGHBORHOOD};
use crate::components::adjacent;
use crate::placement::{is_diagonal, is_near};
use vstd::prelude::*;

verus! {

/// The cell reached from `(i, j)` by the offset `d`, if it lies on a board of side `n`.
pub open spec fn shifted_cell(n: usize, i: usize, j: usize, d: (isize, isize)) -> Option<
    (usize, usize),
> {
    if 0 <= i + d.0 < n && 0 <= j + d.1 < n {
        Some(((i + d.0) as usize, (j + d.1) as usize))
    } else {
        None
    }
}

/// The neighbours of `(i, j)` under the offsets of `neighborhood`, in the order of the
/// offsets, without those that fall off a board of side `n`.
pub open spec fn neighbor_cells(
    neighborhood: Seq<(isize, isize)>,
    n: usize,
    i: usize,
    j: usize,
) -> Seq<(usize, usize)> {
    neighborhood.filter_map(|d: (isize, isize)| shifted_cell(n, i, j, d))
}

/// No more cells are listed than there are offsets.
pub proof fn lemma_neighbor_cells_len(
    neighborhood: Seq<(isize, isize)>,
    n: usize,
    i: usize,
    j: usize,
)
    ensures
        neighbor_cells(neighborhood, n, i, j).len() <= neighborhood.len(),
    decreases neighborhood.len(),
{
    if neighborhood.len() > 0 {
        lemma_neighbor_cells_len(neighborhood.drop_last(), n, i, j);
    }
}

/// Every listed cell lies on the board.
pub proof fn lemma_neighbor_cells_on_board(
    neighborhood: Seq<(isize, isize)>,
    n: usize,
    i: usize,
    j: usize,
    k: int,
)
    requires
        0 <= k < neighbor_cells(neighborhood, n, i, j).len(),
    ensures
        neighbor_cells(neighborhood, n, i, j)[k].0 < n,
        neighbor_cells(neighborhood, n, i, j)[k].1 < n,
{
    let cells = neighbor_cells(neighborhood, n, i, j);
    assert(cells.contains(cells[k]));
    lemma_neighbor_cells_contains(neighborhood, n, i, j, cells[k]);
}

/// An offset of the list that leads to a cell on the board puts that cell in the result.
pub proof fn lemma_neighbor_cells_has(
    neighborhood: Seq<(isize, isize)>,
    n: usize,
    i: usize,
    j: usize,
    k: int,
)
    requires
        0 <= k < neighborhood.len(),
        shifted_cell(n, i, j, neighborhood[k]) is Some,
    ensures
        neighbor_cells(neighborhood, n, i, j).contains(shifted_cell(n, i, j, neighborhood[k])->0),
    decreases neighborhood.len(),
{
    let f = |d: (isize, isize)| shifted_cell(n, i, j, d);
    let rest = neighborhood.drop_last();
    let all = neighborhood.filter_map(f);
    let q = shifted_cell(n, i, j, neighborhood[k])->0;
    if k == neighborhood.len() - 1 {
        assert(all == rest.filter_map(f) + seq![q]);
        assert(all[all.len() - 1] == q);
    } else {
        lemma_neighbor_cells_has(rest, n, i, j, k);
        let w = choose|w: int| 0 <= w < rest.filter_map(f).len() && rest.filter_map(f)[w] == q;
        assert(all[w] == q);
    }
}

/// A cell is in the result exactly if one of the offsets leads to it.
pub proof fn lemma_neighbor_cells_contains(
    neighborhood: Seq<(isize, isize)>,
    n: usize,
    i: usize,
    j: usize,
    q: (usize, usize),
)
    ensures
        neighbor_cells(neighborhood, n, i, j).contains(q) <==> exists|k: int|
            0 <= k < neighborhood.len() && #[trigger] shifted_cell(n, i, j, neighborhood[k])
                == Some(q),
{
    let f = |d: (isize, isize)| shifted_cell(n, i, j, d);
    if neighbor_cells(neighborhood, n, i, j).contains(q) {
        neighborhood.lemma_filter_map_contains(f, q);
        let d = choose|d: (isize, isize)| #[trigger] neighborhood.contains(d) && f(d) == Some(q);
        let k = choose|k: int| 0 <= k < neighborhood.len() && neighborhood[k] == d;
        assert(shifted_cell(n, i, j, neighborhood[k]) == Some(q));
    }
    if exists|k: int|
        0 <= k < neighborhood.len() && #[trigger] shifted_cell(n, i, j, neighborhood[k]) == Some(
            q,
        ) {
        let k = choose|k: int|
            0 <= k < neighborhood.len() && #[trigger] shifted_cell(n, i, j, neighborhood[k])
                == Some(q);
        lemma_neighbor_cells_has(neighborhood, n, i, j, k);
    }
}

/// On a board of side `n`, the cells listed for the edge offsets are the cells of the
/// board that share an edge with `(i, j)`.
pub proof fn lemma_neumann_cells(n: usize, i: usize, j: usize, q: (usize, usize))
    requires
        i < n,
        j < n,
    ensures
        neighbor_cells(NEUMANN_NEIGHBORHOOD@, n, i, j).contains(q) <==> (q.0 < n && q.1 < n
            && adjacent((i, j), q)),
{
    let offsets = NEUMANN_NEIGHBORHOOD@;
    lemma_neighbor_cells_contains(offsets, n, i, j, q);
    assert(offsets.len() == 4);
    assert(offsets[0] == (1isize, 0isize));
    assert(offsets[1] == (0isize, 1isize));
    assert(offsets[2] == (-1isize, 0isize));
    assert(offsets[3] == (0isize, -1isize));
    if q.0 < n && q.1 < n && adjacent((i, j), q) {
        let k: int = if q.0 == i + 1 {
            0
        } else if q.1 == j + 1 {
            1
        } else if q.0 + 1 == i {
            2
        } else {
            3
        };
        assert(shifted_cell(n, i, j, offsets[k]) == Some(q));
    }
}

/// On a board of side `n`, the cells listed for the corner offsets are the cells of the
/// board that touch `(i, j)` at a corner only.
pub proof fn lemma_diagonal_cells(n: usize, i: usize, j: usize, q: (usize, usize))
    requires
        i < n,
        j < n,
    ensures
        neighbor_cells(DIAGONAL_NEIGHBORHOOD@, n, i, j).contains(q) <==> (q.0 < n && q.1 < n
            && is_diagonal(i as int, j as int, q.0 as int, q.1 as int)),
{
    let offsets = DIAGONAL_NEIGHBORHOOD@;
    lemma_neighbor_cells_contains(offsets, n, i, j, q);
    assert(offsets.len() == 4);
    assert(offsets[0] == (1isize, 1isize));
    assert(offsets[1] == (1isize, -1isize));
    assert(offsets[2] == (-1isize, -1isize));
    assert(offsets[3] == (-1isize, 1isize));
    if q.0 < n && q.1 < n && is_diagonal(i as int, j as int, q.0 as int, q.1 as int) {
        let k: int = if q.0 == i + 1 {
            if q.1 == j + 1 {
                0
            } else {
                1
            }
        } else {
            if q.1 == j + 1 {
                3
            } else {
                2
            }
        };
        assert(shifted_cell(n, i, j, offsets[k]) == Some(q));
    }
}

/// On a board of side `n`, the cells listed for the ring offsets are the cells of the
/// board around `(i, j)`, without `(i, j)` itself.
pub proof fn lemma_moore_cells(n: usize, i: usize, j: usize, q: (usize, usize))
    requires
        i < n,
        j < n,
    ensures
        neighbor_cells(MOORE_NEIGHBORHOOD@, n, i, j).contains(q) <==> (q.0 < n && q.1 < n
            && is_near(i as int, j as int, q.0 as int, q.1 as int) && q != (i, j)),
{
    let offsets = MOORE_NEIGHBORHOOD@;
    lemma_neighbor_cells_contains(offsets, n, i, j, q);
    assert(offsets.len() == 8);
    assert(offsets[0] == (0isize, 1isize));
    assert(offsets[1] == (1isize, 0isize));
    assert(offsets[2] == (0isize, -1isize));
    assert(offsets[3] == (-1isize, 0isize));
    assert(offsets[4] == (1isize, 1isize));
    assert(offsets[5] == (1isize, -1isize));
    assert(offsets[6] == (-1isize, -1isize));
    assert(offsets[7] == (-1isize, 1isize));
    if q.0 < n && q.1 < n && is_near(i as int, j as int, q.0 as int, q.1 as int) && q != (i, j) {
        let k: int = if q.0 == i {
            if q.1 == j + 1 {
                0
            } else {
                2
            }
        } else if q.0 == i + 1 {
            if q.1 == j {
                1
            } else if q.1 == j + 1 {
                4
            } else {
                5
            }
        } else {
            if q.1 == j {
                3
            } else if q.1 == j + 1 {
                7
            } else {
                6
            }
        };
        assert(shifted_cell(n, i, j, offsets[k]) == Some(q));
    }
}

} // verus!
