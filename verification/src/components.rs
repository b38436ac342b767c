//! Connected groups of sunk cells: what it means for two cells to belong to the
//! same wreck, and the facts about that relation which the flood fill relies on.

use crate::brain::CellState;
use crate::matrix::is_square;
use vstd::prelude::*;

verus! {

/// `c` lies on the board `g` and holds a segment of a sunk ship.
pub open spec fn sunk_at(g: Seq<Seq<CellState>>, c: (usize, usize)) -> bool {
    c.0 < g.len() && c.1 < g[c.0 as int].len() && g[c.0 as int][c.1 as int] == CellState::SUNK
}

/// `a` and `b` share an edge.
pub open spec fn adjacent(a: (usize, usize), b: (usize, usize)) -> bool {
    (a.0 == b.0 && (a.1 + 1 == b.1 || b.1 + 1 == a.1)) || (a.1 == b.1 && (a.0 + 1 == b.0 || b.0
        + 1 == a.0))
}

/// The `k`-th cell of `p` shares an edge with the next one.
pub open spec fn linked(p: Seq<(usize, usize)>, k: int) -> bool {
    adjacent(p[k], p[k + 1])
}

/// `p` walks over sunk cells only, from each cell to one that shares an edge with it.
pub open spec fn is_sunk_path(g: Seq<Seq<CellState>>, p: Seq<(usize, usize)>) -> bool {
    &&& p.len() >= 1
    &&& forall|k: int| 0 <= k < p.len() ==> sunk_at(g, #[trigger] p[k])
    &&& forall|k: int| 0 <= k < p.len() - 1 ==> #[trigger] linked(p, k)
}

/// `p` is a walk over sunk cells that starts at `a` and ends at `b`.
pub open spec fn joins(g: Seq<Seq<CellState>>, p: Seq<(usize, usize)>, a: (usize, usize), b: (
    usize,
    usize,
)) -> bool {
    is_sunk_path(g, p) && p.first() == a && p.last() == b
}

/// `a` and `b` are sunk cells of the same wreck: a walk over sunk cells joins them.
pub open spec fn connected(g: Seq<Seq<CellState>>, a: (usize, usize), b: (usize, usize)) -> bool {
    exists|p: Seq<(usize, usize)>| #[trigger] joins(g, p, a, b)
}

/// All cells of the wreck that `a` belongs to; empty where `a` is not a sunk cell.
pub open spec fn component(g: Seq<Seq<CellState>>, a: (usize, usize)) -> Set<(usize, usize)> {
    Set::new(|b: (usize, usize)| connected(g, a, b))
}

/// `a` comes before `b` when the board is read row by row.
pub open spec fn before(a: (usize, usize), b: (usize, usize)) -> bool {
    a.0 < b.0 || (a.0 == b.0 && a.1 < b.1)
}

/// `a` comes before `pos` and belongs to the same wreck as `c`.
pub open spec fn reaches_from_before(
    g: Seq<Seq<CellState>>,
    pos: (usize, usize),
    a: (usize, usize),
    c: (usize, usize),
) -> bool {
    before(a, pos) && connected(g, a, c)
}

/// Some cell that comes before `pos` belongs to the same wreck as `c`.
pub open spec fn reached_before(
    g: Seq<Seq<CellState>>,
    pos: (usize, usize),
    c: (usize, usize),
) -> bool {
    exists|a: (usize, usize)| #[trigger] reaches_from_before(g, pos, a, c)
}

/// `c` is the first cell of its wreck when the board is read row by row.
pub open spec fn is_leader(g: Seq<Seq<CellState>>, c: (usize, usize)) -> bool {
    sunk_at(g, c) && !reached_before(g, c, c)
}

/// The sizes of the wrecks whose first cell is among the first `j` cells of row `i`, in
/// the order of those first cells.
pub open spec fn leader_sizes_in_row(g: Seq<Seq<CellState>>, i: int, j: int) -> Seq<nat>
    decreases j,
{
    if j <= 0 {
        Seq::empty()
    } else {
        let c = (i as usize, (j - 1) as usize);
        let earlier = leader_sizes_in_row(g, i, j - 1);
        if is_leader(g, c) {
            earlier.push(component(g, c).len())
        } else {
            earlier
        }
    }
}

/// The sizes of the wrecks whose first cell is in one of the first `i` rows of a board of
/// side `n`, in the order of those first cells.
pub open spec fn leader_sizes(g: Seq<Seq<CellState>>, n: int, i: int) -> Seq<nat>
    decreases i,
{
    if i <= 0 {
        Seq::empty()
    } else {
        leader_sizes(g, n, i - 1) + leader_sizes_in_row(g, i - 1, n)
    }
}

/// The size of every wreck on a board of side `n`, one entry per wreck, ordered by the
/// first cell of each wreck when the board is read row by row.
pub open spec fn component_sizes(g: Seq<Seq<CellState>>, n: int) -> Seq<nat> {
    leader_sizes(g, n, n)
}

/// All cells of a board of side `n`.
pub open spec fn board_cells(n: int) -> Set<(usize, usize)> {
    Set::new(|c: (usize, usize)| c.0 < n && c.1 < n)
}

/// The cells of the first `rows` rows of a board of side `n`.
pub open spec fn cells_in_rows(n: int, rows: int) -> Set<(usize, usize)> {
    Set::new(|c: (usize, usize)| c.0 < rows && c.1 < n)
}

/// The first `m` cells of row `r`.
pub open spec fn cells_in_row(r: usize, m: int) -> Set<(usize, usize)> {
    Set::new(|c: (usize, usize)| c.0 == r && c.1 < m)
}

/// The first `m` cells of a row are `m` cells.
proof fn lemma_cells_in_row_len(r: usize, m: int)
    requires
        0 <= m <= usize::MAX,
    ensures
        cells_in_row(r, m).finite(),
        cells_in_row(r, m).len() == m,
    decreases m,
{
    broadcast use vstd::set::group_set_axioms;

    if m == 0 {
        assert(cells_in_row(r, m) =~= Set::empty());
    } else {
        lemma_cells_in_row_len(r, m - 1);
        assert(cells_in_row(r, m) =~= cells_in_row(r, m - 1).insert((r, (m - 1) as usize)));
    }
}

/// The first `rows` rows of a board of side `n` hold `rows * n` cells.
proof fn lemma_cells_in_rows_len(n: int, rows: int)
    requires
        0 <= n <= usize::MAX,
        0 <= rows <= usize::MAX,
    ensures
        cells_in_rows(n, rows).finite(),
        cells_in_rows(n, rows).len() == rows * n,
    decreases rows,
{
    broadcast use vstd::set::group_set_axioms;

    if rows == 0 {
        assert(cells_in_rows(n, rows) =~= Set::empty());
    } else {
        let above = cells_in_rows(n, rows - 1);
        let last = cells_in_row((rows - 1) as usize, n);
        lemma_cells_in_rows_len(n, rows - 1);
        lemma_cells_in_row_len((rows - 1) as usize, n);
        assert(cells_in_rows(n, rows) =~= above + last);
        assert(above.disjoint(last));
        vstd::set_lib::lemma_set_disjoint_lens(above, last);
        assert(rows * n == (rows - 1) * n + n) by (nonlinear_arith);
    }
}

/// A board of side `n` has `n * n` cells.
pub proof fn lemma_board_cells_len(n: int)
    requires
        0 <= n <= usize::MAX,
    ensures
        board_cells(n).finite(),
        board_cells(n).len() == n * n,
{
    lemma_cells_in_rows_len(n, n);
    assert(board_cells(n) =~= cells_in_rows(n, n));
}

/// A list of distinct cells of a board of side `n` has at most `n * n` entries.
pub proof fn lemma_distinct_cells_len(n: int, cells: Seq<(usize, usize)>)
    requires
        0 <= n <= usize::MAX,
        cells.no_duplicates(),
        forall|k: int| 0 <= k < cells.len() ==> (#[trigger] cells[k]).0 < n && cells[k].1 < n,
    ensures
        cells.len() <= n * n,
{
    lemma_board_cells_len(n);
    cells.unique_seq_to_set();
    assert(cells.to_set().subset_of(board_cells(n))) by {
        assert forall|c: (usize, usize)| cells.to_set().contains(c) implies board_cells(
            n,
        ).contains(c) by {
            let k = choose|k: int| 0 <= k < cells.len() && cells[k] == c;
            assert(cells[k].0 < n);
        }
    }
    vstd::set_lib::lemma_len_subset(cells.to_set(), board_cells(n));
}

/// Both ends of a walk over sunk cells are sunk cells.
pub proof fn lemma_connected_sunk(g: Seq<Seq<CellState>>, a: (usize, usize), b: (usize, usize))
    requires
        connected(g, a, b),
    ensures
        sunk_at(g, a),
        sunk_at(g, b),
{
    let p = choose|p: Seq<(usize, usize)>| #[trigger] joins(g, p, a, b);
    assert(sunk_at(g, p[0]));
    assert(sunk_at(g, p[p.len() - 1]));
}

/// A sunk cell belongs to its own wreck.
pub proof fn lemma_connected_refl(g: Seq<Seq<CellState>>, a: (usize, usize))
    requires
        sunk_at(g, a),
    ensures
        connected(g, a, a),
{
    let p = seq![a];
    assert(joins(g, p, a, a));
}

/// A sunk cell that shares an edge with a cell of a wreck belongs to that wreck.
pub proof fn lemma_connected_step(
    g: Seq<Seq<CellState>>,
    a: (usize, usize),
    b: (usize, usize),
    c: (usize, usize),
)
    requires
        connected(g, a, b),
        sunk_at(g, c),
        adjacent(b, c),
    ensures
        connected(g, a, c),
{
    let p = choose|p: Seq<(usize, usize)>| #[trigger] joins(g, p, a, b);
    let q = p.push(c);
    assert forall|k: int| 0 <= k < q.len() implies sunk_at(g, #[trigger] q[k]) by {
        if k < p.len() {
            assert(q[k] == p[k]);
        }
    }
    assert forall|k: int| 0 <= k < q.len() - 1 implies #[trigger] linked(q, k) by {
        if k < p.len() - 1 {
            assert(linked(p, k));
        }
    }
    assert(joins(g, q, a, c));
}

/// Belonging to the same wreck does not depend on which cell is named first.
pub proof fn lemma_connected_sym(g: Seq<Seq<CellState>>, a: (usize, usize), b: (usize, usize))
    requires
        connected(g, a, b),
    ensures
        connected(g, b, a),
{
    let p = choose|p: Seq<(usize, usize)>| #[trigger] joins(g, p, a, b);
    let q = p.reverse();
    assert forall|k: int| 0 <= k < q.len() implies sunk_at(g, #[trigger] q[k]) by {
        assert(q[k] == p[p.len() - 1 - k]);
    }
    assert forall|k: int| 0 <= k < q.len() - 1 implies #[trigger] linked(q, k) by {
        assert(linked(p, p.len() - 2 - k));
        assert(q[k] == p[p.len() - 1 - k]);
        assert(q[k + 1] == p[p.len() - 2 - k]);
    }
    assert(joins(g, q, b, a));
}

/// Two cells that each belong to the wreck of a third belong to the same wreck.
pub proof fn lemma_connected_trans(
    g: Seq<Seq<CellState>>,
    a: (usize, usize),
    b: (usize, usize),
    c: (usize, usize),
)
    requires
        connected(g, a, b),
        connected(g, b, c),
    ensures
        connected(g, a, c),
{
    let p = choose|p: Seq<(usize, usize)>| #[trigger] joins(g, p, a, b);
    let r = choose|r: Seq<(usize, usize)>| #[trigger] joins(g, r, b, c);
    let q = p + r.drop_first();
    assert forall|k: int| 0 <= k < q.len() implies sunk_at(g, #[trigger] q[k]) by {
        if k < p.len() {
            assert(q[k] == p[k]);
        } else {
            assert(q[k] == r[k - p.len() + 1]);
        }
    }
    assert forall|k: int| 0 <= k < q.len() - 1 implies #[trigger] linked(q, k) by {
        if k < p.len() - 1 {
            assert(linked(p, k));
        } else {
            assert(linked(r, k - p.len() + 1));
            assert(q[k + 1] == r[k - p.len() + 2]);
            if k == p.len() - 1 {
                assert(q[k] == r[0]);
            } else {
                assert(q[k] == r[k - p.len() + 1]);
            }
        }
    }
    assert(joins(g, q, a, c));
}

/// A set of cells that holds `a`, and with each of its cells every sunk cell that shares
/// an edge with it, holds the whole wreck of `a`.
pub proof fn lemma_closed_set_holds_component(
    g: Seq<Seq<CellState>>,
    a: (usize, usize),
    s: Set<(usize, usize)>,
)
    requires
        s.contains(a),
        forall|c: (usize, usize), d: (usize, usize)|
            s.contains(c) && sunk_at(g, d) && #[trigger] adjacent(c, d) ==> s.contains(d),
    ensures
        component(g, a).subset_of(s),
{
    assert forall|b: (usize, usize)| component(g, a).contains(b) implies s.contains(b) by {
        let p = choose|p: Seq<(usize, usize)>| #[trigger] joins(g, p, a, b);
        lemma_closed_set_holds_path(g, p, s, p.len() - 1);
    }
}

proof fn lemma_closed_set_holds_path(
    g: Seq<Seq<CellState>>,
    p: Seq<(usize, usize)>,
    s: Set<(usize, usize)>,
    k: int,
)
    requires
        is_sunk_path(g, p),
        0 <= k < p.len(),
        s.contains(p[0]),
        forall|c: (usize, usize), d: (usize, usize)|
            s.contains(c) && sunk_at(g, d) && #[trigger] adjacent(c, d) ==> s.contains(d),
    ensures
        s.contains(p[k]),
    decreases k,
{
    if k > 0 {
        lemma_closed_set_holds_path(g, p, s, k - 1);
        assert(linked(p, k - 1));
        assert(sunk_at(g, p[k]));
    }
}

/// The wreck of a cell on a square board lies on the board, so it is finite.
pub proof fn lemma_component_on_board(g: Seq<Seq<CellState>>, n: int, a: (usize, usize))
    requires
        is_square(g, n),
        0 <= n <= usize::MAX,
    ensures
        component(g, a).subset_of(board_cells(n)),
        component(g, a).finite(),
        component(g, a).len() <= n * n,
{
    lemma_board_cells_len(n);
    assert forall|b: (usize, usize)| component(g, a).contains(b) implies board_cells(n).contains(
        b,
    ) by {
        lemma_connected_sunk(g, a, b);
    }
    vstd::set_lib::lemma_len_subset(component(g, a), board_cells(n));
}


/// No cell comes before the first cell of the board.
pub proof fn lemma_reached_at_start(g: Seq<Seq<CellState>>, c: (usize, usize))
    ensures
        !reached_before(g, (0usize, 0usize), c),
{
    let start = (0usize, 0usize);
    assert forall|a: (usize, usize)| !#[trigger] reaches_from_before(g, start, a, c) by {}
}

/// What was reached from before `pos` stays reached along the wreck.
pub proof fn lemma_reached_extends(
    g: Seq<Seq<CellState>>,
    pos: (usize, usize),
    b: (usize, usize),
    c: (usize, usize),
)
    requires
        reached_before(g, pos, b),
        connected(g, b, c),
    ensures
        reached_before(g, pos, c),
{
    let a = choose|a: (usize, usize)| #[trigger] reaches_from_before(g, pos, a, b);
    lemma_connected_trans(g, a, b, c);
    assert(reaches_from_before(g, pos, a, c));
}

/// The cells reached from before the cell after `(i, j)` in its row are those reached
/// from before `(i, j)` and those of the wreck of `(i, j)`.
pub proof fn lemma_reached_next(g: Seq<Seq<CellState>>, i: usize, j: usize, c: (usize, usize))
    requires
        j < usize::MAX,
    ensures
        reached_before(g, (i, (j + 1) as usize), c) <==> (reached_before(g, (i, j), c) || connected(
            g,
            (i, j),
            c,
        )),
{
    let next = (i, (j + 1) as usize);
    if reached_before(g, next, c) {
        let a = choose|a: (usize, usize)| #[trigger] reaches_from_before(g, next, a, c);
        if a != (i, j) {
            assert(reaches_from_before(g, (i, j), a, c));
        }
    }
    if reached_before(g, (i, j), c) {
        let a = choose|a: (usize, usize)| #[trigger] reaches_from_before(g, (i, j), a, c);
        assert(reaches_from_before(g, next, a, c));
    }
    if connected(g, (i, j), c) {
        assert(reaches_from_before(g, next, (i, j), c));
    }
}

/// Where `(i, j)` is no first cell of a wreck, nothing new is reached by passing it.
pub proof fn lemma_reached_next_same(g: Seq<Seq<CellState>>, i: usize, j: usize, c: (usize, usize))
    requires
        j < usize::MAX,
        !is_leader(g, (i, j)),
    ensures
        reached_before(g, (i, (j + 1) as usize), c) <==> reached_before(g, (i, j), c),
{
    lemma_reached_next(g, i, j, c);
    if connected(g, (i, j), c) {
        lemma_connected_sunk(g, (i, j), c);
        lemma_reached_extends(g, (i, j), (i, j), c);
    }
}

/// On a board of side `n`, the end of row `i` and the start of the next row have the
/// same cells before them.
pub proof fn lemma_reached_row_end(g: Seq<Seq<CellState>>, n: usize, i: usize, c: (usize, usize))
    requires
        is_square(g, n as int),
        i < n,
    ensures
        reached_before(g, (i, n), c) <==> reached_before(g, ((i + 1) as usize, 0usize), c),
{
    let end = (i, n);
    let start = ((i + 1) as usize, 0usize);
    if reached_before(g, end, c) {
        let a = choose|a: (usize, usize)| #[trigger] reaches_from_before(g, end, a, c);
        assert(reaches_from_before(g, start, a, c));
    }
    if reached_before(g, start, c) {
        let a = choose|a: (usize, usize)| #[trigger] reaches_from_before(g, start, a, c);
        lemma_connected_sunk(g, a, c);
        assert(reaches_from_before(g, end, a, c));
    }
}

/// No cell of the wreck of a first cell was reached from before that cell.
pub proof fn lemma_leader_component_unreached(
    g: Seq<Seq<CellState>>,
    pos: (usize, usize),
    c: (usize, usize),
)
    requires
        is_leader(g, pos),
        connected(g, pos, c),
    ensures
        !reached_before(g, pos, c),
{
    if reached_before(g, pos, c) {
        lemma_connected_sym(g, pos, c);
        lemma_reached_extends(g, pos, c, pos);
    }
}


/// The two boards have their sunk segments on the same cells.
pub open spec fn same_sunk_cells(g1: Seq<Seq<CellState>>, g2: Seq<Seq<CellState>>) -> bool {
    forall|c: (usize, usize)| #[trigger] sunk_at(g1, c) == sunk_at(g2, c)
}

/// A walk over the sunk cells of one board is one over those of the other.
pub proof fn lemma_same_sunk_same_path(
    g1: Seq<Seq<CellState>>,
    g2: Seq<Seq<CellState>>,
    p: Seq<(usize, usize)>,
)
    requires
        same_sunk_cells(g1, g2),
        is_sunk_path(g1, p),
    ensures
        is_sunk_path(g2, p),
{
    assert forall|k: int| 0 <= k < p.len() implies sunk_at(g2, #[trigger] p[k]) by {
        assert(sunk_at(g1, p[k]));
    }
}

/// Boards with the same sunk cells have the same wrecks.
pub proof fn lemma_same_sunk_same_connected(
    g1: Seq<Seq<CellState>>,
    g2: Seq<Seq<CellState>>,
    a: (usize, usize),
    b: (usize, usize),
)
    requires
        same_sunk_cells(g1, g2),
    ensures
        connected(g1, a, b) == connected(g2, a, b),
{
    if connected(g1, a, b) {
        let p = choose|p: Seq<(usize, usize)>| #[trigger] joins(g1, p, a, b);
        lemma_same_sunk_same_path(g1, g2, p);
        assert(joins(g2, p, a, b));
    }
    if connected(g2, a, b) {
        let p = choose|p: Seq<(usize, usize)>| #[trigger] joins(g2, p, a, b);
        assert(same_sunk_cells(g2, g1)) by {
            assert forall|c: (usize, usize)| #[trigger] sunk_at(g2, c) == sunk_at(g1, c) by {
                assert(sunk_at(g1, c) == sunk_at(g2, c));
            }
        }
        lemma_same_sunk_same_path(g2, g1, p);
        assert(joins(g1, p, a, b));
    }
}

/// Boards with the same sunk cells have the same first cells of wrecks, and each wreck
/// has the same cells on both.
pub proof fn lemma_same_sunk_same_leader(
    g1: Seq<Seq<CellState>>,
    g2: Seq<Seq<CellState>>,
    c: (usize, usize),
)
    requires
        same_sunk_cells(g1, g2),
    ensures
        is_leader(g1, c) == is_leader(g2, c),
        component(g1, c) == component(g2, c),
{
    assert(sunk_at(g1, c) == sunk_at(g2, c));
    assert(component(g1, c) =~= component(g2, c)) by {
        assert forall|b: (usize, usize)| connected(g1, c, b) == connected(g2, c, b) by {
            lemma_same_sunk_same_connected(g1, g2, c, b);
        }
    }
    if reached_before(g1, c, c) {
        let a = choose|a: (usize, usize)| #[trigger] reaches_from_before(g1, c, a, c);
        lemma_same_sunk_same_connected(g1, g2, a, c);
        assert(reaches_from_before(g2, c, a, c));
    }
    if reached_before(g2, c, c) {
        let a = choose|a: (usize, usize)| #[trigger] reaches_from_before(g2, c, a, c);
        lemma_same_sunk_same_connected(g1, g2, a, c);
        assert(reaches_from_before(g1, c, a, c));
    }
}

proof fn lemma_same_sunk_same_row_sizes(
    g1: Seq<Seq<CellState>>,
    g2: Seq<Seq<CellState>>,
    i: int,
    j: int,
)
    requires
        same_sunk_cells(g1, g2),
    ensures
        leader_sizes_in_row(g1, i, j) == leader_sizes_in_row(g2, i, j),
    decreases j,
{
    if j > 0 {
        lemma_same_sunk_same_row_sizes(g1, g2, i, j - 1);
        lemma_same_sunk_same_leader(g1, g2, (i as usize, (j - 1) as usize));
    }
}

proof fn lemma_same_sunk_same_leader_sizes(
    g1: Seq<Seq<CellState>>,
    g2: Seq<Seq<CellState>>,
    n: int,
    i: int,
)
    requires
        same_sunk_cells(g1, g2),
    ensures
        leader_sizes(g1, n, i) == leader_sizes(g2, n, i),
    decreases i,
{
    if i > 0 {
        lemma_same_sunk_same_leader_sizes(g1, g2, n, i - 1);
        lemma_same_sunk_same_row_sizes(g1, g2, i - 1, n);
    }
}

/// Boards with the same sunk cells have wrecks of the same sizes, in the same order.
pub proof fn lemma_same_sunk_same_sizes(g1: Seq<Seq<CellState>>, g2: Seq<Seq<CellState>>, n: int)
    requires
        same_sunk_cells(g1, g2),
    ensures
        component_sizes(g1, n) == component_sizes(g2, n),
{
    lemma_same_sunk_same_leader_sizes(g1, g2, n, n);
}

proof fn lemma_no_sunk_no_row_sizes(g: Seq<Seq<CellState>>, i: int, j: int)
    requires
        forall|c: (usize, usize)| !#[trigger] sunk_at(g, c),
    ensures
        leader_sizes_in_row(g, i, j) == Seq::<nat>::empty(),
    decreases j,
{
    if j > 0 {
        lemma_no_sunk_no_row_sizes(g, i, j - 1);
        assert(!sunk_at(g, (i as usize, (j - 1) as usize)));
    }
}

proof fn lemma_no_sunk_no_leader_sizes(g: Seq<Seq<CellState>>, n: int, i: int)
    requires
        forall|c: (usize, usize)| !#[trigger] sunk_at(g, c),
    ensures
        leader_sizes(g, n, i) == Seq::<nat>::empty(),
    decreases i,
{
    if i > 0 {
        lemma_no_sunk_no_leader_sizes(g, n, i - 1);
        lemma_no_sunk_no_row_sizes(g, i - 1, n);
        assert(Seq::<nat>::empty() + Seq::<nat>::empty() =~= Seq::<nat>::empty());
    }
}

/// A board without sunk segments has no wrecks.
pub proof fn lemma_no_sunk_no_sizes(g: Seq<Seq<CellState>>, n: int)
    requires
        forall|c: (usize, usize)| !#[trigger] sunk_at(g, c),
    ensures
        component_sizes(g, n) == Seq::<nat>::empty(),
{
    lemma_no_sunk_no_leader_sizes(g, n, n);
}

/// Every cell of the board `g` of side `n` holds a sunk segment.
pub open spec fn all_sunk(g: Seq<Seq<CellState>>, n: int) -> bool {
    &&& is_square(g, n)
    &&& forall|i: int, j: int| 0 <= i < n && 0 <= j < n ==> #[trigger] g[i][j] == CellState::SUNK
}

/// On a board of sunk segments only, every cell belongs to the wreck of the first cell.
pub proof fn lemma_all_sunk_connected(g: Seq<Seq<CellState>>, n: int, c: (usize, usize))
    requires
        all_sunk(g, n),
        c.0 < n,
        c.1 < n,
    ensures
        connected(g, (0usize, 0usize), c),
    decreases c.0 + c.1,
{
    assert(g[c.0 as int][c.1 as int] == CellState::SUNK);
    assert(sunk_at(g, c));
    if c.0 > 0 {
        let b = ((c.0 - 1) as usize, c.1);
        lemma_all_sunk_connected(g, n, b);
        lemma_connected_step(g, (0usize, 0usize), b, c);
    } else if c.1 > 0 {
        let b = (c.0, (c.1 - 1) as usize);
        lemma_all_sunk_connected(g, n, b);
        lemma_connected_step(g, (0usize, 0usize), b, c);
    } else {
        lemma_connected_refl(g, c);
    }
}

proof fn lemma_all_sunk_first_row_sizes(g: Seq<Seq<CellState>>, n: int, j: int)
    requires
        all_sunk(g, n),
        0 <= n <= usize::MAX,
        1 <= j <= n,
    ensures
        leader_sizes_in_row(g, 0, j) == seq![(n * n) as nat],
    decreases j,
{
    let first = (0usize, 0usize);
    let c = (0usize, (j - 1) as usize);
    if j == 1 {
        lemma_all_sunk_connected(g, n, first);
        lemma_connected_sunk(g, first, first);
        lemma_reached_at_start(g, first);
        lemma_board_cells_len(n);
        assert(component(g, first) =~= board_cells(n)) by {
            assert forall|b: (usize, usize)| board_cells(n).contains(b) implies component(
                g,
                first,
            ).contains(b) by {
                lemma_all_sunk_connected(g, n, b);
            }
            lemma_component_on_board(g, n, first);
        }
        assert(leader_sizes_in_row(g, 0, 0) == Seq::<nat>::empty());
        assert(Seq::<nat>::empty().push((n * n) as nat) =~= seq![(n * n) as nat]);
    } else {
        lemma_all_sunk_first_row_sizes(g, n, j - 1);
        lemma_all_sunk_connected(g, n, c);
        assert(reaches_from_before(g, c, first, c));
    }
}

proof fn lemma_all_sunk_later_row_sizes(g: Seq<Seq<CellState>>, n: int, i: int, j: int)
    requires
        all_sunk(g, n),
        1 <= i < n <= usize::MAX,
        0 <= j <= n,
    ensures
        leader_sizes_in_row(g, i, j) == Seq::<nat>::empty(),
    decreases j,
{
    if j > 0 {
        let c = (i as usize, (j - 1) as usize);
        lemma_all_sunk_later_row_sizes(g, n, i, j - 1);
        lemma_all_sunk_connected(g, n, c);
        assert(reaches_from_before(g, c, (0usize, 0usize), c));
    }
}

proof fn lemma_all_sunk_leader_sizes(g: Seq<Seq<CellState>>, n: int, i: int)
    requires
        all_sunk(g, n),
        1 <= i <= n <= usize::MAX,
    ensures
        leader_sizes(g, n, i) == seq![(n * n) as nat],
    decreases i,
{
    if i == 1 {
        lemma_all_sunk_first_row_sizes(g, n, n);
        assert(leader_sizes(g, n, 0) == Seq::<nat>::empty());
        assert(Seq::<nat>::empty() + seq![(n * n) as nat] =~= seq![(n * n) as nat]);
    } else {
        lemma_all_sunk_leader_sizes(g, n, i - 1);
        lemma_all_sunk_later_row_sizes(g, n, i - 1, n);
        assert(seq![(n * n) as nat] + Seq::<nat>::empty() =~= seq![(n * n) as nat]);
    }
}

/// A board of side `n` that holds sunk segments only has one wreck, of `n * n` cells.
pub proof fn lemma_all_sunk_sizes(g: Seq<Seq<CellState>>, n: int)
    requires
        all_sunk(g, n),
        1 <= n <= usize::MAX,
    ensures
        component_sizes(g, n) == seq![(n * n) as nat],
{
    lemma_all_sunk_leader_sizes(g, n, n);
}

} // verus!
