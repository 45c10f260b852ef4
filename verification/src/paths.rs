//! The mathematical model of traversable paths: what a valid path is, what it
//! costs, and the facts about paths that the search's contract rests on.

use vstd::prelude::*;
use crate::grid::{GridCell, TileGrid, IMPASSABLE_COST};
use crate::graph::{adjacent, heur, lemma_heur_step, lemma_sq_dist_nonneg};

verus! {

/// A valid traversable route: it starts at `s`, ends at `t`, each step moves
/// to an adjacent cell, and every cell after the first is traversable. The
/// starting cell must be in bounds but may itself be impassable: its cost is
/// never charged.
pub open spec fn is_path(g: TileGrid, p: Seq<GridCell>, s: GridCell, t: GridCell) -> bool {
    &&& p.len() >= 1
    &&& p[0] == s
    &&& p.last() == t
    &&& g.in_bounds(s)
    &&& forall|i: int| 0 <= i < p.len() - 1 ==> adjacent(#[trigger] p[i], p[i + 1])
    &&& forall|i: int| 1 <= i < p.len() ==> g.traversable(#[trigger] p[i])
}

/// The total cost of a path: the sum of the movement costs of every cell
/// entered, the starting cell contributing nothing.
pub open spec fn path_cost(g: TileGrid, p: Seq<GridCell>) -> int
    decreases p.len(),
{
    if p.len() <= 1 {
        0
    } else {
        path_cost(g, p.drop_last()) + g.spec_cost(p.last())
    }
}

/// Impassability respected: a valid route never enters a cell whose cost is
/// at or above the impassable threshold. Only the starting cell, which is
/// never entered and whose cost is never charged, may lie at or above it.
pub proof fn lemma_path_respects_threshold(g: TileGrid, p: Seq<GridCell>, s: GridCell, t: GridCell)
    requires
        is_path(g, p, s, t),
    ensures
        forall|i: int| 1 <= i < p.len() ==> g.spec_cost(#[trigger] p[i]) < IMPASSABLE_COST,
{
    assert forall|i: int| 1 <= i < p.len() implies g.spec_cost(#[trigger] p[i])
        < IMPASSABLE_COST by {
        assert(g.traversable(p[i]));
    }
}

/// Extending a valid path by one adjacent traversable cell keeps it valid and
/// adds that cell's cost.
pub proof fn lemma_path_push(g: TileGrid, p: Seq<GridCell>, s: GridCell, a: GridCell, b: GridCell)
    requires
        is_path(g, p, s, a),
        adjacent(a, b),
        g.traversable(b),
    ensures
        is_path(g, p.push(b), s, b),
        path_cost(g, p.push(b)) == path_cost(g, p) + g.spec_cost(b),
{
    let q = p.push(b);
    assert(q.drop_last() =~= p);
    assert forall|i: int| 0 <= i < q.len() - 1 implies adjacent(#[trigger] q[i], q[i + 1]) by {
        if i < p.len() - 1 {
            assert(q[i] == p[i] && q[i + 1] == p[i + 1]);
        } else {
            assert(q[i] == a && q[i + 1] == b);
        }
    }
}

/// A path's cost splits at any interior position into the cost of the prefix
/// through that position plus the cost of the rest.
pub proof fn lemma_path_cost_split(g: TileGrid, p: Seq<GridCell>, m: int)
    requires
        0 <= m < p.len(),
    ensures
        path_cost(g, p) == path_cost(g, p.subrange(0, m + 1)) + path_cost(
            g,
            p.subrange(m, p.len() as int),
        ),
    decreases p.len(),
{
    let n = p.len() as int;
    if m == n - 1 {
        assert(p.subrange(0, m + 1) =~= p);
        assert(p.subrange(m, n).len() == 1);
    } else {
        let q = p.drop_last();
        lemma_path_cost_split(g, q, m);
        assert(q.subrange(0, m + 1) =~= p.subrange(0, m + 1));
        let tail = p.subrange(m, n);
        assert(tail.drop_last() =~= q.subrange(m, n - 1));
        assert(tail.last() == p.last());
        assert(tail.len() >= 2);
    }
}

/// Along any chain of adjacent traversable cells whose every step costs at
/// least one, the heuristic from the chain's head to any goal is at most the
/// chain's cost plus the heuristic from its end: the truncated Euclidean
/// heuristic never overestimates under the positive-cost premise.
pub proof fn lemma_heur_telescope(g: TileGrid, p: Seq<GridCell>, goal: GridCell)
    requires
        g.min_cost_positive(),
        p.len() >= 1,
        forall|i: int| 0 <= i < p.len() - 1 ==> adjacent(#[trigger] p[i], p[i + 1]),
        forall|i: int| 1 <= i < p.len() ==> g.traversable(#[trigger] p[i]),
    ensures
        heur(p[0], goal) <= path_cost(g, p) + heur(p.last(), goal),
    decreases p.len(),
{
    let n = p.len() as int;
    if n > 1 {
        lemma_heur_step(p[0], p[1], goal);
        let q = p.subrange(1, n);
        assert forall|i: int| 0 <= i < q.len() - 1 implies adjacent(#[trigger] q[i], q[i + 1]) by {
            assert(q[i] == p[i + 1] && q[i + 1] == p[i + 2]);
        }
        assert forall|i: int| 1 <= i < q.len() implies g.traversable(#[trigger] q[i]) by {
            assert(q[i] == p[i + 1]);
        }
        lemma_heur_telescope(g, q, goal);
        lemma_path_cost_split(g, p, 1);
        let head = p.subrange(0, 2);
        assert(head.drop_last() =~= p.subrange(0, 1));
        assert(path_cost(g, p.subrange(0, 1)) == 0);
        assert(head.last() == p[1]);
        assert(path_cost(g, head) == g.spec_cost(p[1]));
        assert(g.traversable(p[1]));
        assert(g.spec_cost(p[1]) >= 1);
        assert(q.last() == p.last());
        lemma_sq_dist_nonneg(p.last(), goal);
    }
}

/// In a path that starts below a row and ends at or above it, some step is
/// the first to reach that row or beyond.
proof fn first_row_reach_up(p: Seq<GridCell>, r: int) -> (k: int)
    requires
        p.len() >= 1,
        (p[0].y as int) < r,
        (p.last().y as int) >= r,
    ensures
        1 <= k < p.len(),
        p[k].y >= r,
        p[k - 1].y < r,
    decreases p.len(),
{
    assert(p.len() >= 2);
    if p[1].y >= r {
        1
    } else {
        let q = p.subrange(1, p.len() as int);
        assert(q.last() == p.last());
        let k = first_row_reach_up(q, r);
        assert(q[k] == p[k + 1] && q[k - 1] == p[k]);
        k + 1
    }
}

/// In a path that starts above a row and ends at or below it, some step is
/// the first to reach that row or beyond.
proof fn first_row_reach_down(p: Seq<GridCell>, r: int) -> (k: int)
    requires
        p.len() >= 1,
        (p[0].y as int) > r,
        (p.last().y as int) <= r,
    ensures
        1 <= k < p.len(),
        p[k].y <= r,
        p[k - 1].y > r,
    decreases p.len(),
{
    assert(p.len() >= 2);
    if p[1].y <= r {
        1
    } else {
        let q = p.subrange(1, p.len() as int);
        assert(q.last() == p.last());
        let k = first_row_reach_down(q, r);
        assert(q[k] == p[k + 1] && q[k - 1] == p[k]);
        k + 1
    }
}

/// A full row of impassable cells strictly between the start's row and the
/// goal's row separates them: no valid path exists, so the search reports
/// that no route exists.
pub proof fn lemma_row_barrier(g: TileGrid, start: GridCell, goal: GridCell, row: int)
    requires
        g.wf(),
        0 <= row < g.layout.height,
        (start.y < row && row < goal.y) || (goal.y < row && row < start.y),
        forall|x: int| 0 <= x < g.layout.width ==> #[trigger] g.spec_cost(
            GridCell { x: x as u32, y: row as u32 },
        ) >= IMPASSABLE_COST,
    ensures
        forall|p: Seq<GridCell>| !is_path(g, p, start, goal),
{
    assert forall|p: Seq<GridCell>| !is_path(g, p, start, goal) by {
        if is_path(g, p, start, goal) {
            let k = if start.y < row {
                first_row_reach_up(p, row)
            } else {
                first_row_reach_down(p, row)
            };
            assert(adjacent(p[k - 1], p[k]));
            assert(p[k].y == row);
            assert(g.traversable(p[k]));
            let cell = p[k];
            assert(GridCell { x: cell.x as int as u32, y: row as u32 } == cell);
            assert(g.spec_cost(cell) >= IMPASSABLE_COST);
            assert(false);
        }
    }
}

/// No route across a separating row: on a grid where a full row of
/// impassable cells stands strictly between the start's row and the goal's
/// row, any result that answers `Some` only when a valid route exists — as
/// the search's contract promises — answers that no route exists.
pub proof fn lemma_row_barrier_result(
    g: TileGrid,
    start: GridCell,
    goal: GridCell,
    row: int,
    r: Option<(Seq<GridCell>, u64)>,
)
    requires
        g.wf(),
        0 <= row < g.layout.height,
        (start.y < row && row < goal.y) || (goal.y < row && row < start.y),
        forall|x: int| 0 <= x < g.layout.width ==> #[trigger] g.spec_cost(
            GridCell { x: x as u32, y: row as u32 },
        ) >= IMPASSABLE_COST,
        r is Some ==> exists|p: Seq<GridCell>| is_path(g, p, start, goal),
    ensures
        r is None,
{
    lemma_row_barrier(g, start, goal, row);
    if r is Some {
        let p = choose|p: Seq<GridCell>| is_path(g, p, start, goal);
        assert(!is_path(g, p, start, goal));
    }
}

} // verus!
