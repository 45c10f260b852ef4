//! The path finder: best-first search over the tile graph, ordered by
//! accumulated cost plus the truncated Euclidean heuristic. It returns a
//! valid traversable path exactly when one exists, and under the
//! positive-cost premise the returned cost is minimal.

use vstd::prelude::*;
use vstd::set_lib::{lemma_int_range, lemma_len_subset, set_int_range};
use crate::grid::{GridCell, TileGrid};
use crate::graph::{adjacent, heur, spec_successors, lemma_successors_spec, lemma_sq_dist_nonneg};
use crate::paths::{
    is_path, path_cost, lemma_path_push, lemma_path_cost_split, lemma_heur_telescope,
};

verus! {

/// One query: find a route from `start` to `goal`.
#[derive(Clone, Copy, PartialEq, Eq, Structural, Debug)]
pub struct PathRequest {
    pub start: GridCell,
    pub goal: GridCell,
}

/// The record the search keeps for one discovered cell `i`: `gp[i]` is a
/// valid path from the start to that cell, its cost is the cell's tentative
/// distance, and every cell on it before the last is already expanded.
spec fn path_ok(
    g: TileGrid,
    start: GridCell,
    st: Seq<u8>,
    d: Seq<u64>,
    gp: Map<int, Seq<GridCell>>,
    i: int,
) -> bool {
    &&& is_path(g, gp[i], start, g.layout.cell_of(i))
    &&& path_cost(g, gp[i]) == d[i]
    &&& forall|k: int| 0 <= k < gp[i].len() - 1 ==> st[g.layout.idx_of(#[trigger] gp[i][k])] == 2
}

/// The parent pointer of a discovered cell leads to an expanded cell whose
/// recorded path, extended by this cell, is this cell's recorded path.
spec fn parent_ok(
    g: TileGrid,
    st: Seq<u8>,
    par: Seq<usize>,
    gp: Map<int, Seq<GridCell>>,
    i: int,
) -> bool {
    let pi = par[i] as int;
    &&& 0 <= pi < g.layout.area()
    &&& st[pi] == 2
    &&& gp.contains_key(pi)
    &&& gp[i] == gp[pi].push(g.layout.cell_of(i))
}

/// Every traversable neighbor of an expanded cell has been discovered, and
/// while it is not itself expanded its tentative distance is no worse than
/// stepping from this cell.
spec fn edge_ok(g: TileGrid, st: Seq<u8>, d: Seq<u64>, i: int) -> bool {
    forall|nc: GridCell| #[trigger] adjacent(g.layout.cell_of(i), nc) && g.traversable(nc) ==> {
        let j = g.layout.idx_of(nc);
        st[j] != 0 && (st[j] != 2 ==> d[j] <= d[i] + g.spec_cost(nc))
    }
}

spec fn edges_inv(g: TileGrid, st: Seq<u8>, d: Seq<u64>) -> bool {
    forall|i: int| 0 <= i < g.layout.area() && st[i] == 2 ==> #[trigger] edge_ok(g, st, d, i)
}

/// Expanded cells carry a final distance: no valid path to them is cheaper.
spec fn opt_inv(g: TileGrid, start: GridCell, st: Seq<u8>, d: Seq<u64>) -> bool {
    forall|i: int, p: Seq<GridCell>|
        0 <= i < g.layout.area() && st[i] == 2 && #[trigger] is_path(
            g,
            p,
            start,
            g.layout.cell_of(i),
        ) ==> d[i] <= path_cost(g, p)
}

/// Everything the search maintains between expansions, over the status array
/// (0 undiscovered, 1 frontier, 2 expanded), tentative distances, parent
/// pointers, the ghost recorded paths, the ghost set of expanded cells, and
/// its size.
spec fn core_inv(
    g: TileGrid,
    start: GridCell,
    goal: GridCell,
    st: Seq<u8>,
    d: Seq<u64>,
    par: Seq<usize>,
    gp: Map<int, Seq<GridCell>>,
    cs: Set<int>,
    cc: int,
) -> bool {
    let n = g.layout.area();
    let si = g.layout.idx_of(start);
    let gi = g.layout.idx_of(goal);
    &&& st.len() == n
    &&& d.len() == n
    &&& par.len() == n
    &&& forall|i: int| 0 <= i < n ==> (#[trigger] st[i]) <= 2
    &&& forall|i: int| #![trigger st[i]] #![trigger gp.contains_key(i)]
        0 <= i < n ==> (st[i] != 0 <==> gp.contains_key(i))
    &&& forall|i: int| 0 <= i < n && st[i] != 0 ==> #[trigger] path_ok(g, start, st, d, gp, i)
    &&& forall|i: int|
        0 <= i < n && st[i] != 0 && i != si ==> #[trigger] parent_ok(g, st, par, gp, i)
    &&& forall|i: int| 0 <= i < n && st[i] != 0 ==> (#[trigger] d[i]) <= 4 * cc
    &&& forall|i: int| 0 <= i < n && st[i] != 0 ==> (#[trigger] gp[i]).len() <= cc + 1
    &&& forall|i: int| 0 <= i < n && st[i] == 2 ==> (#[trigger] gp[i]).len() <= cc
    &&& st[si] != 0
    &&& d[si] == 0
    &&& gp[si] == seq![start]
    &&& st[gi] != 2
    &&& cs.finite()
    &&& cs.len() == cc
    &&& 0 <= cc <= n
    &&& forall|i: int| #[trigger] cs.contains(i) <==> (0 <= i < n && st[i] == 2)
    &&& (g.min_cost_positive() ==> opt_inv(g, start, st, d))
}

/// The cell the search expands next: the unique frontier cell of least
/// priority whose earlier frontier peers are all strictly worse; the
/// array's length when the frontier is empty.
spec fn pick_ok(st: Seq<u8>, d: Seq<u64>, hv: Seq<u64>, r: int) -> bool {
    &&& 0 <= r < st.len()
    &&& st[r] == 1
    &&& forall|j: int| 0 <= j < st.len() && (#[trigger] st[j]) == 1 ==> d[r] + hv[r] <= d[j] + hv[j]
    &&& forall|j: int| 0 <= j < r && (#[trigger] st[j]) == 1 ==> d[r] + hv[r] < d[j] + hv[j]
}

spec fn pick_open(st: Seq<u8>, d: Seq<u64>, hv: Seq<u64>) -> int {
    if exists|r: int| pick_ok(st, d, hv, r) {
        choose|r: int| pick_ok(st, d, hv, r)
    } else {
        st.len() as int
    }
}

proof fn lemma_pick_unique(st: Seq<u8>, d: Seq<u64>, hv: Seq<u64>, r: int)
    requires
        pick_ok(st, d, hv, r),
    ensures
        pick_open(st, d, hv) == r,
{
    let r2 = choose|r2: int| pick_ok(st, d, hv, r2);
    if r2 < r {
        assert(d[r] + hv[r] < d[r2] + hv[r2]);
        assert(d[r2] + hv[r2] <= d[r] + hv[r]);
    }
    if r < r2 {
        assert(d[r2] + hv[r2] < d[r] + hv[r]);
        assert(d[r] + hv[r] <= d[r2] + hv[r2]);
    }
}

/// One relaxation in spec form, mirroring exactly what the search does to
/// one listed neighbor.
spec fn relax_one(
    g: TileGrid,
    st: Seq<u8>,
    d: Seq<u64>,
    par: Seq<usize>,
    v: int,
    nc: GridCell,
    w: u32,
) -> (Seq<u8>, Seq<u64>, Seq<usize>) {
    let ni = g.layout.idx_of(nc);
    let nd = (d[v] + w) as u64;
    if st[ni] == 0 || (st[ni] == 1 && nd < d[ni]) {
        (st.update(ni, 1u8), d.update(ni, nd), par.update(ni, v as usize))
    } else {
        (st, d, par)
    }
}

/// The first `k` relaxations of an expansion, in spec form.
spec fn relax_upto(
    g: TileGrid,
    st: Seq<u8>,
    d: Seq<u64>,
    par: Seq<usize>,
    v: int,
    nbrs: Seq<(GridCell, u32)>,
    k: int,
) -> (Seq<u8>, Seq<u64>, Seq<usize>)
    decreases k,
{
    if k <= 0 {
        (st, d, par)
    } else {
        let prev = relax_upto(g, st, d, par, v, nbrs, k - 1);
        relax_one(g, prev.0, prev.1, prev.2, v, nbrs[k - 1].0, nbrs[k - 1].1)
    }
}

/// The route the parent pointers spell out, read back from a cell to the
/// start.
spec fn chain(g: TileGrid, par: Seq<usize>, start_i: int, cur: int, fuel: nat) -> Seq<GridCell>
    decreases fuel,
{
    if fuel == 0 {
        seq![]
    } else if cur == start_i {
        seq![g.layout.cell_of(cur)]
    } else {
        chain(g, par, start_i, par[cur] as int, (fuel - 1) as nat).push(g.layout.cell_of(cur))
    }
}

/// The whole search, in spec form: expand the picked frontier cell, stop
/// with the read-back route once the goal is expanded, report no route once
/// the frontier is empty.
spec fn run(
    g: TileGrid,
    hv: Seq<u64>,
    start_i: int,
    goal_i: int,
    st: Seq<u8>,
    d: Seq<u64>,
    par: Seq<usize>,
    fuel: nat,
) -> Option<(Seq<GridCell>, u64)>
    decreases fuel,
{
    if fuel == 0 {
        None
    } else {
        let v = pick_open(st, d, hv);
        if v == st.len() {
            None
        } else if v == goal_i {
            Some((chain(g, par, start_i, goal_i, (st.len() + 1) as nat), d[goal_i]))
        } else {
            let st1 = st.update(v, 2u8);
            let nbrs = spec_successors(g, g.layout.cell_of(v));
            let next = relax_upto(g, st1, d, par, v, nbrs, nbrs.len() as int);
            run(g, hv, start_i, goal_i, next.0, next.1, next.2, (fuel - 1) as nat)
        }
    }
}

/// The heuristic of every cell toward the goal, as the search tabulates it.
spec fn init_hv(g: TileGrid, goal: GridCell) -> Seq<u64> {
    Seq::new(g.layout.area() as nat, |i: int| heur(g.layout.cell_of(i), goal) as u64)
}

/// The search's starting status array: only the start cell is on the
/// frontier.
spec fn init_status(g: TileGrid, si: int) -> Seq<u8> {
    Seq::new(g.layout.area() as nat, |i: int| if i == si { 1u8 } else { 0u8 })
}

spec fn init_dist(g: TileGrid) -> Seq<u64> {
    Seq::new(g.layout.area() as nat, |i: int| 0u64)
}

spec fn init_parent(g: TileGrid) -> Seq<usize> {
    Seq::new(g.layout.area() as nat, |i: int| 0usize)
}

/// What the search returns, as a function of the grid and the request alone:
/// the search is deterministic, so two searches over the identical grid and
/// request yield identical path sequences and costs.
pub closed spec fn spec_find_path(g: TileGrid, req: PathRequest) -> Option<(Seq<GridCell>, u64)> {
    if !g.in_bounds(req.start) || !g.in_bounds(req.goal) {
        None
    } else {
        let n = g.layout.area();
        let si = g.layout.idx_of(req.start);
        let gi = g.layout.idx_of(req.goal);
        run(g, init_hv(g, req.goal), si, gi, init_status(g, si), init_dist(g), init_parent(g), (n
            + 1) as nat)
    }
}

/// The read-back route of a discovered cell is its recorded path.
proof fn lemma_chain_eq(
    g: TileGrid,
    st: Seq<u8>,
    d: Seq<u64>,
    par: Seq<usize>,
    gp: Map<int, Seq<GridCell>>,
    start: GridCell,
    start_i: int,
    i: int,
    fuel: nat,
)
    requires
        g.wf(),
        g.in_bounds(start),
        st.len() == g.layout.area(),
        par.len() == g.layout.area(),
        start_i == g.layout.idx_of(start),
        0 <= i < g.layout.area(),
        st[i] != 0,
        gp[start_i] == seq![start],
        forall|i2: int|
            0 <= i2 < g.layout.area() && st[i2] != 0 ==> #[trigger] path_ok(g, start, st, d, gp, i2),
        forall|i2: int|
            0 <= i2 < g.layout.area() && st[i2] != 0 && i2 != start_i ==> #[trigger] parent_ok(
                g,
                st,
                par,
                gp,
                i2,
            ),
        fuel >= gp[i].len(),
        gp[i].len() >= 1,
    ensures
        chain(g, par, start_i, i, fuel) == gp[i],
    decreases gp[i].len(),
{
    g.layout.lemma_idx_of(start);
    if i == start_i {
        assert(chain(g, par, start_i, i, fuel) == seq![g.layout.cell_of(start_i)]);
        assert(g.layout.cell_of(start_i) == start);
        assert(gp[i] =~= seq![start]);
        assert(chain(g, par, start_i, i, fuel) =~= gp[i]);
    } else {
        assert(parent_ok(g, st, par, gp, i));
        let pi = par[i] as int;
        assert(path_ok(g, start, st, d, gp, pi));
        assert(gp[i] == gp[pi].push(g.layout.cell_of(i)));
        assert(gp[pi].len() == gp[i].len() - 1);
        g.layout.lemma_cell_of(i);
        assert(path_ok(g, start, st, d, gp, i));
        if gp[i].len() == 1 {
            assert(gp[i][0] == start && gp[i].last() == g.layout.cell_of(i));
            assert(g.layout.idx_of(g.layout.cell_of(i)) == i);
            assert(false);
        }
        lemma_chain_eq(g, st, d, par, gp, start, start_i, pi, (fuel - 1) as nat);
    }
}

/// A vector of `n` copies of one value.
fn vec_filled<T: Copy>(val: T, n: usize) -> (v: Vec<T>)
    ensures
        v@.len() == n,
        forall|i: int| 0 <= i < n ==> v@[i] == val,
{
    let mut v: Vec<T> = Vec::new();
    let mut k: usize = 0;
    while k < n
        invariant
            k <= n,
            v@.len() == k,
            forall|i: int| 0 <= i < k ==> v@[i] == val,
        decreases n - k,
    {
        v.push(val);
        k += 1;
    }
    v
}

/// The cell stored at a row-major index.
fn cell_at(grid: &TileGrid, i: usize) -> (c: GridCell)
    requires
        grid.wf(),
        i < grid.layout.area(),
    ensures
        c == grid.layout.cell_of(i as int),
        grid.in_bounds(c),
        grid.layout.idx_of(c) == i,
{
    proof {
        grid.layout.lemma_cell_of(i as int);
    }
    let w = grid.layout.width as usize;
    GridCell { x: (i % w) as u32, y: (i / w) as u32 }
}

/// The row-major index of an in-bounds cell.
fn idx_at(grid: &TileGrid, c: GridCell) -> (i: usize)
    requires
        grid.wf(),
        grid.in_bounds(c),
    ensures
        i == grid.layout.idx_of(c),
        i < grid.layout.area(),
{
    proof {
        grid.layout.lemma_idx_of(c);
        assert(c.y * grid.layout.width <= (crate::grid::MAX_DIM - 1) * crate::grid::MAX_DIM)
            by (nonlinear_arith)
            requires 0 <= c.y <= crate::grid::MAX_DIM - 1 && 0 <= grid.layout.width
                <= crate::grid::MAX_DIM,
        {}
    }
    (c.y as usize) * (grid.layout.width as usize) + (c.x as usize)
}

/// Finds the frontier cell with the least priority `distance + heuristic`,
/// taking the lowest index on ties; the array's length when the frontier is
/// empty.
#[verifier::loop_isolation(false)]
fn scan_min_open(st: &Vec<u8>, d: &Vec<u64>, hv: &Vec<u64>) -> (r: usize)
    requires
        st@.len() == d@.len(),
        st@.len() == hv@.len(),
        forall|i: int| 0 <= i < st@.len() && st@[i] == 1 ==> (#[trigger] d@[i])
            <= 0x1_0000_0000_0000,
        forall|i: int| 0 <= i < st@.len() ==> (#[trigger] hv@[i]) <= 0x1_0000_0000,
    ensures
        r <= st@.len(),
        r == st@.len() ==> forall|j: int| 0 <= j < st@.len() ==> (#[trigger] st@[j]) != 1,
        r < st@.len() ==> st@[r as int] == 1 && forall|j: int|
            0 <= j < st@.len() && (#[trigger] st@[j]) == 1 ==> d@[r as int] + hv@[r as int] <= d@[j]
                + hv@[j],
        // The tie-break is fixed: every earlier frontier cell is strictly
        // worse, so the chosen cell is a function of the state alone.
        r < st@.len() ==> forall|j: int|
            0 <= j < r && (#[trigger] st@[j]) == 1 ==> d@[r as int] + hv@[r as int] < d@[j]
                + hv@[j],
{
    let n = st.len();
    let mut best: usize = n;
    let mut best_f: u64 = 0;
    let mut i: usize = 0;
    while i < n
        invariant
            i <= n,
            best <= n,
            best == n ==> forall|j: int| 0 <= j < i ==> (#[trigger] st@[j]) != 1,
            best < n ==> st@[best as int] == 1 && best_f == d@[best as int] + hv@[best as int]
                && forall|j: int|
                0 <= j < i && (#[trigger] st@[j]) == 1 ==> best_f <= d@[j] + hv@[j],
            best < n ==> forall|j: int|
                0 <= j < best && (#[trigger] st@[j]) == 1 ==> best_f < d@[j] + hv@[j],
        decreases n - i,
    {
        if st[i] == 1 {
            let f = d[i] + hv[i];
            if best == n || f < best_f {
                best = i;
                best_f = f;
            }
        }
        i += 1;
    }
    best
}

/// The first position along a path whose cell is not yet expanded.
proof fn first_unclosed(g: TileGrid, st: Seq<u8>, p: Seq<GridCell>) -> (j: int)
    requires
        g.wf(),
        st.len() == g.layout.area(),
        p.len() >= 1,
        forall|i: int| 0 <= i < p.len() ==> g.in_bounds(#[trigger] p[i]),
        st[g.layout.idx_of(p.last())] != 2,
    ensures
        0 <= j < p.len(),
        st[g.layout.idx_of(p[j])] != 2,
        forall|m: int| 0 <= m < j ==> st[g.layout.idx_of(#[trigger] p[m])] == 2,
    decreases p.len(),
{
    if st[g.layout.idx_of(p[0])] != 2 {
        0
    } else {
        assert(p.len() >= 2);
        let q = p.subrange(1, p.len() as int);
        assert(q.last() == p.last());
        assert forall|i: int| 0 <= i < q.len() implies g.in_bounds(#[trigger] q[i]) by {
            assert(q[i] == p[i + 1]);
        }
        let j0 = first_unclosed(g, st, q);
        assert(q[j0] == p[j0 + 1]);
        assert forall|m: int| 0 <= m < j0 + 1 implies st[g.layout.idx_of(#[trigger] p[m])] == 2 by {
            if m >= 1 {
                assert(q[m - 1] == p[m]);
            }
        }
        j0 + 1
    }
}

/// A prefix of a valid route is a valid route to the cell it stops at.
proof fn lemma_path_prefix(g: TileGrid, p: Seq<GridCell>, s: GridCell, m: int)
    requires
        p.len() >= 1,
        p[0] == s,
        g.in_bounds(s),
        forall|i: int| 0 <= i < p.len() - 1 ==> adjacent(#[trigger] p[i], p[i + 1]),
        forall|i: int| 1 <= i < p.len() ==> g.traversable(#[trigger] p[i]),
        0 <= m < p.len(),
    ensures
        is_path(g, p.subrange(0, m + 1), s, p[m]),
{
    let q = p.subrange(0, m + 1);
    assert forall|i: int| 0 <= i < q.len() - 1 implies adjacent(#[trigger] q[i], q[i + 1]) by {
        assert(q[i] == p[i] && q[i + 1] == p[i + 1]);
    }
    assert forall|i: int| 1 <= i < q.len() implies g.traversable(#[trigger] q[i]) by {
        assert(q[i] == p[i]);
    }
}

/// When a frontier cell of least priority is expanded, no valid path to it
/// is cheaper than its tentative distance: the heart of the search's
/// optimality, resting on the heuristic's consistency under the
/// positive-cost premise.
proof fn lemma_pop_optimal(
    g: TileGrid,
    start: GridCell,
    goal: GridCell,
    st: Seq<u8>,
    d: Seq<u64>,
    v: int,
    p: Seq<GridCell>,
)
    requires
        g.wf(),
        g.min_cost_positive(),
        g.in_bounds(start),
        st.len() == g.layout.area(),
        d.len() == g.layout.area(),
        forall|i: int| 0 <= i < g.layout.area() ==> (#[trigger] st[i]) <= 2,
        st[g.layout.idx_of(start)] != 0,
        d[g.layout.idx_of(start)] == 0,
        edges_inv(g, st, d),
        opt_inv(g, start, st, d),
        0 <= v < g.layout.area(),
        st[v] == 1,
        forall|j: int|
            0 <= j < g.layout.area() && (#[trigger] st[j]) == 1 ==> d[v] + heur(
                g.layout.cell_of(v),
                goal,
            ) <= d[j] + heur(g.layout.cell_of(j), goal),
        is_path(g, p, start, g.layout.cell_of(v)),
    ensures
        d[v] <= path_cost(g, p),
{
    let l = g.layout;
    let pl = p.len() as int;
    assert forall|i: int| 0 <= i < pl implies g.in_bounds(#[trigger] p[i]) by {
        if i >= 1 {
            assert(g.traversable(p[i]));
        }
    }
    l.lemma_cell_of(v);
    assert(l.idx_of(p.last()) == v);
    let j = first_unclosed(g, st, p);
    let w_i = l.idx_of(p[j]);
    l.lemma_idx_of(p[j]);
    let pre = p.subrange(0, j + 1);
    if j == 0 {
        assert(p[0] == start);
        assert(d[w_i] == 0);
        assert(path_cost(g, pre) == 0);
        assert(st[w_i] != 0);
    } else {
        let u_i = l.idx_of(p[j - 1]);
        l.lemma_idx_of(p[j - 1]);
        assert(st[u_i] == 2);
        let pre2 = p.subrange(0, j);
        lemma_path_prefix(g, p, start, j - 1);
        assert(is_path(g, pre2, start, l.cell_of(u_i)));
        assert(d[u_i] <= path_cost(g, pre2));
        assert(edge_ok(g, st, d, u_i));
        assert(adjacent(l.cell_of(u_i), p[j]));
        assert(g.traversable(p[j]));
        assert(st[w_i] != 0 && d[w_i] <= d[u_i] + g.spec_cost(p[j]));
        assert(pre.drop_last() =~= pre2);
        assert(pre.last() == p[j]);
        assert(path_cost(g, pre) == path_cost(g, pre2) + g.spec_cost(p[j]));
    }
    assert(d[w_i] <= path_cost(g, pre));
    assert(st[w_i] == 1);
    assert(d[v] + heur(l.cell_of(v), goal) <= d[w_i] + heur(l.cell_of(w_i), goal));
    let suf = p.subrange(j, pl);
    assert forall|i: int| 0 <= i < suf.len() - 1 implies adjacent(#[trigger] suf[i], suf[i + 1]) by {
        assert(suf[i] == p[j + i] && suf[i + 1] == p[j + i + 1]);
    }
    assert forall|i: int| 1 <= i < suf.len() implies g.traversable(#[trigger] suf[i]) by {
        assert(suf[i] == p[j + i]);
    }
    lemma_heur_telescope(g, suf, goal);
    assert(suf[0] == p[j] && suf.last() == p.last());
    lemma_path_cost_split(g, p, j);
}

/// Once the frontier is empty, every cell on any valid route from the start
/// has been expanded.
proof fn lemma_all_closed_along(
    g: TileGrid,
    start: GridCell,
    st: Seq<u8>,
    d: Seq<u64>,
    p: Seq<GridCell>,
    k: int,
)
    requires
        g.wf(),
        g.in_bounds(start),
        st.len() == g.layout.area(),
        d.len() == g.layout.area(),
        forall|i: int| 0 <= i < g.layout.area() ==> (#[trigger] st[i]) <= 2,
        forall|i: int| 0 <= i < g.layout.area() ==> (#[trigger] st[i]) != 1,
        st[g.layout.idx_of(start)] != 0,
        edges_inv(g, st, d),
        p.len() >= 1,
        p[0] == start,
        forall|i: int| 0 <= i < p.len() - 1 ==> adjacent(#[trigger] p[i], p[i + 1]),
        forall|i: int| 1 <= i < p.len() ==> g.traversable(#[trigger] p[i]),
        0 <= k < p.len(),
    ensures
        st[g.layout.idx_of(p[k])] == 2,
    decreases k,
{
    let l = g.layout;
    if k == 0 {
        l.lemma_idx_of(start);
    } else {
        lemma_all_closed_along(g, start, st, d, p, k - 1);
        let u_i = l.idx_of(p[k - 1]);
        if k - 1 >= 1 {
            assert(g.traversable(p[k - 1]));
        }
        l.lemma_idx_of(p[k - 1]);
        assert(edge_ok(g, st, d, u_i));
        assert(adjacent(l.cell_of(u_i), p[k]));
        assert(g.traversable(p[k]));
        assert(st[l.idx_of(p[k])] != 0);
        l.lemma_idx_of(p[k]);
        assert(st[l.idx_of(p[k])] != 1);
        assert(st[l.idx_of(p[k])] <= 2);
    }
}

/// Rebuilds the recorded path to the goal by walking parent pointers back to
/// the start, then reversing.
#[verifier::loop_isolation(false)]
fn reconstruct(
    grid: &TileGrid,
    par: &Vec<usize>,
    start: GridCell,
    start_i: usize,
    goal_i: usize,
    Ghost(st): Ghost<Seq<u8>>,
    Ghost(d): Ghost<Seq<u64>>,
    Ghost(gp): Ghost<Map<int, Seq<GridCell>>>,
) -> (path: Vec<GridCell>)
    requires
        grid.wf(),
        grid.in_bounds(start),
        par@.len() == grid.layout.area(),
        st.len() == grid.layout.area(),
        start_i == grid.layout.idx_of(start),
        goal_i < grid.layout.area(),
        st[goal_i as int] != 0,
        gp[start_i as int] == seq![start],
        forall|i: int| #![trigger st[i]] #![trigger gp.contains_key(i)]
            0 <= i < grid.layout.area() ==> (st[i] != 0 <==> gp.contains_key(i)),
        forall|i: int|
            0 <= i < grid.layout.area() && st[i] != 0 ==> #[trigger] path_ok(
                *grid,
                start,
                st,
                d,
                gp,
                i,
            ),
        forall|i: int|
            0 <= i < grid.layout.area() && st[i] != 0 && i != start_i ==> #[trigger] parent_ok(
                *grid,
                st,
                par@,
                gp,
                i,
            ),
    ensures
        path@ == gp[goal_i as int],
{
    let ghost target = gp[goal_i as int];
    let mut rev: Vec<GridCell> = Vec::new();
    let mut cur: usize = goal_i;
    rev.push(cell_at(grid, cur));
    proof {
        assert(path_ok(*grid, start, st, d, gp, goal_i as int));
        assert(gp[goal_i as int].last() == grid.layout.cell_of(goal_i as int));
    }
    while cur != start_i
        invariant
            cur < grid.layout.area(),
            st[cur as int] != 0,
            rev@.len() >= 1,
            gp[cur as int].len() + rev@.len() == target.len() + 1,
            forall|k: int|
                0 <= k < rev@.len() ==> (#[trigger] rev@[k]) == target[target.len() - 1 - k],
            forall|k: int| 0 <= k < gp[cur as int].len() ==> gp[cur as int][k] == #[trigger] target[k],
        decreases gp[cur as int].len(),
    {
        proof {
            assert(parent_ok(*grid, st, par@, gp, cur as int));
        }
        let ghost prev = cur as int;
        cur = par[cur];
        proof {
            assert(st[cur as int] == 2);
            assert(path_ok(*grid, start, st, d, gp, cur as int));
            assert(gp[cur as int].last() == grid.layout.cell_of(cur as int));
            assert(gp[prev] == gp[cur as int].push(grid.layout.cell_of(prev)));
            assert forall|k: int| 0 <= k < gp[cur as int].len() implies gp[cur as int][k]
                == #[trigger] target[k] by {
                assert(gp[cur as int][k] == gp[prev][k]);
            }
        }
        rev.push(cell_at(grid, cur));
        proof {
            let m = gp[cur as int].len() as int;
            assert(rev@[rev@.len() - 1] == gp[cur as int][m - 1]);
            assert(gp[cur as int][m - 1] == target[m - 1]);
        }
    }
    proof {
        assert(gp[cur as int] == seq![start]);
        assert(rev@.len() == target.len());
    }
    let m = rev.len();
    let mut path: Vec<GridCell> = Vec::new();
    let mut j: usize = 0;
    while j < m
        invariant
            j <= m,
            m == rev@.len(),
            m == target.len(),
            path@.len() == j,
            forall|k: int| 0 <= k < rev@.len() ==> (#[trigger] rev@[k]) == target[target.len() - 1
                - k],
            forall|k: int| 0 <= k < j ==> (#[trigger] path@[k]) == target[k],
        decreases m - j,
    {
        path.push(rev[m - 1 - j]);
        j += 1;
    }
    proof {
        assert(path@ =~= target);
    }
    path
}

/// Relaxes one traversable neighbor of the cell just expanded: records the
/// cheaper route to it through that cell. Restores every part of the search
/// invariant except the just-expanded cell's own edge facts, which the
/// caller completes once all its neighbors are processed.
#[verifier::rlimit(100)]
fn relax_update(
    grid: &TileGrid,
    status: &mut Vec<u8>,
    dist: &mut Vec<u64>,
    parent: &mut Vec<usize>,
    v: usize,
    ni: usize,
    nc: GridCell,
    ncost: u32,
    nd: u64,
    Ghost(start): Ghost<GridCell>,
    Ghost(start_i): Ghost<int>,
    Ghost(goal_i): Ghost<int>,
    Ghost(gp0): Ghost<Map<int, Seq<GridCell>>>,
    Ghost(cc): Ghost<int>,
) -> (gp_new: Ghost<Map<int, Seq<GridCell>>>)
    requires
        grid.wf(),
        grid.in_bounds(start),
        old(status)@.len() == grid.layout.area(),
        old(dist)@.len() == grid.layout.area(),
        old(parent)@.len() == grid.layout.area(),
        0 <= start_i < grid.layout.area(),
        0 <= goal_i < grid.layout.area(),
        start_i == grid.layout.idx_of(start),
        (v as int) < grid.layout.area(),
        old(status)@[v as int] == 2,
        grid.traversable(nc),
        adjacent(grid.layout.cell_of(v as int), nc),
        ncost as int == grid.spec_cost(nc),
        ni as int == grid.layout.idx_of(nc),
        nd == old(dist)@[v as int] + ncost,
        old(dist)@[v as int] <= 4 * (cc - 1),
        old(status)@[ni as int] == 0 || (old(status)@[ni as int] == 1 && nd < old(dist)@[ni as int]),
        forall|i2: int|
            0 <= i2 < grid.layout.area() ==> (#[trigger] old(status)@[i2]) <= 2,
        forall|i2: int| #![trigger old(status)@[i2]] #![trigger gp0.contains_key(i2)]
            0 <= i2 < grid.layout.area() ==> (old(status)@[i2] != 0 <==> gp0.contains_key(i2)),
        forall|i2: int|
            0 <= i2 < grid.layout.area() && old(status)@[i2] != 0 ==> #[trigger] path_ok(
                *grid,
                start,
                old(status)@,
                old(dist)@,
                gp0,
                i2,
            ),
        forall|i2: int|
            0 <= i2 < grid.layout.area() && old(status)@[i2] != 0 && i2 != start_i ==>
                #[trigger] parent_ok(*grid, old(status)@, old(parent)@, gp0, i2),
        forall|i2: int|
            0 <= i2 < grid.layout.area() && old(status)@[i2] != 0 ==> (#[trigger] old(dist)@[i2]) <= 4 * cc,
        forall|i2: int|
            0 <= i2 < grid.layout.area() && old(status)@[i2] != 0 ==> (#[trigger] gp0[i2]).len()
                <= cc + 1,
        forall|i2: int|
            0 <= i2 < grid.layout.area() && old(status)@[i2] == 2 ==> (#[trigger] gp0[i2]).len()
                <= cc,
        old(status)@[start_i] != 0,
        old(dist)@[start_i] == 0,
        gp0[start_i] == seq![start],
        old(status)@[goal_i] != 2,
        forall|i2: int|
            0 <= i2 < grid.layout.area() && old(status)@[i2] == 2 && i2 != v as int ==>
                #[trigger] edge_ok(*grid, old(status)@, old(dist)@, i2),
        grid.min_cost_positive() ==> opt_inv(*grid, start, old(status)@, old(dist)@),
    ensures
        final(status)@ == old(status)@.update(ni as int, 1u8),
        final(dist)@ == old(dist)@.update(ni as int, nd),
        final(parent)@ == old(parent)@.update(ni as int, v),
        gp_new@ == gp0.insert(ni as int, gp0[v as int].push(nc)),
        forall|i2: int|
            0 <= i2 < grid.layout.area() ==> (#[trigger] final(status)@[i2]) <= 2,
        forall|i2: int| #![trigger final(status)@[i2]] #![trigger gp_new@.contains_key(i2)]
            0 <= i2 < grid.layout.area() ==> (final(status)@[i2] != 0 <==> gp_new@.contains_key(
                i2,
            )),
        forall|i2: int|
            0 <= i2 < grid.layout.area() && final(status)@[i2] != 0 ==> #[trigger] path_ok(
                *grid,
                start,
                final(status)@,
                final(dist)@,
                gp_new@,
                i2,
            ),
        forall|i2: int|
            0 <= i2 < grid.layout.area() && final(status)@[i2] != 0 && i2 != start_i ==>
                #[trigger] parent_ok(*grid, final(status)@, final(parent)@, gp_new@, i2),
        forall|i2: int|
            0 <= i2 < grid.layout.area() && final(status)@[i2] != 0 ==> (#[trigger] final(dist)@[i2]) <= 4 * cc,
        forall|i2: int|
            0 <= i2 < grid.layout.area() && final(status)@[i2] != 0 ==> (#[trigger] gp_new@[i2]).len() <= cc + 1,
        forall|i2: int|
            0 <= i2 < grid.layout.area() && final(status)@[i2] == 2 ==> (#[trigger] gp_new@[i2]).len() <= cc,
        final(status)@[start_i] != 0,
        final(dist)@[start_i] == 0,
        gp_new@[start_i] == seq![start],
        final(status)@[goal_i] != 2,
        final(status)@[v as int] == 2,
        final(dist)@[v as int] == old(dist)@[v as int],
        forall|i2: int|
            0 <= i2 < grid.layout.area() ==> ((#[trigger] final(status)@[i2]) == 2 <==> old(status)@[i2] == 2),
        forall|i2: int|
            0 <= i2 < grid.layout.area() && final(status)@[i2] == 2 && i2 != v as int ==>
                #[trigger] edge_ok(*grid, final(status)@, final(dist)@, i2),
        grid.min_cost_positive() ==> opt_inv(*grid, start, final(status)@, final(dist)@),
        final(status)@[ni as int] == 1,
        final(dist)@[ni as int] == nd,
{
    let ghost n = grid.layout.area();
    let ghost old_st2 = status@;
    let ghost old_d2 = dist@;
    let ghost old_par2 = parent@;
    let ghost dv = dist@[v as int];
    let ghost vcell = grid.layout.cell_of(v as int);
    proof {
        grid.layout.lemma_cell_of(v as int);
        grid.layout.lemma_idx_of(nc);
        assert(ni != v);
        assert(path_ok(*grid, start, status@, dist@, gp0, v as int));
        lemma_path_push(*grid, gp0[v as int], start, vcell, nc);
    }
    status.set(ni, 1);
    dist.set(ni, nd);
    parent.set(ni, v);
    let ghost gp = gp0.insert(ni as int, gp0[v as int].push(nc));
    proof {
        // The new record is a valid path through the cell just expanded.
        let gpni = gp[ni as int];
        assert(gpni.last() == nc);
        assert(is_path(*grid, gpni, start, grid.layout.cell_of(ni as int)));
        assert(path_cost(*grid, gpni) == dv + grid.spec_cost(nc));
        assert forall|k2: int| #![trigger gpni[k2]] 0 <= k2 < gpni.len() - 1 implies status@[
            grid.layout.idx_of(gpni[k2])
        ] == 2 by {
            if k2 < gp0[v as int].len() - 1 {
                assert(gpni[k2] == gp0[v as int][k2]);
                let cell = gp0[v as int][k2];
                if k2 >= 1 {
                    assert(grid.traversable(cell));
                } else {
                    assert(cell == start);
                }
                grid.layout.lemma_idx_of(cell);
                assert(old_st2[grid.layout.idx_of(cell)] == 2);
            } else {
                assert(gpni[k2] == gp0[v as int].last());
                assert(gp0[v as int].last() == grid.layout.cell_of(v as int));
                grid.layout.lemma_cell_of(v as int);
            }
        }
        assert(path_ok(*grid, start, status@, dist@, gp, ni as int));
        // Older records survive the relaxation.
        assert forall|i2: int| 0 <= i2 < n && status@[i2] != 0 implies #[trigger] path_ok(
            *grid,
            start,
            status@,
            dist@,
            gp,
            i2,
        ) by {
            if i2 != ni as int {
                assert(path_ok(*grid, start, old_st2, old_d2, gp0, i2));
                assert(gp[i2] == gp0[i2]);
                assert forall|k2: int| #![trigger gp[i2][k2]] 0 <= k2 < gp[i2].len() - 1 implies
                    status@[grid.layout.idx_of(gp[i2][k2])] == 2 by {
                    let cell = gp[i2][k2];
                    if k2 >= 1 {
                        assert(grid.traversable(cell));
                    } else {
                        assert(cell == start);
                    }
                    grid.layout.lemma_idx_of(cell);
                    assert(old_st2[grid.layout.idx_of(cell)] == 2);
                }
            }
        }
        assert(parent_ok(*grid, status@, parent@, gp, ni as int));
        assert forall|i2: int|
            0 <= i2 < n && status@[i2] != 0 && i2 != start_i implies #[trigger] parent_ok(
            *grid,
            status@,
            parent@,
            gp,
            i2,
        ) by {
            if i2 != ni as int {
                assert(parent_ok(*grid, old_st2, old_par2, gp0, i2));
                assert(parent@[i2] == old_par2[i2]);
                assert(old_st2[parent@[i2] as int] == 2);
                assert(gp[parent@[i2] as int] == gp0[parent@[i2] as int]);
            }
        }
        assert forall|i2: int|
            0 <= i2 < n && status@[i2] == 2 && i2 != v as int implies #[trigger] edge_ok(
            *grid,
            status@,
            dist@,
            i2,
        ) by {
            assert(edge_ok(*grid, old_st2, old_d2, i2));
            assert forall|nc2: GridCell| #[trigger] adjacent(grid.layout.cell_of(i2), nc2)
                && grid.traversable(nc2) implies {
                let j2 = grid.layout.idx_of(nc2);
                status@[j2] != 0 && (status@[j2] != 2 ==> dist@[j2] <= dist@[i2]
                    + grid.spec_cost(nc2))
            } by {
                grid.layout.lemma_idx_of(nc2);
                let j2 = grid.layout.idx_of(nc2);
                assert(old_st2[j2] != 0 && (old_st2[j2] != 2 ==> old_d2[j2] <= old_d2[i2]
                    + grid.spec_cost(nc2)));
            }
        }
        if grid.min_cost_positive() {
            assert forall|i2: int, p2: Seq<GridCell>|
                0 <= i2 < grid.layout.area() && status@[i2] == 2 && #[trigger] is_path(
                    *grid,
                    p2,
                    start,
                    grid.layout.cell_of(i2),
                ) implies dist@[i2] <= path_cost(*grid, p2) by {
                assert(old_st2[i2] == 2);
                assert(old_d2[i2] <= path_cost(*grid, p2));
            }
        }
    }
    Ghost(gp)
}

/// Finds a cheapest traversable route for the request, or reports that none
/// exists.
///
/// The result is `Some` exactly when both endpoints are in bounds and some
/// valid traversable route connects them; the returned route is such a route
/// and the returned total is its cost. A request whose start equals its goal
/// yields that single cell at cost zero. When every traversable cell of the
/// grid costs at least one, the returned total is minimal over all valid
/// routes. The result equals [`spec_find_path`] of the grid and the request,
/// so two searches over identical input return identical path sequences.
#[verifier::rlimit(100)]
pub fn find_path(grid: &TileGrid, req: PathRequest) -> (r: Option<(Vec<GridCell>, u64)>)
    requires
        grid.wf(),
    ensures
        r is Some <==> (grid.in_bounds(req.start) && grid.in_bounds(req.goal) && exists|
            p: Seq<GridCell>,
        | is_path(*grid, p, req.start, req.goal)),
        r matches Some(pr) ==> is_path(*grid, pr.0@, req.start, req.goal) && pr.1 == path_cost(
            *grid,
            pr.0@,
        ),
        r matches Some(pr) ==> (req.start == req.goal ==> pr.0@ == seq![req.start] && pr.1 == 0),
        grid.min_cost_positive() ==> (r matches Some(pr) ==> forall|q: Seq<GridCell>|
            #[trigger] is_path(*grid, q, req.start, req.goal) ==> pr.1 <= path_cost(*grid, q)),
        r matches Some(pr) ==> spec_find_path(*grid, req) == Some((pr.0@, pr.1)),
        r is None ==> spec_find_path(*grid, req) is None,
{
    let start = req.start;
    let goal = req.goal;
    if !(start.x < grid.layout.width && start.y < grid.layout.height) || !(goal.x
        < grid.layout.width && goal.y < grid.layout.height) {
        return None;
    }
    let w = grid.layout.width as usize;
    let h = grid.layout.height as usize;
    proof {
        assert(w * h <= 0x40000000) by (nonlinear_arith)
            requires 1 <= w <= 32768 && 1 <= h <= 32768,
        {}
        assert(grid.layout.area() == w * h);
    }
    let n: usize = w * h;
    let start_i = idx_at(grid, start);
    let goal_i = idx_at(grid, goal);

    // Precompute the heuristic of every cell toward the goal.
    let mut hvec: Vec<u64> = Vec::new();
    let mut i: usize = 0;
    while i < n
        invariant
            grid.wf(),
            grid.in_bounds(goal),
            n == grid.layout.area(),
            i <= n,
            hvec@.len() == i,
            forall|k: int|
                0 <= k < i ==> (#[trigger] hvec@[k]) == heur(grid.layout.cell_of(k), goal)
                    && hvec@[k] <= 0x1_0000_0000,
        decreases n - i,
    {
        let c = cell_at(grid, i);
        let dv = c.distance(&goal);
        proof {
            lemma_sq_dist_nonneg(c, goal);
            assert(crate::graph::sq_dist(c, goal) < (0x10000 + 1) * (0x10000 + 1))
                by (nonlinear_arith)
                requires
                    0 <= c.x < 0x8000 && 0 <= goal.x < 0x8000 && 0 <= c.y < 0x8000 && 0 <= goal.y
                        < 0x8000,
                    crate::graph::sq_dist(c, goal) == (c.x - goal.x) * (c.x - goal.x) + (c.y
                        - goal.y) * (c.y - goal.y),
            {}
            crate::graph::lemma_sqrt_floor_le(crate::graph::sq_dist(c, goal), 0x10000);
        }
        hvec.push(dv);
        i += 1;
    }

    let mut status: Vec<u8> = vec_filled(0u8, n);
    let mut dist: Vec<u64> = vec_filled(0u64, n);
    let mut parent: Vec<usize> = vec_filled(0usize, n);
    let mut closed_count: usize = 0;
    status.set(start_i, 1);
    dist.set(start_i, 0);
    let ghost mut gp: Map<int, Seq<GridCell>> = Map::empty().insert(start_i as int, seq![start]);
    let ghost mut cs: Set<int> = Set::empty();
    proof {
        grid.layout.lemma_idx_of(start);
        grid.layout.lemma_idx_of(goal);
        assert(is_path(*grid, seq![start], start, grid.layout.cell_of(start_i as int)));
        assert(path_cost(*grid, seq![start]) == 0);
        assert(path_ok(*grid, start, status@, dist@, gp, start_i as int));
        assert(core_inv(*grid, start, goal, status@, dist@, parent@, gp, cs, 0));
        assert(edges_inv(*grid, status@, dist@));
        // The concrete starting state is exactly the one the spec-level
        // search starts from.
        assert forall|k2: int| 0 <= k2 < n implies hvec@[k2] == init_hv(*grid, goal)[k2] by {
            assert(hvec@[k2] == heur(grid.layout.cell_of(k2), goal));
        }
        assert(hvec@ =~= init_hv(*grid, goal));
        assert(status@ =~= init_status(*grid, start_i as int));
        assert(dist@ =~= init_dist(*grid));
        assert(parent@ =~= init_parent(*grid));
        assert(spec_find_path(*grid, req) == run(
            *grid,
            hvec@,
            start_i as int,
            goal_i as int,
            status@,
            dist@,
            parent@,
            (n + 1) as nat,
        ));
    }
    loop
        invariant
            grid.wf(),
            grid.in_bounds(start),
            grid.in_bounds(goal),
            start == req.start,
            goal == req.goal,
            n == grid.layout.area(),
            n <= 0x40000000,
            start_i == grid.layout.idx_of(start),
            goal_i == grid.layout.idx_of(goal),
            start_i < n,
            goal_i < n,
            hvec@.len() == n,
            forall|k: int|
                0 <= k < n ==> (#[trigger] hvec@[k]) == heur(grid.layout.cell_of(k), goal)
                    && hvec@[k] <= 0x1_0000_0000,
            core_inv(*grid, start, goal, status@, dist@, parent@, gp, cs, closed_count as int),
            edges_inv(*grid, status@, dist@),
            spec_find_path(*grid, req) == run(
                *grid,
                hvec@,
                start_i as int,
                goal_i as int,
                status@,
                dist@,
                parent@,
                (n + 1 - closed_count) as nat,
            ),
        decreases n - closed_count,
    {
        proof {
            assert forall|k: int| 0 <= k < n && status@[k] == 1 implies (#[trigger] dist@[k])
                <= 0x1_0000_0000_0000 by {
                assert(dist@[k] <= 4 * closed_count);
            }
        }
        let v = scan_min_open(&status, &dist, &hvec);
        if v == n {
            // The frontier is exhausted: every discovered cell is expanded,
            // so no valid route reaches the goal.
            proof {
                assert forall|p: Seq<GridCell>| !is_path(*grid, p, start, goal) by {
                    if is_path(*grid, p, start, goal) {
                        lemma_all_closed_along(
                            *grid,
                            start,
                            status@,
                            dist@,
                            p,
                            p.len() - 1,
                        );
                        assert(status@[goal_i as int] == 2);
                    }
                }
                // The spec-level search sees the same empty frontier.
                assert forall|r2: int| !pick_ok(status@, dist@, hvec@, r2) by {
                    if pick_ok(status@, dist@, hvec@, r2) {
                        assert(status@[r2] == 1);
                    }
                }
                assert(!(exists|r2: int| pick_ok(status@, dist@, hvec@, r2)));
                assert(pick_open(status@, dist@, hvec@) == n as int);
                assert(spec_find_path(*grid, req) is None);
            }
            return None;
        }
        let ghost old_st = status@;
        let ghost old_d = dist@;
        let ghost old_par = parent@;
        let ghost old_cc = closed_count as int;
        // The chosen frontier cell's distance is final: no valid path to it
        // is cheaper.
        proof {
            if grid.min_cost_positive() {
                assert forall|p: Seq<GridCell>|
                    #[trigger] is_path(*grid, p, start, grid.layout.cell_of(v as int)) implies
                    dist@[v as int] <= path_cost(*grid, p) by {
                    assert forall|j: int|
                        0 <= j < grid.layout.area() && (#[trigger] status@[j]) == 1 implies dist@[v
                        as int] + heur(grid.layout.cell_of(v as int), goal) <= dist@[j] + heur(
                        grid.layout.cell_of(j),
                        goal,
                    ) by {
                        assert(dist@[v as int] + hvec@[v as int] <= dist@[j] + hvec@[j]);
                    }
                    lemma_pop_optimal(*grid, start, goal, status@, dist@, v as int, p);
                }
            }
        }
        status.set(v, 2);
        closed_count += 1;
        proof {
            assert(!cs.contains(v as int));
            cs = cs.insert(v as int);
            assert(cs.len() == old_cc + 1);
            assert(cs.subset_of(set_int_range(0, n as int)));
            lemma_int_range(0, n as int);
            lemma_len_subset(cs, set_int_range(0, n as int));
            assert(closed_count <= n);
            // Expansion changes one status from frontier to expanded: every
            // record survives.
            assert forall|i2: int| 0 <= i2 < n && status@[i2] != 0 implies #[trigger] path_ok(
                *grid,
                start,
                status@,
                dist@,
                gp,
                i2,
            ) by {
                assert(path_ok(*grid, start, old_st, dist@, gp, i2));
                assert forall|k: int| #![trigger gp[i2][k]] 0 <= k < gp[i2].len() - 1 implies
                    status@[grid.layout.idx_of(gp[i2][k])] == 2 by {
                    let cell = gp[i2][k];
                    if k >= 1 {
                        assert(grid.traversable(cell));
                    } else {
                        assert(cell == start);
                    }
                    grid.layout.lemma_idx_of(cell);
                    assert(old_st[grid.layout.idx_of(cell)] == 2);
                }
            }
            assert forall|i2: int|
                0 <= i2 < n && status@[i2] != 0 && i2 != start_i as int implies
                #[trigger] parent_ok(*grid, status@, parent@, gp, i2) by {
                assert(parent_ok(*grid, old_st, parent@, gp, i2));
            }
            // Expansion leaves every other expanded cell's edge facts intact.
            assert forall|i2: int|
                0 <= i2 < n && status@[i2] == 2 && i2 != v as int implies #[trigger] edge_ok(
                *grid,
                status@,
                dist@,
                i2,
            ) by {
                assert(edge_ok(*grid, old_st, dist@, i2));
                assert forall|nc2: GridCell| #[trigger] adjacent(grid.layout.cell_of(i2), nc2)
                    && grid.traversable(nc2) implies {
                    let j2 = grid.layout.idx_of(nc2);
                    status@[j2] != 0 && (status@[j2] != 2 ==> dist@[j2] <= dist@[i2]
                        + grid.spec_cost(nc2))
                } by {
                    grid.layout.lemma_idx_of(nc2);
                    let j2 = grid.layout.idx_of(nc2);
                    assert(old_st[j2] != 0 && (old_st[j2] != 2 ==> dist@[j2] <= dist@[i2]
                        + grid.spec_cost(nc2)));
                }
            }
            assert(dist@[v as int] <= 4 * old_cc);
            // Recorded paths stay within one cell per expansion.
            assert forall|i2: int|
                0 <= i2 < n && status@[i2] != 0 implies (#[trigger] gp[i2]).len() <= closed_count
                + 1 by {
                assert(gp[i2].len() <= old_cc + 1);
            }
            assert forall|i2: int|
                0 <= i2 < n && status@[i2] == 2 implies (#[trigger] gp[i2]).len()
                <= closed_count by {
                if i2 == v as int {
                    assert(gp[i2].len() <= old_cc + 1);
                } else {
                    assert(old_st[i2] == 2);
                    assert(gp[i2].len() <= old_cc);
                }
            }
            // The spec-level search picks the same cell.
            assert(pick_ok(old_st, old_d, hvec@, v as int));
            lemma_pick_unique(old_st, old_d, hvec@, v as int);
        }
        if v == goal_i {
            proof {
                grid.layout.lemma_idx_of(goal);
                assert(grid.layout.cell_of(goal_i as int) == goal);
                assert(path_ok(*grid, start, status@, dist@, gp, goal_i as int));
                if start == goal {
                    assert(goal_i as int == start_i as int);
                }
            }
            let total = dist[v];
            let path = reconstruct(
                grid,
                &parent,
                start,
                start_i,
                goal_i,
                Ghost(status@),
                Ghost(dist@),
                Ghost(gp),
            );
            proof {
                assert(is_path(*grid, path@, start, goal));
                // The spec-level search stops here too, reading back the
                // same route from the same parent pointers.
                assert(gp[goal_i as int].len() <= closed_count <= n);
                lemma_chain_eq(
                    *grid,
                    status@,
                    dist@,
                    parent@,
                    gp,
                    start,
                    start_i as int,
                    goal_i as int,
                    (n + 1) as nat,
                );
                assert((n + 1 - old_cc) as nat > 0);
                assert(run(
                    *grid,
                    hvec@,
                    start_i as int,
                    goal_i as int,
                    old_st,
                    old_d,
                    old_par,
                    (n + 1 - old_cc) as nat,
                ) == Some((gp[goal_i as int], old_d[goal_i as int])));
                assert(spec_find_path(*grid, req) == Some((path@, total)));
            }
            return Some((path, total));
        }
        // Relax every traversable neighbor of the expanded cell.
        let ghost st_c = status@;
        let ghost d_c = dist@;
        let ghost par_c = parent@;
        let vcell = cell_at(grid, v);
        let nbrs = vcell.successors(grid);
        proof {
            lemma_successors_spec(*grid, vcell);
        }
        let ghost dv = dist@[v as int];
        let mut k: usize = 0;
        while k < nbrs.len()
            invariant
                grid.wf(),
                grid.in_bounds(start),
                n == grid.layout.area(),
                n <= 0x40000000,
                start_i == grid.layout.idx_of(start),
                goal_i == grid.layout.idx_of(goal),
                start_i < n,
                goal_i < n,
                v < n,
                vcell == grid.layout.cell_of(v as int),
                grid.in_bounds(vcell),
                k <= nbrs@.len(),
                nbrs@ == spec_successors(*grid, vcell),
                status@.len() == n,
                dist@.len() == n,
                parent@.len() == n,
                status@[v as int] == 2,
                dist@[v as int] == dv,
                dv <= 4 * (closed_count - 1),
                forall|i2: int| 0 <= i2 < n ==> (#[trigger] status@[i2]) <= 2,
                forall|i2: int| #![trigger status@[i2]] #![trigger gp.contains_key(i2)]
                    0 <= i2 < n ==> (status@[i2] != 0 <==> gp.contains_key(i2)),
                forall|i2: int|
                    0 <= i2 < n && status@[i2] != 0 ==> #[trigger] path_ok(
                        *grid,
                        start,
                        status@,
                        dist@,
                        gp,
                        i2,
                    ),
                forall|i2: int|
                    0 <= i2 < n && status@[i2] != 0 && i2 != start_i as int ==>
                        #[trigger] parent_ok(*grid, status@, parent@, gp, i2),
                forall|i2: int|
                    0 <= i2 < n && status@[i2] != 0 ==> (#[trigger] dist@[i2]) <= 4
                        * closed_count,
                forall|i2: int|
                    0 <= i2 < n && status@[i2] != 0 ==> (#[trigger] gp[i2]).len() <= closed_count
                        + 1,
                forall|i2: int|
                    0 <= i2 < n && status@[i2] == 2 ==> (#[trigger] gp[i2]).len() <= closed_count,
                relax_upto(*grid, st_c, d_c, par_c, v as int, nbrs@, k as int).0 == status@,
                relax_upto(*grid, st_c, d_c, par_c, v as int, nbrs@, k as int).1 == dist@,
                relax_upto(*grid, st_c, d_c, par_c, v as int, nbrs@, k as int).2 == parent@,
                status@[start_i as int] != 0,
                dist@[start_i as int] == 0,
                gp[start_i as int] == seq![start],
                status@[goal_i as int] != 2,
                cs.finite(),
                cs.len() == closed_count,
                0 <= closed_count <= n,
                forall|i2: int| #[trigger]
                    cs.contains(i2) <==> (0 <= i2 < n && status@[i2] == 2),
                (grid.min_cost_positive() ==> opt_inv(*grid, start, status@, dist@)),
                forall|i2: int|
                    0 <= i2 < n && status@[i2] == 2 && i2 != v as int ==> #[trigger] edge_ok(
                        *grid,
                        status@,
                        dist@,
                        i2,
                    ),
                forall|m: int|
                    0 <= m < k ==> {
                        let j2 = grid.layout.idx_of((#[trigger] nbrs@[m]).0);
                        status@[j2] != 0 && (status@[j2] != 2 ==> dist@[j2] <= dv
                            + nbrs@[m].1)
                    },
            decreases nbrs@.len() - k,
        {
            let (nc, ncost) = nbrs[k];
            proof {
                lemma_successors_spec(*grid, vcell);
                assert(nbrs@[k as int] == (nc, ncost));
                assert(adjacent(vcell, nc) && grid.traversable(nc));
                assert(ncost == grid.spec_cost(nc));
            }
            let ni = idx_at(grid, nc);
            let nd = dist[v] + (ncost as u64);
            let sni = status[ni];
            if sni == 0 || (sni == 1 && nd < dist[ni]) {
                let ghost old_st2 = status@;
                let ghost old_d2 = dist@;
                let ghost old_par2 = parent@;
                let ghost old_gp2 = gp;
                let gp_new = relax_update(
                    grid,
                    &mut status,
                    &mut dist,
                    &mut parent,
                    v,
                    ni,
                    nc,
                    ncost,
                    nd,
                    Ghost(start),
                    Ghost(start_i as int),
                    Ghost(goal_i as int),
                    Ghost(gp),
                    Ghost(closed_count as int),
                );
                proof {
                    gp = gp_new@;
                    assert forall|i2: int| #[trigger]
                        cs.contains(i2) <==> (0 <= i2 < n && status@[i2] == 2) by {
                        if 0 <= i2 < n {
                            assert(status@[i2] == 2 <==> old_st2[i2] == 2);
                        }
                    }
                    assert forall|m: int| 0 <= m < k + 1 implies {
                        let j2 = grid.layout.idx_of((#[trigger] nbrs@[m]).0);
                        status@[j2] != 0 && (status@[j2] != 2 ==> dist@[j2] <= dv + nbrs@[m].1)
                    } by {
                        assert(grid.traversable(nbrs@[m].0));
                        grid.layout.lemma_idx_of(nbrs@[m].0);
                        let j2 = grid.layout.idx_of(nbrs@[m].0);
                        if m < k {
                            if j2 == ni as int {
                                assert(nbrs@[m].0 == nc);
                                assert(nbrs@[m].1 as int == grid.spec_cost(nbrs@[m].0));
                                assert(nbrs@[m].1 == ncost);
                            } else {
                                assert(old_st2[j2] != 0 && (old_st2[j2] != 2 ==> old_d2[j2] <= dv
                                    + nbrs@[m].1));
                            }
                        } else {
                            assert(nbrs@[m] == (nc, ncost));
                        }
                    }
                    // The spec-level relaxation takes the same update.
                    let prev = relax_upto(*grid, st_c, d_c, par_c, v as int, nbrs@, k as int);
                    assert(prev.0 == old_st2 && prev.1 == old_d2 && prev.2 == old_par2);
                    let next = relax_upto(*grid, st_c, d_c, par_c, v as int, nbrs@, k + 1);
                    assert(next == relax_one(*grid, old_st2, old_d2, old_par2, v as int, nc,
                        ncost));
                    assert((old_d2[v as int] + ncost) as u64 == nd);
                    assert(next.0 == status@ && next.1 == dist@ && next.2 == parent@);
                }
            } else {
                proof {
                    assert forall|m: int| 0 <= m < k + 1 implies {
                        let j2 = grid.layout.idx_of((#[trigger] nbrs@[m]).0);
                        status@[j2] != 0 && (status@[j2] != 2 ==> dist@[j2] <= dv + nbrs@[m].1)
                    } by {
                        assert(grid.traversable(nbrs@[m].0));
                        grid.layout.lemma_idx_of(nbrs@[m].0);
                        if m == k {
                            assert(nbrs@[m] == (nc, ncost));
                        }
                    }
                    // The spec-level relaxation skips this neighbor too.
                    let next = relax_upto(*grid, st_c, d_c, par_c, v as int, nbrs@, k + 1);
                    assert(next == relax_one(*grid, status@, dist@, parent@, v as int, nc,
                        ncost));
                    assert((dist@[v as int] + ncost) as u64 == nd);
                    assert(next.0 == status@ && next.1 == dist@ && next.2 == parent@);
                }
            }
            k += 1;
        }
        // All neighbors processed: the expanded cell now satisfies the edge
        // invariant.
        proof {
            assert forall|i2: int| 0 <= i2 < n && status@[i2] == 2 implies #[trigger] edge_ok(
                *grid,
                status@,
                dist@,
                i2,
            ) by {
                if i2 == v as int {
                    assert forall|nc2: GridCell| #[trigger] adjacent(
                        grid.layout.cell_of(i2),
                        nc2,
                    ) && grid.traversable(nc2) implies {
                        let j2 = grid.layout.idx_of(nc2);
                        status@[j2] != 0 && (status@[j2] != 2 ==> dist@[j2] <= dist@[i2]
                            + grid.spec_cost(nc2))
                    } by {
                        assert(grid.layout.cell_of(v as int) == vcell);
                        let m = choose|m: int|
                            0 <= m < spec_successors(*grid, vcell).len() && spec_successors(
                                *grid,
                                vcell,
                            )[m] == (nc2, grid.costs@[grid.layout.idx_of(nc2)].0);
                        assert(nbrs@[m].0 == nc2);
                    }
                }
            }
            assert(core_inv(
                *grid,
                start,
                goal,
                status@,
                dist@,
                parent@,
                gp,
                cs,
                closed_count as int,
            ));
            // The spec-level search unrolls one expansion to the same state.
            assert(relax_upto(*grid, st_c, d_c, par_c, v as int, nbrs@, nbrs@.len() as int).0
                == status@);
            assert(st_c == old_st.update(v as int, 2u8));
            assert((n + 1 - old_cc) as nat > 0);
            assert(run(
                *grid,
                hvec@,
                start_i as int,
                goal_i as int,
                old_st,
                old_d,
                old_par,
                (n + 1 - old_cc) as nat,
            ) == run(
                *grid,
                hvec@,
                start_i as int,
                goal_i as int,
                status@,
                dist@,
                parent@,
                (n + 1 - closed_count) as nat,
            ));
        }
    }
}

impl GridCell {
    /// Finds a cheapest traversable route from this cell to another, as
    /// [`find_path`] does for a request with this cell as start.
    pub fn find_path_to(&self, to: &GridCell, g: &TileGrid) -> (r: Option<(Vec<GridCell>, u64)>)
        requires
            g.wf(),
        ensures
            r is Some <==> (g.in_bounds(*self) && g.in_bounds(*to) && exists|p: Seq<GridCell>|
                is_path(*g, p, *self, *to)),
            r matches Some(pr) ==> is_path(*g, pr.0@, *self, *to) && pr.1 == path_cost(*g, pr.0@),
            r matches Some(pr) ==> (*self == *to ==> pr.0@ == seq![*self] && pr.1 == 0),
            g.min_cost_positive() ==> (r matches Some(pr) ==> forall|q: Seq<GridCell>|
                #[trigger] is_path(*g, q, *self, *to) ==> pr.1 <= path_cost(*g, q)),
            r matches Some(pr) ==> spec_find_path(*g, PathRequest { start: *self, goal: *to })
                == Some((pr.0@, pr.1)),
            r is None ==> spec_find_path(*g, PathRequest { start: *self, goal: *to }) is None,
    {
        let req = PathRequest { start: *self, goal: *to };
        let r = find_path(g, req);
        proof {
            if exists|p: Seq<GridCell>| is_path(*g, p, *self, *to) {
                let w = choose|p: Seq<GridCell>| is_path(*g, p, *self, *to);
                assert(is_path(*g, w, req.start, req.goal));
            }
            if exists|p: Seq<GridCell>| is_path(*g, p, req.start, req.goal) {
                let w = choose|p: Seq<GridCell>| is_path(*g, p, req.start, req.goal);
                assert(is_path(*g, w, *self, *to));
            }
        }
        r
    }
}

} // verus!

