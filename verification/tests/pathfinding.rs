use tilepath::grid::{GridCell, GridLayout, MovementCost, TileGrid};
use tilepath::pathfinding::{find_path, PathRequest};

fn layout(w: u32, h: u32) -> GridLayout {
    GridLayout { width: w, height: h, cell_w: 64, cell_h: 64, origin_x: 0, origin_y: 0 }
}

fn grid_from(w: u32, h: u32, costs: &[u32]) -> TileGrid {
    assert_eq!(costs.len(), (w * h) as usize);
    let mut v: Vec<MovementCost> = Vec::new();
    for &c in costs {
        v.push(MovementCost(c));
    }
    TileGrid::from_costs(layout(w, h), v)
}

fn cell(x: u32, y: u32) -> GridCell {
    GridCell { x, y }
}

fn is_adjacent(a: GridCell, b: GridCell) -> bool {
    let dx = if a.x >= b.x { a.x - b.x } else { b.x - a.x };
    let dy = if a.y >= b.y { a.y - b.y } else { b.y - a.y };
    dx + dy == 1
}

fn cost_of(g_w: u32, costs: &[u32], c: GridCell) -> u32 {
    costs[(c.y * g_w + c.x) as usize]
}

/// Depth-first enumeration of all simple traversable paths, returning the
/// least total cost to the goal, for cross-checking the search's optimality.
fn brute_force(
    w: u32,
    h: u32,
    costs: &[u32],
    at: GridCell,
    goal: GridCell,
    visited: &mut Vec<bool>,
    acc: u64,
    best: &mut Option<u64>,
) {
    if at == goal {
        if best.is_none() || acc < best.unwrap() {
            *best = Some(acc);
        }
        return;
    }
    let deltas: [(i64, i64); 4] = [(0, 1), (0, -1), (-1, 0), (1, 0)];
    for (dx, dy) in deltas {
        let nx = at.x as i64 + dx;
        let ny = at.y as i64 + dy;
        if nx < 0 || ny < 0 || nx >= w as i64 || ny >= h as i64 {
            continue;
        }
        let n = cell(nx as u32, ny as u32);
        let idx = (n.y * w + n.x) as usize;
        if visited[idx] || cost_of(w, costs, n) >= 5 {
            continue;
        }
        visited[idx] = true;
        brute_force(w, h, costs, n, goal, visited, acc + cost_of(w, costs, n) as u64, best);
        visited[idx] = false;
    }
}

fn brute_force_min(w: u32, h: u32, costs: &[u32], start: GridCell, goal: GridCell) -> Option<u64> {
    let mut visited = vec![false; (w * h) as usize];
    visited[(start.y * w + start.x) as usize] = true;
    let mut best: Option<u64> = None;
    brute_force(w, h, costs, start, goal, &mut visited, 0, &mut best);
    best
}

#[test]
fn trivial_path_start_equals_goal() {
    let g = grid_from(3, 3, &[0; 9]);
    let r = find_path(&g, PathRequest { start: cell(1, 1), goal: cell(1, 1) });
    let (path, cost) = r.expect("a trivial path");
    assert_eq!(path, vec![cell(1, 1)]);
    assert_eq!(cost, 0);
}

#[test]
fn example_scenario_detours_around_center() {
    // 3x3 grid, all costs 0 except the center, which is impassable; the
    // route from corner to corner takes four transitions around it at cost 0.
    let mut costs = [0u32; 9];
    costs[(1 * 3 + 1) as usize] = 999;
    let g = grid_from(3, 3, &costs);
    let r = find_path(&g, PathRequest { start: cell(0, 0), goal: cell(2, 2) });
    let (path, cost) = r.expect("a path around the center");
    assert_eq!(cost, 0);
    assert_eq!(path.len(), 5);
    assert_eq!(path[0], cell(0, 0));
    assert_eq!(path[path.len() - 1], cell(2, 2));
    for i in 1..path.len() {
        assert!(is_adjacent(path[i - 1], path[i]));
    }
    for c in &path {
        assert_ne!(*c, cell(1, 1));
    }
}

#[test]
fn no_path_across_full_impassable_row() {
    // A full row of impassable cells between start and goal: no route.
    let mut costs = [1u32; 25];
    for x in 0..5 {
        costs[(2 * 5 + x) as usize] = 999;
    }
    let g = grid_from(5, 5, &costs);
    let r = find_path(&g, PathRequest { start: cell(0, 0), goal: cell(4, 4) });
    assert!(r.is_none());
}

#[test]
fn path_never_contains_impassable_cell() {
    let costs = [
        1, 1, 2, 1, 1,
        1, 9, 1, 9, 1,
        1, 9, 1, 9, 1,
        1, 1, 1, 9, 1,
        1, 9, 5, 1, 1,
    ];
    let g = grid_from(5, 5, &costs);
    let r = find_path(&g, PathRequest { start: cell(0, 0), goal: cell(4, 4) });
    let (path, _) = r.expect("a path exists");
    for c in &path {
        assert!(cost_of(5, &costs, *c) < 5);
    }
}

#[test]
fn optimal_cost_matches_brute_force() {
    let costs = [
        1, 3, 1, 4, 1,
        1, 9, 1, 9, 1,
        2, 1, 4, 1, 2,
        1, 9, 1, 9, 1,
        1, 2, 1, 3, 1,
    ];
    let g = grid_from(5, 5, &costs);
    let start = cell(0, 0);
    let goal = cell(4, 4);
    let r = find_path(&g, PathRequest { start, goal });
    let (_, cost) = r.expect("a path exists");
    let expected = brute_force_min(5, 5, &costs, start, goal).expect("brute force finds one");
    assert_eq!(cost, expected);
}

#[test]
fn optimal_cost_matches_brute_force_second_grid() {
    let costs = [
        2, 1, 1, 1,
        1, 4, 4, 1,
        1, 4, 1, 1,
        1, 1, 1, 3,
    ];
    let g = grid_from(4, 4, &costs);
    let start = cell(3, 0);
    let goal = cell(0, 3);
    let r = find_path(&g, PathRequest { start, goal });
    let (_, cost) = r.expect("a path exists");
    let expected = brute_force_min(4, 4, &costs, start, goal).expect("brute force finds one");
    assert_eq!(cost, expected);
}

#[test]
fn identical_searches_give_identical_paths() {
    let costs = [
        0, 0, 0, 0, 0,
        0, 999, 999, 0, 0,
        0, 0, 0, 0, 0,
        0, 999, 0, 999, 0,
        0, 0, 0, 0, 0,
    ];
    let g = grid_from(5, 5, &costs);
    let req = PathRequest { start: cell(0, 0), goal: cell(4, 4) };
    let a = find_path(&g, req);
    let b = find_path(&g, req);
    let (pa, ca) = a.expect("a path");
    let (pb, cb) = b.expect("a path");
    assert_eq!(pa, pb);
    assert_eq!(ca, cb);
}

#[test]
fn out_of_bounds_request_is_rejected() {
    let g = grid_from(3, 3, &[0; 9]);
    assert!(find_path(&g, PathRequest { start: cell(0, 0), goal: cell(10, 10) }).is_none());
    assert!(find_path(&g, PathRequest { start: cell(3, 0), goal: cell(1, 1) }).is_none());
}

#[test]
fn impassable_start_can_still_exit() {
    // The starting cell's own cost is never charged, so a search may leave
    // an impassable start as long as a traversable neighbor exists.
    let costs = [999, 1, 1];
    let g = grid_from(3, 1, &costs);
    let r = find_path(&g, PathRequest { start: cell(0, 0), goal: cell(2, 0) });
    let (path, cost) = r.expect("a path out of the blocked start");
    assert_eq!(path, vec![cell(0, 0), cell(1, 0), cell(2, 0)]);
    assert_eq!(cost, 2);
}

#[test]
fn surrounded_impassable_start_has_no_path() {
    let costs = [
        1, 999, 1,
        999, 999, 999,
        1, 999, 1,
    ];
    let g = grid_from(3, 3, &costs);
    let r = find_path(&g, PathRequest { start: cell(1, 1), goal: cell(0, 0) });
    assert!(r.is_none());
}

#[test]
fn cost_sums_entered_cells_only() {
    let costs = [0, 2, 3];
    let g = grid_from(3, 1, &costs);
    let r = find_path(&g, PathRequest { start: cell(0, 0), goal: cell(2, 0) });
    let (_, cost) = r.expect("a path");
    assert_eq!(cost, 5);
}

#[test]
fn find_path_to_matches_free_function() {
    let mut costs = [0u32; 64];
    costs[(3 * 8 + 3) as usize] = 999;
    let g = grid_from(8, 8, &costs);
    let goal = cell(4, 6);
    let clicked = cell(1, 1);
    let via_method = goal.find_path_to(&clicked, &g);
    let via_free = find_path(&g, PathRequest { start: goal, goal: clicked });
    assert_eq!(via_method, via_free);
    assert!(via_method.is_some());
}

#[test]
fn zero_cost_grids_can_forgo_the_cheapest_route() {
    // On zero-cost grids the truncated Euclidean heuristic can overestimate
    // the true remaining cost, so the search may return a dearer route than
    // the best one: the optimality guarantee holds only when every
    // traversable cell costs at least one.
    let mut costs = [0u32; 39];
    costs[1] = 4;
    costs[2] = 4;
    for x in 1..12 {
        costs[13 + x] = 9;
    }
    let g = grid_from(13, 3, &costs);
    let start = cell(0, 0);
    let goal = cell(3, 0);
    let r = find_path(&g, PathRequest { start, goal });
    let (_, cost) = r.expect("a path exists");
    let best = brute_force_min(13, 3, &costs, start, goal).expect("brute force");
    println!("returned {cost}, optimal {best}");
    assert_eq!(best, 0);
    assert_eq!(cost, 8);
}
