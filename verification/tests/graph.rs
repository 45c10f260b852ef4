use tilepath::grid::{GridCell, GridLayout, MovementCost, TileGrid};

fn grid_from(w: u32, h: u32, costs: &[u32]) -> TileGrid {
    assert_eq!(costs.len(), (w * h) as usize);
    let mut v: Vec<MovementCost> = Vec::new();
    for &c in costs {
        v.push(MovementCost(c));
    }
    let l = GridLayout { width: w, height: h, cell_w: 64, cell_h: 64, origin_x: 0, origin_y: 0 };
    TileGrid::from_costs(l, v)
}

fn cell(x: u32, y: u32) -> GridCell {
    GridCell { x, y }
}

#[test]
fn successors_come_in_up_down_left_right_order() {
    let costs = [
        1, 2, 3,
        4, 0, 1,
        2, 3, 4,
    ];
    let g = grid_from(3, 3, &costs);
    let s = cell(1, 1).successors(&g);
    assert_eq!(
        s,
        vec![(cell(1, 2), 3), (cell(1, 0), 2), (cell(0, 1), 4), (cell(2, 1), 1)]
    );
}

#[test]
fn successors_omit_out_of_bounds_neighbors() {
    let g = grid_from(3, 3, &[1; 9]);
    let s = cell(0, 0).successors(&g);
    assert_eq!(s, vec![(cell(0, 1), 1), (cell(1, 0), 1)]);
    let s = cell(2, 2).successors(&g);
    assert_eq!(s, vec![(cell(2, 1), 1), (cell(1, 2), 1)]);
}

#[test]
fn successors_filter_impassable_neighbors() {
    let costs = [
        1, 5, 1,
        4, 1, 999,
        1, 2, 1,
    ];
    let g = grid_from(3, 3, &costs);
    let s = cell(1, 1).successors(&g);
    // Up (1,2) costs 2 and left (0,1) costs 4; down (1,0) costs 5 and right
    // (2,1) costs 999, both at or above the threshold and omitted.
    assert_eq!(s, vec![(cell(1, 2), 2), (cell(0, 1), 4)]);
}

#[test]
fn distance_truncates_euclidean_length() {
    assert_eq!(cell(0, 0).distance(&cell(3, 4)), 5);
    assert_eq!(cell(3, 4).distance(&cell(0, 0)), 5);
    assert_eq!(cell(0, 0).distance(&cell(2, 2)), 2);
    assert_eq!(cell(0, 0).distance(&cell(1, 0)), 1);
    assert_eq!(cell(7, 7).distance(&cell(7, 7)), 0);
    assert_eq!(cell(0, 0).distance(&cell(1, 1)), 1);
    assert_eq!(cell(10, 0).distance(&cell(0, 5)), 11);
}

#[test]
fn cost_lookup_reads_row_major_storage() {
    let costs = [
        10, 11, 12,
        13, 14, 15,
    ];
    let g = grid_from(3, 2, &costs);
    assert_eq!(g.cost(cell(0, 0)), 10);
    assert_eq!(g.cost(cell(2, 0)), 12);
    assert_eq!(g.cost(cell(0, 1)), 13);
    assert_eq!(g.cost(cell(2, 1)), 15);
}
