use tilepath::grid::{GridCell, GridLayout};
use tilepath::mapper::{cell_to_world, mouse_pos_in_map, project, world_to_cell, WorldPoint};

fn layout(w: u32, h: u32, cw: i64, ch: i64, ox: i64, oy: i64) -> GridLayout {
    GridLayout { width: w, height: h, cell_w: cw, cell_h: ch, origin_x: ox, origin_y: oy }
}

fn cell(x: u32, y: u32) -> GridCell {
    GridCell { x, y }
}

#[test]
fn cell_center_is_origin_plus_half_cell() {
    let l = layout(4, 4, 64, 64, -128, -128);
    assert_eq!(cell_to_world(cell(0, 0), l), WorldPoint { x: -96, y: -96 });
    assert_eq!(cell_to_world(cell(3, 1), l), WorldPoint { x: 96, y: -32 });
}

#[test]
fn round_trip_recovers_every_cell() {
    let layouts = [
        layout(4, 4, 64, 64, -128, -128),
        layout(7, 3, 5, 9, 1000, -777),
        layout(1, 1, 1, 1, 0, 0),
        layout(64, 64, 64, 64, -2048, -2048),
    ];
    for l in layouts {
        for x in 0..l.width {
            for y in 0..l.height {
                let c = cell(x, y);
                let w = cell_to_world(c, l);
                assert_eq!(world_to_cell(w, l), Some(c));
            }
        }
    }
}

#[test]
fn out_of_bounds_points_map_to_none() {
    let l = layout(4, 4, 64, 64, -128, -128);
    // Left of and below the grid: a negative floored index.
    assert!(world_to_cell(WorldPoint { x: -129, y: 0 }, l).is_none());
    assert!(world_to_cell(WorldPoint { x: 0, y: -129 }, l).is_none());
    // At or beyond width x height cells.
    assert!(world_to_cell(WorldPoint { x: 128, y: 0 }, l).is_none());
    assert!(world_to_cell(WorldPoint { x: 0, y: 128 }, l).is_none());
    // Extreme coordinates still answer None rather than failing.
    assert!(world_to_cell(WorldPoint { x: i64::MAX, y: 0 }, l).is_none());
    assert!(world_to_cell(WorldPoint { x: i64::MIN, y: 0 }, l).is_none());
    // The corners that are inside.
    assert_eq!(world_to_cell(WorldPoint { x: -128, y: -128 }, l), Some(cell(0, 0)));
    assert_eq!(world_to_cell(WorldPoint { x: 127, y: 127 }, l), Some(cell(3, 3)));
}

#[test]
fn mouse_pos_in_map_inverts_placement() {
    let l = layout(4, 4, 64, 64, -128, 300);
    let p = mouse_pos_in_map(WorldPoint { x: 10, y: 310 }, l);
    assert_eq!(p, WorldPoint { x: 138, y: 10 });
}

#[test]
fn project_maps_cells_to_centers_in_order() {
    let l = layout(4, 4, 64, 64, 0, 0);
    let path = vec![cell(0, 0), cell(1, 0), cell(1, 1)];
    let pts = project(&path, l);
    assert_eq!(pts.len(), 3);
    assert_eq!(pts[0], WorldPoint { x: 32, y: 32 });
    assert_eq!(pts[1], WorldPoint { x: 96, y: 32 });
    assert_eq!(pts[2], WorldPoint { x: 96, y: 96 });
    assert_eq!(project(&Vec::new(), l).len(), 0);
}

#[test]
fn world_position_is_the_cell_center() {
    let l = layout(8, 8, 32, 32, -100, -100);
    let c = cell(2, 5);
    assert_eq!(c.world_position(l), cell_to_world(c, l));
}

#[test]
fn odd_cell_size_floors_toward_the_cell() {
    let l = layout(3, 3, 7, 7, 0, 0);
    let c = cell(1, 2);
    // Center of cell (1, 2) with size 7: (7 + 3, 14 + 3).
    assert_eq!(cell_to_world(c, l), WorldPoint { x: 10, y: 17 });
    assert_eq!(world_to_cell(WorldPoint { x: 13, y: 20 }, l), Some(c));
    assert_eq!(world_to_cell(WorldPoint { x: 14, y: 20 }, l), Some(cell(2, 2)));
}
