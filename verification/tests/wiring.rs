use tilepath::camera::{cursor_pos_in_world, movement, CameraInput, CameraView, ScreenPoint,
    WindowSize};
use tilepath::components::GameState;
use tilepath::cursor::{update_cursor, CursorPosition};
use tilepath::grid::{GridCell, GridLayout, IMPASSABLE_COST};
use tilepath::mapper::WorldPoint;
use tilepath::terrain::{update_current_tile, CurrentTile, Terrain, BLOCKED_COST, WALKABLE_COST};
use tilepath::unit::{debug_path, move_unit, show_path_debug, spawn_unit, TargetLocation, UnitStep};
use tilepath::worker::{move_worker, spawn_worker};

fn cell(x: u32, y: u32) -> GridCell {
    GridCell { x, y }
}

#[test]
fn terrain_new_keeps_sizes() {
    let t = Terrain::new((64, 64), (64, 64));
    assert_eq!(t.size, (64, 64));
    assert_eq!(t.tile_size, (64, 64));
    assert_eq!(t.grid_size, (64, 64));
}

#[test]
fn terrain_layout_centers_the_map() {
    let t = Terrain::new((4, 6), (64, 32));
    let l = t.layout();
    assert_eq!(l.width, 4);
    assert_eq!(l.height, 6);
    assert_eq!(l.cell_w, 64);
    assert_eq!(l.cell_h, 32);
    assert_eq!(l.origin_x, -128);
    assert_eq!(l.origin_y, -96);
}

#[test]
fn terrain_generate_assigns_costs_by_walkability() {
    let t = Terrain::new((2, 2), (64, 64));
    let flags = vec![true, false, true, true];
    let g = t.generate(&flags);
    assert_eq!(g.costs.len(), 4);
    assert_eq!(g.costs[0].0, WALKABLE_COST);
    assert_eq!(g.costs[1].0, BLOCKED_COST);
    assert_eq!(g.costs[2].0, WALKABLE_COST);
    assert_eq!(g.costs[3].0, WALKABLE_COST);
    assert!(BLOCKED_COST >= IMPASSABLE_COST);
    assert!(WALKABLE_COST < IMPASSABLE_COST);
}

#[test]
fn update_current_tile_tracks_the_hovered_cell() {
    let l = GridLayout { width: 4, height: 4, cell_w: 64, cell_h: 64, origin_x: 0, origin_y: 0 };
    let mut cur = CurrentTile { hovered: None, selected: Some(cell(3, 3)) };
    update_current_tile(&mut cur, WorldPoint { x: 70, y: 10 }, l);
    assert_eq!(cur.hovered, Some(cell(1, 0)));
    assert_eq!(cur.selected, Some(cell(3, 3)));
    // The same position keeps the value; a position off the grid clears it.
    update_current_tile(&mut cur, WorldPoint { x: 80, y: 20 }, l);
    assert_eq!(cur.hovered, Some(cell(1, 0)));
    update_current_tile(&mut cur, WorldPoint { x: -10, y: 20 }, l);
    assert_eq!(cur.hovered, None);
}

#[test]
fn cursor_world_position_applies_camera_transform() {
    let window = WindowSize { width: 800, height: 600 };
    // Zoom of one world unit per pixel: ten tenths.
    let cam = CameraView { center: WorldPoint { x: 10, y: 20 }, scale_tenths: 10 };
    let center = cursor_pos_in_world(ScreenPoint { x: 400, y: 300 }, window, &cam);
    assert_eq!(center, WorldPoint { x: 10, y: 20 });
    let off = cursor_pos_in_world(ScreenPoint { x: 410, y: 290 }, window, &cam);
    assert_eq!(off, WorldPoint { x: 20, y: 10 });
    // Zoomed in at half scale: five tenths.
    let zoomed = CameraView { center: WorldPoint { x: 0, y: 0 }, scale_tenths: 5 };
    let p = cursor_pos_in_world(ScreenPoint { x: 420, y: 300 }, window, &zoomed);
    assert_eq!(p, WorldPoint { x: 10, y: 0 });
}

#[test]
fn update_cursor_takes_the_last_event_and_camera() {
    let window = WindowSize { width: 800, height: 600 };
    let cams = vec![
        CameraView { center: WorldPoint { x: 0, y: 0 }, scale_tenths: 10 },
        CameraView { center: WorldPoint { x: 100, y: 100 }, scale_tenths: 10 },
    ];
    let events = vec![ScreenPoint { x: 0, y: 0 }, ScreenPoint { x: 404, y: 303 }];
    let mut cursor = CursorPosition::default();
    update_cursor(&events, &cams, window, &mut cursor);
    assert_eq!(cursor.screen, ScreenPoint { x: 404, y: 303 });
    assert_eq!(cursor.world, WorldPoint { x: 104, y: 103 });
    // No events: unchanged.
    let before = cursor;
    update_cursor(&Vec::new(), &cams, window, &mut cursor);
    assert_eq!(cursor, before);
}

#[test]
fn spawn_unit_carries_position_and_waypoints() {
    let path = vec![WorldPoint { x: 1, y: 2 }, WorldPoint { x: 3, y: 4 }];
    let u = spawn_unit(WorldPoint { x: 9, y: 9 }, path.clone());
    assert_eq!(u.position, WorldPoint { x: 9, y: 9 });
    assert_eq!(u.target.waypoints, path);
}

#[test]
fn move_unit_consumes_waypoints() {
    let mut t = TargetLocation { waypoints: Vec::new() };
    assert_eq!(move_unit(&mut t, WorldPoint { x: 0, y: 0 }), UnitStep::Done);

    let mut t = TargetLocation {
        waypoints: vec![WorldPoint { x: 5, y: 5 }, WorldPoint { x: 1, y: 1 }],
    };
    // Far from the last waypoint: keep moving toward it.
    assert_eq!(
        move_unit(&mut t, WorldPoint { x: 0, y: 0 }),
        UnitStep::Toward(WorldPoint { x: 1, y: 1 })
    );
    assert_eq!(t.waypoints.len(), 2);
    // Standing on it: it is consumed.
    assert_eq!(move_unit(&mut t, WorldPoint { x: 1, y: 1 }), UnitStep::Reached);
    assert_eq!(t.waypoints, vec![WorldPoint { x: 5, y: 5 }]);
}

#[test]
fn debug_path_draws_consecutive_segments() {
    let wps = vec![
        WorldPoint { x: 0, y: 0 },
        WorldPoint { x: 64, y: 0 },
        WorldPoint { x: 64, y: 64 },
    ];
    let segs = debug_path(&wps);
    assert_eq!(segs.len(), 2);
    assert_eq!(segs[0], (WorldPoint { x: 0, y: 0 }, WorldPoint { x: 64, y: 0 }));
    assert_eq!(segs[1], (WorldPoint { x: 64, y: 0 }, WorldPoint { x: 64, y: 64 }));
    assert_eq!(debug_path(&vec![WorldPoint { x: 0, y: 0 }]).len(), 0);
    assert_eq!(debug_path(&Vec::new()).len(), 0);
}

#[test]
fn show_path_debug_connects_cell_centers() {
    let l = GridLayout { width: 4, height: 4, cell_w: 64, cell_h: 64, origin_x: 0, origin_y: 0 };
    let cells = vec![cell(0, 0), cell(1, 0)];
    let segs = show_path_debug(&cells, l);
    assert_eq!(segs.len(), 1);
    assert_eq!(segs[0], (WorldPoint { x: 32, y: 32 }, WorldPoint { x: 96, y: 32 }));
}

#[test]
fn worker_spawns_at_origin_and_drifts_right() {
    let w = spawn_worker();
    assert_eq!(w.position, WorldPoint { x: 0, y: 0 });
    let mut pos = w.position;
    move_worker(&mut pos, 1000);
    assert_eq!(pos, WorldPoint { x: 100, y: 0 });
    move_worker(&mut pos, 50);
    assert_eq!(pos, WorldPoint { x: 105, y: 0 });
    move_worker(&mut pos, 5);
    assert_eq!(pos, WorldPoint { x: 105, y: 0 });
}

fn no_keys() -> CameraInput {
    CameraInput { left: false, right: false, up: false, down: false, zoom_in: false, zoom_out: false }
}

#[test]
fn camera_pans_by_speed_and_zoom() {
    // One second at zoom one: 500 world units.
    let mut cam = CameraView { center: WorldPoint { x: 0, y: 0 }, scale_tenths: 10 };
    movement(&mut cam, CameraInput { right: true, up: true, ..no_keys() }, 1000);
    assert_eq!(cam.center, WorldPoint { x: 500, y: 500 });
    // Opposed keys cancel; a frame of 16 ms at zoom one pans 8 units.
    movement(&mut cam, CameraInput { left: true, right: true, down: true, ..no_keys() }, 1000);
    assert_eq!(cam.center, WorldPoint { x: 500, y: 0 });
    let mut cam = CameraView { center: WorldPoint { x: 0, y: 0 }, scale_tenths: 10 };
    movement(&mut cam, CameraInput { left: true, ..no_keys() }, 16);
    assert_eq!(cam.center, WorldPoint { x: -8, y: 0 });
    // Zoomed out to double scale, the same frame pans twice as far.
    let mut cam = CameraView { center: WorldPoint { x: 0, y: 0 }, scale_tenths: 20 };
    movement(&mut cam, CameraInput { left: true, ..no_keys() }, 16);
    assert_eq!(cam.center, WorldPoint { x: -16, y: 0 });
}

#[test]
fn camera_zoom_steps_and_clamps() {
    let mut cam = CameraView { center: WorldPoint { x: 0, y: 0 }, scale_tenths: 10 };
    movement(&mut cam, CameraInput { zoom_in: true, ..no_keys() }, 0);
    assert_eq!(cam.scale_tenths, 11);
    let mut cam = CameraView { center: WorldPoint { x: 0, y: 0 }, scale_tenths: 5 };
    movement(&mut cam, CameraInput { zoom_out: true, ..no_keys() }, 0);
    assert_eq!(cam.scale_tenths, 5);
    let mut cam = CameraView { center: WorldPoint { x: 0, y: 0 }, scale_tenths: 6 };
    movement(&mut cam, CameraInput { zoom_out: true, ..no_keys() }, 0);
    assert_eq!(cam.scale_tenths, 5);
}

#[test]
fn game_states_are_distinct() {
    assert_ne!(GameState::AssetLoading, GameState::WorldBuilding);
    assert_ne!(GameState::WorldBuilding, GameState::Playing);
    assert_eq!(GameState::Playing, GameState::Playing);
}
