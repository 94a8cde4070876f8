use raycaster::{trace_ray, trace_rays, GridRay, TileMap, TraceHit};

fn east(x: i64, y: i64) -> GridRay {
    GridRay { cell_x: x, cell_y: y, forward_x: true, forward_y: true }
}

fn hit(crossing: usize, tile: i32, y_side: bool) -> TraceHit {
    TraceHit { crossing, tile, y_side }
}

#[test]
fn empty_grid_records_nothing_for_any_ray() {
    let m = TileMap::new(4, 4, None).unwrap();
    let rays = vec![
        (east(1, 1), vec![false, true, false, true, false, false, false]),
        (GridRay { cell_x: 3, cell_y: 0, forward_x: false, forward_y: true }, vec![true; 10]),
        (GridRay { cell_x: -5, cell_y: 9, forward_x: true, forward_y: false }, vec![false, true, true, false]),
    ];
    let r = trace_rays(&m, &rays);
    assert_eq!(r.len(), 3);
    assert!(r.iter().all(|h| h.is_empty()));
}

#[test]
fn no_rays_gives_no_records() {
    let m = TileMap::new(2, 2, None).unwrap();
    assert!(trace_rays(&m, &vec![]).is_empty());
}

#[test]
fn single_wall_ahead_is_hit_once() {
    let m = TileMap::new(5, 1, Some(vec![vec![0, 0, 0, 4, 0]])).unwrap();
    let r = trace_ray(&m, east(0, 0), &vec![false; 6]);
    assert_eq!(r, vec![hit(2, 4, false)]);
}

#[test]
fn nearer_of_two_walls_ends_the_ray() {
    let m = TileMap::new(5, 1, Some(vec![vec![0, 2, 3, 0, 0]])).unwrap();
    let r = trace_ray(&m, east(0, 0), &vec![false; 4]);
    assert_eq!(r, vec![hit(0, 2, false)]);
}

#[test]
fn transparent_then_wall_gives_two_hits() {
    let mut m = TileMap::new(5, 1, Some(vec![vec![0, 9, 3, 0, 0]])).unwrap();
    m.add_transparent_tile(9);
    let r = trace_ray(&m, east(0, 0), &vec![false; 4]);
    assert_eq!(r, vec![hit(0, 9, false), hit(1, 3, false)]);
}

#[test]
fn wide_transparent_tile_is_recorded_once() {
    let mut m = TileMap::new(6, 1, Some(vec![vec![0, 9, 9, 9, 3, 0]])).unwrap();
    m.add_transparent_tile(9);
    let r = trace_ray(&m, east(0, 0), &vec![false; 5]);
    assert_eq!(r, vec![hit(0, 9, false), hit(3, 3, false)]);
}

#[test]
fn transparent_tile_after_open_space_is_recorded_again() {
    let mut m = TileMap::new(5, 1, Some(vec![vec![0, 9, 0, 9, 0]])).unwrap();
    m.add_transparent_tile(9);
    let r = trace_ray(&m, east(0, 0), &vec![false; 6]);
    assert_eq!(r, vec![hit(0, 9, false), hit(2, 9, false)]);
}

#[test]
fn different_transparent_tiles_in_a_row_are_each_recorded() {
    let mut m = TileMap::new(4, 1, Some(vec![vec![0, 8, 9, 0]])).unwrap();
    m.add_transparent_tile(8);
    m.add_transparent_tile(9);
    let r = trace_ray(&m, east(0, 0), &vec![false; 3]);
    assert_eq!(r, vec![hit(0, 8, false), hit(1, 9, false)]);
}

#[test]
fn ray_goes_on_off_the_grid() {
    // Starting left of the grid, the ray enters it after two crossings.
    let m = TileMap::new(2, 1, Some(vec![vec![0, 5]])).unwrap();
    let r = trace_ray(&m, east(-2, 0), &vec![false; 4]);
    assert_eq!(r, vec![hit(2, 5, false)]);
}

#[test]
fn horizontal_crossings_step_along_y() {
    let m = TileMap::new(1, 4, Some(vec![vec![0], vec![0], vec![0], vec![6]])).unwrap();
    let up = GridRay { cell_x: 0, cell_y: 3, forward_x: true, forward_y: false };
    assert!(trace_ray(&m, up, &vec![true; 5]).is_empty());
    let down = GridRay { cell_x: 0, cell_y: 0, forward_x: false, forward_y: true };
    assert_eq!(trace_ray(&m, down, &vec![true; 5]), vec![hit(2, 6, true)]);
}

#[test]
fn diagonal_walk_mixes_sides() {
    let m = TileMap::new(3, 3, Some(vec![vec![0, 0, 0], vec![0, 0, 0], vec![0, 0, 7]])).unwrap();
    let r = trace_ray(&m, east(0, 0), &vec![false, true, false, true, false]);
    assert_eq!(r, vec![hit(3, 7, true)]);
}

#[test]
fn wall_beyond_the_last_crossing_is_not_reached() {
    let m = TileMap::new(5, 1, Some(vec![vec![0, 0, 0, 4, 0]])).unwrap();
    assert!(trace_ray(&m, east(0, 0), &vec![false; 2]).is_empty());
}

#[test]
fn walk_stops_at_the_ends_of_i64() {
    let m = TileMap::new(1, 1, Some(vec![vec![3]])).unwrap();
    let far = GridRay { cell_x: i64::MAX, cell_y: 0, forward_x: true, forward_y: true };
    assert!(trace_ray(&m, far, &vec![false; 3]).is_empty());
}

#[test]
fn tracing_again_after_a_move_sees_the_new_cell() {
    let m = TileMap::new(4, 1, Some(vec![vec![0, 5, 0, 6]])).unwrap();
    let first = trace_ray(&m, east(0, 0), &vec![false; 3]);
    assert_eq!(first, vec![hit(0, 5, false)]);
    let moved = trace_ray(&m, east(2, 0), &vec![false; 3]);
    assert_eq!(moved, vec![hit(0, 6, false)]);
    let turned = trace_ray(&m, GridRay { cell_x: 2, cell_y: 0, forward_x: false, forward_y: true }, &vec![false; 3]);
    assert_eq!(turned, vec![hit(0, 5, false)]);
}
