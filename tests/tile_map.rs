use raycaster::{ShapeMismatch, TileMap};

#[test]
fn new_without_tiles_is_all_open() {
    let m = TileMap::new(3, 2, None).unwrap();
    assert_eq!(m.width(), 3);
    assert_eq!(m.height(), 2);
    for y in 0..2 {
        for x in 0..3 {
            assert_eq!(m.tile_at(x, y), Some(0));
        }
    }
    assert_eq!(m.tile_at(3, 0), None);
    assert_eq!(m.tile_at(0, 2), None);
    assert_eq!(m.tile_at(-1, 0), None);
}

#[test]
fn new_with_tiles_keeps_them() {
    let m = TileMap::new(2, 2, Some(vec![vec![1, 2], vec![3, 0]])).unwrap();
    assert_eq!(m.tile_at(0, 0), Some(1));
    assert_eq!(m.tile_at(1, 0), Some(2));
    assert_eq!(m.tile_at(0, 1), Some(3));
    assert_eq!(m.tile_at(1, 1), Some(0));
    assert!(!m.is_transparent(1));
}

#[test]
fn new_with_too_few_rows_is_refused() {
    let e = TileMap::new(2, 3, Some(vec![vec![1, 2], vec![3, 0]])).unwrap_err();
    assert_eq!(
        e,
        ShapeMismatch { expected_width: 2, expected_height: 3, actual_width: 2, actual_height: 2 }
    );
}

#[test]
fn new_with_too_many_rows_is_refused() {
    let r = TileMap::new(1, 1, Some(vec![vec![0], vec![0]]));
    assert!(r.is_err());
    assert_eq!(r.unwrap_err().actual_height, 2);
}

#[test]
fn new_with_a_short_row_is_refused() {
    let e = TileMap::new(3, 2, Some(vec![vec![1, 2, 3], vec![4, 5]])).unwrap_err();
    assert_eq!(
        e,
        ShapeMismatch { expected_width: 3, expected_height: 2, actual_width: 2, actual_height: 2 }
    );
}

#[test]
fn new_of_zero_size_is_empty() {
    let m = TileMap::new(0, 0, Some(vec![])).unwrap();
    assert_eq!(m.tile_at(0, 0), None);
}

#[test]
fn add_transparent_tile_is_idempotent() {
    let mut m = TileMap::new(1, 1, None).unwrap();
    assert!(!m.is_transparent(5));
    m.add_transparent_tile(5);
    m.add_transparent_tile(5);
    assert!(m.is_transparent(5));
    assert!(!m.is_transparent(6));
}

#[test]
fn set_tiles_replaces_the_grid() {
    let mut m = TileMap::new(2, 1, None).unwrap();
    m.set_tiles(vec![vec![7, 8]]).unwrap();
    assert_eq!(m.tile_at(0, 0), Some(7));
    assert_eq!(m.tile_at(1, 0), Some(8));
}

#[test]
fn set_tiles_of_wrong_shape_leaves_the_grid() {
    let mut m = TileMap::new(2, 1, Some(vec![vec![1, 2]])).unwrap();
    let e = m.set_tiles(vec![vec![7, 8, 9]]).unwrap_err();
    assert_eq!(
        e,
        ShapeMismatch { expected_width: 2, expected_height: 1, actual_width: 3, actual_height: 1 }
    );
    let e = m.set_tiles(vec![vec![7, 8], vec![7, 8]]).unwrap_err();
    assert_eq!(e.actual_height, 2);
    assert_eq!(m.tile_at(0, 0), Some(1));
    assert_eq!(m.tile_at(1, 0), Some(2));
}
