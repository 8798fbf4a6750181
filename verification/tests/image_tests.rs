use grid_map::{Cell, Grid, grid_map_from_image_bytes};

fn tiny_pgm() -> Vec<u8> {
    // a binary PGM raster: 3 x 2 pixels, max value 255
    let mut bytes = b"P5\n3 2\n255\n".to_vec();
    bytes.extend_from_slice(&[10, 20, 30, 40, 50, 60]);
    bytes
}

#[test]
fn pgm_bytes_become_value_cells() {
    let map = grid_map_from_image_bytes(&tiny_pgm()).unwrap();
    assert_eq!(map.width(), 3);
    assert_eq!(map.height(), 2);
    assert_eq!(*map.cell(&Grid::new(0, 0)).unwrap(), Cell::Value(10));
    assert_eq!(*map.cell(&Grid::new(2, 0)).unwrap(), Cell::Value(30));
    assert_eq!(*map.cell(&Grid::new(0, 1)).unwrap(), Cell::Value(40));
    assert_eq!(*map.cell(&Grid::new(2, 1)).unwrap(), Cell::Value(60));
}

#[test]
fn malformed_bytes_are_rejected() {
    let garbage: Vec<u8> = vec![0, 1, 2, 3];
    assert!(grid_map_from_image_bytes(&garbage).is_none());
}

#[test]
fn color_raster_is_rejected() {
    // a binary PPM raster decodes as RGB, not 8-bit grayscale
    let mut bytes = b"P6\n2 1\n255\n".to_vec();
    bytes.extend_from_slice(&[10, 20, 30, 40, 50, 60]);
    assert!(grid_map_from_image_bytes(&bytes).is_none());
}
