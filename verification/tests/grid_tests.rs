use grid_map::{Grid, Indices};

#[test]
fn grid_pos1() {
    let result = Grid::new(1, 1) < Grid::new(2, 3);
    assert_eq!(result, true);
    let result = Grid::new(1, 3) < Grid::new(2, 2);
    assert_eq!(result, false);
    let result = Grid::new(1, 3) < Grid::new(0, 2);
    assert_eq!(result, false);
    let result = Grid::new(2, 3) > Grid::new(1, 2);
    assert_eq!(result, true);
}

#[test]
fn indices_pos1() {
    let result = Indices::new(1, 1) < Indices::new(2, 3);
    assert_eq!(result, true);
    let result = Indices::new(1, 3) < Indices::new(2, 2);
    assert_eq!(result, false);
    let result = Indices::new(1, 3) < Indices::new(0, 2);
    assert_eq!(result, false);
    let result = Indices::new(2, 3) > Indices::new(1, 2);
    assert_eq!(result, true);
}

#[test]
fn grid_equal_components_compare_equal() {
    assert!(Grid::new(2, 2) == Grid::new(2, 2));
    assert!(!(Grid::new(2, 2) < Grid::new(2, 2)));
    assert!(Grid::new(2, 2) <= Grid::new(2, 2));
    // mixed orderings are incomparable
    assert_eq!(Grid::new(1, 2).partial_cmp(&Grid::new(1, 3)), None);
}

#[test]
fn grid_neighbors4_interior() {
    let n = Grid::new(3, 4).neighbors4();
    assert_eq!(n, vec![Grid::new(3, 5), Grid::new(4, 4), Grid::new(2, 4), Grid::new(3, 3)]);
}

#[test]
fn grid_neighbors4_at_origin_skips_underflow() {
    let n = Grid::new(0, 0).neighbors4();
    assert_eq!(n, vec![Grid::new(0, 1), Grid::new(1, 0)]);
    let n = Grid::new(0, 2).neighbors4();
    assert_eq!(n, vec![Grid::new(0, 3), Grid::new(1, 2), Grid::new(0, 1)]);
    let n = Grid::new(2, 0).neighbors4();
    assert_eq!(n, vec![Grid::new(2, 1), Grid::new(3, 0), Grid::new(1, 0)]);
}

#[test]
fn indices_neighbors4_matches_grid_shape() {
    let n = Indices::new(1, 1).neighbors4();
    assert_eq!(
        n,
        vec![Indices::new(1, 2), Indices::new(2, 1), Indices::new(0, 1), Indices::new(1, 0)]
    );
}
