use grid_map::{Cell, Grid, GridMap, LayeredGridMap, NavigationGridMap, Size};
use grid_map::{cells_from_occupancy_data, grid_map_from_occupancy, update_cells_from_occupancy};

#[test]
fn cell_accessors() {
    let c: Cell<u8> = Cell::from_value(7);
    assert_eq!(c.value(), Some(&7));
    assert!(c.has_value());
    assert!(!c.is_uninitialized());
    assert!(!c.is_obstacle());

    let o: Cell<u8> = Cell::Obstacle;
    assert_eq!(o.value(), None);
    assert!(o.is_obstacle());

    let d: Cell<u8> = Cell::default();
    assert!(d.is_uninitialized());
    assert_eq!(d, Cell::Uninitialized);
}

#[test]
fn size_len_and_empty() {
    let s = Size::new(4, 6);
    assert_eq!(s.len(), 24);
    assert!(!s.is_empty());
    assert!(Size::new(0, 5).is_empty());
    assert!(Size::new(5, 0).is_empty());
    assert_eq!(Size::default().len(), 0);
}

#[test]
fn grid_map_test_to_index() {
    // a 4 x 6 map: row-major indices count 4 per row
    let map = GridMap::<u8>::new(Size::new(4, 6));
    assert_eq!(map.to_index(&Grid::new(1, 2)).unwrap(), 9);
    assert_eq!(map.to_index(&Grid::new(2, 2)).unwrap(), 10);
    assert_eq!(map.to_index(&Grid::new(3, 2)).unwrap(), 11);
    assert!(map.to_index(&Grid::new(4, 2)).is_none());
    assert!(map.to_index(&Grid::new(0, 6)).is_none());
}

#[test]
fn grid_map_index_round_trip() {
    let map = GridMap::<u8>::new(Size::new(4, 6));
    for y in 0..6 {
        for x in 0..4 {
            let g = Grid::new(x, y);
            let index = map.to_index(&g).unwrap();
            assert_eq!(map.to_grid_from_index(index).unwrap(), g);
        }
    }
    assert!(map.to_grid_from_index(24).is_none());
}

#[test]
fn grid_map_test_value() {
    let mut map = GridMap::<u8>::new(Size::new(4, 6));
    let g = Grid::new(1, 2);
    assert_eq!(*map.cell(&g).unwrap(), Cell::Uninitialized);
    map.set_value(&g, 1).unwrap();
    assert_eq!(*map.cell(&g).unwrap(), Cell::Value(1));
    assert_eq!(map.value(&g), Some(1));
    assert_eq!(map.value(&Grid::new(0, 0)), None);
    assert!(map.set_value(&Grid::new(9, 9), 1).is_none());
}

#[test]
fn grid_map_set_obstacle() {
    let mut map = GridMap::<u8>::new(Size::new(3, 3));
    map.set_obstacle(&Grid::new(1, 1)).unwrap();
    assert!(map.cell(&Grid::new(1, 1)).unwrap().is_obstacle());
    assert!(map.set_obstacle(&Grid::new(3, 0)).is_none());
}

#[test]
fn copy_without_value_strips_values_only() {
    let mut map = GridMap::<u8>::new(Size::new(3, 2));
    map.set_value(&Grid::new(0, 0), 9).unwrap();
    map.set_obstacle(&Grid::new(1, 0)).unwrap();
    map.set_cell(&Grid::new(2, 0), Cell::Unknown).unwrap();
    let copy = map.copy_without_value();
    assert_eq!(copy.len(), map.len());
    assert_eq!(copy.size(), map.size());
    assert_eq!(*copy.cell(&Grid::new(0, 0)).unwrap(), Cell::Uninitialized);
    assert_eq!(*copy.cell(&Grid::new(1, 0)).unwrap(), Cell::Obstacle);
    assert_eq!(*copy.cell(&Grid::new(2, 0)).unwrap(), Cell::Unknown);
    assert_eq!(*copy.cell(&Grid::new(0, 1)).unwrap(), Cell::Uninitialized);
    assert!(copy.cells().iter().all(|c| !c.has_value()));
}

#[test]
fn fill_uninitialized_leaves_other_tags() {
    let mut map = GridMap::<u8>::new(Size::new(2, 2));
    map.set_obstacle(&Grid::new(0, 0)).unwrap();
    map.set_value(&Grid::new(1, 0), 3).unwrap();
    map.fill_uninitialized(0);
    assert_eq!(*map.cell(&Grid::new(0, 0)).unwrap(), Cell::Obstacle);
    assert_eq!(*map.cell(&Grid::new(1, 0)).unwrap(), Cell::Value(3));
    assert_eq!(*map.cell(&Grid::new(0, 1)).unwrap(), Cell::Value(0));
    assert_eq!(*map.cell(&Grid::new(1, 1)).unwrap(), Cell::Value(0));
}

#[test]
fn layered_map_add_and_lookup() {
    let mut layers: LayeredGridMap<u8> = LayeredGridMap::new();
    assert!(layers.layer("path").is_none());
    layers.add_layer("path".to_owned(), GridMap::new(Size::new(2, 2)));
    layers.add_layer("goal".to_owned(), GridMap::new(Size::new(3, 3)));
    assert_eq!(layers.num_layers(), 2);
    assert_eq!(layers.layer("path").unwrap().len(), 4);
    assert_eq!(layers.layer("goal").unwrap().len(), 9);
    assert!(layers.layer("obstacle").is_none());
    // adding under an existing name replaces that layer and no other
    layers.add_layer("path".to_owned(), GridMap::new(Size::new(4, 4)));
    assert_eq!(layers.num_layers(), 2);
    assert_eq!(layers.layer("path").unwrap().len(), 16);
    assert_eq!(layers.layer("goal").unwrap().len(), 9);
}

#[test]
fn navigation_grid_map_updates_one_side() {
    let mut nav: NavigationGridMap<u8> =
        NavigationGridMap::new(LayeredGridMap::new(), LayeredGridMap::new());
    nav.update_local_map("path".to_owned(), GridMap::new(Size::new(2, 2)));
    nav.update_global_map("path".to_owned(), GridMap::new(Size::new(5, 5)));
    assert_eq!(nav.local_map().layer("path").unwrap().len(), 4);
    assert_eq!(nav.global_map().layer("path").unwrap().len(), 25);
    assert!(nav.local_map().layer("goal").is_none());
}

#[test]
fn occupancy_value_mapping() {
    let data: Vec<i8> = vec![-1, 0, 50, 100, 101, -5];
    let cells = cells_from_occupancy_data(&data);
    assert_eq!(cells[0], Cell::Unknown);
    assert_eq!(cells[1], Cell::Value(0));
    assert_eq!(cells[2], Cell::Value(50));
    assert_eq!(cells[3], Cell::Value(100));
    assert_eq!(cells[4], Cell::Unknown);
    assert_eq!(cells[5], Cell::Unknown);
}

#[test]
fn occupancy_map_construction() {
    let data: Vec<i8> = vec![-1, 0, 50, 100, 101, 7];
    let map = grid_map_from_occupancy(Size::new(3, 2), &data).unwrap();
    assert_eq!(map.width(), 3);
    assert_eq!(map.height(), 2);
    assert_eq!(*map.cell(&Grid::new(0, 0)).unwrap(), Cell::Unknown);
    assert_eq!(*map.cell(&Grid::new(2, 1)).unwrap(), Cell::Value(7));
    // a payload of the wrong length is rejected
    assert!(grid_map_from_occupancy(Size::new(3, 3), &data).is_none());
}

#[test]
fn occupancy_update_requires_matching_size() {
    let mut map = GridMap::<u8>::new(Size::new(2, 2));
    let fresh: Vec<i8> = vec![1, 2, 3, 4];
    assert!(update_cells_from_occupancy(&mut map, &fresh).is_some());
    assert_eq!(*map.cell(&Grid::new(1, 1)).unwrap(), Cell::Value(4));
    let wrong: Vec<i8> = vec![1, 2, 3];
    assert!(update_cells_from_occupancy(&mut map, &wrong).is_none());
    assert_eq!(*map.cell(&Grid::new(1, 1)).unwrap(), Cell::Value(4));
}

#[test]
fn error_message_text() {
    let err = grid_map::Error::OutOfRangeGrid(Grid::new(1, 2));
    assert_eq!(err.message(), "out of range grid");
}
