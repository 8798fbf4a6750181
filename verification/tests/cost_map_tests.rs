use grid_map::{
    accumulate_values_by_grids, goal_distance_map, obstacle_distance_map, path_distance_map,
    Cell, CostMaps, Error, Grid, GridMap, Size,
};

fn value_at(map: &GridMap<u8>, x: usize, y: usize) -> Cell<u8> {
    *map.cell(&Grid::new(x, y)).unwrap()
}

#[test]
fn goal_distance_single_seed() {
    // a 10 x 10 empty map with one zero-cost seed in the middle
    let map = GridMap::<u8>::new(Size::new(10, 10));
    let field = goal_distance_map(&map, &Grid::new(5, 5)).unwrap();
    assert_eq!(value_at(&field, 5, 5), Cell::Value(0));
    assert_eq!(value_at(&field, 5, 6), Cell::Value(1));
    assert_eq!(value_at(&field, 5, 7), Cell::Value(2));
    assert_eq!(value_at(&field, 7, 5), Cell::Value(2));
    for c in field.cells() {
        match c {
            Cell::Value(v) => assert!(*v <= 14),
            _ => panic!("every cell of the field should hold a distance"),
        }
    }
}

#[test]
fn goal_distance_rejects_off_map_seed() {
    let map = GridMap::<u8>::new(Size::new(10, 10));
    let err = goal_distance_map(&map, &Grid::new(10, 5)).unwrap_err();
    assert_eq!(err, Error::OutOfRangeGrid(Grid::new(10, 5)));
}

#[test]
fn obstacle_distance_decays_to_zero() {
    // a 20 x 20 map with a single obstacle in the middle
    let mut map = GridMap::<u8>::new(Size::new(20, 20));
    map.set_obstacle(&Grid::new(10, 10)).unwrap();
    let field = obstacle_distance_map(&map).unwrap();
    assert_eq!(value_at(&field, 10, 10), Cell::Obstacle);
    assert_eq!(value_at(&field, 10, 11), Cell::Value(50));
    assert_eq!(value_at(&field, 10, 12), Cell::Value(40));
    assert_eq!(value_at(&field, 10, 13), Cell::Value(30));
    assert_eq!(value_at(&field, 10, 14), Cell::Value(20));
    assert_eq!(value_at(&field, 10, 15), Cell::Value(10));
    assert_eq!(value_at(&field, 10, 16), Cell::Value(0));
    assert_eq!(value_at(&field, 10, 17), Cell::Uninitialized);
    // the decay spreads the same way in every direction
    assert_eq!(value_at(&field, 11, 10), Cell::Value(50));
    assert_eq!(value_at(&field, 4, 10), Cell::Value(0));
    assert_eq!(value_at(&field, 3, 10), Cell::Uninitialized);
}

#[test]
fn path_distance_from_route_cells() {
    let map = GridMap::<u8>::new(Size::new(5, 5));
    let route = vec![Grid::new(0, 0), Grid::new(1, 0), Grid::new(2, 0)];
    let field = path_distance_map(&map, &route).unwrap();
    assert_eq!(value_at(&field, 0, 0), Cell::Value(0));
    assert_eq!(value_at(&field, 1, 0), Cell::Value(0));
    assert_eq!(value_at(&field, 2, 0), Cell::Value(0));
    assert_eq!(value_at(&field, 3, 0), Cell::Value(1));
    assert_eq!(value_at(&field, 0, 1), Cell::Value(1));
    assert_eq!(value_at(&field, 4, 4), Cell::Value(6));
}

#[test]
fn path_distance_reports_first_off_map_seed() {
    let map = GridMap::<u8>::new(Size::new(5, 5));
    let route = vec![Grid::new(0, 0), Grid::new(7, 0), Grid::new(9, 0)];
    let err = path_distance_map(&map, &route).unwrap_err();
    assert_eq!(err, Error::OutOfRangeGrid(Grid::new(7, 0)));
}

#[test]
fn path_distance_skips_obstacles_and_unknown() {
    let mut map = GridMap::<u8>::new(Size::new(4, 1));
    map.set_obstacle(&Grid::new(1, 0)).unwrap();
    let field = path_distance_map(&map, &vec![Grid::new(0, 0)]).unwrap();
    assert_eq!(value_at(&field, 0, 0), Cell::Value(0));
    assert_eq!(value_at(&field, 1, 0), Cell::Obstacle);
    // the wave cannot pass the obstacle on a one-row map
    assert_eq!(value_at(&field, 2, 0), Cell::Uninitialized);
    assert_eq!(value_at(&field, 3, 0), Cell::Uninitialized);
}

#[test]
fn rising_distance_saturates_and_floods() {
    // one row, long enough that the distance reaches the 255 ceiling: the
    // saturated value keeps flooding until every reachable cell is set
    let map = GridMap::<u8>::new(Size::new(300, 1));
    let field = goal_distance_map(&map, &Grid::new(0, 0)).unwrap();
    assert_eq!(value_at(&field, 0, 0), Cell::Value(0));
    assert_eq!(value_at(&field, 254, 0), Cell::Value(254));
    assert_eq!(value_at(&field, 255, 0), Cell::Value(255));
    assert_eq!(value_at(&field, 256, 0), Cell::Value(255));
    assert_eq!(value_at(&field, 299, 0), Cell::Value(255));
    assert!(field.cells().iter().all(|c| c.has_value()));
}

#[test]
fn cost_maps_builds_all_layers() {
    let mut map = GridMap::<u8>::new(Size::new(8, 8));
    map.set_obstacle(&Grid::new(4, 4)).unwrap();
    let route = vec![Grid::new(0, 0), Grid::new(1, 0)];
    let local = GridMap::<u8>::new(Size::new(3, 3));
    let cost_maps =
        CostMaps::new(map, &route, &Grid::new(7, 7), Some((local, Grid::new(1, 1)))).unwrap();
    let layers = cost_maps.maps();
    assert_eq!(layers.layer("path").unwrap().len(), 64);
    assert_eq!(layers.layer("goal").unwrap().len(), 64);
    assert_eq!(layers.layer("obstacle").unwrap().len(), 64);
    assert_eq!(layers.layer("local_goal").unwrap().len(), 9);
    assert_eq!(
        *layers.layer("obstacle").unwrap().cell(&Grid::new(4, 5)).unwrap(),
        Cell::Value(50)
    );
    assert_eq!(*layers.layer("goal").unwrap().cell(&Grid::new(7, 7)).unwrap(), Cell::Value(0));
    assert_eq!(*layers.layer("path").unwrap().cell(&Grid::new(1, 0)).unwrap(), Cell::Value(0));
    assert_eq!(
        *layers.layer("local_goal").unwrap().cell(&Grid::new(1, 1)).unwrap(),
        Cell::Value(0)
    );
}

#[test]
fn cost_maps_update_is_deterministic() {
    // the same inputs twice give bit-identical layers
    let mut base = GridMap::<u8>::new(Size::new(8, 8));
    base.set_obstacle(&Grid::new(2, 3)).unwrap();
    let route = vec![Grid::new(0, 0), Grid::new(0, 1), Grid::new(1, 1)];
    let goal = Grid::new(6, 6);

    let mut first = CostMaps::new(base.clone(), &route, &goal, None).unwrap();
    let mut second = CostMaps::new(base.clone(), &route, &goal, None).unwrap();
    for name in ["path", "goal", "obstacle"] {
        assert_eq!(
            first.maps().layer(name).unwrap().cells(),
            second.maps().layer(name).unwrap().cells()
        );
    }

    // re-running update with identical inputs changes nothing
    let before: Vec<Vec<Cell<u8>>> = ["path", "goal", "obstacle"]
        .iter()
        .map(|n| first.maps().layer(n).unwrap().cells().clone())
        .collect();
    first.update(Some(base.clone()), Some(&route), Some(&goal), None).unwrap();
    second.update(Some(base.clone()), Some(&route), Some(&goal), None).unwrap();
    for (i, name) in ["path", "goal", "obstacle"].iter().enumerate() {
        assert_eq!(first.maps().layer(name).unwrap().cells(), &before[i]);
        assert_eq!(
            first.maps().layer(name).unwrap().cells(),
            second.maps().layer(name).unwrap().cells()
        );
    }
}

#[test]
fn cost_maps_update_rejects_off_map_inputs() {
    let map = GridMap::<u8>::new(Size::new(4, 4));
    let route = vec![Grid::new(0, 0)];
    let mut cost_maps = CostMaps::new(map, &route, &Grid::new(3, 3), None).unwrap();
    let goal_before = cost_maps.maps().layer("goal").unwrap().cells().clone();

    let err = cost_maps.update(None, None, Some(&Grid::new(4, 0)), None).unwrap_err();
    assert_eq!(err, Error::OutOfRangeGrid(Grid::new(4, 0)));
    // nothing changed
    assert_eq!(cost_maps.maps().layer("goal").unwrap().cells(), &goal_before);

    let bad_route = vec![Grid::new(0, 0), Grid::new(9, 9)];
    let err = cost_maps.update(None, Some(&bad_route), None, None).unwrap_err();
    assert_eq!(err, Error::OutOfRangeGrid(Grid::new(9, 9)));
}

#[test]
fn cost_maps_update_with_fresh_map_rebuilds_obstacles() {
    let map = GridMap::<u8>::new(Size::new(4, 4));
    let route = vec![Grid::new(0, 0)];
    let mut cost_maps = CostMaps::new(map, &route, &Grid::new(3, 3), None).unwrap();
    assert_eq!(
        *cost_maps.maps().layer("obstacle").unwrap().cell(&Grid::new(1, 1)).unwrap(),
        Cell::Uninitialized
    );
    let mut fresh = GridMap::<u8>::new(Size::new(4, 4));
    fresh.set_obstacle(&Grid::new(1, 1)).unwrap();
    cost_maps.update(Some(fresh), None, None, None).unwrap();
    assert_eq!(
        *cost_maps.maps().layer("obstacle").unwrap().cell(&Grid::new(1, 1)).unwrap(),
        Cell::Obstacle
    );
    assert_eq!(
        *cost_maps.maps().layer("obstacle").unwrap().cell(&Grid::new(1, 2)).unwrap(),
        Cell::Value(50)
    );
}

#[test]
fn accumulate_sums_cell_costs() {
    let mut map = GridMap::<u8>::new(Size::new(3, 1));
    map.set_value(&Grid::new(0, 0), 7).unwrap();
    map.set_value(&Grid::new(1, 0), 9).unwrap();
    map.set_obstacle(&Grid::new(2, 0)).unwrap();
    let points = vec![Some(Grid::new(0, 0)), Some(Grid::new(1, 0)), Some(Grid::new(2, 0))];
    assert_eq!(accumulate_values_by_grids(&map, &points), Some(7 + 9 + 255));
}

#[test]
fn accumulate_rejects_boundary_crossing() {
    // a trajectory point past the edge rejects the whole candidate
    let mut map = GridMap::<u8>::new(Size::new(3, 1));
    map.fill_uninitialized(1);
    let points = vec![Some(Grid::new(0, 0)), Some(Grid::new(3, 0))];
    assert_eq!(accumulate_values_by_grids(&map, &points), None);
    // a point the converter already rejected does too
    let points = vec![Some(Grid::new(0, 0)), None];
    assert_eq!(accumulate_values_by_grids(&map, &points), None);
    // an empty trajectory has no cost to stand on
    assert_eq!(accumulate_values_by_grids(&map, &Vec::new()), None);
}

#[test]
fn accumulate_counts_unknown_as_blocked() {
    let mut map = GridMap::<u8>::new(Size::new(2, 1));
    map.set_cell(&Grid::new(0, 0), Cell::Unknown).unwrap();
    map.set_value(&Grid::new(1, 0), 4).unwrap();
    let points = vec![Some(Grid::new(0, 0)), Some(Grid::new(1, 0))];
    assert_eq!(accumulate_values_by_grids(&map, &points), Some(255 + 4));
}

#[test]
fn expand_kernel_steps_from_given_value() {
    // the kernel itself: seeds already set, first wave carries the stepped value
    let mut field = GridMap::<u8>::new(Size::new(5, 1));
    field.set_value(&Grid::new(0, 0), 3).unwrap();
    let seeds = vec![Grid::new(0, 0)];
    let finished =
        grid_map::expand_distance_map_internal(&mut field, &seeds, 3, grid_map::StepRule::SaturatingAdd(1));
    assert!(finished);
    assert_eq!(*field.cell(&Grid::new(0, 0)).unwrap(), Cell::Value(3));
    assert_eq!(*field.cell(&Grid::new(1, 0)).unwrap(), Cell::Value(4));
    assert_eq!(*field.cell(&Grid::new(4, 0)).unwrap(), Cell::Value(7));
}

#[test]
fn expand_kernel_with_empty_frontier_changes_nothing() {
    let mut field = GridMap::<u8>::new(Size::new(3, 1));
    let before = field.cells().clone();
    let seeds: Vec<Grid> = Vec::new();
    grid_map::expand_distance_map_internal(&mut field, &seeds, 0, grid_map::StepRule::SaturatingAdd(1));
    assert_eq!(field.cells(), &before);
}

#[test]
fn goal_distance_equals_hop_distance_on_empty_map() {
    // on an unobstructed map every cell holds its 4-connected hop distance
    let map = GridMap::<u8>::new(Size::new(7, 5));
    let seed = Grid::new(2, 1);
    let field = goal_distance_map(&map, &seed).unwrap();
    for y in 0..5usize {
        for x in 0..7usize {
            let hops = x.abs_diff(2) + y.abs_diff(1);
            assert_eq!(value_at(&field, x, y), Cell::Value(hops as u8));
        }
    }
}
