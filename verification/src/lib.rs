//! Grid substrate for 2D mobile-robot navigation: typed occupancy cells over
//! fixed-size row-major grids, named layer families, BFS distance transforms
//! with saturating or decaying wave values, a per-tick cost-field
//! synthesizer, trajectory cell-cost accumulation for a dynamic-window local
//! planner, occupancy-grid and grayscale-raster import, and the executor's
//! tick state machine. Every function carries a verified contract; the
//! floating-point world frame around this substrate lives with its callers.

pub mod cell;
pub mod cost_map;
pub mod cost_maps;
pub mod dwa;
pub mod error;
pub mod executor_state;
pub mod grid;
pub mod grid_map;
pub mod indices;
pub mod layered_grid_map;
pub mod map_image;
pub mod navigation_grid_map;
pub mod occupancy;

pub use crate::cell::Cell;
pub use crate::cost_map::{
    expand_distance_map_internal, goal_distance_map, obstacle_distance_map, path_distance_map,
    StepRule,
};
pub use crate::cost_maps::CostMaps;
pub use crate::dwa::accumulate_values_by_grids;
pub use crate::error::Error;
pub use crate::executor_state::{
    global_plan_finished, start_navigation, tick_transition, NavigationState, TickCommand,
    TickEvent,
};
pub use crate::grid::Grid;
pub use crate::grid_map::{GridMap, Size};
pub use crate::indices::Indices;
pub use crate::layered_grid_map::LayeredGridMap;
pub use crate::map_image::{grid_map_from_gray_image, grid_map_from_image_bytes, GrayMapImage};
pub use crate::navigation_grid_map::NavigationGridMap;
pub use crate::occupancy::{
    cells_from_occupancy_data, grid_map_from_occupancy, update_cells_from_occupancy,
};
