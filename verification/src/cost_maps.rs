use vstd::prelude::*;
use crate::cell::Cell;
use crate::grid::Grid;
use crate::grid_map::{GridMap, Size, grid_in_range, grid_index, cells_without_value,
    lemma_grid_index_round_trip};
use crate::layered_grid_map::LayeredGridMap;
use crate::cost_map::{StepRule, expand_spec, seed_cells, obstacle_seeds, obstacle_distance_map,
    path_distance_map, goal_distance_map, lemma_expand_never_overwrites, OBSTACLE_SEED_VALUE,
    OBSTACLE_REDUCE};
use crate::error::Error;

verus! {

pub open spec fn path_layer_name() -> Seq<char> {
    "path"@
}

pub open spec fn goal_layer_name() -> Seq<char> {
    "goal"@
}

pub open spec fn obstacle_layer_name() -> Seq<char> {
    "obstacle"@
}

pub open spec fn local_goal_layer_name() -> Seq<char> {
    "local_goal"@
}

/// The cells of the path distance field built over `original` from the route
/// cells `path`; meaningful when every route cell is on the map.
pub open spec fn path_field(original: GridMap<u8>, path: Seq<Grid>) -> Seq<Cell<u8>> {
    match seed_cells(cells_without_value(original@), original.spec_size(), path) {
        Ok(seeded) => expand_spec(
            seeded,
            original.spec_size(),
            path,
            0,
            StepRule::SaturatingAdd(1),
        ),
        Err(_) => cells_without_value(original@),
    }
}

/// The cells of the goal distance field built over `original` from a single
/// goal cell; meaningful when the goal is on the map.
pub open spec fn goal_field(original: GridMap<u8>, goal: Grid) -> Seq<Cell<u8>> {
    expand_spec(
        cells_without_value(original@).update(
            grid_index(goal, original.spec_size()),
            Cell::Value(0u8),
        ),
        original.spec_size(),
        seq![goal],
        0,
        StepRule::SaturatingAdd(1),
    )
}

/// The cells of the obstacle inflation field built over `original`.
pub open spec fn obstacle_field(original: GridMap<u8>) -> Seq<Cell<u8>> {
    expand_spec(
        cells_without_value(original@),
        original.spec_size(),
        obstacle_seeds(cells_without_value(original@), original.spec_size(), 0),
        (OBSTACLE_SEED_VALUE + OBSTACLE_REDUCE) as u8,
        StepRule::SaturatingSub(OBSTACLE_REDUCE),
    )
}

/// Every cost field is a function of the map's cells and extent alone:
/// rebuilding from an identical map and route yields bit-identical layers.
pub proof fn lemma_cost_fields_deterministic(
    m1: GridMap<u8>,
    m2: GridMap<u8>,
    path: Seq<Grid>,
    goal: Grid,
)
    requires
        m1@ == m2@,
        m1.spec_size() == m2.spec_size(),
    ensures
        path_field(m1, path) == path_field(m2, path),
        goal_field(m1, goal) == goal_field(m2, goal),
        obstacle_field(m1) == obstacle_field(m2),
{
}

/// The first seed of `seeds` that lies off a map of extent `size`.
pub open spec fn first_out_of_range(seeds: Seq<Grid>, size: Size) -> Option<Grid>
    decreases seeds.len(),
{
    if seeds.len() == 0 {
        None
    } else if !grid_in_range(seeds[0], size) {
        Some(seeds[0])
    } else {
        first_out_of_range(seeds.subrange(1, seeds.len() as int), size)
    }
}

/// Seeding fails exactly on the first off-map seed.
proof fn lemma_seed_cells_status(cells: Seq<Cell<u8>>, size: Size, seeds: Seq<Grid>)
    requires
        cells.len() == size.width * size.height,
    ensures
        first_out_of_range(seeds, size) is None ==> seed_cells(cells, size, seeds) is Ok,
        (first_out_of_range(seeds, size) matches Some(g) ==> (seed_cells(cells, size, seeds)
            matches Err(e) && e == g)),
    decreases seeds.len(),
{
    if seeds.len() > 0 {
        let g = seeds[0];
        let rest = seeds.subrange(1, seeds.len() as int);
        if grid_in_range(g, size) {
            lemma_grid_index_round_trip(g, size);
            lemma_seed_cells_status(cells.update(grid_index(g, size), Cell::Value(0u8)), size, rest);
        }
    }
}

/// Seeding writes a zero-cost `Value` at every seed and touches nothing else.
proof fn lemma_seed_cells_values(cells: Seq<Cell<u8>>, size: Size, seeds: Seq<Grid>)
    ensures
        seed_cells(cells, size, seeds) matches Ok(out) ==> {
            &&& out.len() == cells.len()
            &&& forall|j: int|
                0 <= j < seeds.len() ==> out[grid_index(seeds[j], size)] == Cell::Value(0u8)
            &&& forall|i: int|
                0 <= i < cells.len() ==> ((#[trigger] out[i]) == cells[i] || out[i] == Cell::Value(
                    0u8,
                ))
        },
    decreases seeds.len(),
{
    if seeds.len() > 0 {
        let g = seeds[0];
        let rest = seeds.subrange(1, seeds.len() as int);
        if grid_in_range(g, size) && grid_index(g, size) < cells.len() {
            let updated = cells.update(grid_index(g, size), Cell::Value(0u8));
            lemma_seed_cells_values(updated, size, rest);
            if seed_cells(updated, size, rest) is Ok {
                let out = seed_cells(updated, size, rest)->Ok_0;
                assert forall|j: int|
                    0 <= j < seeds.len() implies out[grid_index(seeds[j], size)] == Cell::Value(
                    0u8,
                ) by {
                    if j == 0 {
                        assert(updated[grid_index(g, size)] == Cell::Value(0u8));
                        assert(out[grid_index(g, size)] == updated[grid_index(g, size)]
                            || out[grid_index(g, size)] == Cell::Value(0u8));
                    } else {
                        assert(seeds[j] == rest[j - 1]);
                    }
                }
            }
        }
    }
}

/// When no seed is reported off the map, every seed is on it.
proof fn lemma_no_first_oor_means_all_in_range(seeds: Seq<Grid>, size: Size)
    requires
        first_out_of_range(seeds, size) is None,
    ensures
        forall|j: int| 0 <= j < seeds.len() ==> grid_in_range(#[trigger] seeds[j], size),
    decreases seeds.len(),
{
    if seeds.len() > 0 {
        let rest = seeds.subrange(1, seeds.len() as int);
        lemma_no_first_oor_means_all_in_range(rest, size);
        assert forall|j: int| 0 <= j < seeds.len() implies grid_in_range(
            #[trigger] seeds[j],
            size,
        ) by {
            if j > 0 {
                assert(seeds[j] == rest[j - 1]);
            }
        }
    }
}

/// Every route cell costs nothing in the path field: its zero-cost seed is
/// never overwritten by the expansion.
pub proof fn lemma_route_cells_cost_nothing(original: GridMap<u8>, path: Seq<Grid>)
    requires
        original.wf(),
        first_out_of_range(path, original.spec_size()) is None,
    ensures
        forall|j: int|
            0 <= j < path.len() ==> #[trigger] path_field(original, path)[grid_index(
                path[j],
                original.spec_size(),
            )] == Cell::Value(0u8),
{
    let size = original.spec_size();
    let base = cells_without_value(original@);
    lemma_seed_cells_status(base, size, path);
    lemma_seed_cells_values(base, size, path);
    let seeded = seed_cells(base, size, path)->Ok_0;
    lemma_expand_never_overwrites(seeded, size, path, 0, StepRule::SaturatingAdd(1));
    lemma_no_first_oor_means_all_in_range(path, size);
    assert forall|j: int|
        0 <= j < path.len() implies #[trigger] path_field(original, path)[grid_index(
        path[j],
        size,
    )] == Cell::Value(0u8) by {
        let out = expand_spec(seeded, size, path, 0, StepRule::SaturatingAdd(1));
        let i = grid_index(path[j], size);
        assert(grid_in_range(path[j], size));
        lemma_grid_index_round_trip(path[j], size);
        assert(seeded.len() == original@.len());
        assert(0 <= i < seeded.len());
        assert(seeded[i] == Cell::Value(0u8));
        assert(out[i] == seeded[i] || (seeded[i] is Uninitialized && out[i] is Value));
    }
}

/// The goal cell costs nothing in the goal field: its zero-cost seed is never
/// overwritten by the expansion.
pub proof fn lemma_goal_cell_costs_nothing(original: GridMap<u8>, goal: Grid)
    requires
        original.wf(),
        grid_in_range(goal, original.spec_size()),
    ensures
        goal_field(original, goal)[grid_index(goal, original.spec_size())] == Cell::Value(0u8),
{
    let size = original.spec_size();
    let i = grid_index(goal, size);
    let seeded = cells_without_value(original@).update(i, Cell::Value(0u8));
    lemma_grid_index_round_trip(goal, size);
    assert(seeded.len() == original@.len());
    assert(0 <= i < seeded.len());
    lemma_expand_never_overwrites(seeded, size, seq![goal], 0, StepRule::SaturatingAdd(1));
    let out = expand_spec(seeded, size, seq![goal], 0, StepRule::SaturatingAdd(1));
    assert(seeded[i] == Cell::Value(0u8));
    assert(out[i] == seeded[i] || (seeded[i] is Uninitialized && out[i] is Value));
}

/// The error an update of the cost fields reports: the first off-map route
/// cell, then an off-map goal, then an off-map local goal.
pub open spec fn update_error(
    size: Size,
    path: Option<Seq<Grid>>,
    goal: Option<Grid>,
    local_goal: Option<(GridMap<u8>, Grid)>,
) -> Option<Error> {
    let path_oor = match path {
        Some(p) => first_out_of_range(p, size),
        None => None,
    };
    if path_oor is Some {
        Some(Error::OutOfRangeGrid(path_oor->Some_0))
    } else if (goal matches Some(g) && !grid_in_range(g, size)) {
        Some(Error::OutOfRangeGrid(goal->Some_0))
    } else if (local_goal matches Some(lg) && !grid_in_range(lg.1, lg.0.spec_size())) {
        Some(Error::OutOfRangeGrid(local_goal->Some_0.1))
    } else {
        None
    }
}

/// The four cost fields of one control tick, each stored as a named layer
/// over the frame of `original_map`; the moving local-goal field carries its
/// own, smaller frame.
pub struct CostMaps {
    original_map: GridMap<u8>,
    maps: LayeredGridMap<u8>,
}

impl CostMaps {
    /// The static map the obstacle field is built from.
    pub closed spec fn spec_original_map(&self) -> GridMap<u8> {
        self.original_map
    }

    /// The named cost-field layers.
    pub closed spec fn spec_maps(&self) -> LayeredGridMap<u8> {
        self.maps
    }

    pub open spec fn wf(&self) -> bool {
        self.spec_original_map().wf() && self.spec_maps().wf()
    }

    pub fn original_map(&self) -> (r: &GridMap<u8>)
        ensures
            *r == self.spec_original_map(),
    {
        &self.original_map
    }

    pub fn maps(&self) -> (r: &LayeredGridMap<u8>)
        ensures
            *r == self.spec_maps(),
    {
        &self.maps
    }

    /// Build all cost fields once from the static map, the global route, the
    /// goal cell, and optionally a local frame with its look-ahead cell.
    pub fn new(
        map: GridMap<u8>,
        path: &Vec<Grid>,
        goal: &Grid,
        local_goal: Option<(GridMap<u8>, Grid)>,
    ) -> (r: Result<CostMaps, Error>)
        requires
            map.wf(),
            local_goal matches Some(lg) ==> lg.0.wf(),
        ensures
            match update_error(map.spec_size(), Some(path@), Some(*goal), local_goal) {
                Some(e) => r matches Err(e2) && e2 == e,
                None => r matches Ok(c) && {
                    &&& c.wf()
                    &&& c.spec_original_map() == map
                    &&& c.spec_maps().contains_layer(obstacle_layer_name())
                    &&& c.spec_maps().layer_spec(obstacle_layer_name())@ == obstacle_field(map)
                    &&& c.spec_maps().contains_layer(path_layer_name())
                    &&& c.spec_maps().layer_spec(path_layer_name())@ == path_field(map, path@)
                    &&& c.spec_maps().contains_layer(goal_layer_name())
                    &&& c.spec_maps().layer_spec(goal_layer_name())@ == goal_field(map, *goal)
                    &&& (local_goal matches Some(lg) ==> c.spec_maps().contains_layer(
                        local_goal_layer_name(),
                    ) && c.spec_maps().layer_spec(local_goal_layer_name())@ == goal_field(
                        lg.0,
                        lg.1,
                    ))
                },
            },
    {
        let mut cost_maps = CostMaps {
            original_map: GridMap::new(Size::new(0, 0)),
            maps: LayeredGridMap::new(),
        };
        match cost_maps.update(Some(map), Some(path), Some(goal), local_goal) {
            Ok(_) => Ok(cost_maps),
            Err(e) => Err(e),
        }
    }

    /// Rebuild cost fields selectively: a fresh map replaces the stored one
    /// and rebuilds the obstacle field; a route rebuilds the path field; a
    /// goal cell rebuilds the goal field; a local frame with its look-ahead
    /// cell rebuilds the local-goal field. On an off-map input nothing
    /// changes and the offending cell is reported.
    #[verifier::loop_isolation(false)]
    pub fn update(
        &mut self,
        new_map: Option<GridMap<u8>>,
        path: Option<&Vec<Grid>>,
        goal: Option<&Grid>,
        local_goal: Option<(GridMap<u8>, Grid)>,
    ) -> (r: Result<(), Error>)
        requires
            old(self).wf(),
            new_map matches Some(m) ==> m.wf(),
            local_goal matches Some(lg) ==> lg.0.wf(),
        ensures
            final(self).wf(),
            ({
                let target = match new_map {
                    Some(m) => m,
                    None => old(self).spec_original_map(),
                };
                let path_spec = match path {
                    Some(p) => Some(p@),
                    None => None::<Seq<Grid>>,
                };
                let goal_spec = match goal {
                    Some(g) => Some(*g),
                    None => None::<Grid>,
                };
                match update_error(target.spec_size(), path_spec, goal_spec, local_goal) {
                    Some(e) => r matches Err(e2) && e2 == e && *final(self) == *old(self),
                    None => {
                        &&& r is Ok
                        &&& final(self).spec_original_map() == target
                        &&& (new_map is Some ==> final(self).spec_maps().contains_layer(
                            obstacle_layer_name(),
                        ) && final(self).spec_maps().layer_spec(obstacle_layer_name())@
                            == obstacle_field(target))
                        &&& (path matches Some(p) ==> final(self).spec_maps().contains_layer(
                            path_layer_name(),
                        ) && final(self).spec_maps().layer_spec(path_layer_name())@ == path_field(
                            target,
                            p@,
                        ))
                        &&& (goal matches Some(g) ==> final(self).spec_maps().contains_layer(
                            goal_layer_name(),
                        ) && final(self).spec_maps().layer_spec(goal_layer_name())@ == goal_field(
                            target,
                            *g,
                        ))
                        &&& (local_goal matches Some(lg) ==> final(self).spec_maps().contains_layer(
                            local_goal_layer_name(),
                        ) && final(self).spec_maps().layer_spec(local_goal_layer_name())@
                            == goal_field(lg.0, lg.1))
                        &&& (new_map is None ==> layer_untouched(
                            old(self).spec_maps(),
                            final(self).spec_maps(),
                            obstacle_layer_name(),
                        ))
                        &&& (path is None ==> layer_untouched(
                            old(self).spec_maps(),
                            final(self).spec_maps(),
                            path_layer_name(),
                        ))
                        &&& (goal is None ==> layer_untouched(
                            old(self).spec_maps(),
                            final(self).spec_maps(),
                            goal_layer_name(),
                        ))
                        &&& (local_goal is None ==> layer_untouched(
                            old(self).spec_maps(),
                            final(self).spec_maps(),
                            local_goal_layer_name(),
                        ))
                    },
                }
            }),
    {
        // the extent every shared layer is checked against
        let (target_width, target_height) = match &new_map {
            Some(m) => (m.width(), m.height()),
            None => (self.original_map.width(), self.original_map.height()),
        };
        let ghost target_size = (Size { width: target_width, height: target_height });
        proof {
            assert((match new_map {
                Some(m) => m,
                None => old(self).spec_original_map(),
            }).spec_size() == target_size);
            reveal_strlit("path");
            reveal_strlit("goal");
            reveal_strlit("obstacle");
            reveal_strlit("local_goal");
            assert("path"@.len() == 4);
            assert("goal"@.len() == 4);
            assert("obstacle"@.len() == 8);
            assert("local_goal"@.len() == 10);
            assert("path"@[0] == 'p');
            assert("goal"@[0] == 'g');
            assert(obstacle_layer_name() != path_layer_name());
            assert(obstacle_layer_name() != goal_layer_name());
            assert(obstacle_layer_name() != local_goal_layer_name());
            assert(path_layer_name() != goal_layer_name());
            assert(path_layer_name() != local_goal_layer_name());
            assert(goal_layer_name() != local_goal_layer_name());
        }
        // reject the first off-map route cell
        if let Some(p) = path {
            let n = p.len();
            let ghost full = p@;
            proof {
                assert(full.subrange(0, n as int) =~= full);
            }
            let mut i: usize = 0;
            while i < n
                invariant
                    i <= n,
                    n == full.len(),
                    full == p@,
                    first_out_of_range(full.subrange(i as int, n as int), target_size)
                        == first_out_of_range(full, target_size),
                    forall|j: int| 0 <= j < i ==> grid_in_range(full[j], target_size),
                decreases n - i,
            {
                let ghost suffix = full.subrange(i as int, n as int);
                proof {
                    assert(suffix[0] == full[i as int]);
                    assert(suffix.subrange(1, suffix.len() as int) =~= full.subrange(
                        i + 1 as int,
                        n as int,
                    ));
                }
                let g = p[i];
                if g.x >= target_width || g.y >= target_height {
                    return Err(Error::OutOfRangeGrid(g));
                }
                i = i + 1;
            }
            proof {
                assert(full.subrange(n as int, n as int) =~= Seq::<Grid>::empty());
            }
        }
        // reject an off-map goal
        if let Some(g) = goal {
            if g.x >= target_width || g.y >= target_height {
                return Err(Error::OutOfRangeGrid(*g));
            }
        }
        // reject a look-ahead cell off its local frame
        if let Some((local_map, local_grid)) = &local_goal {
            if local_grid.x >= local_map.width() || local_grid.y >= local_map.height() {
                return Err(Error::OutOfRangeGrid(*local_grid));
            }
        }
        // all inputs are on their maps: commit
        let swapped = match new_map {
            Some(m) => {
                self.original_map = m;
                true
            },
            None => false,
        };
        if swapped {
            match obstacle_distance_map(&self.original_map) {
                Ok(layer) => {
                    proof {
                        assert(layer@ == obstacle_field(self.original_map));
                    }
                    self.maps.add_layer("obstacle".to_owned(), layer);
                    proof {
                        assert(self.maps.layer_spec(obstacle_layer_name())@ == obstacle_field(
                            self.original_map,
                        ));
                    }
                },
                Err(e) => {
                    return Err(e);
                },
            }
        }
        if let Some(p) = path {
            proof {
                lemma_seed_cells_status(
                    cells_without_value(self.original_map@),
                    target_size,
                    p@,
                );
            }
            match path_distance_map(&self.original_map, p) {
                Ok(layer) => self.maps.add_layer("path".to_owned(), layer),
                Err(e) => {
                    return Err(e);
                },
            }
        }
        if let Some(g) = goal {
            match goal_distance_map(&self.original_map, g) {
                Ok(layer) => self.maps.add_layer("goal".to_owned(), layer),
                Err(e) => {
                    return Err(e);
                },
            }
        }
        if let Some((local_map, local_grid)) = local_goal {
            match goal_distance_map(&local_map, &local_grid) {
                Ok(layer) => self.maps.add_layer("local_goal".to_owned(), layer),
                Err(e) => {
                    return Err(e);
                },
            }
        }
        Ok(())
    }
}

/// The layer named `name` is the same in `after` as in `before`.
pub open spec fn layer_untouched(
    before: LayeredGridMap<u8>,
    after: LayeredGridMap<u8>,
    name: Seq<char>,
) -> bool {
    &&& (after.contains_layer(name) <==> before.contains_layer(name))
    &&& (before.contains_layer(name) ==> after.layer_spec(name) == before.layer_spec(name))
}

} // verus!
