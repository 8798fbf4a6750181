use vstd::prelude::*;
use crate::cell::Cell;
use crate::grid::Grid;
use crate::grid_map::{GridMap, Size, grid_in_range, grid_index};

verus! {

/// What one cell contributes to a trajectory's distance cost: a `Value` cell
/// its value, an `Obstacle` or `Unknown` cell the full cost of 255.
pub open spec fn cell_cost(c: Cell<u8>) -> int {
    match c {
        Cell::Value(v) => v as int,
        Cell::Obstacle => 255,
        Cell::Unknown => 255,
        Cell::Uninitialized => 0,
    }
}

/// Whether every trajectory point found a grid cell on the map: `None`
/// entries are points the converter already rejected.
pub open spec fn all_points_on_map(grids: Seq<Option<Grid>>, size: Size) -> bool {
    forall|i: int|
        0 <= i < grids.len() ==> grids[i] is Some && grid_in_range(grids[i]->Some_0, size)
}

/// The summed cell cost of a trajectory, over the cells its points fall on.
pub open spec fn trajectory_cost(cells: Seq<Cell<u8>>, size: Size, grids: Seq<Option<Grid>>) -> int
    decreases grids.len(),
{
    if grids.len() == 0 {
        0
    } else {
        trajectory_cost(cells, size, grids.drop_last()) + cell_cost(
            cells[grid_index(grids.last()->Some_0, size)],
        )
    }
}

proof fn lemma_trajectory_cost_bounds(cells: Seq<Cell<u8>>, size: Size, grids: Seq<Option<Grid>>)
    ensures
        0 <= trajectory_cost(cells, size, grids) <= 255 * grids.len(),
    decreases grids.len(),
{
    if grids.len() > 0 {
        lemma_trajectory_cost_bounds(cells, size, grids.drop_last());
    }
}

/// Sum what the cells under a candidate trajectory cost on one layer.
///
/// Each entry of `grids` is one trajectory point already converted to this
/// layer's grid, `None` where the conversion failed. The sum is absent — the
/// caller rejects the whole candidate — when the trajectory is empty or any
/// point lies off the layer.
#[verifier::loop_isolation(false)]
pub fn accumulate_values_by_grids(map: &GridMap<u8>, grids: &Vec<Option<Grid>>) -> (r: Option<u64>)
    requires
        map.wf(),
        forall|i: int|
            0 <= i < grids@.len() ==> ((#[trigger] grids@[i]) matches Some(g) ==> (grid_in_range(
                g,
                map.spec_size(),
            ) ==> !(map@[grid_index(g, map.spec_size())] is Uninitialized))),
        255 * grids@.len() <= u64::MAX,
    ensures
        match r {
            Some(total) => grids@.len() > 0 && all_points_on_map(grids@, map.spec_size()) && total
                == trajectory_cost(map@, map.spec_size(), grids@),
            None => grids@.len() == 0 || !all_points_on_map(grids@, map.spec_size()),
        },
{
    let ghost size = map.spec_size();
    if grids.is_empty() {
        return None;
    }
    let mut cost: u64 = 0;
    let n = grids.len();
    let mut i: usize = 0;
    while i < n
        invariant
            i <= n,
            all_points_on_map(grids@.subrange(0, i as int), size),
            cost == trajectory_cost(map@, size, grids@.subrange(0, i as int)),
            cost <= 255 * i,
        decreases n - i,
    {
        let ghost prefix = grids@.subrange(0, i as int);
        proof {
            lemma_trajectory_cost_bounds(map@, size, prefix);
            assert(grids@.subrange(0, i + 1 as int).drop_last() =~= prefix);
        }
        let point = grids[i];
        let step: u64 = match point {
            Some(g) => {
                match map.cell(&g) {
                    Some(c) => {
                        match c {
                            Cell::Value(v) => *v as u64,
                            Cell::Obstacle => 255,
                            Cell::Unknown => 255,
                            Cell::Uninitialized => 255,
                        }
                    },
                    None => {
                        return None;
                    },
                }
            },
            None => {
                return None;
            },
        };
        cost = cost + step;
        i = i + 1;
    }
    proof {
        assert(grids@.subrange(0, n as int) =~= grids@);
    }
    Some(cost)
}

} // verus!
