use vstd::prelude::*;
use crate::cell::Cell;
use crate::grid_map::{GridMap, Size};

verus! {

/// How one occupancy-grid sample maps to a cell: `-1` is unknown space, `0`
/// to `100` is a known occupancy value, and anything else is treated as
/// unknown.
pub open spec fn occupancy_cell(d: i8) -> Cell<u8> {
    if d == -1 {
        Cell::Unknown
    } else if 0 <= d <= 100 {
        Cell::Value(d as u8)
    } else {
        Cell::Unknown
    }
}

/// Convert one occupancy-grid sample.
pub fn cell_from_occupancy_value(d: i8) -> (r: Cell<u8>)
    ensures
        r == occupancy_cell(d),
{
    if d == -1 {
        Cell::Unknown
    } else if 0 <= d && d <= 100 {
        Cell::Value(d as u8)
    } else {
        Cell::Unknown
    }
}

/// Convert a whole occupancy-grid payload, sample by sample.
pub fn cells_from_occupancy_data(data: &Vec<i8>) -> (r: Vec<Cell<u8>>)
    ensures
        r@.len() == data@.len(),
        forall|i: int| 0 <= i < data@.len() ==> r@[i] == occupancy_cell(data@[i]),
{
    let n = data.len();
    let mut cells: Vec<Cell<u8>> = Vec::new();
    let mut k: usize = 0;
    while k < n
        invariant
            n == data@.len(),
            k <= n,
            cells@.len() == k,
            forall|i: int| 0 <= i < k ==> cells@[i] == occupancy_cell(data@[i]),
        decreases n - k,
    {
        cells.push(cell_from_occupancy_value(data[k]));
        k = k + 1;
    }
    cells
}

/// Build a map of the given extent from an occupancy-grid payload; absent
/// when the payload does not hold exactly one sample per cell.
pub fn grid_map_from_occupancy(size: Size, data: &Vec<i8>) -> (r: Option<GridMap<u8>>)
    requires
        size.width * size.height <= usize::MAX,
    ensures
        match r {
            Some(m) => data@.len() == size.width * size.height && m.wf() && m.spec_size() == size
                && m@.len() == data@.len() && forall|i: int|
                0 <= i < data@.len() ==> m@[i] == occupancy_cell(data@[i]),
            None => data@.len() != size.width * size.height,
        },
{
    let expected = size.len();
    if data.len() != expected {
        return None;
    }
    let cells = cells_from_occupancy_data(data);
    Some(GridMap::from_cells(size, cells))
}

/// Replace the cells of `map` with a fresh occupancy-grid payload of the same
/// extent; fails, leaving the map unchanged, when the sizes disagree.
pub fn update_cells_from_occupancy(map: &mut GridMap<u8>, data: &Vec<i8>) -> (r: Option<()>)
    requires
        old(map).wf(),
    ensures
        final(map).wf(),
        final(map).spec_size() == old(map).spec_size(),
        match r {
            Some(()) => data@.len() == old(map)@.len() && forall|i: int|
                0 <= i < data@.len() ==> final(map)@[i] == occupancy_cell(data@[i]),
            None => data@.len() != old(map)@.len() && final(map)@ == old(map)@,
        },
{
    if data.len() != map.len() {
        return None;
    }
    let cells = cells_from_occupancy_data(data);
    let size = map.size();
    *map = GridMap::from_cells(size, cells);
    Some(())
}

} // verus!
