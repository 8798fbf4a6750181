use vstd::prelude::*;
use vstd::arithmetic::div_mod::lemma_fundamental_div_mod_converse;
use crate::cell::Cell;
use crate::grid::Grid;

verus! {

/// Extent of a map in cells.
#[derive(Copy, Clone, Debug, PartialEq, Eq, Structural)]
pub struct Size {
    pub width: usize,
    pub height: usize,
}

impl Size {
    pub fn new(width: usize, height: usize) -> (r: Self)
        ensures
            r == (Size { width, height }),
    {
        Size { width, height }
    }

    /// Number of cells a map of this size holds.
    pub fn len(&self) -> (r: usize)
        requires
            self.width * self.height <= usize::MAX,
        ensures
            r == self.width * self.height,
    {
        self.width * self.height
    }

    pub fn is_empty(&self) -> (r: bool)
        requires
            self.width * self.height <= usize::MAX,
        ensures
            r <==> self.width * self.height == 0,
    {
        self.len() == 0
    }
}

impl Default for Size {
    fn default() -> (r: Self)
        ensures
            r == (Size { width: 0, height: 0 }),
    {
        Size { width: 0, height: 0 }
    }
}

/// Whether `g` lies on a map of extent `size`.
pub open spec fn grid_in_range(g: Grid, size: Size) -> bool {
    g.x < size.width && g.y < size.height
}

/// Row-major position of `g` in the cell vector.
pub open spec fn grid_index(g: Grid, size: Size) -> int {
    size.width * g.y + g.x
}

/// Inverse of `grid_index` for indices below `width * height`.
pub open spec fn grid_of_index(index: int, size: Size) -> Grid {
    Grid { x: (index % (size.width as int)) as usize, y: (index / (size.width as int)) as usize }
}

/// An in-range grid coordinate is found again after a round trip through its
/// row-major index.
pub proof fn lemma_grid_index_round_trip(g: Grid, size: Size)
    requires
        grid_in_range(g, size),
    ensures
        0 <= grid_index(g, size) < size.width * size.height,
        grid_of_index(grid_index(g, size), size) == g,
{
    let w = size.width as int;
    let h = size.height as int;
    assert(w * g.y + g.x < w * h) by (nonlinear_arith)
        requires
            g.x < w,
            g.y < h,
    ;
    lemma_fundamental_div_mod_converse(grid_index(g, size), w, g.y as int, g.x as int);
}

/// A fixed-size grid of cells, addressed by `Grid` coordinates, stored in
/// row-major order.
#[derive(Clone, Debug)]
pub struct GridMap<T> where T: Clone {
    size: Size,
    cells: Vec<Cell<T>>,
}

impl<T> View for GridMap<T> where T: Clone {
    type V = Seq<Cell<T>>;

    closed spec fn view(&self) -> Seq<Cell<T>> {
        self.cells@
    }
}

/// `cells` with every `Uninitialized` cell replaced by `Value(value)` and the
/// other cells kept.
pub open spec fn cells_filled<T: Clone>(cells: Seq<Cell<T>>, value: T) -> Seq<Cell<T>> {
    Seq::new(
        cells.len(),
        |i: int| if cells[i] is Uninitialized {
            Cell::Value(value)
        } else {
            cells[i]
        },
    )
}

/// `cells` with every `Value` cell struck back to `Uninitialized` and the
/// other tags kept; the starting state of every distance transform.
pub open spec fn cells_without_value<T: Clone>(cells: Seq<Cell<T>>) -> Seq<Cell<T>> {
    Seq::new(cells.len(), |i: int| if cells[i] is Value { Cell::Uninitialized } else { cells[i] })
}

impl<T> GridMap<T> where T: Clone {
    /// The extent this map was built with.
    pub closed spec fn spec_size(&self) -> Size {
        self.size
    }

    /// The cell vector matches the extent.
    pub open spec fn wf(&self) -> bool {
        self@.len() == self.spec_size().width * self.spec_size().height
    }

    /// Create a map of the given extent with every cell `Uninitialized`.
    pub fn new(size: Size) -> (r: Self)
        requires
            size.width * size.height <= usize::MAX,
        ensures
            r.wf(),
            r.spec_size() == size,
            forall|i: int| 0 <= i < r@.len() ==> r@[i] is Uninitialized,
    {
        let n = size.len();
        let mut cells: Vec<Cell<T>> = Vec::new();
        let mut k: usize = 0;
        while k < n
            invariant
                cells@.len() == k,
                k <= n,
                forall|i: int| 0 <= i < k ==> cells@[i] is Uninitialized,
            decreases n - k,
        {
            cells.push(Cell::Uninitialized);
            k = k + 1;
        }
        GridMap { size, cells }
    }

    /// Build a map directly from a cell vector whose length matches `size`.
    pub fn from_cells(size: Size, cells: Vec<Cell<T>>) -> (r: Self)
        requires
            cells@.len() == size.width * size.height,
        ensures
            r.wf(),
            r.spec_size() == size,
            r@ == cells@,
    {
        GridMap { size, cells }
    }

    pub fn size(&self) -> (r: Size)
        ensures
            r == self.spec_size(),
    {
        self.size
    }

    pub fn width(&self) -> (r: usize)
        ensures
            r == self.spec_size().width,
    {
        self.size.width
    }

    pub fn height(&self) -> (r: usize)
        ensures
            r == self.spec_size().height,
    {
        self.size.height
    }

    /// Number of cells.
    pub fn len(&self) -> (r: usize)
        ensures
            r == self@.len(),
    {
        self.cells.len()
    }

    pub fn is_empty(&self) -> (r: bool)
        ensures
            r <==> self@.len() == 0,
    {
        self.cells.is_empty()
    }

    /// All cells, in row-major order.
    pub fn cells(&self) -> (r: &Vec<Cell<T>>)
        ensures
            r@ == self@,
    {
        &self.cells
    }

    /// Row-major index of `grid`, absent when `grid` is off the map.
    pub fn to_index(&self, grid: &Grid) -> (r: Option<usize>)
        requires
            self.wf(),
        ensures
            match r {
                Some(i) => grid_in_range(*grid, self.spec_size()) && i == grid_index(
                    *grid,
                    self.spec_size(),
                ) && i < self@.len(),
                None => !grid_in_range(*grid, self.spec_size()),
            },
    {
        if grid.x >= self.size.width || grid.y >= self.size.height {
            return None;
        }
        proof {
            lemma_grid_index_round_trip(*grid, self.size);
            assert(self.cells@.len() == vstd::std_specs::vec::spec_vec_len(&self.cells));
        }
        Some(self.size.width * grid.y + grid.x)
    }

    /// The grid coordinate whose row-major index is `index`, absent when
    /// `index` is past the end of the cell vector.
    pub fn to_grid_from_index(&self, index: usize) -> (r: Option<Grid>)
        requires
            self.wf(),
        ensures
            match r {
                Some(g) => index < self@.len() && g == grid_of_index(
                    index as int,
                    self.spec_size(),
                ) && grid_in_range(g, self.spec_size()),
                None => index >= self@.len(),
            },
    {
        if index >= self.cells.len() {
            return None;
        }
        let w = self.size.width;
        proof {
            assert(w > 0 && (index as int) / (w as int) < self.size.height) by (nonlinear_arith)
                requires
                    (index as int) < (w as int) * (self.size.height as int),
                    index >= 0,
            ;
        }
        Some(Grid { x: index % w, y: index / w })
    }

    /// The cell at `grid`, absent when `grid` is off the map.
    pub fn cell(&self, grid: &Grid) -> (r: Option<&Cell<T>>)
        requires
            self.wf(),
        ensures
            match r {
                Some(c) => grid_in_range(*grid, self.spec_size()) && *c == self@[grid_index(
                    *grid,
                    self.spec_size(),
                )],
                None => !grid_in_range(*grid, self.spec_size()),
            },
    {
        match self.to_index(grid) {
            Some(index) => Some(&self.cells[index]),
            None => None,
        }
    }

    /// The payload at `grid`, absent off the map or when the cell holds no
    /// `Value`.
    pub fn value(&self, grid: &Grid) -> (r: Option<T>)
        requires
            self.wf(),
        ensures
            match r {
                Some(v) => grid_in_range(*grid, self.spec_size()) && {
                    let c = self@[grid_index(*grid, self.spec_size())];
                    c is Value && vstd::pervasive::cloned::<T>(c->Value_0, v)
                },
                None => !grid_in_range(*grid, self.spec_size()) || !(self@[grid_index(
                    *grid,
                    self.spec_size(),
                )] is Value),
            },
    {
        match self.cell(grid) {
            Some(Cell::Value(v)) => Some(v.clone()),
            _ => None,
        }
    }

    /// Overwrite the cell at `grid`; succeeds exactly when `grid` is on the
    /// map, and otherwise leaves the map unchanged.
    pub fn set_cell(&mut self, grid: &Grid, cell: Cell<T>) -> (r: Option<()>)
        requires
            old(self).wf(),
        ensures
            final(self).wf(),
            final(self).spec_size() == old(self).spec_size(),
            match r {
                Some(()) => grid_in_range(*grid, final(self).spec_size()) && final(self)@ == old(self)@.update(
                    grid_index(*grid, final(self).spec_size()),
                    cell,
                ),
                None => !grid_in_range(*grid, final(self).spec_size()) && final(self)@ == old(self)@,
            },
    {
        match self.to_index(grid) {
            Some(index) => {
                self.cells.set(index, cell);
                Some(())
            },
            None => None,
        }
    }

    /// Make the cell at `grid` a `Value` cell holding `value`.
    pub fn set_value(&mut self, grid: &Grid, value: T) -> (r: Option<()>)
        requires
            old(self).wf(),
        ensures
            final(self).wf(),
            final(self).spec_size() == old(self).spec_size(),
            match r {
                Some(()) => grid_in_range(*grid, final(self).spec_size()) && final(self)@ == old(self)@.update(
                    grid_index(*grid, final(self).spec_size()),
                    Cell::Value(value),
                ),
                None => !grid_in_range(*grid, final(self).spec_size()) && final(self)@ == old(self)@,
            },
    {
        self.set_cell(grid, Cell::Value(value))
    }

    /// Mark the cell at `grid` as an obstacle.
    pub fn set_obstacle(&mut self, grid: &Grid) -> (r: Option<()>)
        requires
            old(self).wf(),
        ensures
            final(self).wf(),
            final(self).spec_size() == old(self).spec_size(),
            match r {
                Some(()) => grid_in_range(*grid, final(self).spec_size()) && final(self)@ == old(self)@.update(
                    grid_index(*grid, final(self).spec_size()),
                    Cell::Obstacle,
                ),
                None => !grid_in_range(*grid, final(self).spec_size()) && final(self)@ == old(self)@,
            },
    {
        self.set_cell(grid, Cell::Obstacle)
    }

    /// Write `value` into every cell that is still `Uninitialized`, leaving
    /// all other cells as they stand; a decayed field's untouched remainder
    /// becomes explicit zero-cost ground this way.
    pub fn fill_uninitialized(&mut self, value: T) where T: Copy
        requires
            old(self).wf(),
        ensures
            final(self).wf(),
            final(self).spec_size() == old(self).spec_size(),
            final(self)@ == cells_filled(old(self)@, value),
    {
        let n = self.cells.len();
        let mut k: usize = 0;
        while k < n
            invariant
                self.wf(),
                self.spec_size() == old(self).spec_size(),
                n == self@.len(),
                n == old(self)@.len(),
                k <= n,
                forall|i: int| 0 <= i < k ==> self@[i] == cells_filled(old(self)@, value)[i],
                forall|i: int| k <= i < n ==> self@[i] == old(self)@[i],
            decreases n - k,
        {
            if self.cells[k].is_uninitialized() {
                self.cells.set(k, Cell::Value(value));
            }
            k = k + 1;
        }
        proof {
            assert(self@ =~= cells_filled(old(self)@, value));
        }
    }

    /// Copy the map, replacing every `Value` cell with `Uninitialized` while
    /// keeping `Obstacle` and `Unknown` cells where they stand.
    pub fn copy_without_value(&self) -> (r: Self)
        requires
            self.wf(),
        ensures
            r.wf(),
            r.spec_size() == self.spec_size(),
            r@ == cells_without_value(self@),
    {
        let n = self.cells.len();
        let mut cells: Vec<Cell<T>> = Vec::new();
        let mut k: usize = 0;
        while k < n
            invariant
                n == self@.len(),
                k <= n,
                cells@.len() == k,
                forall|i: int| 0 <= i < k ==> cells@[i] == cells_without_value(self@)[i],
            decreases n - k,
        {
            let replacement = match &self.cells[k] {
                Cell::Value(_) => Cell::Uninitialized,
                Cell::Uninitialized => Cell::Uninitialized,
                Cell::Unknown => Cell::Unknown,
                Cell::Obstacle => Cell::Obstacle,
            };
            cells.push(replacement);
            k = k + 1;
        }
        assert(cells@ =~= cells_without_value(self@));
        GridMap { size: self.size, cells }
    }
}

} // verus!
