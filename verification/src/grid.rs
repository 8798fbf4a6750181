use vstd::prelude::*;
use core::cmp::Ordering;

verus! {

/// Cell coordinates on a map: `x` counts columns, `y` counts rows.
#[derive(Copy, Clone, Debug, PartialEq, Eq, Structural)]
pub struct Grid {
    pub x: usize,
    pub y: usize,
}

/// The 4-connected neighbours of `g`, in the order the expansion visits them:
/// up, right, then left and down where those do not underflow.
pub open spec fn grid_neighbors4(g: Grid) -> Seq<Grid> {
    let up_right = seq![
        Grid { x: g.x, y: (g.y + 1) as usize },
        Grid { x: (g.x + 1) as usize, y: g.y },
    ];
    let with_left = if g.x != 0 {
        up_right.push(Grid { x: (g.x - 1) as usize, y: g.y })
    } else {
        up_right
    };
    if g.y != 0 {
        with_left.push(Grid { x: g.x, y: (g.y - 1) as usize })
    } else {
        with_left
    }
}

impl Grid {
    pub fn new(x: usize, y: usize) -> (r: Self)
        ensures
            r == (Grid { x, y }),
    {
        Self { x, y }
    }

    /// Returns the 4-connected neighbours (up, right, left, down).
    ///
    /// Coordinates that would wrap below zero are left out; a neighbour that
    /// lies beyond the far edge of a map is returned and must be rejected by
    /// the map lookup instead.
    pub fn neighbors4(&self) -> (r: Vec<Self>)
        requires
            self.x + 1 <= usize::MAX,
            self.y + 1 <= usize::MAX,
        ensures
            r@ == grid_neighbors4(*self),
    {
        let mut neighbors = vec![Self::new(self.x, self.y + 1), Self::new(self.x + 1, self.y)];
        if self.x != 0 {
            neighbors.push(Self::new(self.x - 1, self.y));
        }
        if self.y != 0 {
            neighbors.push(Self::new(self.x, self.y - 1));
        }
        assert(neighbors@ =~= grid_neighbors4(*self));
        neighbors
    }
}

/// `a` is ordered before `b` only when both components agree; coordinates
/// that disagree componentwise are incomparable.
pub open spec fn grid_partial_cmp(a: Grid, b: Grid) -> Option<Ordering> {
    let cx = if a.x < b.x {
        Ordering::Less
    } else if a.x == b.x {
        Ordering::Equal
    } else {
        Ordering::Greater
    };
    let cy = if a.y < b.y {
        Ordering::Less
    } else if a.y == b.y {
        Ordering::Equal
    } else {
        Ordering::Greater
    };
    if cx == cy {
        Some(cx)
    } else {
        None
    }
}

impl PartialOrd for Grid {
    fn partial_cmp(&self, other: &Self) -> (r: Option<Ordering>)
        ensures
            r == grid_partial_cmp(*self, *other),
    {
        let cx: Ordering = if self.x < other.x {
            Ordering::Less
        } else if self.x == other.x {
            Ordering::Equal
        } else {
            Ordering::Greater
        };
        let cy: Ordering = if self.y < other.y {
            Ordering::Less
        } else if self.y == other.y {
            Ordering::Equal
        } else {
            Ordering::Greater
        };
        match (cx, cy) {
            (Ordering::Less, Ordering::Less) => Some(Ordering::Less),
            (Ordering::Equal, Ordering::Equal) => Some(Ordering::Equal),
            (Ordering::Greater, Ordering::Greater) => Some(Ordering::Greater),
            _ => None,
        }
    }
}

impl vstd::std_specs::cmp::PartialOrdSpecImpl for Grid {
    open spec fn obeys_partial_cmp_spec() -> bool {
        true
    }

    open spec fn partial_cmp_spec(&self, other: &Self) -> Option<Ordering> {
        grid_partial_cmp(*self, *other)
    }
}

impl Default for Grid {
    fn default() -> (r: Self)
        ensures
            r == (Grid { x: 0, y: 0 }),
    {
        Grid { x: 0, y: 0 }
    }
}

} // verus!
