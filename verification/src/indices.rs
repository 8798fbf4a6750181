use vstd::prelude::*;
use core::cmp::Ordering;

verus! {

/// A pair of raw cell indices; kept alongside `Grid` for callers that
/// address cells without a converter.
#[derive(Copy, Clone, Debug, PartialEq, Eq, Structural)]
pub struct Indices {
    pub x: usize,
    pub y: usize,
}

/// The 4-connected neighbours of `g`, in the order the expansion visits them:
/// up, right, then left and down where those do not underflow.
pub open spec fn indices_neighbors4(g: Indices) -> Seq<Indices> {
    let up_right = seq![
        Indices { x: g.x, y: (g.y + 1) as usize },
        Indices { x: (g.x + 1) as usize, y: g.y },
    ];
    let with_left = if g.x != 0 {
        up_right.push(Indices { x: (g.x - 1) as usize, y: g.y })
    } else {
        up_right
    };
    if g.y != 0 {
        with_left.push(Indices { x: g.x, y: (g.y - 1) as usize })
    } else {
        with_left
    }
}

impl Indices {
    pub fn new(x: usize, y: usize) -> (r: Self)
        ensures
            r == (Indices { x, y }),
    {
        Self { x, y }
    }

    /// Returns the 4-connected neighbours (up, right, left, down).
    ///
    /// Coordinates that would wrap below zero are left out; a neighbour that
    /// lies beyond the far edge of a map is returned and must be rejected by
    /// the map lookup instead.
    pub fn neighbors4(&self) -> (r: Vec<Self>)
        requires
            self.x + 1 <= usize::MAX,
            self.y + 1 <= usize::MAX,
        ensures
            r@ == indices_neighbors4(*self),
    {
        let mut neighbors = vec![Self::new(self.x, self.y + 1), Self::new(self.x + 1, self.y)];
        if self.x != 0 {
            neighbors.push(Self::new(self.x - 1, self.y));
        }
        if self.y != 0 {
            neighbors.push(Self::new(self.x, self.y - 1));
        }
        assert(neighbors@ =~= indices_neighbors4(*self));
        neighbors
    }
}

/// `a` is ordered before `b` only when both components agree; coordinates
/// that disagree componentwise are incomparable.
pub open spec fn indices_partial_cmp(a: Indices, b: Indices) -> Option<Ordering> {
    let cx = if a.x < b.x {
        Ordering::Less
    } else if a.x == b.x {
        Ordering::Equal
    } else {
        Ordering::Greater
    };
    let cy = if a.y < b.y {
        Ordering::Less
    } else if a.y == b.y {
        Ordering::Equal
    } else {
        Ordering::Greater
    };
    if cx == cy {
        Some(cx)
    } else {
        None
    }
}

impl PartialOrd for Indices {
    fn partial_cmp(&self, other: &Self) -> (r: Option<Ordering>)
        ensures
            r == indices_partial_cmp(*self, *other),
    {
        let cx: Ordering = if self.x < other.x {
            Ordering::Less
        } else if self.x == other.x {
            Ordering::Equal
        } else {
            Ordering::Greater
        };
        let cy: Ordering = if self.y < other.y {
            Ordering::Less
        } else if self.y == other.y {
            Ordering::Equal
        } else {
            Ordering::Greater
        };
        match (cx, cy) {
            (Ordering::Less, Ordering::Less) => Some(Ordering::Less),
            (Ordering::Equal, Ordering::Equal) => Some(Ordering::Equal),
            (Ordering::Greater, Ordering::Greater) => Some(Ordering::Greater),
            _ => None,
        }
    }
}

impl vstd::std_specs::cmp::PartialOrdSpecImpl for Indices {
    open spec fn obeys_partial_cmp_spec() -> bool {
        true
    }

    open spec fn partial_cmp_spec(&self, other: &Self) -> Option<Ordering> {
        indices_partial_cmp(*self, *other)
    }
}

impl Default for Indices {
    fn default() -> (r: Self)
        ensures
            r == (Indices { x: 0, y: 0 }),
    {
        Indices { x: 0, y: 0 }
    }
}

} // verus!
