use vstd::prelude::*;

verus! {

/// One cell of an occupancy grid.
///
/// `Uninitialized` marks a cell that no pass has touched yet; the distance
/// transforms write only into such cells. `Unknown` and `Obstacle` carry no
/// payload; `Value` holds the cell's cost.
#[derive(Copy, Clone, Debug, PartialEq)]
pub enum Cell<T> where T: Clone {
    Uninitialized,
    Unknown,
    Obstacle,
    Value(T),
}

impl<T> Cell<T> where T: Clone {
    /// The payload of a `Value` cell, absent for every other tag.
    pub fn value(&self) -> (r: Option<&T>)
        ensures
            match self {
                Cell::Value(v) => r == Some(v),
                _ => r is None,
            },
    {
        match self {
            Self::Value(v) => Some(v),
            _ => None,
        }
    }

    pub fn has_value(&self) -> (r: bool)
        ensures
            r <==> self is Value,
    {
        matches!(self, Self::Value(_))
    }

    pub fn is_uninitialized(&self) -> (r: bool)
        ensures
            r <==> self is Uninitialized,
    {
        matches!(self, Self::Uninitialized)
    }

    pub fn is_obstacle(&self) -> (r: bool)
        ensures
            r <==> self is Obstacle,
    {
        matches!(self, Self::Obstacle)
    }

    pub fn from_value(value: T) -> (r: Self)
        ensures
            r == Cell::Value(value),
    {
        Self::Value(value)
    }
}

impl<T> Default for Cell<T> where T: Clone {
    /// A fresh cell starts out `Uninitialized`.
    fn default() -> (r: Self)
        ensures
            r is Uninitialized,
    {
        Cell::Uninitialized
    }
}

} // verus!
