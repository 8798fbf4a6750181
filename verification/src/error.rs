use vstd::prelude::*;
use crate::grid::Grid;

verus! {

/// Failure of a grid operation.
///
/// The distance transforms surface this when a seed lies off the map; the
/// kernel itself recovers locally from off-map neighbours instead.
#[derive(Copy, Clone, Debug, PartialEq, Eq, Structural)]
pub enum Error {
    /// A cell lookup or mutation used a coordinate outside the map.
    OutOfRangeGrid(Grid),
}

impl Error {
    /// A short human-readable description of the failure.
    pub fn message(&self) -> (r: String)
        ensures
            self is OutOfRangeGrid ==> r@ == "out of range grid"@,
    {
        match self {
            Error::OutOfRangeGrid(_) => "out of range grid".to_owned(),
        }
    }
}

} // verus!
