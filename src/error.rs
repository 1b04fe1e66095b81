use vstd::prelude::*;

verus! {

/// Why an operation of this library refused its input.
#[derive(Clone, Copy, Debug, PartialEq, Eq, Structural)]
pub enum GeohashError {
    /// A character outside the alphabet of the hash being read.
    InvalidCharacter,
    /// A latitude outside [-90, 90] degrees or a longitude outside [-180, 180] degrees.
    InvalidCoordinate,
    /// More bits than a hash can hold.
    CapacityExceeded,
}

} // verus!
