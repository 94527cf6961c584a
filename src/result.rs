use vstd::prelude::*;

use crate::rule::IllegalMove;

verus! {

/// The ways the board can refuse a request.
#[derive(Clone, Copy, PartialEq, Eq, Structural, Debug)]
pub enum Error {
    /// The point addressed lies outside the board.
    CoordinatesOutOfBounds,
    /// The move is illegal under the [`crate::Rules`] in force.
    IllegalMove(IllegalMove),
}

/// The result of a board operation.
pub type Result<T> = std::result::Result<T, Error>;

} // verus!
