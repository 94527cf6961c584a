use vstd::prelude::*;

verus! {

/// All the ways a move can be illegal; usually met inside [`crate::Error`].
#[derive(Clone, Copy, PartialEq, Eq, Structural, Debug)]
pub enum IllegalMove {
    /// The point played on is already occupied.
    NonEmptySpace,
    /// The move leaves the mover's own group without liberties
    /// (refused unless [`Rules::suicide_allowed`]).
    SuicidalMove,
    /// The move recreates the position from before the previous move.
    Ko,
    /// The move repeats an earlier position (only under [`Rules::superko`]).
    SuperKo,
}

/// Which optional legality checks are active.
#[derive(Clone, Copy, PartialEq, Eq, Structural, Debug)]
pub struct Rules {
    /// Allow a move that leaves the mover's own group without liberties.
    pub suicide_allowed: bool,
    /// Refuse any move that recreates an earlier position.
    pub superko: bool,
}

impl Rules {
    /// Japanese rules: suicide is refused and superko is enforced.
    pub fn japanese() -> (r: Rules)
        ensures
            !r.suicide_allowed,
            r.superko,
    {
        Rules { suicide_allowed: false, superko: true }
    }
}

} // verus!
