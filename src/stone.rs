use vstd::prelude::*;

verus! {

/// What stands on a point of a [`Board`].
#[derive(Clone, Copy, PartialEq, Eq, Structural, Debug, Hash)]
pub enum Stone {
    Empty,
    Black,
    White,
}

impl Stone {
    /// The opposing colour; an empty point stays empty.
    pub open spec fn spec_opponent(self) -> Stone {
        match self {
            Stone::Black => Stone::White,
            Stone::White => Stone::Black,
            Stone::Empty => Stone::Empty,
        }
    }

    /// The opposing colour; an empty point stays empty.
    pub fn opponent(self) -> (r: Stone)
        ensures
            r == self.spec_opponent(),
    {
        match self {
            Stone::Black => Stone::White,
            Stone::White => Stone::Black,
            Stone::Empty => Stone::Empty,
        }
    }
}

impl std::ops::Not for Stone {
    type Output = Stone;

    fn not(self) -> (r: Stone) {
        self.opponent()
    }
}

impl vstd::std_specs::ops::NotSpecImpl for Stone {
    open spec fn obeys_not_spec() -> bool {
        true
    }

    open spec fn not_req(self) -> bool {
        true
    }

    open spec fn not_spec(self) -> Stone {
        self.spec_opponent()
    }
}

} // verus!
