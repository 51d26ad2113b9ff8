//! Stone colours.

use vstd::prelude::*;

verus! {

/// The colour of a stone, and of the player who places it.
#[derive(Clone, Copy, Debug, PartialEq, Eq, Structural)]
pub enum Stone {
    White,
    Black,
}

impl Stone {
    /// The other colour.
    pub open spec fn spec_opponent(self) -> Stone {
        match self {
            Stone::White => Stone::Black,
            Stone::Black => Stone::White,
        }
    }

    /// The other colour.
    #[verifier::when_used_as_spec(spec_opponent)]
    pub fn opponent(self) -> (r: Stone)
        ensures
            r == self.spec_opponent(),
    {
        match self {
            Stone::White => Stone::Black,
            Stone::Black => Stone::White,
        }
    }
}

impl core::ops::Neg for Stone {
    type Output = Stone;

    /// The other colour.
    fn neg(self) -> (r: Stone) {
        self.opponent()
    }
}

impl vstd::std_specs::ops::NegSpecImpl for Stone {
    open spec fn obeys_neg_spec() -> bool {
        true
    }

    open spec fn neg_req(self) -> bool {
        true
    }

    open spec fn neg_spec(self) -> Stone {
        self.spec_opponent()
    }
}

} // verus!
