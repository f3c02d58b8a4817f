//! The two-valued symbol placed on a cell.

use vstd::prelude::*;

verus! {

/// A player's symbol: `Cross` is X, `Nought` is O.
#[derive(Clone, Copy, Debug, PartialEq, Eq, Structural)]
pub enum Mark {
    Cross,
    Nought,
}

/// The other player's mark.
pub open spec fn reverse_of(m: Mark) -> Mark {
    match m {
        Mark::Cross => Mark::Nought,
        Mark::Nought => Mark::Cross,
    }
}

impl Mark {
    /// The other player's mark.
    pub fn reverse(&self) -> (r: Mark)
        ensures
            r == reverse_of(*self),
            r != *self,
    {
        match self {
            Mark::Cross => Mark::Nought,
            Mark::Nought => Mark::Cross,
        }
    }
}

} // verus!
