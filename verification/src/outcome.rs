//! Terminal results and the three-valued relative result type.

use vstd::prelude::*;
use crate::mark::Mark;

verus! {

/// The terminal result of a finished game.
#[derive(Clone, Copy, Debug, PartialEq, Eq, Structural)]
pub enum Outcome {
    Victory(Mark),
    Draw,
}

/// A position's result from one player's point of view,
/// totally ordered `Win > Draw > Loss`.
#[derive(Clone, Copy, Debug, PartialEq, Eq, Structural)]
pub enum RelativeOutcome {
    Win,
    Draw,
    Loss,
}

/// Numeric rank realizing the order `Win > Draw > Loss`.
pub open spec fn rank(r: RelativeOutcome) -> int {
    match r {
        RelativeOutcome::Loss => 0,
        RelativeOutcome::Draw => 1,
        RelativeOutcome::Win => 2,
    }
}

/// `a` is at most `b` in the `Win > Draw > Loss` order.
pub open spec fn ro_le(a: RelativeOutcome, b: RelativeOutcome) -> bool {
    rank(a) <= rank(b)
}

/// The larger of two relative outcomes.
pub open spec fn max_ro(a: RelativeOutcome, b: RelativeOutcome) -> RelativeOutcome {
    if rank(a) >= rank(b) {
        a
    } else {
        b
    }
}

/// The same result seen from the other player's side.
pub open spec fn flip_of(r: RelativeOutcome) -> RelativeOutcome {
    match r {
        RelativeOutcome::Win => RelativeOutcome::Loss,
        RelativeOutcome::Draw => RelativeOutcome::Draw,
        RelativeOutcome::Loss => RelativeOutcome::Win,
    }
}

/// A terminal outcome seen from `m`'s point of view.
pub open spec fn relative_of(o: Outcome, m: Mark) -> RelativeOutcome {
    match o {
        Outcome::Victory(w) => if w == m {
            RelativeOutcome::Win
        } else {
            RelativeOutcome::Loss
        },
        Outcome::Draw => RelativeOutcome::Draw,
    }
}

impl RelativeOutcome {
    /// The same result seen from the other player's side.
    pub fn flip(&self) -> (r: RelativeOutcome)
        ensures
            r == flip_of(*self),
    {
        match self {
            RelativeOutcome::Win => RelativeOutcome::Loss,
            RelativeOutcome::Draw => RelativeOutcome::Draw,
            RelativeOutcome::Loss => RelativeOutcome::Win,
        }
    }

    /// The rank of this result: `Loss` is 0, `Draw` is 1, `Win` is 2.
    pub fn rank(&self) -> (n: u8)
        ensures
            n as int == rank(*self),
    {
        match self {
            RelativeOutcome::Loss => 0,
            RelativeOutcome::Draw => 1,
            RelativeOutcome::Win => 2,
        }
    }
}

/// `Win > Draw > Loss` is a total order under `ro_le`; `flip` swaps
/// `Win` and `Loss`, fixes `Draw`, and is its own inverse; flipping
/// reverses the order.
pub proof fn lemma_relative_outcome_order()
    ensures
        ro_le(RelativeOutcome::Loss, RelativeOutcome::Draw),
        ro_le(RelativeOutcome::Draw, RelativeOutcome::Win),
        !ro_le(RelativeOutcome::Draw, RelativeOutcome::Loss),
        !ro_le(RelativeOutcome::Win, RelativeOutcome::Draw),
        forall|a: RelativeOutcome| ro_le(a, a),
        forall|a: RelativeOutcome, b: RelativeOutcome| ro_le(a, b) || ro_le(b, a),
        forall|a: RelativeOutcome, b: RelativeOutcome| ro_le(a, b) && ro_le(b, a) ==> a == b,
        forall|a: RelativeOutcome, b: RelativeOutcome, c: RelativeOutcome|
            ro_le(a, b) && ro_le(b, c) ==> ro_le(a, c),
        flip_of(RelativeOutcome::Win) == RelativeOutcome::Loss,
        flip_of(RelativeOutcome::Draw) == RelativeOutcome::Draw,
        flip_of(RelativeOutcome::Loss) == RelativeOutcome::Win,
        forall|a: RelativeOutcome| flip_of(flip_of(a)) == a,
        forall|a: RelativeOutcome, b: RelativeOutcome|
            ro_le(a, b) == ro_le(flip_of(b), flip_of(a)),
{
}

} // verus!
