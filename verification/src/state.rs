//! The capability contract that every puzzle state type provides.

use vstd::prelude::*;

verus! {

/// A puzzle state: one configuration of the puzzle, able to say whether it is
/// solved and to enumerate the configurations one move away.
///
/// The two spec functions are the mathematical content of a puzzle; the two
/// executable methods compute them, so asking twice gives the same answer.
/// An implementation that is to be verified defines both spec functions. As
/// they stand here they leave the puzzle unspecified, which lets ordinary
/// Rust code implement the two executable methods alone.
pub trait Puzzle: Sized {
    /// The label of a transition between two states.
    type Move;

    /// Whether this state counts as solved.
    open spec fn goal(&self) -> bool {
        arbitrary()
    }

    /// The legal transitions out of this state, in enumeration order: each is
    /// a move paired with the state it leads to. A dead end has none.
    open spec fn successors(&self) -> Seq<(Self::Move, Self)> {
        arbitrary()
    }

    /// Determines whether or not the state represents a solved puzzle.
    fn is_goal(&self) -> (b: bool)
        ensures
            b == self.goal(),
    ;

    /// Enumerates all of the legal successor states of this state, along with
    /// the move that leads to each.
    fn next(&self) -> (v: Vec<(Self::Move, Self)>)
        ensures
            v@ == self.successors(),
    ;
}

/// Duplicating a value of `T` yields an identical value.
pub open spec fn duplicates_faithfully<T: Clone>() -> bool {
    forall|a: T, b: T| #[trigger] call_ensures(T::clone, (&a,), b) ==> a == b
}

} // verus!
