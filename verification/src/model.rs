//! The pluggable state model the engine searches over.
//!
//! A domain supplies legal actions, a pure transition function and a
//! terminal check. Rewards are integer-valued scalars; a domain whose
//! natural rewards are fractional scales them to a fixed unit of its
//! choosing before handing them to the engine.

use vstd::prelude::*;

verus! {

/// A state of a sequential decision process.
///
/// The three spec functions are the mathematical model of the domain; the
/// executable methods must agree with them exactly, which is what makes
/// the engine's contracts meaningful for any plugged-in domain.
///
/// A non-terminal state must offer at least one action
/// (`lemma_actions_nonempty`); a state with no moves must report itself
/// terminal. This is the documented resolution of the otherwise undefined
/// case of a non-terminal state with an empty action list.
pub trait GameState<U>: Sized {
    /// The legal actions of this state, in a fixed order.
    spec fn spec_actions(&self) -> Seq<U>;

    /// The state reached by taking `action` here.
    spec fn spec_next(&self, action: U) -> Self;

    /// `None` while play continues; `Some(reward)` once this state is
    /// terminal.
    spec fn spec_terminal(&self) -> Option<i64>;

    /// A finite-horizon witness: a measure that every legal move strictly
    /// decreases, so random rollouts reach a terminal state.
    spec fn spec_measure(&self) -> nat;

    /// Every non-terminal state offers at least one legal action.
    proof fn lemma_actions_nonempty(&self)
        requires
            self.spec_terminal() is None,
        ensures
            self.spec_actions().len() > 0,
    ;

    /// Every legal move from a non-terminal state strictly decreases the
    /// measure.
    proof fn lemma_measure_decreases(&self, action: U)
        requires
            self.spec_terminal() is None,
            self.spec_actions().contains(action),
        ensures
            self.spec_next(action).spec_measure() < self.spec_measure(),
    ;

    /// The legal actions, exactly as `spec_actions` lists them.
    fn get_actions(&self) -> (r: Vec<U>)
        ensures
            r@ == self.spec_actions(),
    ;

    /// Pure, deterministic transition; defined for every legal action.
    fn get_next_state(&self, action: U) -> (r: Self)
        requires
            self.spec_actions().contains(action),
        ensures
            r == self.spec_next(action),
    ;

    /// The terminal check, exactly as `spec_terminal` reports it.
    fn is_terminal(&self) -> (r: Option<i64>)
        ensures
            r == self.spec_terminal(),
    ;

    /// An owned copy of this state, equal to the original.
    fn clone_state(&self) -> (r: Self)
        ensures
            r == *self,
    ;
}

} // verus!
