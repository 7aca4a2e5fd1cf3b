//! What a sieve needs from an automaton, and nothing more.
//!
//! A sieve never parses a pattern — it reads a finished DFA, so a pattern means here
//! exactly what it means to the engine that will run the confirming search. [`Dfa`]
//! is that argument written down: the questions the projection and the rival's price
//! ask, stated as a contract a caller can satisfy rather than a dependency they must
//! adopt.
//!
//! # The obligation a caller takes on
//!
//! The quotient over-approximates *this* automaton. So the DFA handed over must be the
//! one that confirms — or one whose language is a superset of it. Nothing here can
//! check that.

use vstd::prelude::*;

verus! {

/// A byte-oriented deterministic automaton a sieve can be built from.
///
/// Each question comes with the mathematical answer it stands for, so what a sieve
/// proves about a document is proved about *this* automaton's runs.
pub trait Dfa {
    /// Whatever names a state. Opaque to this crate; equality is all it is asked for.
    type State: Copy + Ord;

    /// The unanchored start state for a forward search, if the automaton has one.
    spec fn start_spec(&self) -> Option<Self::State>;

    /// The state reached from `state` on `byte`.
    spec fn next_spec(&self, state: Self::State, byte: u8) -> Self::State;

    /// The state reached from `state` at end of input.
    spec fn next_eoi_spec(&self, state: Self::State) -> Self::State;

    /// Does a run that has reached `state` have a match in hand?
    spec fn is_match_spec(&self, state: Self::State) -> bool;

    /// Can this state abandon the search mid-scan?
    spec fn is_quit_spec(&self, state: Self::State) -> bool;

    /// The unanchored start state for a forward search, or `None` when this automaton
    /// cannot say — which every caller here reads as "decline".
    fn start(&self) -> (r: Option<Self::State>)
        ensures
            r == self.start_spec(),
    ;

    /// The state reached from `state` on `byte`.
    fn next(&self, state: Self::State, byte: u8) -> (r: Self::State)
        ensures
            r == self.next_spec(state, byte),
    ;

    /// The state reached from `state` at end of input, which is where a `$`-anchored
    /// pattern's acceptance shows up.
    fn next_eoi(&self, state: Self::State) -> (r: Self::State)
        ensures
            r == self.next_eoi_spec(state),
    ;

    /// Does a run that has reached `state` have a match in hand?
    fn is_match(&self, state: Self::State) -> (r: bool)
        ensures
            r == self.is_match_spec(state),
    ;

    /// Can this state abandon the search mid-scan? A sieve declines any automaton
    /// that reaches one, because a continuous run does not model quitting.
    fn is_quit(&self, state: Self::State) -> (r: bool)
        ensures
            r == self.is_quit_spec(state),
    ;

    /// The byte values this automaton will skip past while sitting in `state` — what
    /// the rival's price is read from. An empty slice claims the engine walks every
    /// byte.
    fn accelerator(&self, state: Self::State) -> &[u8];
}

/// The state `dfa` reaches from `state` after reading `hay`.
pub open spec fn dfa_run<D: Dfa>(dfa: &D, state: D::State, hay: Seq<u8>) -> D::State
    decreases hay.len(),
{
    if hay.len() == 0 {
        state
    } else {
        dfa.next_spec(dfa_run(dfa, state, hay.drop_last()), hay.last())
    }
}

/// A run that has reached `state` has a match in hand, now or at end of input.
pub open spec fn matches_at<D: Dfa>(dfa: &D, state: D::State) -> bool {
    dfa.is_match_spec(state) || dfa.is_match_spec(dfa.next_eoi_spec(state))
}

/// Some prefix of `hay`, the empty one included, leaves a run from `state` with a
/// match in hand.
pub open spec fn matches_along<D: Dfa>(dfa: &D, state: D::State, hay: Seq<u8>) -> bool
    decreases hay.len(),
{
    if hay.len() == 0 {
        matches_at(dfa, state)
    } else {
        matches_along(dfa, state, hay.drop_last()) || matches_at(dfa, dfa_run(dfa, state, hay))
    }
}

/// `dfa` has a start state and the document `hay` holds a match for it: some prefix
/// of `hay` reaches a state that matches, now or at end of input.
pub open spec fn has_match<D: Dfa>(dfa: &D, hay: Seq<u8>) -> bool {
    match dfa.start_spec() {
        Some(s) => matches_along(dfa, s, hay),
        None => false,
    }
}

/// Some byte string leads `dfa` from its start state to `state`.
pub open spec fn reachable<D: Dfa>(dfa: &D, state: D::State) -> bool {
    &&& dfa.start_spec() is Some
    &&& exists|hay: Seq<u8>| #[trigger] dfa_run(dfa, dfa.start_spec()->Some_0, hay) == state
}

} // verus!
