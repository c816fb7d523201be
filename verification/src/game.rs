//! Generic interfaces between a game engine and its players.

use vstd::prelude::*;

verus! {

/// A player of a game: asked for one action at a time, given a
/// restricted view of the game state and the set of legal actions.
pub trait GamePlayer<StateT, ActionT> {
    fn get_action(&self, state: &StateT, actions: &Vec<ActionT>) -> ActionT;
}

/// A game engine: drives a full session of the game. An engine states
/// when it is ready to run; a session may only start from such a state.
pub trait GameEngine<StateT, ActionT> {
    spec fn ready(&self) -> bool;

    fn run(&mut self)
        requires
            old(self).ready(),
    ;
}

} // verus!
