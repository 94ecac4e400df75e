use vstd::prelude::*;
use crate::ai::{choose_one, StatelessAI};
use crate::game::{Position2, State};

verus! {

/// Plays a uniformly random legal move.
pub struct RandomSogoAI {}

impl RandomSogoAI {
    pub fn new() -> (r: RandomSogoAI) {
        RandomSogoAI {}
    }
}

impl StatelessAI for RandomSogoAI {
    open spec fn ready(&self) -> bool {
        true
    }

    fn action(&self, state: &State) -> (r: Position2) {
        let legal_actions = state.legal_actions();
        proof {
            crate::game::lemma_open_column(*state);
            let c = choose|c: int| 0 <= c < 16 && #[trigger] state.column_height@[c] < 4;
            assert(legal_actions@.contains(Position2(c as u8)));
        }
        match choose_one(&legal_actions) {
            Some(action) => action,
            None => legal_actions[0],
        }
    }
}

} // verus!
