use vstd::prelude::*;
use std::sync::Arc;
use crate::game::{Position2, Structure, VictoryState};
use crate::replay::History;

verus! {

/// What the board view waits for.
#[derive(Copy, Clone, Debug, PartialEq, Eq, Structural)]
pub enum Phase {
    Waiting,
    Input,
    GameOver(VictoryState),
}

/// The state of a board view: the game with its history, the column under
/// the pointer, and the phase.
pub struct State {
    pub replay: History,
    pub hint: Option<Position2>,
    pub phase: Phase,
}

impl State {
    pub fn empty(structure: Arc<Structure>) -> (r: State)
        requires
            structure.wf(),
        ensures
            r.replay.wf(),
            r.replay.shows_replay(),
            r.replay.moves().len() == 0,
            r.replay.live(),
            r.hint is None,
            r.phase == Phase::Waiting,
    {
        State { replay: History::new(structure), hint: None, phase: Phase::Waiting }
    }
}

} // verus!
