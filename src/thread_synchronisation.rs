use vstd::prelude::*;
use crate::game::{Color, Position2, VictoryState};

verus! {

/// A message to the game from the window.
#[derive(Clone, Debug)]
pub enum CoreEvent {
    DebugOutput(String),
    Action { action: Position2, color: Color },
    Halt,
}

/// A message to the window from the game.
#[derive(Clone, Debug)]
pub enum UiEvent {
    StartTurn,
    GameOver(VictoryState),
    RenderAction { action: Position2, color: Color },
}

/// A player at the console.
#[derive(Copy, Clone, Debug, PartialEq, Eq)]
pub enum HumanPlayer {
    Active,
}

} // verus!
