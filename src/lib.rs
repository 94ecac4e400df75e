//! Sogo: four in a row on a 4 x 4 x 4 board, with search-based players.
//!
//! `game` holds the board, its winning shapes and the incremental win check;
//! `ai` the players, among them Monte Carlo tree search over an arena of
//! nodes; `replay` the record of a game. Every function carries a contract.
//! The contracts are proved, except those of two trusted wrappers: the
//! random choice of an element (`ai::choose_one`, from rand) and appending a
//! character to a `String`.

pub mod helpers;
pub mod game;
pub mod lines;
pub mod ai;
pub mod replay;
pub mod game_view;
pub mod thread_synchronisation;
