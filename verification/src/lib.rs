//! A tic-tac-toe move-selection engine.
//!
//! The machine's next move is chosen by matching the game history against a
//! catalogue of scripted move sequences connected by a "one move later"
//! graph, with a random legal move as fallback.

pub mod game_logic;
pub mod win_graph;
