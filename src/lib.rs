//! Connect Four with a Monte Carlo tree search opponent.
//!
//! `game` holds the board: seven columns of six rows, stones labelled relative
//! to the player to move. `mcts` holds the search tree, a petgraph graph of
//! moves over nodes that carry a board and reward and visit counters, and the
//! phases of one search round.

pub mod game;
pub mod mcts;
