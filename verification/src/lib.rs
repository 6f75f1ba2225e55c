//! A verified engine for a two-player, turn-based wall game. Each turn moves
//! the active player up to three hops and places a wall on one grid edge;
//! walls permanently block movement, and the game ends when the two players
//! are disconnected, scoring each the area of their own region.
//!
//! Every operation carries a contract over a mathematical model of the board:
//! breadth-first reachability is specified as bounded-hop reachability over
//! open edges, move legality as membership in the enumerated legal-move set,
//! and the laws module proves the global properties that tie them together.

pub mod board;
pub mod game;
pub mod geometry;
pub mod laws;
