//! Puzzle engine for a grid game in which the player links paired points.
//!
//! A level is a set of text layouts. Parsing turns them into points and
//! obstacles on an integer lattice; the connection engine records the path
//! the player draws, refusing links that cross an obstacle or an earlier
//! link; a small state machine moves between menu and play.

pub mod blocking;
pub mod engine;
pub mod game;
pub mod geometry;
pub mod level;
pub mod loader;
pub mod pairing;
pub mod parser;
pub mod placement;
pub mod pointer;
pub mod quadratic;
pub mod text;
pub mod win;
