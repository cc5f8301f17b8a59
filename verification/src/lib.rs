//! A verified solver for the 6x6 sliding-block puzzle "Rush Hour".
//!
//! A board holds rectangular vehicles of length 2 or 3, each either
//! horizontal or vertical. A move slides one vehicle by one cell along its
//! axis. The goal is to bring the target vehicle (id 1) to the exit cell.
//!
//! The crate is organised as follows:
//! - [`model`]: the data types, the mathematical model of a puzzle state,
//!   and the invariant lemmas;
//! - [`board`]: loading a board into a vehicle table and an initial state,
//!   and rendering a state back into a grid;
//! - [`moves`]: the legal-move generator;
//! - [`search`]: the state-space search engine;
//! - [`replay`]: an independent replay validator that re-simulates a move
//!   sequence directly against a grid.

pub mod board;
pub mod model;
pub mod moves;
pub mod replay;
pub mod search;
