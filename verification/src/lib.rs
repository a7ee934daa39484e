//! Core engine of a falling-block puzzle game: piece geometry and rotation,
//! collision detection, gravity stepping, line clearing, board growth, and a
//! versioned binary codec for durable game state.
//!
//! The engine is pure with respect to the outside world: rendering, input,
//! timing and file handling live with the caller, which drives the engine
//! through the functions of [`game`] and persists boards with [`codec`].

pub mod codec;
pub mod game;
pub mod piece;
pub mod pool;
