//! The game engine: board set-up, the rules of a round and the log of a
//! game.

pub mod logging;
pub mod round;
pub mod setup;
