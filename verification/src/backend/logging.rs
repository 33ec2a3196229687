//! The log of a game, step by step, and the summaries drawn from it.

pub mod log_entry;
pub mod player_summary;
pub mod summary;
