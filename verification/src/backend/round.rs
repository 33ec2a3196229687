//! The rules of a round: actions, phases, scoring and the longest road.

pub mod cards;
pub mod outcome;
pub mod phase;
pub mod longest_road;
pub mod score;
pub mod budget;
pub mod action;
pub mod round_struct;
pub mod rules;
pub mod moves;
pub mod legal;
pub mod flow;
pub mod legality;
pub mod progress;
pub mod opening;
pub mod agreement;
