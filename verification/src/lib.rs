//! A turn-based engine for a settlement, trading and building game on a
//! hexagonal board: board topology, placement rules, the longest-road search,
//! scoring, enumeration of legal actions, execution of actions and the phase
//! machine that orders a turn.

pub mod backend;
