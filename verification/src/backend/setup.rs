//! Board topology, the pieces on the board and the state of a game.

pub mod shape;
pub mod topology;
pub mod hexagons;
pub mod degree;
pub mod edge;
pub mod dice;
pub mod node_status;
pub mod harbor;
pub mod settlement;
pub mod city;
pub mod road;
pub mod node;
pub mod tile;
pub mod placement;
pub mod player;
pub mod game_parameters;
pub mod board;
pub mod game;
