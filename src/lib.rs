//! Minesweeper board model: grid geometry, mine placement, tile state
//! machine, chain reveal and the win rule, with their contracts.

pub mod geometry;
pub mod tile;
pub mod board;
pub mod generator;
pub mod game;
