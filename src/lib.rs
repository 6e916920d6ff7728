//! A Minesweeper board engine: grid construction, mine seeding, adjacency
//! counting, flood reveal and completion queries, each with a verified contract.

pub mod cell;
pub mod grid;
pub mod adjacency;
pub mod mines;
pub mod flood;
pub mod game;
pub mod laws;
pub mod input;
