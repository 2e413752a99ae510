//! Rules and targeting engine of a two-player Battleship game on a 10x10 grid.

pub mod fleet;
pub mod game;
pub mod grid;
pub mod messages;
pub mod player;
pub mod random;
pub mod settings;
pub mod ship;
