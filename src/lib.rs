pub mod cell;
pub mod board;
pub mod game;
pub mod search;
pub mod render;
