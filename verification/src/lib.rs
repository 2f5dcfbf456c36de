pub mod apply;
pub mod chance;
pub mod game;
pub mod movegen;
pub mod node;
pub mod playout;
pub mod render;
pub mod search;
