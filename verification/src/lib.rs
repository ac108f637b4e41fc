pub mod game;
pub mod zkp;
