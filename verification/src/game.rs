pub mod battleship;
pub mod field;
pub mod ship;
