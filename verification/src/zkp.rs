pub mod battleship_verification;
pub mod types;
