pub mod ai;
pub mod communication;
pub mod game_logic;
pub mod session;
