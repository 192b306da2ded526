pub mod cards;
pub mod streak;
pub mod player;
pub mod game;
