//! Small feed-forward networks that learn to play a game of snake by
//! evolution: matrices of a fixed shape, the networks made of them, the game
//! that scores them, and the generations that breed them.

pub mod dice;
pub mod draws;
pub mod evolution;
pub mod fitness;
pub mod matrix;
pub mod network;
pub mod scalar;
pub mod snake_game;
pub mod snake_model;
