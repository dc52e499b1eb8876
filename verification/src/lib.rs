//! A small arcade shooter's game logic: random numbers, pixel drawing,
//! bitmap text, collision tests, the high-score table, keyboard state and
//! the flow between the game's screens.

pub mod assets;
pub mod combat;
pub mod drawing;
pub mod entities;
pub mod game;
pub mod input;
pub mod leaderboard;
pub mod rng;
pub mod stars;
pub mod text;
pub mod ui;
pub mod wave;
pub mod waves;
