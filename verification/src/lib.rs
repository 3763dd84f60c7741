//! Gomoku on a 19×19 board: board state, shape scoring, position evaluation and an
//! alpha-beta search engine, with the game's settings, save data and screen logic.
pub mod board;
pub mod clock;
pub mod config;
pub mod engine;
pub mod i18n;
pub mod savestate;
pub mod scene;
