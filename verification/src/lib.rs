//! A Wordle game library: answer colouring, keyboard tracking, hard-mode
//! checks, argument handling, saved-state bookkeeping and statistics.

pub mod arg_parse;
pub mod config;
pub mod engine;
pub mod game;
pub mod json;
pub mod state;
pub mod stats;
pub mod text;
pub mod utilities;
pub mod words;
