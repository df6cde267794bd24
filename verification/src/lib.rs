//! Core of a text-driven battle map: a coordinate codec between chess-style
//! cell names and zero-based grid indices, a line-oriented command grammar,
//! and a dispatcher that merges partial updates into the game state.
pub mod chess;
pub mod commands;
pub mod dice;
pub mod domain;
pub mod game;
mod text;
