//! A bot for the Bitdefenders arena game: board geometry, the scoring of
//! positions, a shortest-path search, and the bot that turns each server message
//! into orders for its heroes.

pub mod bot;
pub mod cli;
pub mod evaluator;
pub mod geometry;
mod open_list;
pub mod pathfinding;
pub mod protocol;

pub use crate::cli::Mode;
