//! Core rules of a small tile-based game: the level format, the sprite atlas
//! geometry, the resource cache and the decisions of the frame loop.

pub mod game;
pub mod resources;
pub mod utils;
