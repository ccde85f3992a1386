//! Terminal chess: board rules, position evaluation and search.

pub mod game;
pub mod text;
pub mod engine;
pub mod ui;
pub mod tiles;
pub mod visuals;
