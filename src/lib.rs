//! Tents and Trees: the puzzle model, a seeded level generator, a validator
//! for board states, and a ring-shaped neighborhood query over square grids.

pub mod board;
pub mod counts;
pub mod generator;
pub mod grid;
