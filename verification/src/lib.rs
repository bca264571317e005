//! Rules, solver and move validation of a binary-symbol grid puzzle: every
//! row and column holds as many `X` as `Y`, no three equal symbols stand next
//! to each other, and `=` / `x` marks between neighbours demand equal or
//! different symbols.

pub mod grid_cell;
pub mod rules;
pub mod entries;
pub mod text;
pub mod level_builder;
pub mod level;
pub mod level_manager;
pub mod level_generator;
