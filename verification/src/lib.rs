//! Verified solvers for a set of small line-oriented text puzzles:
//! calibration-digit extraction, cube-game record checking, and a
//! schematic grid scanner that sums numbers adjacent to symbols.

pub mod calibration;
pub mod cube_game;
pub mod schematic;
pub mod text;
