//! Water-sort puzzle core: bottles of stacked color units, a board that
//! orchestrates pours with one-level undo, move enumeration, and a bounded
//! depth-first solver, all with machine-checked contracts.

mod board;
mod bottle;
mod color;
mod moves;
mod render;
mod solver;

pub use board::BoardError;
pub use board::WaterSorting;
pub use bottle::Bottle;
pub use color::Color;
pub use moves::Pour;
pub use solver::WaterSolver;
