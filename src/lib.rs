//! A solver for partially revealed Minesweeper boards: parsing and
//! rendering, a local consistency check, forced-move propagation, an
//! exhaustive memoised search for consistent completions, and a summary
//! of what every completion agrees on.
pub mod cell;
pub mod text;
pub mod grid;
pub mod validate;
pub mod propagate;
pub mod search;
pub mod compile;
pub mod parse;
pub mod laws;
