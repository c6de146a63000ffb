//! Log piles on a square grid, and the rule by which new logs are stacked on
//! them: each log goes on the first pile, row by row, that is as low as any.
//!
//! [`grid::Grid`] is read from lines of text, takes logs with
//! [`grid::Grid::add_logs`], and is written as text again; [`answer::answer`]
//! does all three. [`piles`] states the stacking rule on a plain sequence of
//! heights, and [`laws`] what follows from it for every grid.

pub mod answer;
pub mod decimal;
pub mod error;
pub mod grid;
pub mod input;
pub mod laws;
pub mod layout;
pub mod piles;
pub mod row;
pub mod scan;
pub mod words;

pub use answer::answer;
pub use error::{Field, InputError};
pub use grid::Grid;
pub use input::{read_input, read_usize};
