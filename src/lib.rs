//! A rectangular grid numbered along a clockwise inward spiral, with each
//! side of each ring of the spiral drawn in its own colour of a 16-colour
//! palette.

pub mod laws;
pub mod matrix;
pub mod model;
pub mod render;

pub use model::PALETTE_SIZE;
pub use matrix::{ColoredCell, ColoredMatrix, GridError, DEFAULT_COLOR};
pub use render::{decimal_len, render_field};
