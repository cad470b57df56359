//! Terminal cherry blossom screensaver: the verified core.
//!
//! The library holds the cell grid that a frame is composed in, the
//! commands that paint a grid onto a terminal, the scaling of tree art onto
//! the grid, the parsing of colour arguments and the decision taken on each
//! terminal event.

pub mod art;
pub mod buffer;
pub mod cli;
pub mod color;
pub mod input;
pub mod paint;
pub mod text;
