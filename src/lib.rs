//! Renders vector drawing calls (rectangles, ellipses, lines, arrows, text) into a grid
//! of characters, and the grid into plain text or text with ANSI colors.
pub mod ellipse;
pub mod geometry;
pub mod grid;
pub mod laws;
pub mod line;
pub mod palette;
pub mod raster;
pub mod render;
pub mod text;
pub mod writer;

pub use geometry::Point;
pub use grid::Cell;
pub use palette::{Color, TermColor};
pub use writer::{ASCIIWriter, ClipHandle, StyleAttr};
