//! Shapes built from lines.
pub mod rectangle;
