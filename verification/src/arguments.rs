//! Values that arguments can take, apart from their place in a source text.

pub mod color;

pub use color::ChatColor;
