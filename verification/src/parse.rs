//! Reading a command script against a schema.

pub mod argument;
pub mod context;
pub mod emit;
pub mod cst;
pub mod errors;
pub mod laws;
pub mod reader;

pub use context::ParseContext;
pub use reader::Reader;
