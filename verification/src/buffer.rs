//! Reader and writer traits that move bytes as borrowed or owned chunks, and adapters for them.
//!
//! The traits are free of cursors: what counts positions in a stream is layered on top.

pub mod error;
pub mod fallible;
pub mod laws;
pub mod reader;
pub mod writer;

pub use error::Error;
pub use fallible::Fallible;
