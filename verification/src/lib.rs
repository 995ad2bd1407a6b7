pub mod laws;
pub mod loader;
pub mod parse;
pub mod text;
pub mod utf8;

pub use loader::{dataset, load_text, Edge, LoadError, Update, EDGE_RELATION};
