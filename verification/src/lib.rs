//! Per-author word-frequency tables and the binary container that stores them.

pub mod order;
pub mod pairing;
pub mod table;
pub mod merge;
pub mod text;
pub mod serializer;

pub use table::{AuthorFrequencyTable, WordFrequencyTable};
