//! Text and the tables that are built from it.

pub mod text_item;
pub mod tokens;

pub use text_item::TextItem;
