//! The binary container: how a table of authors is written to bytes and read
//! back from them.

pub mod feedback;
pub mod integers;
pub mod marker;
pub mod format;
pub mod scanner;
pub mod encoder;
pub mod decoder;
pub mod extractor;
pub mod noise;
pub mod stream;
pub mod laws;
pub mod damage;

pub use decoder::{
    deserialize, establish_freqs, try_deserialize_Nov2022A, try_deserialize_original, Action,
};
pub use encoder::serialize_with_writer;
pub use extractor::extract_user;
pub use feedback::FnFeedback;
pub use format::RGFileFormat;
pub use marker::Marker;
