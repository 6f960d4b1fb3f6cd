//! Decoding of text written with backslash escapes back into the characters
//! it stands for.
pub mod escapes;
pub mod decoder;
pub mod laws;

pub use decoder::unescape;
