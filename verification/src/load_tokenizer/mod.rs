//! Loading tokenizers from files.

pub mod detect;
pub mod hf;
pub mod json;
pub mod laws;
pub mod schema;
pub mod sentencepiece;
pub mod vocab;
