//! Splitting text into pretokens.

pub mod fast;
pub mod gpt2_pieces;
pub mod options;
pub mod pattern;
pub mod schemes;
pub mod stage1_pieces;
pub mod unicode;
pub mod walker;
