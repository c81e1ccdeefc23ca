//! Merging pretokens into tokens.

pub mod bert_normalizer;
pub mod boundaries;
pub mod byte_remapping;
pub mod cuts;
pub mod decode;
pub mod merge;
pub mod plan;
pub mod round_trip;
pub mod superword;
pub mod tiktoken;
pub mod two_levels;
pub mod wordpiece;
