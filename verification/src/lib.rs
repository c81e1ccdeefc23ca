//! Tokenizer building blocks with machine-checked contracts.

pub mod bpe;
pub mod byte_map;
pub mod error;
pub mod guarantees;
pub mod load_tokenizer;
pub mod order;
pub mod pretokenize;
pub mod text;
pub mod train;
pub mod utf8;

use vstd::prelude::*;

verus! {

/// Identifier of a vocabulary entry.
#[derive(Clone, Copy, Debug, PartialEq, Eq, PartialOrd, Ord, Hash)]
pub struct TokenId(pub u32);

} // verus!
