//! Why a tokenizer could not be loaded.

use crate::text;
use vstd::prelude::*;

verus! {

/// Why a tokenizer could not be loaded.
#[derive(Debug)]
pub enum LoadError {
    /// A WordPiece vocabulary without its unknown token.
    MissingUnkToken { unk_token: String },
    /// A byte-level vocabulary without a token for a byte that text can hold.
    MissingByteToken { byte: u8 },
    /// A model of a family that is not supported.
    UnsupportedFamily { family: String },
    /// A text that is no `tokenizer.json` file.
    Malformed { detail: String },
    /// A file that asks for what is not supported.
    Refused { reason: String },
}

/// The text of the error on an unsupported family.
pub open spec fn unsupported(family: Seq<char>) -> Seq<char> {
    "Unsupported model type \""@ + family
        + "\": gigatoken supports BPE tokenizers (byte-level, or SentencePiece-style with byte_fallback) and WordPiece"@
}

impl LoadError {
    /// The text of the error.
    pub open spec fn text(&self) -> Seq<char> {
        match self {
            LoadError::MissingUnkToken { unk_token } => {
                "WordPiece vocab does not contain its unk_token "@ + text::debug_form(unk_token@)
            },
            LoadError::MissingByteToken { byte } => {
                "no token for byte "@ + text::decimal(*byte as nat)
            },
            LoadError::UnsupportedFamily { family } => { unsupported(family@) },
            LoadError::Malformed { detail } => { "Failed to parse tokenizer JSON: "@ + detail@ },
            LoadError::Refused { reason } => { reason@ },
        }
    }

    /// The text of the error.
    pub fn message(&self) -> (res: String)
        ensures
            res@ == self.text(),
    {
        match self {
            LoadError::MissingUnkToken { unk_token } => {
                let shown = text::quoted(unk_token.as_str());
                text::join("WordPiece vocab does not contain its unk_token ", shown.as_str())
            },
            LoadError::MissingByteToken { byte } => {
                let shown = text::show_decimal(*byte as u64);
                text::join("no token for byte ", shown.as_str())
            },
            LoadError::UnsupportedFamily { family } => {
                let named = text::join("Unsupported model type \"", family.as_str());
                text::join(
                    named.as_str(),
                    "\": gigatoken supports BPE tokenizers (byte-level, or SentencePiece-style with byte_fallback) and WordPiece",
                )
            },
            LoadError::Malformed { detail } => text::join(
                "Failed to parse tokenizer JSON: ",
                detail.as_str(),
            ),
            LoadError::Refused { reason } => reason.as_str().to_owned(),
        }
    }
}

} // verus!
