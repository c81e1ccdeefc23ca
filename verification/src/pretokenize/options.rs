//! The choice of a pretokenizer.

use crate::text;
use vstd::prelude::*;

verus! {

/// The pretokenization schemes.
#[derive(Clone, Copy, Debug, PartialEq, Eq, Structural)]
pub enum PretokenizerType {
    GPT2,
    SuperBPEStage1,
    Superword,
    SuperwordBounded,
    Bert,
}

/// The expression that the GPT-2 scheme splits by.
pub const GPT2_REGEX: &'static str =
    "'(?:[sdmt]|ll|ve|re)| ?\\p{L}+| ?\\p{N}+| ?[^\\s\\p{L}\\p{N}]+|\\s+(?!\\S)|\\s+";

/// The expression that the first stage of SuperBPE splits by.
pub const STAGE1_REGEX: &'static str =
    "[^\\r\\n\\p{L}\\p{N}]?[\\p{Lu}\\p{Lt}\\p{Lm}\\p{Lo}\\p{M}]*[\\p{Ll}\\p{Lm}\\p{Lo}\\p{M}]+|[^\\r\\n\\p{L}\\p{N}]?[\\p{Lu}\\p{Lt}\\p{Lm}\\p{Lo}\\p{M}]+[\\p{Ll}\\p{Lm}\\p{Lo}\\p{M}]*|\\p{N}{1,3}| ?[^\\s\\p{L}\\p{N}]+[\\r\\n/]*|\\s*[\\r\\n]+|\\s+(?!\\S)|\\s+";

/// The expression that bounded superwords are split by.
pub const SUPERWORD_BOUNDED_REGEX: &'static str =
    "\\p{N}{1,3}| ?[^\\s\\p{L}\\p{N}]{2,}[\\r\\n/]*| +(?!\\S)";

/// The scheme that splits by given expressions.
pub open spec fn scheme_of_regexes(regexes: Seq<Seq<char>>) -> Option<PretokenizerType> {
    if regexes.len() != 1 {
        None
    } else if regexes[0] == GPT2_REGEX@ {
        Some(PretokenizerType::GPT2)
    } else if regexes[0] == STAGE1_REGEX@ {
        Some(PretokenizerType::SuperBPEStage1)
    } else if regexes[0] == SUPERWORD_BOUNDED_REGEX@ {
        Some(PretokenizerType::SuperwordBounded)
    } else {
        None
    }
}

impl PretokenizerType {
    /// The scheme that splits by given expressions.
    pub fn from_split_regexes(regexes: &Vec<String>) -> (res: Option<PretokenizerType>)
        ensures
            res == scheme_of_regexes(text::texts(regexes@)),
    {
        if regexes.len() != 1 {
            return None;
        }
        let regex = regexes[0].as_str();
        if text::same(regex, GPT2_REGEX) {
            Some(PretokenizerType::GPT2)
        } else if text::same(regex, STAGE1_REGEX) {
            Some(PretokenizerType::SuperBPEStage1)
        } else if text::same(regex, SUPERWORD_BOUNDED_REGEX) {
            Some(PretokenizerType::SuperwordBounded)
        } else {
            None
        }
    }
}

} // verus!
