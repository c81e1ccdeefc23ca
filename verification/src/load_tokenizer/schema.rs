//! The parts of a `tokenizer.json` file that matter here.

use super::json;
use super::json::{Doc, Json};
use crate::byte_map::ByteMap;
use crate::text;
use crate::utf8;
use crate::TokenId;
use vstd::prelude::*;
use vstd::slice::slice_to_vec;
use vstd::utf8::*;

verus! {

/// A pattern: a regular expression or a literal text.
#[derive(Debug)]
pub struct PatternJson {
    pub regex: Option<String>,
    pub literal: Option<String>,
}

/// The `normalizer` block.
#[derive(Debug)]
pub struct NormalizerJson {
    pub kind: String,
    pub normalizers: Vec<NormalizerJson>,
    /// `Prepend`: the prefix.
    pub prepend: Option<String>,
    /// `Replace`: the pattern and its replacement.
    pub pattern: Option<PatternJson>,
    pub content: Option<String>,
    /// `Strip`: the sides.
    pub strip_left: Option<bool>,
    pub strip_right: Option<bool>,
    /// `Precompiled`: the character map, in base64.
    pub precompiled_charsmap: Option<String>,
    /// `BertNormalizer`: the steps. Accents follow `lowercase` where nothing is
    /// said of them.
    pub clean_text: Option<bool>,
    pub handle_chinese_chars: Option<bool>,
    pub strip_accents: Option<bool>,
    pub lowercase: Option<bool>,
}

/// The `pre_tokenizer` block.
#[derive(Debug)]
pub struct PreTokenizerJson {
    pub kind: String,
    pub pretokenizers: Vec<PreTokenizerJson>,
    /// `Split`: the pattern.
    pub pattern: Option<PatternJson>,
    /// `Metaspace`: the mark and where it is put in front.
    pub replacement: Option<String>,
    pub prepend_scheme: Option<String>,
    /// `ByteLevel`, and an older spelling of `prepend_scheme`.
    pub add_prefix_space: Option<bool>,
    /// `ByteLevel`: whether it splits at all.
    pub use_regex: Option<bool>,
    pub split: Option<bool>,
    /// `Split`: where the separator goes.
    pub behavior: Option<String>,
}

/// The `decoder` block.
#[derive(Debug)]
pub struct DecoderJson {
    pub kind: String,
    pub decoders: Vec<DecoderJson>,
    pub prefix: Option<String>,
    pub cleanup: Option<bool>,
}

/// An added token.
#[derive(Debug)]
pub struct AddedToken {
    pub id: u32,
    pub content: String,
    pub special: bool,
    pub lstrip: bool,
    pub rstrip: bool,
    pub normalized: bool,
}

/// The `model` block.
#[derive(Debug)]
pub struct Model {
    pub model_type: String,
    /// The entries, each name once.
    pub vocab: Vec<(String, TokenId)>,
    pub merges: Vec<(String, String)>,
    pub byte_fallback: bool,
    pub unk_token: Option<String>,
    pub continuing_subword_prefix: Option<String>,
    pub max_input_chars_per_word: Option<usize>,
    pub ignore_merges: bool,
}

/// A `tokenizer.json` file.
#[derive(Debug)]
pub struct TokenizerJson {
    pub model: Model,
    pub added_tokens: Vec<AddedToken>,
    pub pre_tokenizer: Option<PreTokenizerJson>,
    pub normalizer: Option<NormalizerJson>,
    pub decoder: Option<DecoderJson>,
}

/// What is wrong with a pattern.
pub open spec fn pattern_fault(j: Doc) -> Option<Seq<char>> {
    json::first(
        json::record_fault(j, "pattern"@, 2),
        json::first(
            json::opt_text_fault(j, "Regex"@, 0),
            json::opt_text_fault(j, "String"@, 1),
        ),
    )
}

/// Whether a pattern is the one that a document stands for.
pub open spec fn reads_pattern(j: Doc, p: PatternJson) -> bool {
    &&& json::opt_text(p.regex) == json::text_at(j, "Regex"@, 0)
    &&& json::opt_text(p.literal) == json::text_at(j, "String"@, 1)
}

fn read_pattern(j: &Json) -> (res: Result<PatternJson, String>)
    ensures
        match res {
            Ok(p) => pattern_fault(j@) is None && reads_pattern(j@, p),
            Err(e) => pattern_fault(j@) == Some(e@),
        },
{
    json::check_record(j, "pattern", 2)?;
    let regex = json::opt_string(j, "Regex", 0)?;
    let literal = json::opt_string(j, "String", 1)?;
    Ok(PatternJson { regex, literal })
}

/// What is wrong with a pattern field that may be absent or null.
pub open spec fn opt_pattern_fault(j: Doc, k: int) -> Option<Seq<char>> {
    json::first(
        json::field_fault(j, "pattern"@),
        if json::blank(j, "pattern"@, k) {
            None
        } else {
            pattern_fault(json::field(j, "pattern"@, k)->0)
        },
    )
}

/// Whether a pattern field is the one that a document stands for.
pub open spec fn reads_opt_pattern(j: Doc, k: int, p: Option<PatternJson>) -> bool {
    if json::blank(j, "pattern"@, k) {
        p is None
    } else {
        p matches Some(p) && reads_pattern(json::field(j, "pattern"@, k)->0, p)
    }
}

fn read_opt_pattern(j: &Json, k: usize) -> (res: Result<Option<PatternJson>, String>)
    ensures
        match res {
            Ok(p) => opt_pattern_fault(j@, k as int) is None && reads_opt_pattern(j@, k as int, p),
            Err(e) => opt_pattern_fault(j@, k as int) == Some(e@),
        },
{
    match json::get(j, "pattern", k)? {
        None => Ok(None),
        Some(v) => match v {
            Json::Null => Ok(None),
            _ => {
                let p = read_pattern(v)?;
                Ok(Some(p))
            },
        },
    }
}

/// What is wrong with a `normalizer` block, its children aside.
pub open spec fn normalizer_own_fault(j: Doc) -> Option<Seq<char>> {
    json::first(
        json::record_fault(j, "normalizer"@, 12),
        json::first(
            json::text_fault(j, "type"@, 0),
            json::first(
                json::items_fault(j, "normalizers"@, 1),
                json::first(
                    json::opt_text_fault(j, "prepend"@, 2),
                    json::first(
                        opt_pattern_fault(j, 3),
                        json::first(
                            json::opt_text_fault(j, "content"@, 4),
                            json::first(
                                json::opt_bool_fault(j, "strip_left"@, 5),
                                json::first(
                                    json::opt_bool_fault(j, "strip_right"@, 6),
                                    json::first(
                                        json::opt_text_fault(j, "precompiled_charsmap"@, 7),
                                        json::first(
                                            json::opt_bool_fault(j, "clean_text"@, 8),
                                            json::first(
                                                json::opt_bool_fault(j, "handle_chinese_chars"@, 9),
                                                json::first(
                                                    json::opt_bool_fault(j, "strip_accents"@, 10),
                                                    json::opt_bool_fault(j, "lowercase"@, 11),
                                                ),
                                            ),
                                        ),
                                    ),
                                ),
                            ),
                        ),
                    ),
                ),
            ),
        ),
    )
}

/// What is wrong with a `normalizer` block or, from the outside in, with the ones
/// inside.
pub open spec fn normalizer_fault(j: Doc) -> Option<Seq<char>>
    decreases j, 0int,
{
    json::first(
        normalizer_own_fault(j),
        match json::field(j, "normalizers"@, 1) {
            Some(Doc::Arr(items)) => {
                proof {
                    json::lemma_field_smaller(j, "normalizers"@, 1);
                }
                normalizers_fault(items, 0)
            },
            _ => None,
        },
    )
}

/// What is wrong with the blocks from index `i` on.
pub open spec fn normalizers_fault(items: Seq<Doc>, i: int) -> Option<Seq<char>>
    decreases items, items.len() - i,
{
    if i < 0 || i >= items.len() {
        None
    } else {
        json::first(normalizer_fault(items[i]), normalizers_fault(items, i + 1))
    }
}

/// Whether a block is the one that a document stands for.
pub open spec fn reads_normalizer(j: Doc, n: NormalizerJson) -> bool
    decreases n,
{
    &&& json::text_at(j, "type"@, 0) == Some(n.kind@)
    &&& json::opt_text(n.prepend) == json::text_at(j, "prepend"@, 2)
    &&& reads_opt_pattern(j, 3, n.pattern)
    &&& json::opt_text(n.content) == json::text_at(j, "content"@, 4)
    &&& n.strip_left == json::bool_at(j, "strip_left"@, 5)
    &&& n.strip_right == json::bool_at(j, "strip_right"@, 6)
    &&& json::opt_text(n.precompiled_charsmap) == json::text_at(j, "precompiled_charsmap"@, 7)
    &&& n.clean_text == json::bool_at(j, "clean_text"@, 8)
    &&& n.handle_chinese_chars == json::bool_at(j, "handle_chinese_chars"@, 9)
    &&& n.strip_accents == json::bool_at(j, "strip_accents"@, 10)
    &&& n.lowercase == json::bool_at(j, "lowercase"@, 11)
    &&& n.normalizers@.len() == json::items_at(j, "normalizers"@, 1).len()
    &&& forall|i: int|
        0 <= i < n.normalizers@.len() ==> reads_normalizer(
            json::items_at(j, "normalizers"@, 1)[i],
            #[trigger] n.normalizers@[i],
        )
}

fn read_normalizer(j: &Json) -> (res: Result<NormalizerJson, String>)
    ensures
        match res {
            Ok(n) => normalizer_fault(j@) is None && reads_normalizer(j@, n),
            Err(e) => normalizer_fault(j@) == Some(e@),
        },
    decreases j@,
{
    json::check_record(j, "normalizer", 12)?;
    let kind = json::string(j, "type", 0)?;
    let list = json::items(j, "normalizers", 1)?;
    let prepend = json::opt_string(j, "prepend", 2)?;
    let pattern = read_opt_pattern(j, 3)?;
    let content = json::opt_string(j, "content", 4)?;
    let strip_left = json::opt_bool(j, "strip_left", 5)?;
    let strip_right = json::opt_bool(j, "strip_right", 6)?;
    let precompiled_charsmap = json::opt_string(j, "precompiled_charsmap", 7)?;
    let clean_text = json::opt_bool(j, "clean_text", 8)?;
    let handle_chinese_chars = json::opt_bool(j, "handle_chinese_chars", 9)?;
    let strip_accents = json::opt_bool(j, "strip_accents", 10)?;
    let lowercase = json::opt_bool(j, "lowercase", 11)?;
    let mut normalizers: Vec<NormalizerJson> = Vec::new();
    let ghost docs = json::items_at(j@, "normalizers"@, 1);
    match list {
        Some(list) => {
            let mut i: usize = 0;
            while i < list.len()
                invariant
                    normalizer_own_fault(j@) is None,
                    docs == json::items_at(j@, "normalizers"@, 1),
                    docs == json::docs(list@),
                    json::field(j@, "normalizers"@, 1) == Some(Doc::Arr(docs)),
                    i <= list@.len(),
                    normalizers@.len() == i,
                    normalizer_fault(j@) == normalizers_fault(docs, i as int),
                    forall|m: int|
                        0 <= m < i ==> reads_normalizer(docs[m], #[trigger] normalizers@[m]),
                decreases list@.len() - i,
            {
                proof {
                    json::lemma_items_smaller(j@, "normalizers"@, 1, i as int);
                    assert(docs[i as int] == list@[i as int]@);
                }
                let child = read_normalizer(&list[i])?;
                normalizers.push(child);
                i += 1;
            }
        },
        None => {},
    }
    Ok(
        NormalizerJson {
            kind,
            normalizers,
            prepend,
            pattern,
            content,
            strip_left,
            strip_right,
            precompiled_charsmap,
            clean_text,
            handle_chinese_chars,
            strip_accents,
            lowercase,
        },
    )
}

/// What is wrong with a `pre_tokenizer` block, its children aside.
pub open spec fn pre_tokenizer_own_fault(j: Doc) -> Option<Seq<char>> {
    json::first(
        json::record_fault(j, "pre_tokenizer"@, 9),
        json::first(
            json::text_fault(j, "type"@, 0),
            json::first(
                json::items_fault(j, "pretokenizers"@, 1),
                json::first(
                    opt_pattern_fault(j, 2),
                    json::first(
                        json::opt_text_fault(j, "replacement"@, 3),
                        json::first(
                            json::opt_text_fault(j, "prepend_scheme"@, 4),
                            json::first(
                                json::opt_bool_fault(j, "add_prefix_space"@, 5),
                                json::first(
                                    json::opt_bool_fault(j, "use_regex"@, 6),
                                    json::first(
                                        json::opt_bool_fault(j, "split"@, 7),
                                        json::opt_text_fault(j, "behavior"@, 8),
                                    ),
                                ),
                            ),
                        ),
                    ),
                ),
            ),
        ),
    )
}

/// What is wrong with a `pre_tokenizer` block or, from the outside in, with the ones
/// inside.
pub open spec fn pre_tokenizer_fault(j: Doc) -> Option<Seq<char>>
    decreases j, 0int,
{
    json::first(
        pre_tokenizer_own_fault(j),
        match json::field(j, "pretokenizers"@, 1) {
            Some(Doc::Arr(items)) => {
                proof {
                    json::lemma_field_smaller(j, "pretokenizers"@, 1);
                }
                pretokenizers_fault(items, 0)
            },
            _ => None,
        },
    )
}

/// What is wrong with the blocks from index `i` on.
pub open spec fn pretokenizers_fault(items: Seq<Doc>, i: int) -> Option<Seq<char>>
    decreases items, items.len() - i,
{
    if i < 0 || i >= items.len() {
        None
    } else {
        json::first(pre_tokenizer_fault(items[i]), pretokenizers_fault(items, i + 1))
    }
}

/// Whether a block is the one that a document stands for.
pub open spec fn reads_pre_tokenizer(j: Doc, n: PreTokenizerJson) -> bool
    decreases n,
{
    &&& json::text_at(j, "type"@, 0) == Some(n.kind@)
    &&& reads_opt_pattern(j, 2, n.pattern)
    &&& json::opt_text(n.replacement) == json::text_at(j, "replacement"@, 3)
    &&& json::opt_text(n.prepend_scheme) == json::text_at(j, "prepend_scheme"@, 4)
    &&& n.add_prefix_space == json::bool_at(j, "add_prefix_space"@, 5)
    &&& n.use_regex == json::bool_at(j, "use_regex"@, 6)
    &&& n.split == json::bool_at(j, "split"@, 7)
    &&& json::opt_text(n.behavior) == json::text_at(j, "behavior"@, 8)
    &&& n.pretokenizers@.len() == json::items_at(j, "pretokenizers"@, 1).len()
    &&& forall|i: int|
        0 <= i < n.pretokenizers@.len() ==> reads_pre_tokenizer(
            json::items_at(j, "pretokenizers"@, 1)[i],
            #[trigger] n.pretokenizers@[i],
        )
}

fn read_pre_tokenizer(j: &Json) -> (res: Result<PreTokenizerJson, String>)
    ensures
        match res {
            Ok(n) => pre_tokenizer_fault(j@) is None && reads_pre_tokenizer(j@, n),
            Err(e) => pre_tokenizer_fault(j@) == Some(e@),
        },
    decreases j@,
{
    json::check_record(j, "pre_tokenizer", 9)?;
    let kind = json::string(j, "type", 0)?;
    let list = json::items(j, "pretokenizers", 1)?;
    let pattern = read_opt_pattern(j, 2)?;
    let replacement = json::opt_string(j, "replacement", 3)?;
    let prepend_scheme = json::opt_string(j, "prepend_scheme", 4)?;
    let add_prefix_space = json::opt_bool(j, "add_prefix_space", 5)?;
    let use_regex = json::opt_bool(j, "use_regex", 6)?;
    let split = json::opt_bool(j, "split", 7)?;
    let behavior = json::opt_string(j, "behavior", 8)?;
    let mut pretokenizers: Vec<PreTokenizerJson> = Vec::new();
    let ghost docs = json::items_at(j@, "pretokenizers"@, 1);
    match list {
        Some(list) => {
            let mut i: usize = 0;
            while i < list.len()
                invariant
                    pre_tokenizer_own_fault(j@) is None,
                    docs == json::items_at(j@, "pretokenizers"@, 1),
                    docs == json::docs(list@),
                    json::field(j@, "pretokenizers"@, 1) == Some(Doc::Arr(docs)),
                    i <= list@.len(),
                    pretokenizers@.len() == i,
                    pre_tokenizer_fault(j@) == pretokenizers_fault(docs, i as int),
                    forall|m: int|
                        0 <= m < i ==> reads_pre_tokenizer(docs[m], #[trigger] pretokenizers@[m]),
                decreases list@.len() - i,
            {
                proof {
                    json::lemma_items_smaller(j@, "pretokenizers"@, 1, i as int);
                    assert(docs[i as int] == list@[i as int]@);
                }
                let child = read_pre_tokenizer(&list[i])?;
                pretokenizers.push(child);
                i += 1;
            }
        },
        None => {},
    }
    Ok(
        PreTokenizerJson {
            kind,
            pretokenizers,
            pattern,
            replacement,
            prepend_scheme,
            add_prefix_space,
            use_regex,
            split,
            behavior,
        },
    )
}

/// What is wrong with a `decoder` block, its children aside.
pub open spec fn decoder_own_fault(j: Doc) -> Option<Seq<char>> {
    json::first(
        json::record_fault(j, "decoder"@, 4),
        json::first(
            json::text_fault(j, "type"@, 0),
            json::first(
                json::items_fault(j, "decoders"@, 1),
                json::first(
                    json::opt_text_fault(j, "prefix"@, 2),
                    json::opt_bool_fault(j, "cleanup"@, 3),
                ),
            ),
        ),
    )
}

/// What is wrong with a `decoder` block or, from the outside in, with the ones
/// inside.
pub open spec fn decoder_fault(j: Doc) -> Option<Seq<char>>
    decreases j, 0int,
{
    json::first(
        decoder_own_fault(j),
        match json::field(j, "decoders"@, 1) {
            Some(Doc::Arr(items)) => {
                proof {
                    json::lemma_field_smaller(j, "decoders"@, 1);
                }
                decoders_fault(items, 0)
            },
            _ => None,
        },
    )
}

/// What is wrong with the blocks from index `i` on.
pub open spec fn decoders_fault(items: Seq<Doc>, i: int) -> Option<Seq<char>>
    decreases items, items.len() - i,
{
    if i < 0 || i >= items.len() {
        None
    } else {
        json::first(decoder_fault(items[i]), decoders_fault(items, i + 1))
    }
}

/// Whether a block is the one that a document stands for.
pub open spec fn reads_decoder(j: Doc, n: DecoderJson) -> bool
    decreases n,
{
    &&& json::text_at(j, "type"@, 0) == Some(n.kind@)
    &&& json::opt_text(n.prefix) == json::text_at(j, "prefix"@, 2)
    &&& n.cleanup == json::bool_at(j, "cleanup"@, 3)
    &&& n.decoders@.len() == json::items_at(j, "decoders"@, 1).len()
    &&& forall|i: int|
        0 <= i < n.decoders@.len() ==> reads_decoder(
            json::items_at(j, "decoders"@, 1)[i],
            #[trigger] n.decoders@[i],
        )
}

fn read_decoder(j: &Json) -> (res: Result<DecoderJson, String>)
    ensures
        match res {
            Ok(n) => decoder_fault(j@) is None && reads_decoder(j@, n),
            Err(e) => decoder_fault(j@) == Some(e@),
        },
    decreases j@,
{
    json::check_record(j, "decoder", 4)?;
    let kind = json::string(j, "type", 0)?;
    let list = json::items(j, "decoders", 1)?;
    let prefix = json::opt_string(j, "prefix", 2)?;
    let cleanup = json::opt_bool(j, "cleanup", 3)?;
    let mut decoders: Vec<DecoderJson> = Vec::new();
    let ghost docs = json::items_at(j@, "decoders"@, 1);
    match list {
        Some(list) => {
            let mut i: usize = 0;
            while i < list.len()
                invariant
                    decoder_own_fault(j@) is None,
                    docs == json::items_at(j@, "decoders"@, 1),
                    docs == json::docs(list@),
                    json::field(j@, "decoders"@, 1) == Some(Doc::Arr(docs)),
                    i <= list@.len(),
                    decoders@.len() == i,
                    decoder_fault(j@) == decoders_fault(docs, i as int),
                    forall|m: int|
                        0 <= m < i ==> reads_decoder(docs[m], #[trigger] decoders@[m]),
                decreases list@.len() - i,
            {
                proof {
                    json::lemma_items_smaller(j@, "decoders"@, 1, i as int);
                    assert(docs[i as int] == list@[i as int]@);
                }
                let child = read_decoder(&list[i])?;
                decoders.push(child);
                i += 1;
            }
        },
        None => {},
    }
    Ok(
        DecoderJson {
            kind,
            decoders,
            prefix,
            cleanup,
        },
    )
}

/// What is wrong with an added token.
pub open spec fn added_fault(j: Doc) -> Option<Seq<char>> {
    json::first(
        json::record_fault(j, "added_tokens"@, 6),
        json::first(
            json::number_fault(j, "id"@, 0, 0xFFFF_FFFF),
            json::first(
                json::text_fault(j, "content"@, 1),
                json::first(
                    json::flag_fault(j, "special"@, 2),
                    json::first(
                        json::flag_fault(j, "lstrip"@, 3),
                        json::first(
                            json::flag_fault(j, "rstrip"@, 4),
                            json::flag_fault(j, "normalized"@, 5),
                        ),
                    ),
                ),
            ),
        ),
    )
}

/// Whether an added token is the one that a document stands for.
pub open spec fn reads_added(j: Doc, t: AddedToken) -> bool {
    &&& json::number_at(j, "id"@, 0) == Some(t.id as u64)
    &&& json::text_at(j, "content"@, 1) == Some(t.content@)
    &&& t.special == (json::bool_at(j, "special"@, 2) == Some(true))
    &&& t.lstrip == (json::bool_at(j, "lstrip"@, 3) == Some(true))
    &&& t.rstrip == (json::bool_at(j, "rstrip"@, 4) == Some(true))
    &&& t.normalized == (json::bool_at(j, "normalized"@, 5) == Some(true))
}

fn read_added(j: &Json) -> (res: Result<AddedToken, String>)
    ensures
        match res {
            Ok(t) => added_fault(j@) is None && reads_added(j@, t),
            Err(e) => added_fault(j@) == Some(e@),
        },
{
    json::check_record(j, "added_tokens", 6)?;
    let id: u64 = json::number(j, "id", 0, 0xFFFF_FFFF)?;
    let content = json::string(j, "content", 1)?;
    let special = json::flag(j, "special", 2)?;
    let lstrip = json::flag(j, "lstrip", 3)?;
    let rstrip = json::flag(j, "rstrip", 4)?;
    let normalized = json::flag(j, "normalized", 5)?;
    Ok(AddedToken { id: id as u32, content, special, lstrip, rstrip, normalized })
}

/// What is wrong with the added tokens from index `i` on.
pub open spec fn added_tokens_fault(items: Seq<Doc>, i: int) -> Option<Seq<char>>
    decreases items.len() - i,
{
    if i < 0 || i >= items.len() {
        None
    } else {
        json::first(added_fault(items[i]), added_tokens_fault(items, i + 1))
    }
}

/// Whether added tokens are those that documents stand for.
pub open spec fn reads_added_tokens(items: Seq<Doc>, tokens: Seq<AddedToken>) -> bool {
    &&& tokens.len() == items.len()
    &&& forall|i: int| 0 <= i < tokens.len() ==> reads_added(items[i], #[trigger] tokens[i])
}

fn read_added_tokens(j: &Json, k: usize) -> (res: Result<Vec<AddedToken>, String>)
    ensures
        match res {
            Ok(tokens) => {
                &&& json::items_fault(j@, "added_tokens"@, k as int) is None
                &&& added_tokens_fault(json::items_at(j@, "added_tokens"@, k as int), 0) is None
                &&& reads_added_tokens(json::items_at(j@, "added_tokens"@, k as int), tokens@)
            },
            Err(e) => json::first(
                json::items_fault(j@, "added_tokens"@, k as int),
                added_tokens_fault(json::items_at(j@, "added_tokens"@, k as int), 0),
            ) == Some(e@),
        },
{
    let mut tokens: Vec<AddedToken> = Vec::new();
    match json::items(j, "added_tokens", k)? {
        Some(list) => {
            let ghost docs = json::docs(list@);
            let mut i: usize = 0;
            while i < list.len()
                invariant
                    json::items_fault(j@, "added_tokens"@, k as int) is None,
                    docs == json::items_at(j@, "added_tokens"@, k as int),
                    docs == json::docs(list@),
                    i <= list@.len(),
                    tokens@.len() == i,
                    added_tokens_fault(docs, 0) == added_tokens_fault(docs, i as int),
                    forall|m: int| 0 <= m < i ==> reads_added(docs[m], #[trigger] tokens@[m]),
                decreases list@.len() - i,
            {
                assert(docs[i as int] == list@[i as int]@);
                let token = read_added(&list[i])?;
                tokens.push(token);
                i += 1;
            }
        },
        None => {},
    }
    Ok(tokens)
}

/// The two sides of a merge: a pair of strings, or one string with a space
/// between them.
pub open spec fn merge_sides(j: Doc) -> (Seq<char>, Seq<char>) {
    match j {
        Doc::Arr(sides) => (sides[0]->Str_0, sides[1]->Str_0),
        Doc::Str(s) => {
            let i = text::space_from(s, 0)->0;
            (s.take(i), s.skip(i + 1))
        },
        _ => (Seq::empty(), Seq::empty()),
    }
}

/// What is wrong with a merge.
pub open spec fn merge_fault(j: Doc) -> Option<Seq<char>> {
    match j {
        Doc::Arr(sides) if sides.len() == 2 && sides[0] is Str && sides[1] is Str => None,
        Doc::Str(s) => if text::space_from(s, 0) is Some {
            None
        } else {
            Some("invalid merge entry: "@ + text::debug_form(s))
        },
        _ => Some("expected a pair or a string in `merges`"@),
    }
}

fn read_merge(j: &Json) -> (res: Result<(String, String), String>)
    ensures
        match res {
            Ok(m) => merge_fault(j@) is None && (m.0@, m.1@) == merge_sides(j@),
            Err(e) => merge_fault(j@) == Some(e@),
        },
{
    match j {
        Json::Arr(sides) => {
            if sides.len() == 2 {
                assert(j@->Arr_0[0] == sides@[0]@);
                assert(j@->Arr_0[1] == sides@[1]@);
                match (&sides[0], &sides[1]) {
                    (Json::Str(a), Json::Str(b)) => {
                        return Ok((a.as_str().to_owned(), b.as_str().to_owned()));
                    },
                    _ => {},
                }
            }
            Err("expected a pair or a string in `merges`".to_owned())
        },
        Json::Str(s) => match text::split_space(s.as_str()) {
            Some(sides) => Ok(sides),
            None => {
                let shown = text::quoted(s.as_str());
                Err(text::join("invalid merge entry: ", shown.as_str()))
            },
        },
        _ => Err("expected a pair or a string in `merges`".to_owned()),
    }
}

/// What is wrong with the merges from index `i` on.
pub open spec fn merges_fault(items: Seq<Doc>, i: int) -> Option<Seq<char>>
    decreases items.len() - i,
{
    if i < 0 || i >= items.len() {
        None
    } else {
        json::first(merge_fault(items[i]), merges_fault(items, i + 1))
    }
}

/// Whether merges are those that documents stand for.
pub open spec fn reads_merges(items: Seq<Doc>, merges: Seq<(String, String)>) -> bool {
    &&& merges.len() == items.len()
    &&& forall|i: int|
        0 <= i < merges.len() ==> merge_sides(items[i]) == (
            (#[trigger] merges[i]).0@,
            merges[i].1@,
        )
}

fn read_merges(j: &Json, k: usize) -> (res: Result<Vec<(String, String)>, String>)
    ensures
        match res {
            Ok(merges) => {
                &&& json::items_fault(j@, "merges"@, k as int) is None
                &&& merges_fault(json::items_at(j@, "merges"@, k as int), 0) is None
                &&& reads_merges(json::items_at(j@, "merges"@, k as int), merges@)
            },
            Err(e) => json::first(
                json::items_fault(j@, "merges"@, k as int),
                merges_fault(json::items_at(j@, "merges"@, k as int), 0),
            ) == Some(e@),
        },
{
    let mut merges: Vec<(String, String)> = Vec::new();
    match json::items(j, "merges", k)? {
        Some(list) => {
            let ghost docs = json::docs(list@);
            let mut i: usize = 0;
            while i < list.len()
                invariant
                    json::items_fault(j@, "merges"@, k as int) is None,
                    docs == json::items_at(j@, "merges"@, k as int),
                    docs == json::docs(list@),
                    i <= list@.len(),
                    merges@.len() == i,
                    merges_fault(docs, 0) == merges_fault(docs, i as int),
                    forall|m: int|
                        0 <= m < i ==> merge_sides(docs[m]) == (
                            (#[trigger] merges@[m]).0@,
                            merges@[m].1@,
                        ),
                decreases list@.len() - i,
            {
                assert(docs[i as int] == list@[i as int]@);
                let sides = read_merge(&list[i])?;
                merges.push(sides);
                i += 1;
            }
        },
        None => {},
    }
    Ok(merges)
}

/// What is wrong with the vocabulary entries from index `i` on.
pub open spec fn entries_fault(fields: Seq<(Seq<char>, Doc)>, i: int) -> Option<Seq<char>>
    decreases fields.len() - i,
{
    if i < 0 || i >= fields.len() {
        None
    } else {
        json::first(
            json::kind_fault(
                fields[i].1 matches Doc::Number(Some(n)) && n <= 0xFFFF_FFFF,
                "expected a number for "@,
                fields[i].0,
            ),
            entries_fault(fields, i + 1),
        )
    }
}

/// The vocabulary entries from index `i` on. Of entries of one name the last
/// counts.
pub open spec fn entries_from(fields: Seq<(Seq<char>, Doc)>, i: int) -> Seq<(Seq<char>, u32)>
    decreases fields.len() - i,
{
    if i < 0 || i >= fields.len() {
        Seq::empty()
    } else if json::member(fields, fields[i].0, i + 1) is Some {
        entries_from(fields, i + 1)
    } else {
        seq![(fields[i].0, (fields[i].1->Number_0->0) as u32)] + entries_from(fields, i + 1)
    }
}

/// Vocabulary entries as names and numbers.
pub open spec fn entry_views(entries: Seq<(String, TokenId)>) -> Seq<(Seq<char>, u32)> {
    Seq::new(entries.len(), |i: int| (entries[i].0@, entries[i].1.0))
}

/// What is wrong with the `vocab` of a model.
pub open spec fn vocab_fault(j: Doc) -> Option<Seq<char>> {
    json::first(
        json::field_fault(j, "vocab"@),
        match json::field(j, "vocab"@, 1) {
            None => Some(json::about("missing field "@, "vocab"@)),
            Some(Doc::Obj(fields)) => entries_fault(fields, 0),
            Some(_) => Some(json::about("expected an object for "@, "vocab"@)),
        },
    )
}

/// The entries of the `vocab` of a model.
pub open spec fn vocab_entries(j: Doc) -> Seq<(Seq<char>, u32)> {
    match json::field(j, "vocab"@, 1) {
        Some(Doc::Obj(fields)) => entries_from(fields, 0),
        _ => Seq::empty(),
    }
}

/// The entries of an object whose members are sound, each name once.
fn distinct_entries(fields: &Vec<(String, Json)>, Ghost(members): Ghost<Seq<(Seq<char>, Doc)>>) -> (res:
    Vec<(String, TokenId)>)
    requires
        members.len() == fields@.len(),
        forall|m: int|
            0 <= m < fields@.len() ==> #[trigger] members[m] == (fields@[m].0@, fields@[m].1@),
        forall|m: int|
            0 <= m < members.len() ==> ((#[trigger] members[m]).1 matches Doc::Number(Some(n)) && n
                <= 0xFFFF_FFFF),
    ensures
        entry_views(res@) == entries_from(members, 0),
{
    let mut seen = ByteMap::with_capacity(fields.len());
    let mut reversed: Vec<(String, TokenId)> = Vec::new();
    let mut i: usize = fields.len();
    assert(entry_views(reversed@).reverse() =~= entries_from(members, i as int));
    while i > 0
        invariant
            members.len() == fields@.len(),
            forall|m: int|
                0 <= m < fields@.len() ==> #[trigger] members[m] == (fields@[m].0@, fields@[m].1@),
            forall|m: int|
                0 <= m < members.len() ==> ((#[trigger] members[m]).1 matches Doc::Number(Some(n))
                    && n <= 0xFFFF_FFFF),
            i <= fields@.len(),
            seen.well_formed(),
            forall|name: Seq<char>| #[trigger]
                seen@.contains_key(encode_utf8(name)) <==> json::member(members, name, i as int)
                    is Some,
            entry_views(reversed@).reverse() == entries_from(members, i as int),
        decreases i,
    {
        i -= 1;
        let name = fields[i].0.as_str();
        let ghost before = seen@;
        let ghost given = reversed@;
        assert(members[i as int] == (fields@[i as int].0@, fields@[i as int].1@));
        match seen.get(name.as_bytes()) {
            Some(_) => {
                proof {
                    assert forall|other: Seq<char>| #[trigger]
                        seen@.contains_key(encode_utf8(other)) <==> json::member(
                            members,
                            other,
                            i as int,
                        ) is Some by {
                        if other == name@ {
                            assert(seen@.contains_key(encode_utf8(name@)));
                        }
                    }
                }
            },
            None => {
                let id: u32 = match &fields[i].1 {
                    Json::Number(Some(n)) => *n as u32,
                    _ => 0,
                };
                seen.insert(slice_to_vec(name.as_bytes()), id);
                reversed.push((name.to_owned(), TokenId(id)));
                proof {
                    assert forall|other: Seq<char>| #[trigger]
                        seen@.contains_key(encode_utf8(other)) <==> json::member(
                            members,
                            other,
                            i as int,
                        ) is Some by {
                        if encode_utf8(other) == encode_utf8(name@) {
                            utf8::lemma_encode_injective(other, name@);
                        }
                        assert(before.contains_key(encode_utf8(other)) <==> json::member(
                            members,
                            other,
                            i + 1,
                        ) is Some);
                    }
                    let entry = (name@, id);
                    assert(entry_views(reversed@) =~= entry_views(given).push(entry));
                    assert(entry_views(reversed@).reverse() =~= seq![entry] + entry_views(
                        given,
                    ).reverse());
                }
            },
        }
    }
    let mut entries: Vec<(String, TokenId)> = Vec::new();
    let ghost all = entry_views(reversed@).reverse();
    assert(entry_views(entries@) + entry_views(reversed@).reverse() =~= all);
    while reversed.len() > 0
        invariant
            entry_views(entries@) + entry_views(reversed@).reverse() == all,
        decreases reversed@.len(),
    {
        let ghost given = reversed@;
        let ghost taken = entries@;
        match reversed.pop() {
            Some(entry) => {
                let ghost shown = (entry.0@, entry.1.0);
                entries.push(entry);
                proof {
                    assert(entry_views(entries@) =~= entry_views(taken).push(shown));
                    assert(entry_views(given).reverse() =~= seq![shown] + entry_views(
                        reversed@,
                    ).reverse());
                    assert(entry_views(entries@) + entry_views(reversed@).reverse() =~= entry_views(
                        taken,
                    ) + entry_views(given).reverse());
                }
            },
            None => {},
        }
    }
    assert(entry_views(entries@) =~= all);
    entries
}

fn read_vocab(j: &Json) -> (res: Result<Vec<(String, TokenId)>, String>)
    ensures
        match res {
            Ok(entries) => vocab_fault(j@) is None && entry_views(entries@) == vocab_entries(j@),
            Err(e) => vocab_fault(j@) == Some(e@),
        },
{
    match json::get(j, "vocab", 1)? {
        None => Err(json::message("missing field ", "vocab")),
        Some(v) => match v {
            Json::Obj(fields) => {
                let ghost members = v@->Obj_0;
                let mut i: usize = 0;
                while i < fields.len()
                    invariant
                        vocab_fault(j@) == entries_fault(members, 0),
                        members.len() == fields@.len(),
                        forall|m: int|
                            0 <= m < fields@.len() ==> #[trigger] members[m] == (
                                fields@[m].0@,
                                fields@[m].1@,
                            ),
                        i <= fields@.len(),
                        entries_fault(members, 0) == entries_fault(members, i as int),
                        forall|m: int|
                            0 <= m < i ==> ((#[trigger] members[m]).1 matches Doc::Number(Some(n))
                                && n <= 0xFFFF_FFFF),
                    decreases fields@.len() - i,
                {
                    assert(members[i as int] == (fields@[i as int].0@, fields@[i as int].1@));
                    let ok = match &fields[i].1 {
                        Json::Number(Some(n)) => *n <= 0xFFFF_FFFF,
                        _ => false,
                    };
                    if !ok {
                        return Err(json::message("expected a number for ", fields[i].0.as_str()));
                    }
                    i += 1;
                }
                Ok(distinct_entries(fields, Ghost(members)))
            },
            _ => Err(json::message("expected an object for ", "vocab")),
        },
    }
}

/// What is wrong with the `type` of a model.
pub open spec fn model_type_fault(j: Doc) -> Option<Seq<char>> {
    json::first(
        json::field_fault(j, "type"@),
        json::kind_fault(
            json::field(j, "type"@, 0) is None || json::text_at(j, "type"@, 0) is Some,
            "expected a string for "@,
            "type"@,
        ),
    )
}

/// The `type` of a model; files without one are BPE.
pub open spec fn model_type_at(j: Doc) -> Seq<char> {
    match json::text_at(j, "type"@, 0) {
        Some(kind) => kind,
        None => "BPE"@,
    }
}

fn read_model_type(j: &Json) -> (res: Result<String, String>)
    ensures
        match res {
            Ok(kind) => model_type_fault(j@) is None && kind@ == model_type_at(j@),
            Err(e) => model_type_fault(j@) == Some(e@),
        },
{
    match json::get(j, "type", 0)? {
        None => Ok("BPE".to_owned()),
        Some(v) => match v {
            Json::Str(s) => Ok(s.as_str().to_owned()),
            _ => Err(json::message("expected a string for ", "type")),
        },
    }
}

/// What is wrong with a `model` block.
pub open spec fn model_fault(j: Doc) -> Option<Seq<char>> {
    json::first(
        json::record_fault(j, "model"@, 8),
        json::first(
            model_type_fault(j),
            json::first(
                vocab_fault(j),
                json::first(
                    json::items_fault(j, "merges"@, 2),
                    json::first(
                        merges_fault(json::items_at(j, "merges"@, 2), 0),
                        json::first(
                            json::flag_fault(j, "byte_fallback"@, 3),
                            json::first(
                                json::opt_text_fault(j, "unk_token"@, 4),
                                json::first(
                                    json::opt_text_fault(j, "continuing_subword_prefix"@, 5),
                                    json::first(
                                        json::opt_number_fault(j, "max_input_chars_per_word"@, 6, usize::MAX as u64),
                                        json::flag_fault(j, "ignore_merges"@, 7),
                                    ),
                                ),
                            ),
                        ),
                    ),
                ),
            ),
        ),
    )
}

/// Whether a model is the one that a document stands for.
pub open spec fn reads_model(j: Doc, m: Model) -> bool {
    &&& m.model_type@ == model_type_at(j)
    &&& entry_views(m.vocab@) == vocab_entries(j)
    &&& reads_merges(json::items_at(j, "merges"@, 2), m.merges@)
    &&& m.byte_fallback == (json::bool_at(j, "byte_fallback"@, 3) == Some(true))
    &&& json::opt_text(m.unk_token) == json::text_at(j, "unk_token"@, 4)
    &&& json::opt_text(m.continuing_subword_prefix) == json::text_at(
        j,
        "continuing_subword_prefix"@,
        5,
    )
    &&& match m.max_input_chars_per_word {
        Some(n) => json::number_at(j, "max_input_chars_per_word"@, 6) == Some(n as u64),
        None => json::number_at(j, "max_input_chars_per_word"@, 6) is None,
    }
    &&& m.ignore_merges == (json::bool_at(j, "ignore_merges"@, 7) == Some(true))
}

fn read_model(j: &Json) -> (res: Result<Model, String>)
    ensures
        match res {
            Ok(m) => model_fault(j@) is None && reads_model(j@, m),
            Err(e) => model_fault(j@) == Some(e@),
        },
{
    json::check_record(j, "model", 8)?;
    let model_type = read_model_type(j)?;
    let vocab = read_vocab(j)?;
    let merges = read_merges(j, 2)?;
    let byte_fallback = json::flag(j, "byte_fallback", 3)?;
    let unk_token = json::opt_string(j, "unk_token", 4)?;
    let continuing_subword_prefix = json::opt_string(j, "continuing_subword_prefix", 5)?;
    let max: Option<u64> = json::opt_number(
        j,
        "max_input_chars_per_word",
        6,
        usize::MAX as u64,
    )?;
    let max_input_chars_per_word = match max {
        Some(n) => Some(n as usize),
        None => None,
    };
    let ignore_merges = json::flag(j, "ignore_merges", 7)?;
    Ok(
        Model {
            model_type,
            vocab,
            merges,
            byte_fallback,
            unk_token,
            continuing_subword_prefix,
            max_input_chars_per_word,
            ignore_merges,
        },
    )
}

/// What is wrong with the `pre_tokenizer` of a file; it may be absent or null.
pub open spec fn opt_pre_tokenizer_fault(j: Doc) -> Option<Seq<char>> {
    json::first(
        json::field_fault(j, "pre_tokenizer"@),
        if json::blank(j, "pre_tokenizer"@, 2) {
            None
        } else {
            pre_tokenizer_fault(json::field(j, "pre_tokenizer"@, 2)->0)
        },
    )
}

/// Whether a `pre_tokenizer` is the one of a file.
pub open spec fn reads_opt_pre_tokenizer(j: Doc, n: Option<PreTokenizerJson>) -> bool {
    if json::blank(j, "pre_tokenizer"@, 2) {
        n is None
    } else {
        n matches Some(n) && reads_pre_tokenizer(json::field(j, "pre_tokenizer"@, 2)->0, n)
    }
}

fn read_opt_pre_tokenizer(j: &Json) -> (res: Result<Option<PreTokenizerJson>, String>)
    ensures
        match res {
            Ok(n) => opt_pre_tokenizer_fault(j@) is None && reads_opt_pre_tokenizer(j@, n),
            Err(e) => opt_pre_tokenizer_fault(j@) == Some(e@),
        },
{
    match json::get(j, "pre_tokenizer", 2)? {
        None => Ok(None),
        Some(v) => match v {
            Json::Null => Ok(None),
            _ => {
                let n = read_pre_tokenizer(v)?;
                Ok(Some(n))
            },
        },
    }
}

/// What is wrong with the `normalizer` of a file; it may be absent or null.
pub open spec fn opt_normalizer_fault(j: Doc) -> Option<Seq<char>> {
    json::first(
        json::field_fault(j, "normalizer"@),
        if json::blank(j, "normalizer"@, 3) {
            None
        } else {
            normalizer_fault(json::field(j, "normalizer"@, 3)->0)
        },
    )
}

/// Whether a `normalizer` is the one of a file.
pub open spec fn reads_opt_normalizer(j: Doc, n: Option<NormalizerJson>) -> bool {
    if json::blank(j, "normalizer"@, 3) {
        n is None
    } else {
        n matches Some(n) && reads_normalizer(json::field(j, "normalizer"@, 3)->0, n)
    }
}

fn read_opt_normalizer(j: &Json) -> (res: Result<Option<NormalizerJson>, String>)
    ensures
        match res {
            Ok(n) => opt_normalizer_fault(j@) is None && reads_opt_normalizer(j@, n),
            Err(e) => opt_normalizer_fault(j@) == Some(e@),
        },
{
    match json::get(j, "normalizer", 3)? {
        None => Ok(None),
        Some(v) => match v {
            Json::Null => Ok(None),
            _ => {
                let n = read_normalizer(v)?;
                Ok(Some(n))
            },
        },
    }
}

/// What is wrong with the `decoder` of a file; it may be absent or null.
pub open spec fn opt_decoder_fault(j: Doc) -> Option<Seq<char>> {
    json::first(
        json::field_fault(j, "decoder"@),
        if json::blank(j, "decoder"@, 4) {
            None
        } else {
            decoder_fault(json::field(j, "decoder"@, 4)->0)
        },
    )
}

/// Whether a `decoder` is the one of a file.
pub open spec fn reads_opt_decoder(j: Doc, n: Option<DecoderJson>) -> bool {
    if json::blank(j, "decoder"@, 4) {
        n is None
    } else {
        n matches Some(n) && reads_decoder(json::field(j, "decoder"@, 4)->0, n)
    }
}

fn read_opt_decoder(j: &Json) -> (res: Result<Option<DecoderJson>, String>)
    ensures
        match res {
            Ok(n) => opt_decoder_fault(j@) is None && reads_opt_decoder(j@, n),
            Err(e) => opt_decoder_fault(j@) == Some(e@),
        },
{
    match json::get(j, "decoder", 4)? {
        None => Ok(None),
        Some(v) => match v {
            Json::Null => Ok(None),
            _ => {
                let n = read_decoder(v)?;
                Ok(Some(n))
            },
        },
    }
}

/// What is wrong with a file.
pub open spec fn tokenizer_fault(j: Doc) -> Option<Seq<char>> {
    json::first(
        json::record_fault(j, "tokenizer"@, 5),
        json::first(
            json::field_fault(j, "model"@),
            json::first(
                json::kind_fault(json::field(j, "model"@, 0) is Some, "missing field "@, "model"@),
                json::first(
                    model_fault(json::field(j, "model"@, 0)->0),
                    json::first(
                        json::items_fault(j, "added_tokens"@, 1),
                        json::first(
                            added_tokens_fault(json::items_at(j, "added_tokens"@, 1), 0),
                            json::first(
                                opt_pre_tokenizer_fault(j),
                                json::first(
                                    opt_normalizer_fault(j),
                                    opt_decoder_fault(j),
                                ),
                            ),
                        ),
                    ),
                ),
            ),
        ),
    )
}

/// Whether a file is the one that a document stands for.
pub open spec fn reads_tokenizer(j: Doc, t: TokenizerJson) -> bool {
    &&& reads_model(json::field(j, "model"@, 0)->0, t.model)
    &&& reads_added_tokens(json::items_at(j, "added_tokens"@, 1), t.added_tokens@)
    &&& reads_opt_pre_tokenizer(j, t.pre_tokenizer)
    &&& reads_opt_normalizer(j, t.normalizer)
    &&& reads_opt_decoder(j, t.decoder)
}

/// Reads a file.
pub fn read_tokenizer(j: &Json) -> (res: Result<TokenizerJson, String>)
    ensures
        match res {
            Ok(t) => tokenizer_fault(j@) is None && reads_tokenizer(j@, t),
            Err(e) => tokenizer_fault(j@) == Some(e@),
        },
{
    json::check_record(j, "tokenizer", 5)?;
    let model = match json::get(j, "model", 0)? {
        Some(v) => read_model(v)?,
        None => {
            return Err(json::message("missing field ", "model"));
        },
    };
    let added_tokens = read_added_tokens(j, 1)?;
    let pre_tokenizer = read_opt_pre_tokenizer(j)?;
    let normalizer = read_opt_normalizer(j)?;
    let decoder = read_opt_decoder(j)?;
    Ok(TokenizerJson { model, added_tokens, pre_tokenizer, normalizer, decoder })
}

} // verus!
