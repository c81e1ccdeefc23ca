//! Loading `tokenizer.json` files.
//!
//! Three kinds are supported: byte-level BPE, BPE with byte fallback in the
//! style of SentencePiece, and WordPiece.

use super::detect;
use super::json;
use super::json::{Doc, Json};
use super::schema;
use super::schema::{AddedToken, TokenizerJson};
use super::sentencepiece;
use super::sentencepiece::SentencePieceBPE;
use super::vocab;
use crate::bpe::bert_normalizer::BertSteps;
use crate::bpe::byte_remapping;
use crate::bpe::byte_remapping::ByteRemapping;
use crate::bpe::merge;
use crate::bpe::merge::{Merge, MergeTable};
use crate::bpe::plan;
use crate::bpe::plan::L1Fill;
use crate::bpe::superword;
use crate::bpe::tiktoken;
use crate::bpe::tiktoken::{AddedTokenDef, Model, Tokenizer};
use crate::bpe::wordpiece;
use crate::bpe::wordpiece::{WordPiece, DEFAULT_MAX_INPUT_CHARS_PER_WORD};
use crate::byte_map::ByteMap;
use crate::error;
use crate::error::LoadError;
use crate::order;
use crate::pretokenize::options::PretokenizerType;
use crate::text;
use crate::TokenId;
use vstd::prelude::*;
use vstd::slice::slice_to_vec;
use vstd::utf8::*;

verus! {

/// The families of models.
#[derive(Clone, Copy, Debug, PartialEq, Eq, Structural)]
pub enum ModelFamily {
    Bpe,
    WordPiece,
}

/// A tokenizer that was loaded. A WordPiece tokenizer is a `Bpe` one with
/// another model.
#[derive(Debug)]
pub enum HfTokenizer {
    Bpe(Tokenizer),
    SentencePiece(SentencePieceBPE),
}

/// Whether the fields that tell the family of a model can be read.
pub open spec fn readable(m: Doc) -> bool {
    &&& json::record_fault(m, "model"@, 3) is None
    &&& m matches Doc::Arr(items) ==> items.len() == 3
    &&& json::opt_text_fault(m, "type"@, 0) is None
    &&& json::opt_number_fault(m, "unk_id"@, 1, u64::MAX) is None
    &&& json::opt_number_fault(m, "max_input_chars_per_word"@, 2, u64::MAX) is None
}

/// Whether a file has a model whose family can be told.
pub open spec fn probed(j: Doc) -> bool {
    &&& json::record_fault(j, "tokenizer"@, 1) is None
    &&& json::field_fault(j, "model"@) is None
    &&& !json::blank(j, "model"@, 0)
    &&& readable(json::field(j, "model"@, 0)->0)
}

/// The family of a file's model, or why it is refused. Files that give no type
/// are told by a field that only their family has. What cannot be probed counts
/// as BPE.
pub open spec fn family_in(j: Doc) -> Result<ModelFamily, Seq<char>> {
    if !probed(j) {
        Ok(ModelFamily::Bpe)
    } else {
        let m = json::field(j, "model"@, 0)->0;
        match json::text_at(m, "type"@, 0) {
            Some(kind) => if kind == "BPE"@ {
                Ok(ModelFamily::Bpe)
            } else if kind == "WordPiece"@ {
                Ok(ModelFamily::WordPiece)
            } else {
                Err(error::unsupported(kind))
            },
            None => if json::number_at(m, "unk_id"@, 1) is Some {
                Err(error::unsupported("Unigram (untyped legacy file)"@))
            } else if json::number_at(m, "max_input_chars_per_word"@, 2) is Some {
                Ok(ModelFamily::WordPiece)
            } else {
                Ok(ModelFamily::Bpe)
            },
        }
    }
}

/// The family of a file, parsed or not.
pub open spec fn family(parsed: Result<Doc, Seq<char>>) -> Result<ModelFamily, Seq<char>> {
    match parsed {
        Ok(j) => family_in(j),
        Err(_) => Ok(ModelFamily::Bpe),
    }
}

/// The type, and whether the two telling fields are there; none where they
/// cannot be read.
fn probe(m: &Json) -> (res: Option<(Option<String>, bool, bool)>)
    ensures
        match res {
            None => !readable(m@),
            Some((kind, unk_id, max)) => {
                &&& readable(m@)
                &&& json::opt_text(kind) == json::text_at(m@, "type"@, 0)
                &&& unk_id == (json::number_at(m@, "unk_id"@, 1) is Some)
                &&& max == (json::number_at(m@, "max_input_chars_per_word"@, 2) is Some)
            },
        },
{
    match m {
        Json::Arr(items) => if items.len() != 3 {
            return None;
        },
        _ => {},
    }
    if json::check_record(m, "model", 3).is_err() {
        return None;
    }
    let kind = match json::opt_string(m, "type", 0) {
        Ok(kind) => kind,
        Err(_) => {
            return None;
        },
    };
    let unk_id: Option<u64> = match json::opt_number(m, "unk_id", 1, u64::MAX) {
        Ok(n) => n,
        Err(_) => {
            return None;
        },
    };
    let max: Option<u64> = match json::opt_number(m, "max_input_chars_per_word", 2, u64::MAX) {
        Ok(n) => n,
        Err(_) => {
            return None;
        },
    };
    Some((kind, unk_id.is_some(), max.is_some()))
}

/// The family of a parsed file.
pub fn family_of(j: &Json) -> (res: Result<ModelFamily, LoadError>)
    ensures
        match res {
            Ok(f) => family_in(j@) == Ok::<ModelFamily, Seq<char>>(f),
            Err(e) => family_in(j@) == Err::<ModelFamily, Seq<char>>(e.text()),
        },
{
    if json::check_record(j, "tokenizer", 1).is_err() {
        return Ok(ModelFamily::Bpe);
    }
    let m = match json::get(j, "model", 0) {
        Err(_) => {
            return Ok(ModelFamily::Bpe);
        },
        Ok(None) => {
            return Ok(ModelFamily::Bpe);
        },
        Ok(Some(m)) => m,
    };
    match m {
        Json::Null => {
            return Ok(ModelFamily::Bpe);
        },
        _ => {},
    }
    match probe(m) {
        None => Ok(ModelFamily::Bpe),
        Some((Some(kind), _, _)) => if text::same(kind.as_str(), "BPE") {
            Ok(ModelFamily::Bpe)
        } else if text::same(kind.as_str(), "WordPiece") {
            Ok(ModelFamily::WordPiece)
        } else {
            Err(LoadError::UnsupportedFamily { family: kind })
        },
        Some((None, true, _)) => Err(
            LoadError::UnsupportedFamily { family: "Unigram (untyped legacy file)".to_owned() },
        ),
        Some((None, false, true)) => Ok(ModelFamily::WordPiece),
        Some((None, false, false)) => Ok(ModelFamily::Bpe),
    }
}

/// The family of a file. One that is not supported is refused by name, before
/// its model is read as one of BPE.
pub fn probe_model_family(data: &[u8]) -> (res: Result<ModelFamily, LoadError>)
    ensures
        match res {
            Ok(f) => family(json::document(data@)) == Ok::<ModelFamily, Seq<char>>(f),
            Err(e) => family(json::document(data@)) == Err::<ModelFamily, Seq<char>>(e.text()),
        },
{
    match json::parse(data) {
        Ok(j) => family_of(&j),
        Err(_) => Ok(ModelFamily::Bpe),
    }
}

/// Why a file is refused before anything is built from it.
pub open spec fn file_fault(parsed: Result<Doc, Seq<char>>) -> Option<Seq<char>> {
    match parsed {
        Err(e) => Some("Failed to parse tokenizer JSON: "@ + e),
        Ok(j) => match family_in(j) {
            Err(e) => Some(e),
            Ok(_) => match schema::tokenizer_fault(j) {
                Some(e) => Some("Failed to parse tokenizer JSON: "@ + e),
                None => None,
            },
        },
    }
}

/// What parsing gave, as mathematical values.
pub open spec fn parsed_view(parsed: Result<Json, String>) -> Result<Doc, Seq<char>> {
    match parsed {
        Ok(j) => Ok(j@),
        Err(e) => Err(e@),
    }
}

/// Reads a file, given what parsing made of it, with the family of its model.
pub fn read_parsed(parsed: Result<Json, String>) -> (res: Result<
    (ModelFamily, TokenizerJson),
    LoadError,
>)
    ensures
        match res {
            Ok((f, tj)) => {
                &&& file_fault(parsed_view(parsed)) is None
                &&& parsed matches Ok(j)
                &&& schema::reads_tokenizer(j@, tj)
                &&& family_in(j@) == Ok::<ModelFamily, Seq<char>>(f)
            },
            Err(e) => file_fault(parsed_view(parsed)) == Some(e.text()),
        },
{
    let j = match parsed {
        Err(detail) => {
            return Err(LoadError::Malformed { detail });
        },
        Ok(j) => j,
    };
    let family = match family_of(&j) {
        Err(e) => {
            return Err(e);
        },
        Ok(f) => f,
    };
    match schema::read_tokenizer(&j) {
        Err(detail) => Err(LoadError::Malformed { detail }),
        Ok(tj) => Ok((family, tj)),
    }
}

/// Reads a file.
pub fn parse_tokenizer_json(data: &[u8]) -> (res: Result<TokenizerJson, LoadError>)
    ensures
        match res {
            Ok(tj) => {
                &&& file_fault(json::document(data@)) is None
                &&& schema::reads_tokenizer(json::document(data@)->Ok_0, tj)
            },
            Err(e) => file_fault(json::document(data@)) == Some(e.text()),
        },
{
    match read_parsed(json::parse(data)) {
        Ok((_, tj)) => Ok(tj),
        Err(e) => Err(e),
    }
}

/// Whether added tokens are matched as a file lists them.
pub open spec fn defs_match(added: Seq<AddedToken>, defs: Seq<AddedTokenDef>) -> bool {
    &&& defs.len() == added.len()
    &&& forall|i: int|
        0 <= i < defs.len() ==> {
            let d = #[trigger] defs[i];
            &&& d.content@ == encode_utf8(added[i].content@)
            &&& d.id.0 == added[i].id
            &&& d.lstrip == added[i].lstrip
            &&& d.rstrip == added[i].rstrip
        }
}

fn added_defs(added: &Vec<AddedToken>) -> (defs: Vec<AddedTokenDef>)
    ensures
        defs_match(added@, defs@),
{
    let mut defs: Vec<AddedTokenDef> = Vec::new();
    let mut i: usize = 0;
    while i < added.len()
        invariant
            i <= added@.len(),
            defs@.len() == i,
            forall|m: int|
                0 <= m < i ==> {
                    let d = #[trigger] defs@[m];
                    &&& d.content@ == encode_utf8(added@[m].content@)
                    &&& d.id.0 == added@[m].id
                    &&& d.lstrip == added@[m].lstrip
                    &&& d.rstrip == added@[m].rstrip
                },
        decreases added@.len() - i,
    {
        let t = &added[i];
        defs.push(
            AddedTokenDef {
                content: slice_to_vec(t.content.as_str().as_bytes()),
                id: TokenId(t.id),
                lstrip: t.lstrip,
                rstrip: t.rstrip,
            },
        );
        i += 1;
    }
    defs
}

/// The pieces of a byte-level vocabulary.
pub open spec fn bpe_pieces(entries: Seq<(Seq<char>, u32)>) -> Seq<(Seq<u8>, u32)> {
    Seq::new(entries.len(), |i: int| (vocab::byte_level(entries[i].0), entries[i].1))
}

fn byte_level_pieces(entries: &Vec<(String, TokenId)>, u2b: &Vec<Option<u8>>) -> (pieces: Vec<
    (Vec<u8>, u32),
>)
    requires
        vocab::byte_table(u2b@),
    ensures
        vocab::piece_views(pieces@) == bpe_pieces(schema::entry_views(entries@)),
{
    let mut pieces: Vec<(Vec<u8>, u32)> = Vec::new();
    let mut i: usize = 0;
    while i < entries.len()
        invariant
            vocab::byte_table(u2b@),
            i <= entries@.len(),
            pieces@.len() == i,
            forall|m: int|
                0 <= m < i ==> (#[trigger] pieces@[m]).0@ == vocab::byte_level(entries@[m].0@)
                    && pieces@[m].1 == entries@[m].1.0,
        decreases entries@.len() - i,
    {
        pieces.push((vocab::unicode_to_bytes(entries[i].0.as_str(), u2b), entries[i].1.0));
        i += 1;
    }
    assert(vocab::piece_views(pieces@) =~= bpe_pieces(schema::entry_views(entries@)));
    pieces
}

/// A merge of a byte-level list, as the two sides and what they become: each
/// side and both together must be in the vocabulary.
pub open spec fn bpe_pair(inv: Map<Seq<u8>, u32>, a: Seq<char>, b: Seq<char>) -> Option<
    (u32, u32, u32),
> {
    let left = vocab::byte_level(a);
    let right = vocab::byte_level(b);
    if inv.contains_key(left) && inv.contains_key(right) && inv.contains_key(left + right) {
        Some((inv[left], inv[right], inv[left + right]))
    } else {
        None
    }
}

/// The merges of the first `n` pairs of a list.
pub open spec fn bpe_pairs(
    list: Seq<(String, String)>,
    inv: Map<Seq<u8>, u32>,
    n: nat,
) -> Seq<(u32, u32, u32)>
    decreases n,
{
    if n == 0 || n > list.len() {
        Seq::empty()
    } else {
        let before = bpe_pairs(list, inv, (n - 1) as nat);
        match bpe_pair(inv, list[n - 1].0@, list[n - 1].1@) {
            Some(p) => before.push(p),
            None => before,
        }
    }
}

/// Whether the merged tokens come in the order of their numbers.
pub open spec fn in_id_order(pairs: Seq<(u32, u32, u32)>) -> bool {
    forall|i: int, j: int|
        0 <= i < j < pairs.len() ==> (#[trigger] pairs[i]).2 <= (#[trigger] pairs[j]).2
}

/// The merges of a list: ranked by the merged token where those come in order,
/// else by their place in the list.
pub open spec fn ranked(pairs: Seq<(u32, u32, u32)>) -> Seq<Merge> {
    Seq::new(
        pairs.len(),
        |i: int|
            Merge {
                left: pairs[i].0,
                right: pairs[i].1,
                merged: pairs[i].2,
                rank: if in_id_order(pairs) {
                    pairs[i].2
                } else {
                    i as u32
                },
            },
    )
}

fn collect_pairs(list: &Vec<(String, String)>, inv: &ByteMap, u2b: &Vec<Option<u8>>) -> (pairs: Vec<
    (u32, u32, u32),
>)
    requires
        inv.well_formed(),
        vocab::byte_table(u2b@),
    ensures
        pairs@ == bpe_pairs(list@, inv@, list@.len()),
{
    let mut pairs: Vec<(u32, u32, u32)> = Vec::new();
    let mut i: usize = 0;
    while i < list.len()
        invariant
            inv.well_formed(),
            vocab::byte_table(u2b@),
            i <= list@.len(),
            pairs@ == bpe_pairs(list@, inv@, i as nat),
        decreases list@.len() - i,
    {
        let left = vocab::unicode_to_bytes(list[i].0.as_str(), u2b);
        let right = vocab::unicode_to_bytes(list[i].1.as_str(), u2b);
        let left_id = inv.get(&left);
        let right_id = inv.get(&right);
        let ghost sides = (left@, right@);
        let mut both = left;
        both.extend_from_slice(&right);
        assert(both@ =~= sides.0 + sides.1);
        let both_id = inv.get(&both);
        match (left_id, right_id, both_id) {
            (Some(a), Some(b), Some(m)) => {
                pairs.push((a, b, m));
            },
            _ => {},
        }
        i += 1;
    }
    pairs
}

fn is_in_id_order(pairs: &Vec<(u32, u32, u32)>) -> (res: bool)
    ensures
        res == in_id_order(pairs@),
{
    let mut i: usize = 1;
    while i < pairs.len()
        invariant
            1 <= i,
            pairs@.len() > 0 ==> i <= pairs@.len(),
            forall|a: int, b: int|
                0 <= a < b < i && b < pairs@.len() ==> (#[trigger] pairs@[a]).2 <= (
                #[trigger] pairs@[b]).2,
        decreases pairs@.len() - i,
    {
        if pairs[i].2 < pairs[i - 1].2 {
            assert(pairs@[i - 1].2 > pairs@[i as int].2);
            return false;
        }
        i += 1;
    }
    true
}

fn rank_pairs(pairs: &Vec<(u32, u32, u32)>, ordered: bool) -> (table: MergeTable)
    requires
        ordered == in_id_order(pairs@),
    ensures
        table.well_formed(),
        table@ == merge::table_of(ranked(pairs@), pairs@.len()),
{
    let ghost merges = ranked(pairs@);
    let mut table = MergeTable::new();
    let mut i: usize = 0;
    while i < pairs.len()
        invariant
            ordered == in_id_order(pairs@),
            merges == ranked(pairs@),
            table.well_formed(),
            i <= pairs@.len(),
            table@ == merge::table_of(merges, i as nat),
        decreases pairs@.len() - i,
    {
        let (left, right, merged) = pairs[i];
        let rank: u32 = if ordered {
            merged
        } else {
            i as u32
        };
        assert(merges[i as int] == (Merge { left, right, merged, rank }));
        table.insert_first(Merge { left, right, merged, rank });
        i += 1;
    }
    table
}

/// The first byte from `b` on that can occur in text and has no token.
pub open spec fn missing_byte(entries: Seq<Seq<u8>>, b: int) -> Option<u8>
    decreases 256 - b,
{
    if b < 0 || b >= 256 {
        None
    } else if byte_remapping::utf8_legal(b) && byte_remapping::byte_token(entries, b as u8)
        is None {
        Some(b as u8)
    } else {
        missing_byte(entries, b + 1)
    }
}

proof fn lemma_none_missing(entries: Seq<Seq<u8>>, b: int)
    requires
        0 <= b <= 256,
        forall|c: u8|
            byte_remapping::utf8_legal(c as int) ==> #[trigger] byte_remapping::byte_token(
                entries,
                c,
            ) is Some,
    ensures
        missing_byte(entries, b) is None,
    decreases 256 - b,
{
    if b < 256 {
        assert(byte_remapping::utf8_legal(b) ==> byte_remapping::byte_token(entries, b as u8)
            is Some);
        lemma_none_missing(entries, b + 1);
    }
}

proof fn lemma_first_missing(entries: Seq<Seq<u8>>, b: int, byte: u8)
    requires
        0 <= b <= byte,
        byte_remapping::utf8_legal(byte as int),
        byte_remapping::byte_token(entries, byte) is None,
        forall|c: u8|
            c < byte && byte_remapping::utf8_legal(c as int)
                ==> #[trigger] byte_remapping::byte_token(entries, c) is Some,
    ensures
        missing_byte(entries, b) == Some(byte),
    decreases byte - b,
{
    if b < byte {
        assert(byte_remapping::utf8_legal(b) ==> byte_remapping::byte_token(entries, b as u8)
            is Some);
        lemma_first_missing(entries, b + 1, byte);
    }
}

/// The entries of a byte-level file.
pub open spec fn bpe_vocab(tj: TokenizerJson) -> Seq<Seq<u8>> {
    vocab::extended(
        vocab::slots(bpe_pieces(schema::entry_views(tj.model.vocab@))),
        tj.added_tokens@,
        tj.added_tokens@.len(),
    )
}

/// The merges of a byte-level file.
pub open spec fn bpe_list(tj: TokenizerJson) -> Seq<(u32, u32, u32)> {
    let pieces = bpe_pieces(schema::entry_views(tj.model.vocab@));
    bpe_pairs(
        tj.model.merges@,
        vocab::numbers_by_bytes(pieces, pieces.len()),
        tj.model.merges@.len(),
    )
}

/// Why a file is refused as a byte-level tokenizer.
pub open spec fn bpe_fault(tj: TokenizerJson) -> Option<Seq<char>> {
    if tj.model.model_type@ != "BPE"@ {
        Some("Unsupported model type: "@ + tj.model.model_type@ + " (expected BPE)"@)
    } else if tj.model.byte_fallback {
        Some("byte_fallback tokenizers should use load_hf_sentencepiece instead"@)
    } else {
        match missing_byte(bpe_vocab(tj), 0) {
            Some(byte) => Some((LoadError::MissingByteToken { byte }).text()),
            None => match detect::scheme_setting(tj.pre_tokenizer) {
                Err(e) => Some(e),
                Ok(_) => match detect::nfc_setting(tj.normalizer) {
                    Err(e) => Some(e),
                    Ok(_) => None,
                },
            },
        }
    }
}

/// Whether a tokenizer is the byte-level one that a file describes.
pub open spec fn bpe_describes(tj: TokenizerJson, t: Tokenizer) -> bool {
    let entries = bpe_vocab(tj);
    let pairs = bpe_list(tj);
    &&& t.well_formed()
    &&& superword::views(t.vocab@) == entries
    &&& t.vocab_inv@ == tiktoken::inverse(entries, entries.len())
    &&& t.model matches Model::Bpe { merges, bytes, id_ranked }
    &&& merges@ == merge::table_of(ranked(pairs), pairs.len())
    &&& forall|b: u8|
        #[trigger] bytes.ids()[b as int] == byte_remapping::byte_token(entries, b)
    &&& id_ranked == in_id_order(pairs)
    &&& detect::scheme_setting(tj.pre_tokenizer) == Ok::<PretokenizerType, Seq<char>>(t.scheme)
    &&& t.normalizer is None
    &&& detect::nfc_setting(tj.normalizer) == Ok::<bool, Seq<char>>(t.normalize_nfc)
    &&& t.add_prefix_space == detect::prefix_space_setting(tj.pre_tokenizer)
    &&& t.ignore_merges == tj.model.ignore_merges
    &&& defs_match(tj.added_tokens@, t.added_tokens@)
    &&& if t.scheme == PretokenizerType::Superword && id_ranked && !t.ignore_merges {
        plan::planned(
            entries,
            t.vocab_inv@,
            &merges,
            L1Fill::TwoPhase,
            true,
            u32::MAX,
            t.plan,
        )
    } else {
        t.plan is None
    }
}

/// Builds the byte-level tokenizer that a file describes.
pub fn build_bpe(tj: &TokenizerJson) -> (res: Result<Tokenizer, LoadError>)
    ensures
        match res {
            Ok(t) => bpe_fault(*tj) is None && bpe_describes(*tj, t),
            Err(e) => bpe_fault(*tj) == Some(e.text()),
        },
{
    if !text::same(tj.model.model_type.as_str(), "BPE") {
        let named = text::join("Unsupported model type: ", tj.model.model_type.as_str());
        return Err(
            LoadError::Refused { reason: text::join(named.as_str(), " (expected BPE)") },
        );
    }
    if tj.model.byte_fallback {
        return Err(
            LoadError::Refused {
                reason:
                    "byte_fallback tokenizers should use load_hf_sentencepiece instead".to_owned(),
            },
        );
    }
    let (_, u2b) = vocab::build_byte_unicode_tables();
    let pieces = byte_level_pieces(&tj.model.vocab, &u2b);
    let mut entries = vocab::place(&pieces);
    let vocab_inv = vocab::index(&pieces);
    vocab::extend_vocab_with_added_tokens(&mut entries, &tj.added_tokens);
    let ghost views = superword::views(entries@);
    assert(views == bpe_vocab(*tj));
    let pairs = collect_pairs(&tj.model.merges, &vocab_inv, &u2b);
    assert(pairs@ == bpe_list(*tj));
    let bytes = match ByteRemapping::from_byte_vocab(&entries) {
        Ok(bytes) => bytes,
        Err(e) => {
            proof {
                lemma_first_missing(views, 0, e->byte);
            }
            return Err(e);
        },
    };
    proof {
        assert forall|c: u8|
            byte_remapping::utf8_legal(c as int) implies #[trigger] byte_remapping::byte_token(
            views,
            c,
        ) is Some by {
            assert(bytes.ids()[c as int] is Some);
        }
        lemma_none_missing(views, 0);
    }
    let id_ranked = is_in_id_order(&pairs);
    let merges = rank_pairs(&pairs, id_ranked);
    let mut t = Tokenizer::new(merges, entries, bytes, id_ranked);
    t.scheme =
    match detect::detect_pretokenizer_type(&tj.pre_tokenizer) {
        Ok(scheme) => scheme,
        Err(e) => {
            return Err(e);
        },
    };
    t.normalize_nfc =
    match detect::detect_nfc_normalizer(&tj.normalizer) {
        Ok(on) => on,
        Err(e) => {
            return Err(e);
        },
    };
    t.add_prefix_space = detect::detect_add_prefix_space(&tj.pre_tokenizer);
    t.ignore_merges = tj.model.ignore_merges;
    t.added_tokens = added_defs(&tj.added_tokens);
    t.enable_superword_two_level(L1Fill::TwoPhase, true);
    Ok(t)
}

/// The pieces of a WordPiece vocabulary.
pub open spec fn word_pieces(entries: Seq<(Seq<char>, u32)>) -> Seq<(Seq<u8>, u32)> {
    Seq::new(entries.len(), |i: int| (encode_utf8(entries[i].0), entries[i].1))
}

fn literal_pieces(entries: &Vec<(String, TokenId)>) -> (pieces: Vec<(Vec<u8>, u32)>)
    ensures
        vocab::piece_views(pieces@) == word_pieces(schema::entry_views(entries@)),
{
    let mut pieces: Vec<(Vec<u8>, u32)> = Vec::new();
    let mut i: usize = 0;
    while i < entries.len()
        invariant
            i <= entries@.len(),
            pieces@.len() == i,
            forall|m: int|
                0 <= m < i ==> (#[trigger] pieces@[m]).0@ == encode_utf8(entries@[m].0@)
                    && pieces@[m].1 == entries@[m].1.0,
        decreases entries@.len() - i,
    {
        pieces.push((slice_to_vec(entries[i].0.as_str().as_bytes()), entries[i].1.0));
        i += 1;
    }
    assert(vocab::piece_views(pieces@) =~= word_pieces(schema::entry_views(entries@)));
    pieces
}

/// Why a file is refused as a WordPiece tokenizer.
pub open spec fn wordpiece_fault(tj: TokenizerJson) -> Option<Seq<char>> {
    match tj.model.unk_token {
        None => Some("WordPiece model without an `unk_token`"@),
        Some(unk) => if wordpiece::id_of(tj.model.vocab@, unk@, tj.model.vocab@.len()) is None {
            Some("WordPiece vocab does not contain its unk_token "@ + text::debug_form(unk@))
        } else {
            match detect::scheme_setting(tj.pre_tokenizer) {
                Err(e) => Some(e),
                Ok(_) => match detect::bert_setting(tj.normalizer) {
                    Err(e) => Some(e),
                    Ok(_) => None,
                },
            }
        },
    }
}

/// Whether a model is the WordPiece model that a file describes.
pub open spec fn wordpiece_model(tj: TokenizerJson, model: WordPiece) -> bool {
    let entries = tj.model.vocab@;
    let prefix = detect::text_or(tj.model.continuing_subword_prefix, "##"@);
    &&& tj.model.unk_token matches Some(unk)
    &&& wordpiece::id_of(entries, unk@, entries.len()) == Some(model.unk_token().0)
    &&& model.head_map() == wordpiece::head_pieces(entries, encode_utf8(prefix), entries.len())
    &&& model.cont_map() == wordpiece::cont_pieces(entries, encode_utf8(prefix), entries.len())
    &&& model.prefix_text() == prefix
    &&& model.max_chars() == (match tj.model.max_input_chars_per_word {
        Some(n) => n,
        None => DEFAULT_MAX_INPUT_CHARS_PER_WORD,
    })
}

/// Whether a tokenizer is the WordPiece one that a file describes.
pub open spec fn wordpiece_describes(tj: TokenizerJson, t: Tokenizer) -> bool {
    let entries = vocab::extended(
        vocab::slots(word_pieces(schema::entry_views(tj.model.vocab@))),
        tj.added_tokens@,
        tj.added_tokens@.len(),
    );
    &&& t.well_formed()
    &&& superword::views(t.vocab@) == entries
    &&& t.vocab_inv@ == tiktoken::inverse(entries, entries.len())
    &&& t.model matches Model::WordPiece { model, decoder }
    &&& wordpiece_model(tj, model)
    &&& match tj.decoder {
        None => decoder is None,
        Some(d) => match detect::decoder_of(d) {
            None => decoder is None,
            Some(found) => {
                &&& decoder matches Some(w)
                &&& w.prefix@ == detect::text_or(found.prefix, "##"@)
                &&& w.cleanup == detect::bool_or(found.cleanup, true)
            },
        },
    }
    &&& detect::scheme_setting(tj.pre_tokenizer) == Ok::<PretokenizerType, Seq<char>>(t.scheme)
    &&& detect::bert_setting(tj.normalizer) == Ok::<Option<BertSteps>, Seq<char>>(
        match t.normalizer {
            Some(n) => Some(n.steps()),
            None => None,
        },
    )
    &&& !t.normalize_nfc
    &&& !t.add_prefix_space
    &&& !t.ignore_merges
    &&& defs_match(tj.added_tokens@, t.added_tokens@)
    &&& t.plan is None
}

/// Builds the WordPiece tokenizer that a file describes. Its vocabulary is plain
/// text, with no tokens for single bytes.
pub fn build_wordpiece(tj: &TokenizerJson) -> (res: Result<Tokenizer, LoadError>)
    ensures
        match res {
            Ok(t) => wordpiece_fault(*tj) is None && wordpiece_describes(*tj, t),
            Err(e) => wordpiece_fault(*tj) == Some(e.text()),
        },
{
    let unk = match &tj.model.unk_token {
        None => {
            return Err(
                LoadError::Refused { reason: "WordPiece model without an `unk_token`".to_owned() },
            );
        },
        Some(unk) => unk.as_str(),
    };
    let prefix = detect::string_or(&tj.model.continuing_subword_prefix, "##");
    let max: usize = match tj.model.max_input_chars_per_word {
        Some(n) => n,
        None => DEFAULT_MAX_INPUT_CHARS_PER_WORD,
    };
    let pieces = literal_pieces(&tj.model.vocab);
    let mut entries = vocab::place(&pieces);
    vocab::extend_vocab_with_added_tokens(&mut entries, &tj.added_tokens);
    let model = match WordPiece::new(&tj.model.vocab, unk, prefix.as_str(), max) {
        Ok(model) => model,
        Err(e) => {
            return Err(e);
        },
    };
    let mut t = Tokenizer::new_wordpiece(model, entries);
    t.scheme =
    match detect::detect_pretokenizer_type(&tj.pre_tokenizer) {
        Ok(scheme) => scheme,
        Err(e) => {
            return Err(e);
        },
    };
    t.normalizer =
    match detect::parse_bert_normalizer(&tj.normalizer) {
        Ok(n) => n,
        Err(e) => {
            return Err(e);
        },
    };
    t.set_wordpiece_decoder(detect::parse_wordpiece_decoder(&tj.decoder));
    t.added_tokens = added_defs(&tj.added_tokens);
    Ok(t)
}

/// Why a file is refused as a tokenizer of a family.
pub open spec fn family_fault(f: ModelFamily, tj: TokenizerJson) -> Option<Seq<char>> {
    match f {
        ModelFamily::WordPiece => wordpiece_fault(tj),
        ModelFamily::Bpe => bpe_fault(tj),
    }
}

/// Whether a tokenizer is the one of a family that a file describes.
pub open spec fn family_describes(f: ModelFamily, tj: TokenizerJson, t: Tokenizer) -> bool {
    match f {
        ModelFamily::WordPiece => wordpiece_describes(tj, t),
        ModelFamily::Bpe => bpe_describes(tj, t),
    }
}

/// Whether a document gives a tokenizer, byte-level or WordPiece.
pub open spec fn gives(j: Doc, t: Tokenizer) -> bool {
    exists|tj: TokenizerJson| #[trigger]
        schema::reads_tokenizer(j, tj) && family_fault(family_in(j)->Ok_0, tj) is None
            && family_describes(family_in(j)->Ok_0, tj, t)
}

/// Whether a document is refused, for a reason, as a byte-level or WordPiece
/// tokenizer.
pub open spec fn refuses(j: Doc, reason: Seq<char>) -> bool {
    exists|tj: TokenizerJson| #[trigger]
        schema::reads_tokenizer(j, tj) && family_fault(family_in(j)->Ok_0, tj) == Some(reason)
}

/// Builds a byte-level or WordPiece tokenizer, given what parsing made of a
/// file.
pub fn build_parsed(parsed: Result<Json, String>) -> (res: Result<Tokenizer, LoadError>)
    ensures
        ({
            let p = parsed_view(parsed);
            match res {
                Ok(t) => file_fault(p) is None && gives(p->Ok_0, t),
                Err(e) => file_fault(p) == Some(e.text()) || (file_fault(p) is None && refuses(
                    p->Ok_0,
                    e.text(),
                )),
            }
        }),
{
    let (family, tj) = match read_parsed(parsed) {
        Ok(read) => read,
        Err(e) => {
            return Err(e);
        },
    };
    match family {
        ModelFamily::WordPiece => build_wordpiece(&tj),
        ModelFamily::Bpe => build_bpe(&tj),
    }
}

/// Builds a byte-level or WordPiece tokenizer from a file.
pub fn build_bpe_or_wordpiece(data: &[u8]) -> (res: Result<Tokenizer, LoadError>)
    ensures
        ({
            let p = json::document(data@);
            match res {
                Ok(t) => file_fault(p) is None && gives(p->Ok_0, t),
                Err(e) => file_fault(p) == Some(e.text()) || (file_fault(p) is None && refuses(
                    p->Ok_0,
                    e.text(),
                )),
            }
        }),
{
    build_parsed(json::parse(data))
}

/// Why a file is refused: as a WordPiece tokenizer where it is one, else by
/// whether it falls back on bytes.
pub open spec fn load_fault(f: ModelFamily, tj: TokenizerJson) -> Option<Seq<char>> {
    if f == ModelFamily::WordPiece {
        wordpiece_fault(tj)
    } else if tj.model.byte_fallback {
        sentencepiece::sp_fault(tj)
    } else {
        bpe_fault(tj)
    }
}

/// Whether a loaded tokenizer is the one that a file describes.
pub open spec fn load_describes(f: ModelFamily, tj: TokenizerJson, t: HfTokenizer) -> bool {
    match t {
        HfTokenizer::SentencePiece(m) => f == ModelFamily::Bpe && tj.model.byte_fallback
            && sentencepiece::sp_describes(tj, m),
        HfTokenizer::Bpe(t) => if f == ModelFamily::WordPiece {
            wordpiece_describes(tj, t)
        } else {
            !tj.model.byte_fallback && bpe_describes(tj, t)
        },
    }
}

/// Whether a document loads as a tokenizer.
pub open spec fn loads(j: Doc, t: HfTokenizer) -> bool {
    exists|tj: TokenizerJson| #[trigger]
        schema::reads_tokenizer(j, tj) && load_fault(family_in(j)->Ok_0, tj) is None
            && load_describes(family_in(j)->Ok_0, tj, t)
}

/// Whether a document does not load, for a reason.
pub open spec fn load_refuses(j: Doc, reason: Seq<char>) -> bool {
    exists|tj: TokenizerJson| #[trigger]
        schema::reads_tokenizer(j, tj) && load_fault(family_in(j)->Ok_0, tj) == Some(reason)
}

/// Loads a tokenizer, given what parsing made of a file.
pub fn load_parsed(parsed: Result<Json, String>) -> (res: Result<HfTokenizer, LoadError>)
    ensures
        ({
            let p = parsed_view(parsed);
            match res {
                Ok(t) => file_fault(p) is None && loads(p->Ok_0, t),
                Err(e) => file_fault(p) == Some(e.text()) || (file_fault(p) is None
                    && load_refuses(p->Ok_0, e.text())),
            }
        }),
{
    let (family, tj) = match read_parsed(parsed) {
        Ok(read) => read,
        Err(e) => {
            return Err(e);
        },
    };
    if family == ModelFamily::WordPiece {
        match build_wordpiece(&tj) {
            Ok(t) => Ok(HfTokenizer::Bpe(t)),
            Err(e) => Err(e),
        }
    } else if tj.model.byte_fallback {
        match sentencepiece::build_sentencepiece(&tj) {
            Ok(m) => Ok(HfTokenizer::SentencePiece(m)),
            Err(e) => Err(e),
        }
    } else {
        match build_bpe(&tj) {
            Ok(t) => Ok(HfTokenizer::Bpe(t)),
            Err(e) => Err(e),
        }
    }
}

/// Loads a tokenizer from the contents of a `tokenizer.json` file.
pub fn load_hf_slice(data: &[u8]) -> (res: Result<HfTokenizer, LoadError>)
    ensures
        ({
            let p = json::document(data@);
            match res {
                Ok(t) => file_fault(p) is None && loads(p->Ok_0, t),
                Err(e) => file_fault(p) == Some(e.text()) || (file_fault(p) is None
                    && load_refuses(p->Ok_0, e.text())),
            }
        }),
{
    load_parsed(json::parse(data))
}

/// Whether a document loads as a SentencePiece-style tokenizer.
pub open spec fn sp_loads(j: Doc, m: SentencePieceBPE) -> bool {
    exists|tj: TokenizerJson| #[trigger]
        schema::reads_tokenizer(j, tj) && sentencepiece::sp_fault(tj) is None
            && sentencepiece::sp_describes(tj, m)
}

/// Whether a document does not load as one, for a reason.
pub open spec fn sp_refuses(j: Doc, reason: Seq<char>) -> bool {
    exists|tj: TokenizerJson| #[trigger]
        schema::reads_tokenizer(j, tj) && sentencepiece::sp_fault(tj) == Some(reason)
}

/// Loads a SentencePiece-style tokenizer from the contents of a file. The tokens
/// keep the numbers that they have there.
pub fn load_hf_sentencepiece(data: &[u8]) -> (res: Result<SentencePieceBPE, LoadError>)
    ensures
        ({
            let p = json::document(data@);
            match res {
                Ok(m) => file_fault(p) is None && sp_loads(p->Ok_0, m),
                Err(e) => file_fault(p) == Some(e.text()) || (file_fault(p) is None && sp_refuses(
                    p->Ok_0,
                    e.text(),
                )),
            }
        }),
{
    match parse_tokenizer_json(data) {
        Ok(tj) => sentencepiece::build_sentencepiece(&tj),
        Err(e) => Err(e),
    }
}

/// Whether a number is that of an added token.
pub open spec fn is_added(added: Seq<AddedToken>, id: u32) -> bool {
    exists|i: int| 0 <= i < added.len() && (#[trigger] added[i]).id == id
}

/// The pieces of the first `n` entries that are no added tokens.
pub open spec fn mergeable(
    entries: Seq<(Seq<char>, u32)>,
    added: Seq<AddedToken>,
    n: nat,
) -> Seq<(u32, Seq<u8>)>
    decreases n,
{
    if n == 0 || n > entries.len() {
        Seq::empty()
    } else {
        let before = mergeable(entries, added, (n - 1) as nat);
        if is_added(added, entries[n - 1].1) {
            before
        } else {
            before.push((entries[n - 1].1, vocab::byte_level(entries[n - 1].0)))
        }
    }
}

fn holds_id(added: &Vec<AddedToken>, id: u32) -> (res: bool)
    ensures
        res == is_added(added@, id),
{
    let mut i: usize = 0;
    while i < added.len()
        invariant
            i <= added@.len(),
            forall|m: int| 0 <= m < i ==> (#[trigger] added@[m]).id != id,
        decreases added@.len() - i,
    {
        if added[i].id == id {
            return true;
        }
        i += 1;
    }
    false
}

/// The text of the error on ranks with a gap.
pub open spec fn gap_text(id: u32, i: int) -> Seq<char> {
    "GPT-2 rank "@ + text::decimal(id as nat) + " at position "@ + text::decimal(i as nat)
        + ": mergeable ranks must be dense"@
}

/// Whether ranks are dense: the `i`-th has number `i`, for the first `n`.
pub open spec fn dense(ranks: Seq<(u32, Seq<u8>)>, n: int) -> bool {
    forall|i: int| 0 <= i < n ==> (#[trigger] ranks[i]).0 == i
}

/// The bytes of the entries of a file that are no added tokens, in the order of
/// their numbers, which must be dense.
pub fn gpt2_mergeable_ranks(tj: &TokenizerJson) -> (res: Result<Vec<Vec<u8>>, LoadError>)
    ensures
        exists|ranks: Seq<(u32, Seq<u8>)>| #[trigger]
            order::sorts(
                mergeable(
                    schema::entry_views(tj.model.vocab@),
                    tj.added_tokens@,
                    tj.model.vocab@.len(),
                ),
                ranks,
            ) && match res {
                Ok(out) => {
                    &&& dense(ranks, ranks.len() as int)
                    &&& out@.len() == ranks.len()
                    &&& forall|i: int|
                        0 <= i < ranks.len() ==> (#[trigger] out@[i])@ == ranks[i].1
                },
                Err(e) => exists|i: int|
                    0 <= i < ranks.len() && dense(ranks, i) && (#[trigger] ranks[i]).0 != i
                        && e.text() == gap_text(ranks[i].0, i),
            },
{
    let (_, u2b) = vocab::build_byte_unicode_tables();
    let ghost views = schema::entry_views(tj.model.vocab@);
    let mut kept: Vec<(u32, Vec<u8>)> = Vec::new();
    assert(order::views(kept@) =~= mergeable(views, tj.added_tokens@, 0));
    let mut i: usize = 0;
    while i < tj.model.vocab.len()
        invariant
            vocab::byte_table(u2b@),
            views == schema::entry_views(tj.model.vocab@),
            i <= tj.model.vocab@.len(),
            order::views(kept@) == mergeable(views, tj.added_tokens@, i as nat),
        decreases tj.model.vocab@.len() - i,
    {
        let id: u32 = tj.model.vocab[i].1.0;
        let name = tj.model.vocab[i].0.as_str();
        assert(views[i as int] == (name@, id));
        if !holds_id(&tj.added_tokens, id) {
            let ghost before = kept@;
            let bytes = vocab::unicode_to_bytes(name, &u2b);
            let ghost entry = (id, bytes@);
            kept.push((id, bytes));
            assert(order::views(kept@) =~= order::views(before).push(entry));
        }
        i += 1;
    }
    let sorted = order::sorted(kept);
    let ghost ranks = order::views(sorted@);
    let mut out: Vec<Vec<u8>> = Vec::new();
    let mut k: usize = 0;
    while k < sorted.len()
        invariant
            ranks == order::views(sorted@),
            order::sorts(
                mergeable(
                    schema::entry_views(tj.model.vocab@),
                    tj.added_tokens@,
                    tj.model.vocab@.len(),
                ),
                ranks,
            ),
            k <= sorted@.len(),
            dense(ranks, k as int),
            out@.len() == k,
            forall|m: int| 0 <= m < k ==> (#[trigger] out@[m])@ == ranks[m].1,
        decreases sorted@.len() - k,
    {
        let id: u32 = sorted[k].0;
        assert(ranks[k as int] == (id, sorted@[k as int].1@));
        if id as u64 != k as u64 {
            let shown = text::show_decimal(id as u64);
            let at = text::show_decimal(k as u64);
            let head = text::join("GPT-2 rank ", shown.as_str());
            let middle = text::join(head.as_str(), " at position ");
            let placed = text::join(middle.as_str(), at.as_str());
            return Err(
                LoadError::Refused {
                    reason: text::join(placed.as_str(), ": mergeable ranks must be dense"),
                },
            );
        }
        out.push(slice_to_vec(sorted[k].1.as_slice()));
        k += 1;
    }
    Ok(out)
}

} // verus!
