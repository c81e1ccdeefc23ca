//! What the blocks of a `tokenizer.json` file ask for.

use super::schema::{DecoderJson, NormalizerJson, PreTokenizerJson};
use crate::bpe::bert_normalizer::{BertNormalizer, BertSteps};
use crate::bpe::wordpiece::WordPieceDecoder;
use crate::error::LoadError;
use crate::pretokenize::options;
use crate::pretokenize::options::PretokenizerType;
use crate::text;
use vstd::prelude::*;

verus! {

/// Whether a normalizer composes text, or why it is refused: it must be NFC, or
/// a sequence of such.
pub open spec fn nfc_of(n: NormalizerJson) -> Result<bool, Seq<char>>
    decreases n, 0int,
{
    if n.kind@ == "NFC"@ {
        Ok(true)
    } else if n.kind@ == "Sequence"@ {
        nfc_from(n.normalizers@, 0)
    } else {
        Err("Unsupported normalizer type: "@ + n.kind@)
    }
}

/// The same of the normalizers from index `i` on: whether any composes, or why
/// the first is refused that is.
pub open spec fn nfc_from(list: Seq<NormalizerJson>, i: int) -> Result<bool, Seq<char>>
    decreases list, list.len() - i,
{
    if i < 0 || i >= list.len() {
        Ok(false)
    } else {
        match nfc_of(list[i]) {
            Err(e) => Err(e),
            Ok(here) => match nfc_from(list, i + 1) {
                Err(e) => Err(e),
                Ok(later) => Ok(here || later),
            },
        }
    }
}

fn is_nfc(n: &NormalizerJson) -> (res: Result<bool, LoadError>)
    ensures
        match res {
            Ok(b) => nfc_of(*n) == Ok::<bool, Seq<char>>(b),
            Err(e) => nfc_of(*n) == Err::<bool, Seq<char>>(e.text()),
        },
    decreases n,
{
    let kind = n.kind.as_str();
    if text::same(kind, "NFC") {
        return Ok(true);
    }
    if !text::same(kind, "Sequence") {
        return Err(LoadError::Refused { reason: text::join("Unsupported normalizer type: ", kind) });
    }
    let mut any = false;
    let mut i: usize = 0;
    while i < n.normalizers.len()
        invariant
            i <= n.normalizers@.len(),
            nfc_of(*n) == (match nfc_from(n.normalizers@, i as int) {
                Ok(later) => Ok::<bool, Seq<char>>(any || later),
                Err(e) => Err(e),
            }),
        decreases n.normalizers@.len() - i,
    {
        match is_nfc(&n.normalizers[i]) {
            Ok(b) => {
                any = any || b;
            },
            Err(e) => {
                return Err(e);
            },
        }
        i += 1;
    }
    Ok(any)
}

/// Whether a byte-level tokenizer composes text (NFC), or why its normalizer is
/// refused.
pub open spec fn nfc_setting(normalizer: Option<NormalizerJson>) -> Result<bool, Seq<char>> {
    match normalizer {
        None => Ok(false),
        Some(n) => nfc_of(n),
    }
}

/// Whether a byte-level tokenizer composes text. Nothing but NFC is accepted:
/// to skip a normalizer would change the tokens.
pub fn detect_nfc_normalizer(normalizer: &Option<NormalizerJson>) -> (res: Result<bool, LoadError>)
    ensures
        match res {
            Ok(b) => nfc_setting(*normalizer) == Ok::<bool, Seq<char>>(b),
            Err(e) => nfc_setting(*normalizer) == Err::<bool, Seq<char>>(e.text()),
        },
{
    match normalizer {
        None => Ok(false),
        Some(n) => is_nfc(n),
    }
}

/// The expressions of the `Split` blocks of a pre-tokenizer, from the outside in
/// and in order.
pub open spec fn split_regexes(pt: PreTokenizerJson) -> Seq<Seq<char>>
    decreases pt, 0int,
{
    own_regex(pt) + split_regexes_from(pt.pretokenizers@, 0)
}

/// The expression of a `Split` block itself.
pub open spec fn own_regex(pt: PreTokenizerJson) -> Seq<Seq<char>> {
    match pt.pattern {
        Some(p) if pt.kind@ == "Split"@ => match p.regex {
            Some(re) => seq![re@],
            None => Seq::empty(),
        },
        _ => Seq::empty(),
    }
}

/// The expressions of the pre-tokenizers from index `i` on.
pub open spec fn split_regexes_from(list: Seq<PreTokenizerJson>, i: int) -> Seq<Seq<char>>
    decreases list, list.len() - i,
{
    if i < 0 || i >= list.len() {
        Seq::empty()
    } else {
        split_regexes(list[i]) + split_regexes_from(list, i + 1)
    }
}

fn collect_split_regexes(pt: &PreTokenizerJson, out: &mut Vec<String>)
    ensures
        text::texts(final(out)@) == text::texts(old(out)@) + split_regexes(*pt),
    decreases pt,
{
    let ghost start = text::texts(out@);
    if text::same(pt.kind.as_str(), "Split") {
        match &pt.pattern {
            Some(p) => match &p.regex {
                Some(re) => {
                    let ghost before = out@;
                    out.push(re.as_str().to_owned());
                    assert(text::texts(out@) =~= text::texts(before).push(re@));
                },
                None => {},
            },
            None => {},
        }
    }
    assert(text::texts(out@) =~= start + own_regex(*pt));
    let mut i: usize = 0;
    while i < pt.pretokenizers.len()
        invariant
            start == text::texts(old(out)@),
            i <= pt.pretokenizers@.len(),
            text::texts(out@) + split_regexes_from(pt.pretokenizers@, i as int) == start
                + split_regexes(*pt),
        decreases pt.pretokenizers@.len() - i,
    {
        let ghost before = text::texts(out@);
        collect_split_regexes(&pt.pretokenizers[i], out);
        proof {
            let child = split_regexes(pt.pretokenizers@[i as int]);
            let rest = split_regexes_from(pt.pretokenizers@, i + 1);
            assert((before + child) + rest =~= before + (child + rest));
        }
        i += 1;
    }
    assert(text::texts(out@) =~= start + split_regexes(*pt));
}

/// Whether a pre-tokenizer is BERT's or holds one that is.
pub open spec fn has_bert(pt: PreTokenizerJson) -> bool
    decreases pt,
{
    pt.kind@ == "BertPreTokenizer"@ || exists|i: int|
        0 <= i < pt.pretokenizers@.len() && has_bert(#[trigger] pt.pretokenizers@[i])
}

fn holds_bert(pt: &PreTokenizerJson) -> (res: bool)
    ensures
        res == has_bert(*pt),
    decreases pt,
{
    if text::same(pt.kind.as_str(), "BertPreTokenizer") {
        return true;
    }
    let mut i: usize = 0;
    while i < pt.pretokenizers.len()
        invariant
            i <= pt.pretokenizers@.len(),
            pt.kind@ != "BertPreTokenizer"@,
            forall|m: int| 0 <= m < i ==> !has_bert(#[trigger] pt.pretokenizers@[m]),
        decreases pt.pretokenizers@.len() - i,
    {
        if holds_bert(&pt.pretokenizers[i]) {
            assert(has_bert(pt.pretokenizers@[i as int]));
            return true;
        }
        i += 1;
    }
    false
}

/// The scheme that a file asks for, or why its pre-tokenizer is refused: BERT's
/// where any block is BERT's; else the one of its `Split` expressions; without
/// any, a bare `ByteLevel` splits as GPT-2 does unless told not to, which leaves
/// superwords whole; GPT-2's where there is no pre-tokenizer.
pub open spec fn scheme_setting(pre_tokenizer: Option<PreTokenizerJson>) -> Result<
    PretokenizerType,
    Seq<char>,
> {
    match pre_tokenizer {
        None => Ok(PretokenizerType::GPT2),
        Some(pt) => if has_bert(pt) {
            Ok(PretokenizerType::Bert)
        } else if split_regexes(pt).len() == 0 {
            if pt.kind@ == "ByteLevel"@ {
                if pt.use_regex == Some(false) {
                    Ok(PretokenizerType::Superword)
                } else {
                    Ok(PretokenizerType::GPT2)
                }
            } else {
                Err("Unsupported pre_tokenizer type: "@ + pt.kind@ + " (no Split regex found)"@)
            }
        } else {
            match options::scheme_of_regexes(split_regexes(pt)) {
                Some(scheme) => Ok(scheme),
                None => Err(
                    "Unknown pre_tokenizer Split regexes, no fast pretokenizer for: "@
                        + text::debug_list(split_regexes(pt)),
                ),
            }
        },
    }
}

/// The scheme that a file asks for.
pub fn detect_pretokenizer_type(pre_tokenizer: &Option<PreTokenizerJson>) -> (res: Result<
    PretokenizerType,
    LoadError,
>)
    ensures
        match res {
            Ok(scheme) => scheme_setting(*pre_tokenizer) == Ok::<PretokenizerType, Seq<char>>(
                scheme,
            ),
            Err(e) => scheme_setting(*pre_tokenizer) == Err::<PretokenizerType, Seq<char>>(
                e.text(),
            ),
        },
{
    let pt = match pre_tokenizer {
        None => {
            return Ok(PretokenizerType::GPT2);
        },
        Some(pt) => pt,
    };
    if holds_bert(pt) {
        return Ok(PretokenizerType::Bert);
    }
    let mut regexes: Vec<String> = Vec::new();
    collect_split_regexes(pt, &mut regexes);
    assert(text::texts(regexes@) =~= split_regexes(*pt));
    if regexes.len() == 0 {
        if text::same(pt.kind.as_str(), "ByteLevel") {
            return match pt.use_regex {
                Some(false) => Ok(PretokenizerType::Superword),
                _ => Ok(PretokenizerType::GPT2),
            };
        }
        let named = text::join("Unsupported pre_tokenizer type: ", pt.kind.as_str());
        return Err(
            LoadError::Refused { reason: text::join(named.as_str(), " (no Split regex found)") },
        );
    }
    match PretokenizerType::from_split_regexes(&regexes) {
        Some(scheme) => Ok(scheme),
        None => {
            let shown = text::show_list(&regexes);
            Err(
                LoadError::Refused {
                    reason: text::join(
                        "Unknown pre_tokenizer Split regexes, no fast pretokenizer for: ",
                        shown.as_str(),
                    ),
                },
            )
        },
    }
}

/// Whether a pre-tokenizer is a `ByteLevel` that adds a leading space, or holds
/// one that is.
pub open spec fn adds_space(pt: PreTokenizerJson) -> bool
    decreases pt,
{
    (pt.kind@ == "ByteLevel"@ && pt.add_prefix_space == Some(true)) || exists|i: int|
        0 <= i < pt.pretokenizers@.len() && adds_space(#[trigger] pt.pretokenizers@[i])
}

fn prefix_space(pt: &PreTokenizerJson) -> (res: bool)
    ensures
        res == adds_space(*pt),
    decreases pt,
{
    let asked = match pt.add_prefix_space {
        Some(on) => on,
        None => false,
    };
    if asked && text::same(pt.kind.as_str(), "ByteLevel") {
        return true;
    }
    let mut i: usize = 0;
    while i < pt.pretokenizers.len()
        invariant
            i <= pt.pretokenizers@.len(),
            !(pt.kind@ == "ByteLevel"@ && pt.add_prefix_space == Some(true)),
            forall|m: int| 0 <= m < i ==> !adds_space(#[trigger] pt.pretokenizers@[m]),
        decreases pt.pretokenizers@.len() - i,
    {
        if prefix_space(&pt.pretokenizers[i]) {
            assert(adds_space(pt.pretokenizers@[i as int]));
            return true;
        }
        i += 1;
    }
    false
}

/// Whether a leading space is added to text.
pub open spec fn prefix_space_setting(pre_tokenizer: Option<PreTokenizerJson>) -> bool {
    pre_tokenizer matches Some(pt) && adds_space(pt)
}

/// Whether a `ByteLevel` block anywhere in a pre-tokenizer adds a leading space.
pub fn detect_add_prefix_space(pre_tokenizer: &Option<PreTokenizerJson>) -> (res: bool)
    ensures
        res == prefix_space_setting(*pre_tokenizer),
{
    match pre_tokenizer {
        None => false,
        Some(pt) => prefix_space(pt),
    }
}

/// The first `WordPiece` block of a decoder, sequences searched in order.
pub open spec fn decoder_of(d: DecoderJson) -> Option<DecoderJson>
    decreases d, 0int,
{
    if d.kind@ == "WordPiece"@ {
        Some(d)
    } else if d.kind@ == "Sequence"@ {
        decoder_from(d.decoders@, 0)
    } else {
        None
    }
}

/// The first `WordPiece` block of the decoders from index `i` on.
pub open spec fn decoder_from(list: Seq<DecoderJson>, i: int) -> Option<DecoderJson>
    decreases list, list.len() - i,
{
    if i < 0 || i >= list.len() {
        None
    } else {
        match decoder_of(list[i]) {
            Some(d) => Some(d),
            None => decoder_from(list, i + 1),
        }
    }
}

fn find_decoder<'a>(d: &'a DecoderJson) -> (res: Option<&'a DecoderJson>)
    ensures
        match res {
            Some(found) => decoder_of(*d) == Some(*found),
            None => decoder_of(*d) is None,
        },
    decreases d,
{
    let kind = d.kind.as_str();
    if text::same(kind, "WordPiece") {
        return Some(d);
    }
    if !text::same(kind, "Sequence") {
        return None;
    }
    let mut i: usize = 0;
    while i < d.decoders.len()
        invariant
            i <= d.decoders@.len(),
            decoder_of(*d) == decoder_from(d.decoders@, i as int),
        decreases d.decoders@.len() - i,
    {
        match find_decoder(&d.decoders[i]) {
            Some(found) => {
                return Some(found);
            },
            None => {},
        }
        i += 1;
    }
    None
}

/// The text of an optional string, or a default.
pub open spec fn text_or(s: Option<String>, default: Seq<char>) -> Seq<char> {
    match s {
        Some(s) => s@,
        None => default,
    }
}

/// The value of an optional boolean, or a default.
pub open spec fn bool_or(b: Option<bool>, default: bool) -> bool {
    match b {
        Some(b) => b,
        None => default,
    }
}

/// An optional string, or a default.
pub fn string_or(s: &Option<String>, default: &str) -> (res: String)
    ensures
        res@ == text_or(*s, default@),
{
    match s {
        Some(s) => s.as_str().to_owned(),
        None => default.to_owned(),
    }
}

/// An optional boolean, or a default.
pub fn flag_or(b: Option<bool>, default: bool) -> (res: bool)
    ensures
        res == bool_or(b, default),
{
    match b {
        Some(b) => b,
        None => default,
    }
}

/// The WordPiece decoder of a file. Without one, pieces are joined by spaces and
/// keep their prefix; its two fields have defaults only where there is one.
pub fn parse_wordpiece_decoder(decoder: &Option<DecoderJson>) -> (res: Option<WordPieceDecoder>)
    ensures
        match decoder {
            None => res is None,
            Some(d) => match decoder_of(*d) {
                None => res is None,
                Some(found) => {
                    &&& res matches Some(w)
                    &&& w.prefix@ == text_or(found.prefix, "##"@)
                    &&& w.cleanup == bool_or(found.cleanup, true)
                },
            },
        },
{
    match decoder {
        None => None,
        Some(d) => match find_decoder(d) {
            None => None,
            Some(found) => Some(
                WordPieceDecoder {
                    prefix: string_or(&found.prefix, "##"),
                    cleanup: flag_or(found.cleanup, true),
                },
            ),
        },
    }
}

/// The first `BertNormalizer` block of a normalizer, sequences searched in
/// order, or why the first block of another kind is refused, wherever it stands.
pub open spec fn bert_of(n: NormalizerJson) -> Result<Option<NormalizerJson>, Seq<char>>
    decreases n, 0int,
{
    if n.kind@ == "BertNormalizer"@ {
        Ok(Some(n))
    } else if n.kind@ == "Sequence"@ {
        bert_from(n.normalizers@, 0)
    } else {
        Err("Unsupported normalizer type for WordPiece tokenizers: "@ + n.kind@)
    }
}

/// The same of the normalizers from index `i` on.
pub open spec fn bert_from(list: Seq<NormalizerJson>, i: int) -> Result<
    Option<NormalizerJson>,
    Seq<char>,
>
    decreases list, list.len() - i,
{
    if i < 0 || i >= list.len() {
        Ok(None)
    } else {
        match bert_of(list[i]) {
            Err(e) => Err(e),
            Ok(None) => bert_from(list, i + 1),
            Ok(Some(n)) => match bert_from(list, i + 1) {
                Err(e) => Err(e),
                Ok(_) => Ok(Some(n)),
            },
        }
    }
}

fn find_bert<'a>(n: &'a NormalizerJson) -> (res: Result<Option<&'a NormalizerJson>, LoadError>)
    ensures
        match res {
            Ok(Some(found)) => bert_of(*n) == Ok::<Option<NormalizerJson>, Seq<char>>(Some(*found)),
            Ok(None) => bert_of(*n) == Ok::<Option<NormalizerJson>, Seq<char>>(None),
            Err(e) => bert_of(*n) == Err::<Option<NormalizerJson>, Seq<char>>(e.text()),
        },
    decreases n,
{
    let kind = n.kind.as_str();
    if text::same(kind, "BertNormalizer") {
        return Ok(Some(n));
    }
    if !text::same(kind, "Sequence") {
        return Err(
            LoadError::Refused {
                reason: text::join("Unsupported normalizer type for WordPiece tokenizers: ", kind),
            },
        );
    }
    let mut first: Option<&'a NormalizerJson> = None;
    let mut i: usize = 0;
    while i < n.normalizers.len()
        invariant
            i <= n.normalizers@.len(),
            match first {
                None => bert_of(*n) == bert_from(n.normalizers@, i as int),
                Some(found) => bert_of(*n) == (match bert_from(n.normalizers@, i as int) {
                    Err(e) => Err::<Option<NormalizerJson>, Seq<char>>(e),
                    Ok(_) => Ok(Some(*found)),
                }),
            },
        decreases n.normalizers@.len() - i,
    {
        match find_bert(&n.normalizers[i]) {
            Err(e) => {
                return Err(e);
            },
            Ok(Some(found)) => {
                if first.is_none() {
                    first = Some(found);
                }
            },
            Ok(None) => {},
        }
        i += 1;
    }
    Ok(first)
}

/// The steps that a `BertNormalizer` block turns on. Where nothing is said of
/// accents they follow lowercasing.
pub open spec fn bert_steps(n: NormalizerJson) -> BertSteps {
    BertSteps {
        clean_text: bool_or(n.clean_text, true),
        handle_chinese_chars: bool_or(n.handle_chinese_chars, true),
        strip_accents: bool_or(n.strip_accents, bool_or(n.lowercase, true)),
        lowercase: bool_or(n.lowercase, true),
    }
}

/// The steps of a WordPiece tokenizer's normalizer, none where it does nothing,
/// or why it is refused.
pub open spec fn bert_setting(normalizer: Option<NormalizerJson>) -> Result<
    Option<BertSteps>,
    Seq<char>,
> {
    match normalizer {
        None => Ok(None),
        Some(n) => match bert_of(n) {
            Err(e) => Err(e),
            Ok(None) => Ok(None),
            Ok(Some(found)) => {
                let steps = bert_steps(found);
                if steps.clean_text || steps.handle_chinese_chars || steps.strip_accents
                    || steps.lowercase {
                    Ok(Some(steps))
                } else {
                    Ok(None)
                }
            },
        },
    }
}

/// The normalizer of a WordPiece tokenizer. Another kind of block is refused: to
/// skip it would change the tokens.
pub fn parse_bert_normalizer(normalizer: &Option<NormalizerJson>) -> (res: Result<
    Option<BertNormalizer>,
    LoadError,
>)
    ensures
        match res {
            Ok(Some(norm)) => bert_setting(*normalizer) == Ok::<Option<BertSteps>, Seq<char>>(
                Some(norm.steps()),
            ),
            Ok(None) => bert_setting(*normalizer) == Ok::<Option<BertSteps>, Seq<char>>(None),
            Err(e) => bert_setting(*normalizer) == Err::<Option<BertSteps>, Seq<char>>(e.text()),
        },
{
    let n = match normalizer {
        None => {
            return Ok(None);
        },
        Some(n) => n,
    };
    match find_bert(n) {
        Err(e) => Err(e),
        Ok(None) => Ok(None),
        Ok(Some(found)) => {
            let norm = BertNormalizer::new(
                flag_or(found.clean_text, true),
                flag_or(found.handle_chinese_chars, true),
                found.strip_accents,
                flag_or(found.lowercase, true),
            );
            if norm.is_noop() {
                Ok(None)
            } else {
                Ok(Some(norm))
            }
        },
    }
}

} // verus!
