//! What the blocks of a file ask for.

use crate::bpe::bert_normalizer::BertSteps;
use crate::bpe::tiktoken::{Model, Tokenizer};
use crate::load_tokenizer::detect;
use crate::load_tokenizer::hf;
use crate::load_tokenizer::schema::{
    DecoderJson, NormalizerJson, PreTokenizerJson, TokenizerJson,
};
use crate::pretokenize::options;
use crate::pretokenize::options::PretokenizerType;
use vstd::prelude::*;
use vstd::utf8::*;

verus! {

/// Whether a block stands alone: it holds no other blocks.
pub open spec fn alone(pt: PreTokenizerJson) -> bool {
    pt.pretokenizers@.len() == 0
}

/// Without a pre-tokenizer text is split as GPT-2 splits it.
pub proof fn law_no_pretokenizer()
    ensures
        detect::scheme_setting(None) == Ok::<PretokenizerType, Seq<char>>(PretokenizerType::GPT2),
{
}

/// A `ByteLevel` block by itself splits as GPT-2 does, unless it is told to use no
/// expression: then nothing is split.
pub proof fn law_byte_level_block(pt: PreTokenizerJson)
    requires
        alone(pt),
        pt.kind@ == "ByteLevel"@,
    ensures
        pt.use_regex == Some(false) ==> detect::scheme_setting(Some(pt)) == Ok::<
            PretokenizerType,
            Seq<char>,
        >(PretokenizerType::Superword),
        pt.use_regex != Some(false) ==> detect::scheme_setting(Some(pt)) == Ok::<
            PretokenizerType,
            Seq<char>,
        >(PretokenizerType::GPT2),
{
    reveal_strlit("ByteLevel");
    reveal_strlit("BertPreTokenizer");
    reveal_strlit("Split");
    assert("ByteLevel"@.len() == 9 && "BertPreTokenizer"@.len() == 16 && "Split"@.len() == 5);
    assert(detect::own_regex(pt).len() == 0);
    assert(detect::split_regexes(pt) =~= Seq::<Seq<char>>::empty());
}

/// A BERT block, by itself or among others at any depth, splits as BERT does.
pub proof fn law_bert_block(pt: PreTokenizerJson, i: int)
    ensures
        pt.kind@ == "BertPreTokenizer"@ ==> detect::scheme_setting(Some(pt)) == Ok::<
            PretokenizerType,
            Seq<char>,
        >(PretokenizerType::Bert),
        0 <= i < pt.pretokenizers@.len() && detect::scheme_setting(Some(pt.pretokenizers@[i]))
            == Ok::<PretokenizerType, Seq<char>>(PretokenizerType::Bert) ==> detect::scheme_setting(
            Some(pt),
        ) == Ok::<PretokenizerType, Seq<char>>(PretokenizerType::Bert),
{
    if 0 <= i < pt.pretokenizers@.len() && detect::scheme_setting(Some(pt.pretokenizers@[i]))
        == Ok::<PretokenizerType, Seq<char>>(PretokenizerType::Bert) {
        assert(detect::has_bert(pt.pretokenizers@[i]));
        assert(detect::has_bert(pt));
    }
}

/// The scheme of one expression: the three that are known, written out, and no
/// other.
pub proof fn law_known_expressions(re: Seq<char>)
    ensures
        re
            == "'(?:[sdmt]|ll|ve|re)| ?\\p{L}+| ?\\p{N}+| ?[^\\s\\p{L}\\p{N}]+|\\s+(?!\\S)|\\s+"@
            ==> options::scheme_of_regexes(seq![re]) == Some(PretokenizerType::GPT2),
        re
            == "[^\\r\\n\\p{L}\\p{N}]?[\\p{Lu}\\p{Lt}\\p{Lm}\\p{Lo}\\p{M}]*[\\p{Ll}\\p{Lm}\\p{Lo}\\p{M}]+|[^\\r\\n\\p{L}\\p{N}]?[\\p{Lu}\\p{Lt}\\p{Lm}\\p{Lo}\\p{M}]+[\\p{Ll}\\p{Lm}\\p{Lo}\\p{M}]*|\\p{N}{1,3}| ?[^\\s\\p{L}\\p{N}]+[\\r\\n/]*|\\s*[\\r\\n]+|\\s+(?!\\S)|\\s+"@
            ==> options::scheme_of_regexes(seq![re]) == Some(PretokenizerType::SuperBPEStage1),
        re == "\\p{N}{1,3}| ?[^\\s\\p{L}\\p{N}]{2,}[\\r\\n/]*| +(?!\\S)"@
            ==> options::scheme_of_regexes(seq![re]) == Some(PretokenizerType::SuperwordBounded),
        options::scheme_of_regexes(seq![re]) is Some ==> re
            == "'(?:[sdmt]|ll|ve|re)| ?\\p{L}+| ?\\p{N}+| ?[^\\s\\p{L}\\p{N}]+|\\s+(?!\\S)|\\s+"@
            || re
            == "[^\\r\\n\\p{L}\\p{N}]?[\\p{Lu}\\p{Lt}\\p{Lm}\\p{Lo}\\p{M}]*[\\p{Ll}\\p{Lm}\\p{Lo}\\p{M}]+|[^\\r\\n\\p{L}\\p{N}]?[\\p{Lu}\\p{Lt}\\p{Lm}\\p{Lo}\\p{M}]+[\\p{Ll}\\p{Lm}\\p{Lo}\\p{M}]*|\\p{N}{1,3}| ?[^\\s\\p{L}\\p{N}]+[\\r\\n/]*|\\s*[\\r\\n]+|\\s+(?!\\S)|\\s+"@
            || re == "\\p{N}{1,3}| ?[^\\s\\p{L}\\p{N}]{2,}[\\r\\n/]*| +(?!\\S)"@,
{
    reveal_strlit(
        "'(?:[sdmt]|ll|ve|re)| ?\\p{L}+| ?\\p{N}+| ?[^\\s\\p{L}\\p{N}]+|\\s+(?!\\S)|\\s+",
    );
    reveal_strlit(
        "[^\\r\\n\\p{L}\\p{N}]?[\\p{Lu}\\p{Lt}\\p{Lm}\\p{Lo}\\p{M}]*[\\p{Ll}\\p{Lm}\\p{Lo}\\p{M}]+|[^\\r\\n\\p{L}\\p{N}]?[\\p{Lu}\\p{Lt}\\p{Lm}\\p{Lo}\\p{M}]+[\\p{Ll}\\p{Lm}\\p{Lo}\\p{M}]*|\\p{N}{1,3}| ?[^\\s\\p{L}\\p{N}]+[\\r\\n/]*|\\s*[\\r\\n]+|\\s+(?!\\S)|\\s+",
    );
    reveal_strlit("\\p{N}{1,3}| ?[^\\s\\p{L}\\p{N}]{2,}[\\r\\n/]*| +(?!\\S)");
    assert(options::GPT2_REGEX@[0] == '\'');
    assert(options::STAGE1_REGEX@[0] == '[');
    assert(options::SUPERWORD_BOUNDED_REGEX@[0] == '\\');
}

/// A `Split` block by itself splits by its expression where that is known, and is
/// refused else.
pub proof fn law_split_block(pt: PreTokenizerJson, re: Seq<char>)
    requires
        alone(pt),
        pt.kind@ == "Split"@,
        pt.pattern matches Some(p) && p.regex matches Some(r) && r@ == re,
    ensures
        match options::scheme_of_regexes(seq![re]) {
            Some(scheme) => detect::scheme_setting(Some(pt)) == Ok::<PretokenizerType, Seq<char>>(
                scheme,
            ),
            None => detect::scheme_setting(Some(pt)) is Err,
        },
{
    lemma_split_block(pt, re);
    reveal_strlit("BertPreTokenizer");
    reveal_strlit("Split");
    assert("BertPreTokenizer"@.len() == 16 && "Split"@.len() == 5);
}

proof fn lemma_split_block(pt: PreTokenizerJson, re: Seq<char>)
    requires
        alone(pt),
        pt.kind@ == "Split"@,
        pt.pattern matches Some(p) && p.regex matches Some(r) && r@ == re,
    ensures
        detect::split_regexes(pt) == seq![re],
{
    assert(detect::split_regexes(pt) =~= seq![re]);
}

/// A sequence of a `Split` block and a `ByteLevel` block splits as the `Split`
/// block does.
pub proof fn law_split_then_byte_level(pt: PreTokenizerJson, re: Seq<char>)
    requires
        pt.kind@ == "Sequence"@,
        pt.pretokenizers@.len() == 2,
        alone(pt.pretokenizers@[0]),
        pt.pretokenizers@[0].kind@ == "Split"@,
        pt.pretokenizers@[0].pattern matches Some(p) && p.regex matches Some(r) && r@ == re,
        alone(pt.pretokenizers@[1]),
        pt.pretokenizers@[1].kind@ == "ByteLevel"@,
    ensures
        match options::scheme_of_regexes(seq![re]) {
            Some(scheme) => detect::scheme_setting(Some(pt)) == Ok::<PretokenizerType, Seq<char>>(
                scheme,
            ),
            None => detect::scheme_setting(Some(pt)) is Err,
        },
{
    let first = pt.pretokenizers@[0];
    let second = pt.pretokenizers@[1];
    lemma_split_block(first, re);
    reveal_strlit("BertPreTokenizer");
    reveal_strlit("Split");
    reveal_strlit("Sequence");
    reveal_strlit("ByteLevel");
    assert("BertPreTokenizer"@.len() == 16 && "Split"@.len() == 5 && "Sequence"@.len() == 8
        && "ByteLevel"@.len() == 9);
    assert(detect::split_regexes(second) =~= Seq::<Seq<char>>::empty());
    assert(detect::own_regex(pt).len() == 0);
    let list = pt.pretokenizers@;
    assert(detect::split_regexes_from(list, 2) =~= Seq::<Seq<char>>::empty());
    assert(detect::split_regexes_from(list, 1) =~= Seq::<Seq<char>>::empty());
    assert(detect::split_regexes_from(list, 0) =~= seq![re]);
    assert(detect::own_regex(pt) =~= Seq::<Seq<char>>::empty());
    assert(detect::split_regexes(pt) =~= seq![re]);
    assert(!detect::has_bert(pt)) by {
        assert forall|i: int| 0 <= i < 2 implies !detect::has_bert(
            #[trigger] pt.pretokenizers@[i],
        ) by {
            assert(i == 0 || i == 1);
        }
    }
}

/// A leading space is added where a `ByteLevel` block asks for it, by itself or
/// among others at any depth, and nowhere else.
pub proof fn law_leading_space(pt: PreTokenizerJson)
    ensures
        !detect::prefix_space_setting(None),
        detect::prefix_space_setting(Some(pt)) <==> (pt.kind@ == "ByteLevel"@
            && pt.add_prefix_space == Some(true)) || exists|i: int|
            0 <= i < pt.pretokenizers@.len() && detect::prefix_space_setting(
                Some(#[trigger] pt.pretokenizers@[i]),
            ),
{
    if detect::adds_space(pt) && !(pt.kind@ == "ByteLevel"@ && pt.add_prefix_space == Some(true)) {
        let i = choose|i: int|
            0 <= i < pt.pretokenizers@.len() && detect::adds_space(#[trigger] pt.pretokenizers@[i]);
        assert(detect::prefix_space_setting(Some(pt.pretokenizers@[i])));
    }
}

/// Text is composed where an NFC block asks for it; no other block is let pass,
/// and a sequence composes where a block of it does and none of it is refused.
pub proof fn law_composition(n: NormalizerJson)
    ensures
        detect::nfc_setting(None) == Ok::<bool, Seq<char>>(false),
        n.kind@ == "NFC"@ ==> detect::nfc_setting(Some(n)) == Ok::<bool, Seq<char>>(true),
        n.kind@ != "NFC"@ && n.kind@ != "Sequence"@ ==> detect::nfc_setting(Some(n)) is Err,
        n.kind@ == "Sequence"@ ==> (detect::nfc_setting(Some(n)) is Ok <==> forall|i: int|
            0 <= i < n.normalizers@.len() ==> detect::nfc_setting(
                Some(#[trigger] n.normalizers@[i]),
            ) is Ok),
        n.kind@ == "Sequence"@ && detect::nfc_setting(Some(n)) is Ok ==> (detect::nfc_setting(
            Some(n),
        ) == Ok::<bool, Seq<char>>(true) <==> exists|i: int|
            0 <= i < n.normalizers@.len() && detect::nfc_setting(Some(#[trigger] n.normalizers@[i]))
                == Ok::<bool, Seq<char>>(true)),
{
    reveal_strlit("NFC");
    reveal_strlit("Sequence");
    assert("NFC"@.len() == 3 && "Sequence"@.len() == 8);
    if n.kind@ == "Sequence"@ {
        lemma_composition_from(n.normalizers@, 0);
        if forall|i: int|
            0 <= i < n.normalizers@.len() ==> detect::nfc_setting(
                Some(#[trigger] n.normalizers@[i]),
            ) is Ok {
            assert forall|i: int| 0 <= i < n.normalizers@.len() implies detect::nfc_of(
                #[trigger] n.normalizers@[i],
            ) is Ok by {
                assert(detect::nfc_setting(Some(n.normalizers@[i])) is Ok);
            }
        } else {
            let i = choose|i: int|
                0 <= i < n.normalizers@.len() && !(detect::nfc_setting(
                    Some(#[trigger] n.normalizers@[i]),
                ) is Ok);
            assert(!(detect::nfc_of(n.normalizers@[i]) is Ok));
        }
        if detect::nfc_of(n) == Ok::<bool, Seq<char>>(true) {
            let i = choose|i: int|
                0 <= i < n.normalizers@.len() && detect::nfc_of(#[trigger] n.normalizers@[i])
                    == Ok::<bool, Seq<char>>(true);
            assert(detect::nfc_setting(Some(n.normalizers@[i])) == Ok::<bool, Seq<char>>(true));
        }
    }
}

proof fn lemma_composition_from(list: Seq<NormalizerJson>, i: int)
    requires
        0 <= i <= list.len(),
    ensures
        detect::nfc_from(list, i) is Ok <==> forall|k: int|
            i <= k < list.len() ==> detect::nfc_of(#[trigger] list[k]) is Ok,
        detect::nfc_from(list, i) is Ok ==> (detect::nfc_from(list, i) == Ok::<bool, Seq<char>>(
            true,
        ) <==> exists|k: int|
            i <= k < list.len() && detect::nfc_of(#[trigger] list[k]) == Ok::<bool, Seq<char>>(
                true,
            )),
    decreases list.len() - i,
{
    if i < list.len() {
        lemma_composition_from(list, i + 1);
        let here = detect::nfc_of(list[i]);
        if detect::nfc_from(list, i) == Ok::<bool, Seq<char>>(true) && here != Ok::<
            bool,
            Seq<char>,
        >(true) {
            let k = choose|k: int|
                i + 1 <= k < list.len() && detect::nfc_of(#[trigger] list[k]) == Ok::<
                    bool,
                    Seq<char>,
                >(true);
            assert(detect::nfc_of(list[k]) == Ok::<bool, Seq<char>>(true));
        }
    }
}

/// The steps of a BERT normalizer: each is on unless it is turned off, and accents
/// go with lowercasing where nothing is said of them.
pub proof fn law_bert_steps(n: NormalizerJson)
    requires
        n.kind@ == "BertNormalizer"@,
    ensures
        ({
            let clean_text = n.clean_text != Some(false);
            let handle_chinese_chars = n.handle_chinese_chars != Some(false);
            let lowercase = n.lowercase != Some(false);
            let strip_accents = match n.strip_accents {
                Some(on) => on,
                None => lowercase,
            };
            detect::bert_setting(Some(n)) == Ok::<Option<BertSteps>, Seq<char>>(
                if clean_text || handle_chinese_chars || strip_accents || lowercase {
                    Some(BertSteps { clean_text, handle_chinese_chars, strip_accents, lowercase })
                } else {
                    None
                },
            )
        }),
{
}

/// A WordPiece file without a normalizer normalizes nothing, and one with a block
/// that is neither BERT's nor a sequence is refused.
pub proof fn law_other_normalizers(n: NormalizerJson)
    ensures
        detect::bert_setting(None) == Ok::<Option<BertSteps>, Seq<char>>(None),
        n.kind@ != "BertNormalizer"@ && n.kind@ != "Sequence"@ ==> detect::bert_setting(Some(n))
            is Err,
{
}

/// A sequence of normalizers is refused where a block of it is, and the first BERT
/// block of it counts.
pub proof fn law_bert_in_sequence(n: NormalizerJson, k: int)
    requires
        n.kind@ == "Sequence"@,
        0 <= k < n.normalizers@.len(),
    ensures
        detect::bert_of(n.normalizers@[k]) is Err ==> detect::bert_setting(Some(n)) is Err,
        (forall|i: int|
            0 <= i < n.normalizers@.len() ==> detect::bert_of(#[trigger] n.normalizers@[i]) is Ok)
            && n.normalizers@[k].kind@ == "BertNormalizer"@ && (forall|i: int|
            0 <= i < k ==> (#[trigger] n.normalizers@[i]).kind@ == "Sequence"@
                && n.normalizers@[i].normalizers@.len() == 0) ==> detect::bert_setting(Some(n))
            == detect::bert_setting(Some(n.normalizers@[k])),
{
    let list = n.normalizers@;
    reveal_strlit("BertNormalizer");
    reveal_strlit("Sequence");
    assert("BertNormalizer"@.len() == 14 && "Sequence"@.len() == 8);
    if detect::bert_of(list[k]) is Err {
        lemma_bert_refused(list, k, 0);
    }
    if (forall|i: int| 0 <= i < list.len() ==> detect::bert_of(#[trigger] list[i]) is Ok)
        && list[k].kind@ == "BertNormalizer"@ && (forall|i: int|
        0 <= i < k ==> (#[trigger] list[i]).kind@ == "Sequence"@ && list[i].normalizers@.len()
            == 0) {
        lemma_bert_first(list, k, 0);
        assert(detect::bert_of(list[k]) == Ok::<Option<NormalizerJson>, Seq<char>>(Some(list[k])));
    }
}

proof fn lemma_bert_refused(list: Seq<NormalizerJson>, k: int, i: int)
    requires
        0 <= i <= k < list.len(),
        detect::bert_of(list[k]) is Err,
    ensures
        detect::bert_from(list, i) is Err,
    decreases k - i,
{
    if i < k {
        lemma_bert_refused(list, k, i + 1);
    }
}

proof fn lemma_bert_accepted(list: Seq<NormalizerJson>, i: int)
    requires
        0 <= i <= list.len(),
        forall|j: int| 0 <= j < list.len() ==> detect::bert_of(#[trigger] list[j]) is Ok,
    ensures
        detect::bert_from(list, i) is Ok,
    decreases list.len() - i,
{
    if i < list.len() {
        assert(detect::bert_of(list[i]) is Ok);
        lemma_bert_accepted(list, i + 1);
    }
}

proof fn lemma_bert_first(list: Seq<NormalizerJson>, k: int, i: int)
    requires
        0 <= i <= k < list.len(),
        "BertNormalizer"@ != "Sequence"@,
        forall|j: int| 0 <= j < list.len() ==> detect::bert_of(#[trigger] list[j]) is Ok,
        list[k].kind@ == "BertNormalizer"@,
        forall|j: int|
            0 <= j < k ==> (#[trigger] list[j]).kind@ == "Sequence"@ && list[j].normalizers@.len()
                == 0,
    ensures
        detect::bert_from(list, i) == Ok::<Option<NormalizerJson>, Seq<char>>(Some(list[k])),
    decreases k - i,
{
    if i < k {
        assert(list[i].kind@ == "Sequence"@);
        assert(detect::bert_from(list[i].normalizers@, 0) == Ok::<
            Option<NormalizerJson>,
            Seq<char>,
        >(None));
        assert(detect::bert_of(list[i]) == Ok::<Option<NormalizerJson>, Seq<char>>(None));
        lemma_bert_first(list, k, i + 1);
    } else {
        assert(detect::bert_of(list[k]) == Ok::<Option<NormalizerJson>, Seq<char>>(Some(list[k])));
        lemma_bert_accepted(list, i + 1);
    }
}

/// The settings of a WordPiece file: the continuing prefix is `##` and the longest
/// word has a hundred characters where it says nothing else.
pub proof fn law_wordpiece_defaults(tj: TokenizerJson, t: Tokenizer)
    requires
        hf::wordpiece_describes(tj, t),
    ensures
        t.model matches Model::WordPiece { model, decoder } && {
            &&& tj.model.continuing_subword_prefix is None ==> model.prefix_text() == seq!['#', '#']
            &&& tj.model.continuing_subword_prefix matches Some(p) ==> model.prefix_text() == p@
            &&& tj.model.max_input_chars_per_word is None ==> model.max_chars() == 100
            &&& tj.model.max_input_chars_per_word matches Some(n) ==> model.max_chars() == n
            &&& tj.decoder is None ==> decoder is None
            &&& tj.decoder matches Some(d) ==> d.kind@ == "WordPiece"@ ==> {
                &&& decoder matches Some(w)
                &&& d.prefix is None ==> w.prefix@ == seq!['#', '#']
                &&& d.prefix matches Some(p) ==> w.prefix@ == p@
                &&& w.cleanup == (d.cleanup != Some(false))
            }
        },
{
    reveal_strlit("##");
    assert("##"@ =~= seq!['#', '#']);
}

/// A decoder of another kind, but for a sequence, is none, and the first WordPiece
/// block of a sequence counts.
pub proof fn law_decoders(d: DecoderJson, k: int)
    ensures
        d.kind@ != "WordPiece"@ && d.kind@ != "Sequence"@ ==> detect::decoder_of(d) is None,
        d.kind@ == "WordPiece"@ ==> detect::decoder_of(d) == Some(d),
        d.kind@ == "Sequence"@ && 0 <= k < d.decoders@.len() && (forall|i: int|
            0 <= i < k ==> detect::decoder_of(#[trigger] d.decoders@[i]) is None)
            && detect::decoder_of(d.decoders@[k]) is Some ==> detect::decoder_of(d)
            == detect::decoder_of(d.decoders@[k]),
{
    reveal_strlit("WordPiece");
    reveal_strlit("Sequence");
    assert("WordPiece"@.len() == 9 && "Sequence"@.len() == 8);
    if d.kind@ == "Sequence"@ && 0 <= k < d.decoders@.len() && (forall|i: int|
        0 <= i < k ==> detect::decoder_of(#[trigger] d.decoders@[i]) is None)
        && detect::decoder_of(d.decoders@[k]) is Some {
        lemma_decoder_from(d.decoders@, k, 0);
    }
}

proof fn lemma_decoder_from(list: Seq<DecoderJson>, k: int, i: int)
    requires
        0 <= i <= k < list.len(),
        forall|j: int| 0 <= j < k ==> detect::decoder_of(#[trigger] list[j]) is None,
        detect::decoder_of(list[k]) is Some,
    ensures
        detect::decoder_from(list, i) == detect::decoder_of(list[k]),
    decreases k - i,
{
    if i < k {
        assert(detect::decoder_of(list[i]) is None);
        lemma_decoder_from(list, k, i + 1);
    }
}

/// The added tokens of a file are matched as it lists them, in its order, and its
/// other settings are kept.
pub proof fn law_file_settings(tj: TokenizerJson, t: Tokenizer, i: int)
    requires
        hf::bpe_describes(tj, t) || hf::wordpiece_describes(tj, t),
        0 <= i < tj.added_tokens@.len(),
    ensures
        t.added_tokens@.len() == tj.added_tokens@.len(),
        t.added_tokens@[i].content@ == encode_utf8(tj.added_tokens@[i].content@),
        t.added_tokens@[i].id.0 == tj.added_tokens@[i].id,
        t.added_tokens@[i].lstrip == tj.added_tokens@[i].lstrip,
        t.added_tokens@[i].rstrip == tj.added_tokens@[i].rstrip,
        t.model is Bpe ==> t.ignore_merges == tj.model.ignore_merges,
        t.model is Bpe ==> t.add_prefix_space == detect::prefix_space_setting(tj.pre_tokenizer),
{
    let d = t.added_tokens@[i];
}

/// Only one expression at a time is known.
pub proof fn law_one_expression(regexes: Seq<Seq<char>>)
    requires
        regexes.len() != 1,
    ensures
        options::scheme_of_regexes(regexes) is None,
{
}

/// A block by itself that is neither BERT's nor `ByteLevel` and has no expression
/// is refused.
pub proof fn law_unknown_block(pt: PreTokenizerJson)
    requires
        alone(pt),
        pt.kind@ != "BertPreTokenizer"@,
        pt.kind@ != "ByteLevel"@,
        pt.kind@ != "Split"@ || pt.pattern is None || pt.pattern->0.regex is None,
    ensures
        detect::scheme_setting(Some(pt)) is Err,
{
    assert(detect::own_regex(pt).len() == 0);
    assert(detect::split_regexes(pt) =~= Seq::<Seq<char>>::empty());
}

/// The expressions of a block are its own, where it is a `Split` block with one,
/// and then those of the blocks that it holds, one after the other.
pub proof fn law_expressions_in_order(pt: PreTokenizerJson, parts: Seq<Seq<Seq<char>>>)
    requires
        parts.len() == pt.pretokenizers@.len(),
        forall|i: int|
            0 <= i < parts.len() ==> detect::split_regexes(#[trigger] pt.pretokenizers@[i])
                == parts[i],
    ensures
        pt.kind@ != "Split"@ || pt.pattern is None || pt.pattern->0.regex is None
            ==> detect::split_regexes(pt) == parts.flatten(),
        pt.kind@ == "Split"@ ==> (pt.pattern matches Some(p) ==> (p.regex matches Some(re)
            ==> detect::split_regexes(pt) == seq![re@] + parts.flatten())),
{
    lemma_expressions_from(pt.pretokenizers@, parts, 0);
    assert(parts.skip(0) =~= parts);
    assert(Seq::<Seq<char>>::empty() + parts.flatten() =~= parts.flatten());
}

proof fn lemma_expressions_from(
    list: Seq<PreTokenizerJson>,
    parts: Seq<Seq<Seq<char>>>,
    i: int,
)
    requires
        0 <= i <= list.len(),
        parts.len() == list.len(),
        forall|k: int|
            0 <= k < parts.len() ==> detect::split_regexes(#[trigger] list[k]) == parts[k],
    ensures
        detect::split_regexes_from(list, i) == parts.skip(i).flatten(),
    decreases list.len() - i,
{
    let rest = parts.skip(i);
    if i < list.len() {
        lemma_expressions_from(list, parts, i + 1);
        assert(detect::split_regexes(list[i]) == parts[i]);
        assert(rest.first() == parts[i]);
        assert(rest.drop_first() =~= parts.skip(i + 1));
    } else {
        assert(rest.flatten() =~= Seq::<Seq<char>>::empty());
    }
}

/// A pre-tokenizer without a BERT block splits by its expressions where it has
/// any: by the scheme of them where that is known, and else it is refused.
pub proof fn law_scheme_of_expressions(pt: PreTokenizerJson)
    requires
        !detect::has_bert(pt),
        detect::split_regexes(pt).len() > 0,
    ensures
        match options::scheme_of_regexes(detect::split_regexes(pt)) {
            Some(scheme) => detect::scheme_setting(Some(pt)) == Ok::<PretokenizerType, Seq<char>>(
                scheme,
            ),
            None => detect::scheme_setting(Some(pt)) is Err,
        },
{
}

/// A block that is not BERT's and holds none that has one has no BERT block.
pub proof fn law_no_bert_block(pt: PreTokenizerJson)
    ensures
        detect::has_bert(pt) <==> pt.kind@ == "BertPreTokenizer"@ || exists|i: int|
            0 <= i < pt.pretokenizers@.len() && detect::has_bert(#[trigger] pt.pretokenizers@[i]),
{
}

} // verus!
