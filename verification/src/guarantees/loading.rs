//! Which files load, and as what.

use super::vocabulary;
use super::words;
use crate::bpe::bert_normalizer::BertSteps;
use crate::bpe::byte_remapping;
use crate::bpe::superword;
use crate::bpe::tiktoken::{Model, Tokenizer};
use crate::bpe::wordpiece;
use crate::load_tokenizer::detect;
use crate::load_tokenizer::hf;
use crate::load_tokenizer::hf::{HfTokenizer, ModelFamily};
use crate::load_tokenizer::schema;
use crate::load_tokenizer::schema::{AddedToken, TokenizerJson};
use crate::load_tokenizer::sentencepiece;
use crate::load_tokenizer::vocab;
use crate::order;
use crate::pretokenize::options::PretokenizerType;
use crate::text;
use vstd::prelude::*;
use vstd::utf8::*;

verus! {

/// A byte-level file loads exactly where its type is BPE, it has no byte fallback,
/// every byte that text can hold is an entry, and its pre-tokenizer and normalizer
/// are known.
pub proof fn law_byte_level_loads(tj: TokenizerJson)
    requires
        hf::bpe_vocab(tj).len() <= u32::MAX,
    ensures
        hf::bpe_fault(tj) is None <==> {
            &&& tj.model.model_type@ == "BPE"@
            &&& !tj.model.byte_fallback
            &&& forall|b: u8|
                !(b == 0xC0 || b == 0xC1 || b >= 0xF5) ==> hf::bpe_vocab(tj).contains(
                    #[trigger] seq![b],
                )
            &&& detect::scheme_setting(tj.pre_tokenizer) is Ok
            &&& detect::nfc_setting(tj.normalizer) is Ok
        },
{
    let entries = hf::bpe_vocab(tj);
    if forall|b: u8|
        !(b == 0xC0 || b == 0xC1 || b >= 0xF5) ==> entries.contains(#[trigger] seq![b]) {
        assert forall|c: u8|
            byte_remapping::utf8_legal(c as int) implies #[trigger] byte_remapping::byte_token(
            entries,
            c,
        ) is Some by {
            assert(entries.contains(seq![c]));
            lemma_has_token(entries, c, 0);
        }
        lemma_none_missing(entries, 0);
    } else {
        let b = choose|b: u8|
            !(b == 0xC0 || b == 0xC1 || b >= 0xF5) && !entries.contains(#[trigger] seq![b]);
        assert forall|j: int| 0 <= j < entries.len() implies #[trigger] entries[j] != seq![b] by {
            if entries[j] == seq![b] {
                assert(entries.contains(seq![b]));
            }
        }
        vocabulary::law_missed_byte(entries, b);
    }
}

proof fn lemma_has_token(entries: Seq<Seq<u8>>, b: u8, i: int)
    requires
        0 <= i,
        entries.len() <= u32::MAX,
        exists|j: int| i <= j < entries.len() && entries[j] == seq![b],
    ensures
        byte_remapping::byte_token_from(entries, b, i) is Some,
    decreases entries.len() - i,
{
    if entries[i] != seq![b] {
        lemma_has_token(entries, b, i + 1);
    }
}

proof fn lemma_none_missing(entries: Seq<Seq<u8>>, b: int)
    requires
        0 <= b <= 256,
        forall|c: u8|
            byte_remapping::utf8_legal(c as int) ==> #[trigger] byte_remapping::byte_token(
                entries,
                c,
            ) is Some,
    ensures
        hf::missing_byte(entries, b) is None,
    decreases 256 - b,
{
    if b < 256 {
        assert(byte_remapping::utf8_legal(b) ==> byte_remapping::byte_token(entries, b as u8)
            is Some);
        lemma_none_missing(entries, b + 1);
    }
}

/// A WordPiece file loads exactly where it names an unknown token that is an
/// entry, and its pre-tokenizer and normalizer are known.
pub proof fn law_wordpiece_loads(tj: TokenizerJson)
    ensures
        hf::wordpiece_fault(tj) is None <==> {
            &&& tj.model.unk_token matches Some(unk) && exists|k: int|
                0 <= k < tj.model.vocab@.len() && (#[trigger] tj.model.vocab@[k]).0@ == unk@
            &&& detect::scheme_setting(tj.pre_tokenizer) is Ok
            &&& detect::bert_setting(tj.normalizer) is Ok
        },
{
    if let Some(unk) = tj.model.unk_token {
        lemma_named(tj.model.vocab@, unk@, tj.model.vocab@.len());
    }
}

proof fn lemma_named(entries: Seq<(String, crate::TokenId)>, name: Seq<char>, n: nat)
    requires
        n <= entries.len(),
    ensures
        wordpiece::id_of(entries, name, n) is Some <==> exists|k: int|
            0 <= k < n && (#[trigger] entries[k]).0@ == name,
    decreases n,
{
    if n > 0 {
        lemma_named(entries, name, (n - 1) as nat);
        if entries[n - 1].0@ == name {
            assert(entries[n - 1].0@ == name);
        }
    }
}

/// A WordPiece file loads as one; a BPE file loads as a SentencePiece tokenizer
/// where it falls back to bytes, and as a byte-level one else.
pub proof fn law_loads_by_family(f: ModelFamily, tj: TokenizerJson, t: HfTokenizer)
    requires
        hf::load_describes(f, tj, t),
    ensures
        f == ModelFamily::WordPiece ==> (t matches HfTokenizer::Bpe(t) && t.model is WordPiece
            && hf::wordpiece_describes(tj, t)),
        f == ModelFamily::Bpe && tj.model.byte_fallback ==> (t matches HfTokenizer::SentencePiece(m)
            && sentencepiece::sp_describes(tj, m)),
        f == ModelFamily::Bpe && !tj.model.byte_fallback ==> (t matches HfTokenizer::Bpe(t)
            && t.model is Bpe && hf::bpe_describes(tj, t)),
        hf::load_fault(f, tj) == (if f == ModelFamily::WordPiece {
            hf::wordpiece_fault(tj)
        } else if tj.model.byte_fallback {
            sentencepiece::sp_fault(tj)
        } else {
            hf::bpe_fault(tj)
        }),
{
}

/// A SentencePiece-style file loads exactly where its type is BPE, it falls back to
/// bytes, it has a byte token, and its normalizer and pre-tokenizer are known.
pub proof fn law_sentence_pieces_load(tj: TokenizerJson)
    ensures
        sentencepiece::sp_fault(tj) is None <==> {
            &&& tj.model.model_type@ == "BPE"@
            &&& tj.model.byte_fallback
            &&& exists|b: u8| #[trigger]
                sentencepiece::fallback_id(schema::entry_views(tj.model.vocab@), b) is Some
            &&& sentencepiece::steps_setting(tj.normalizer) matches Ok(steps)
            &&& sentencepiece::metaspace_setting(tj.pre_tokenizer, steps) is Ok
        },
{
}

/// The entries of a byte-level tokenizer are those of its file: each stands at its
/// number, as the bytes that its name is read as.
pub proof fn law_entries_of_file(tj: TokenizerJson, t: Tokenizer, k: int)
    requires
        hf::bpe_describes(tj, t),
        0 <= k < tj.model.vocab@.len(),
        vocab::byte_level(tj.model.vocab@[k].0@).len() > 0,
        forall|j: int|
            k < j < tj.model.vocab@.len() ==> (#[trigger] tj.model.vocab@[j]).1.0
                != tj.model.vocab@[k].1.0,
    ensures
        tj.model.vocab@[k].1.0 < t.vocab@.len(),
        t.vocab@[tj.model.vocab@[k].1.0 as int]@ == vocab::byte_level(tj.model.vocab@[k].0@),
{
    let pieces = hf::bpe_pieces(schema::entry_views(tj.model.vocab@));
    let id = pieces[k].1 as int;
    assert forall|j: int| k < j < pieces.len() implies (#[trigger] pieces[j]).1 != pieces[k].1 by {
        assert(tj.model.vocab@[j].1.0 != tj.model.vocab@[k].1.0);
    }
    vocabulary::law_entries_at_numbers(pieces, k, 0);
    vocabulary::law_added_keep_entries(vocab::slots(pieces), tj.added_tokens@, id);
    assert(superword::views(t.vocab@)[id] == t.vocab@[id]@);
}

/// The entries of a WordPiece tokenizer are those of its file, as their text.
pub proof fn law_entries_of_wordpiece_file(tj: TokenizerJson, t: Tokenizer, k: int)
    requires
        hf::wordpiece_describes(tj, t),
        0 <= k < tj.model.vocab@.len(),
        tj.model.vocab@[k].0@.len() > 0,
        forall|j: int|
            k < j < tj.model.vocab@.len() ==> (#[trigger] tj.model.vocab@[j]).1.0
                != tj.model.vocab@[k].1.0,
    ensures
        tj.model.vocab@[k].1.0 < t.vocab@.len(),
        t.vocab@[tj.model.vocab@[k].1.0 as int]@ == encode_utf8(tj.model.vocab@[k].0@),
{
    let pieces = hf::word_pieces(schema::entry_views(tj.model.vocab@));
    let id = pieces[k].1 as int;
    assert forall|j: int| k < j < pieces.len() implies (#[trigger] pieces[j]).1 != pieces[k].1 by {
        assert(tj.model.vocab@[j].1.0 != tj.model.vocab@[k].1.0);
    }
    encode_utf8_first_scalar(tj.model.vocab@[k].0@);
    vocabulary::law_entries_at_numbers(pieces, k, 0);
    vocabulary::law_added_keep_entries(vocab::slots(pieces), tj.added_tokens@, id);
    assert(superword::views(t.vocab@)[id] == t.vocab@[id]@);
}

/// Every byte of a byte-level tokenizer starts out as the first entry that is this
/// byte alone.
pub proof fn law_bytes_of_file(tj: TokenizerJson, t: Tokenizer, b: u8, k: int)
    requires
        hf::bpe_describes(tj, t),
        0 <= k < t.vocab@.len(),
        k <= u32::MAX,
        t.vocab@[k]@ == seq![b],
        forall|j: int| 0 <= j < k ==> (#[trigger] t.vocab@[j])@ != seq![b],
    ensures
        t.model matches Model::Bpe { bytes, .. } && bytes.ids()[b as int] == Some(k as u32),
{
    let entries = superword::views(t.vocab@);
    assert forall|j: int| 0 <= j < k implies #[trigger] entries[j] != seq![b] by {
        assert(t.vocab@[j]@ != seq![b]);
    }
    vocabulary::law_byte_token(entries, b, k);
}

/// Of a vocabulary the entries that are no added tokens are mergeable, and no
/// other; they keep their order.
pub proof fn law_mergeable_entries(
    entries: Seq<(Seq<char>, u32)>,
    added: Seq<AddedToken>,
)
    ensures
        hf::mergeable(entries, added, entries.len()) == entries.filter(
            |e: (Seq<char>, u32)|
                !exists|i: int| 0 <= i < added.len() && (#[trigger] added[i]).id == e.1,
        ).map_values(|e: (Seq<char>, u32)| (e.1, vocab::byte_level(e.0))),
{
    lemma_mergeable(entries, added, entries.len());
    assert(entries.take(entries.len() as int) =~= entries);
}

proof fn lemma_mergeable(entries: Seq<(Seq<char>, u32)>, added: Seq<AddedToken>, n: nat)
    requires
        n <= entries.len(),
    ensures
        hf::mergeable(entries, added, n) == entries.take(n as int).filter(
            |e: (Seq<char>, u32)|
                !exists|i: int| 0 <= i < added.len() && (#[trigger] added[i]).id == e.1,
        ).map_values(|e: (Seq<char>, u32)| (e.1, vocab::byte_level(e.0))),
    decreases n,
{
    reveal(Seq::filter);
    let f = |e: (Seq<char>, u32)|
        !exists|i: int| 0 <= i < added.len() && (#[trigger] added[i]).id == e.1;
    let g = |e: (Seq<char>, u32)| (e.1, vocab::byte_level(e.0));
    if n == 0 {
        assert(entries.take(0).filter(f).map_values(g) =~= Seq::empty());
    } else {
        lemma_mergeable(entries, added, (n - 1) as nat);
        let head = entries.take(n as int);
        assert(head.drop_last() =~= entries.take(n - 1));
        let before = head.drop_last().filter(f);
        if f(entries[n - 1]) {
            assert(before.push(entries[n - 1]).map_values(g) =~= before.map_values(g).push(
                g(entries[n - 1]),
            ));
        }
    }
}

/// Sorted entries are the same entries in the order of their numbers, those of one
/// number in the order in which they came.
pub proof fn law_sorted(
    entries: Seq<(u32, Seq<u8>)>,
    sorted: Seq<(u32, Seq<u8>)>,
    i: int,
    j: int,
    id: u32,
)
    requires
        order::sorts(entries, sorted),
    ensures
        0 <= i < j < sorted.len() ==> sorted[i].0 <= sorted[j].0,
        sorted.to_multiset() == entries.to_multiset(),
        sorted.filter(|e: (u32, Seq<u8>)| e.0 == id) == entries.filter(
            |e: (u32, Seq<u8>)| e.0 == id,
        ),
{
    assert(order::with_number(sorted, id) == order::with_number(entries, id));
    lemma_with_number(sorted, id);
    lemma_with_number(entries, id);
}

proof fn lemma_with_number(entries: Seq<(u32, Seq<u8>)>, id: u32)
    ensures
        order::with_number(entries, id) == entries.filter(|e: (u32, Seq<u8>)| e.0 == id),
    decreases entries.len(),
{
    reveal(Seq::filter);
    if entries.len() > 0 {
        lemma_with_number(entries.drop_last(), id);
    }
}

/// Ranks are dense where every one of them is its own place.
pub proof fn law_dense(ranks: Seq<(u32, Seq<u8>)>, n: int, i: int)
    requires
        0 <= i < n,
    ensures
        hf::dense(ranks, n) ==> ranks[i].0 == i,
        ranks[i].0 != i ==> !hf::dense(ranks, n),
        (forall|k: int| 0 <= k < n ==> (#[trigger] ranks[k]).0 == k) ==> hf::dense(ranks, n),
        hf::gap_text(ranks[i].0, i) == "GPT-2 rank "@ + text::decimal(ranks[i].0 as nat)
            + " at position "@ + text::decimal(i as nat) + ": mergeable ranks must be dense"@,
{
    let r = ranks[i];
}

/// A byte-level tokenizer splits and composes as its file asks, and has a plan for
/// two levels only where it leaves superwords whole and merges all it finds.
pub proof fn law_settings_of_file(tj: TokenizerJson, t: Tokenizer)
    requires
        hf::bpe_describes(tj, t),
    ensures
        detect::scheme_setting(tj.pre_tokenizer) == Ok::<PretokenizerType, Seq<char>>(t.scheme),
        detect::nfc_setting(tj.normalizer) == Ok::<bool, Seq<char>>(t.normalize_nfc),
        t.normalizer is None,
        t.scheme != PretokenizerType::Superword || tj.model.ignore_merges ==> t.plan is None,
{
}

/// A WordPiece tokenizer splits and normalizes as its file asks.
pub proof fn law_settings_of_wordpiece_file(tj: TokenizerJson, t: Tokenizer)
    requires
        hf::wordpiece_describes(tj, t),
    ensures
        detect::scheme_setting(tj.pre_tokenizer) == Ok::<PretokenizerType, Seq<char>>(t.scheme),
        t.normalizer matches Some(n) ==> detect::bert_setting(tj.normalizer) == Ok::<
            Option<BertSteps>,
            Seq<char>,
        >(Some(n.steps())),
        t.normalizer is None ==> detect::bert_setting(tj.normalizer) == Ok::<
            Option<BertSteps>,
            Seq<char>,
        >(None),
        !t.normalize_nfc,
        !t.add_prefix_space,
        t.plan is None,
{
}

/// The unknown token of a WordPiece tokenizer is the entry that its file names.
pub proof fn law_unknown_of_file(tj: TokenizerJson, t: Tokenizer, k: int)
    requires
        hf::wordpiece_describes(tj, t),
        0 <= k < tj.model.vocab@.len(),
        tj.model.unk_token matches Some(unk) && tj.model.vocab@[k].0@ == unk@,
        forall|j: int|
            k < j < tj.model.vocab@.len() ==> (#[trigger] tj.model.vocab@[j]).0@
                != tj.model.vocab@[k].0@,
    ensures
        t.model matches Model::WordPiece { model, .. } && model.unk_token() == tj.model.vocab@[k].1,
{
    words::law_number_by_text(tj.model.vocab@, k);
}

/// The pieces of a WordPiece tokenizer are the entries of its file: one without the
/// continuing prefix may start a word, and one with it continues words as what
/// follows the prefix.
pub proof fn law_pieces_of_file(tj: TokenizerJson, t: Tokenizer, k: int, rest: Seq<u8>)
    requires
        hf::wordpiece_describes(tj, t),
        0 <= k < tj.model.vocab@.len(),
        forall|j: int|
            k < j < tj.model.vocab@.len() ==> encode_utf8((#[trigger] tj.model.vocab@[j]).0@)
                != encode_utf8(tj.model.vocab@[k].0@),
    ensures
        t.model matches Model::WordPiece { model, .. } && {
            let piece = encode_utf8(tj.model.vocab@[k].0@);
            let prefix = encode_utf8(model.prefix_text());
            &&& prefix.len() == 0 || !prefix.is_prefix_of(piece) ==> model.head_map().contains_key(
                piece,
            ) && model.head_map()[piece] == tj.model.vocab@[k].1.0
            &&& piece == prefix + rest ==> model.cont_map().contains_key(rest)
                && model.cont_map()[rest] == tj.model.vocab@[k].1.0
        },
{
    match t.model {
        Model::WordPiece { model, .. } => {
            let entries = tj.model.vocab@;
            let piece = encode_utf8(entries[k].0@);
            let prefix = encode_utf8(model.prefix_text());
            if prefix.len() == 0 || !prefix.is_prefix_of(piece) {
                words::law_head_entry(entries, prefix, k);
            }
            if piece == prefix + rest {
                words::law_continuing_entry(entries, prefix, rest, k);
            }
        },
        Model::Bpe { .. } => {},
    }
}

} // verus!
