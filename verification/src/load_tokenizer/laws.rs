//! What holds of loaded tokenizers.

use super::hf;
use super::hf::{HfTokenizer, ModelFamily};
use super::json;
use super::json::Doc;
use super::schema;
use super::schema::{AddedToken, NormalizerJson, PreTokenizerJson, TokenizerJson};
use super::sentencepiece;
use super::sentencepiece::{SentencePieceBPE, Step};
use super::vocab;
use crate::bpe::byte_remapping;
use crate::bpe::merge;
use crate::bpe::merge::Merge;
use crate::bpe::round_trip;
use crate::bpe::superword;
use crate::bpe::tiktoken;
use crate::bpe::tiktoken::Tokenizer;
use crate::pretokenize::fast::dispatch;
use vstd::prelude::*;
use vstd::utf8::*;

verus! {

/// Whether no two entries share a number, and none is nameless.
pub open spec fn distinct(entries: Seq<(Seq<char>, u32)>) -> bool {
    &&& forall|i: int, j: int|
        0 <= i < j < entries.len() ==> (#[trigger] entries[i]).1 != (#[trigger] entries[j]).1
    &&& forall|i: int| 0 <= i < entries.len() ==> (#[trigger] entries[i]).0.len() > 0
}

proof fn lemma_slot_count(ids: Seq<u32>, n: nat, i: int)
    requires
        0 <= i < n <= ids.len(),
    ensures
        ids[i] < vocab::slot_count(ids, n),
    decreases n,
{
    if i < n - 1 {
        lemma_slot_count(ids, (n - 1) as nat, i);
    }
}

proof fn lemma_slot(pieces: Seq<(Seq<u8>, u32)>, i: int, n: nat)
    requires
        0 <= i < n <= pieces.len(),
        forall|a: int, b: int|
            0 <= a < b < pieces.len() ==> (#[trigger] pieces[a]).1 != (#[trigger] pieces[b]).1,
    ensures
        vocab::slot(pieces, pieces[i].1 as int, n) == pieces[i].0,
    decreases n,
{
    if i < n - 1 {
        assert(pieces[i].1 != pieces[n - 1].1);
        lemma_slot(pieces, i, (n - 1) as nat);
    }
}

proof fn lemma_indexed(pieces: Seq<(Seq<u8>, u32)>, n: nat, key: Seq<u8>)
    requires
        n <= pieces.len(),
        vocab::numbers_by_bytes(pieces, n).contains_key(key),
    ensures
        exists|i: int|
            0 <= i < n && #[trigger] pieces[i] == (key, vocab::numbers_by_bytes(pieces, n)[key]),
    decreases n,
{
    if n > 0 {
        if pieces[n - 1].0 == key {
            assert(pieces[n - 1] == (key, vocab::numbers_by_bytes(pieces, n)[key]));
        } else {
            lemma_indexed(pieces, (n - 1) as nat, key);
        }
    }
}

proof fn lemma_extended(entries: Seq<Seq<u8>>, added: Seq<AddedToken>, n: nat, id: int)
    requires
        0 <= id < entries.len(),
        entries[id].len() > 0,
    ensures
        id < vocab::extended(entries, added, n).len(),
        vocab::extended(entries, added, n)[id] == entries[id],
    decreases n,
{
    if n > 0 && n <= added.len() {
        lemma_extended(entries, added, (n - 1) as nat, id);
    }
}

proof fn lemma_spelled(name: Seq<char>)
    requires
        name.len() > 0,
    ensures
        encode_utf8(name).len() > 0,
        vocab::token_bytes(name).len() > 0,
{
    if encode_utf8(name).len() == 0 {
        encode_utf8_decode_utf8(name);
        encode_utf8_decode_utf8(Seq::<char>::empty());
        assert(encode_utf8(name) =~= encode_utf8(Seq::<char>::empty()));
    }
}

proof fn lemma_nonempty(name: Seq<char>)
    requires
        name.len() > 0,
    ensures
        vocab::byte_level(name).len() > 0,
{
    lemma_spelled(name);
}

/// A token that the index of a file gives for bytes spells them.
proof fn lemma_index_spells(tj: TokenizerJson, key: Seq<u8>)
    requires
        distinct(schema::entry_views(tj.model.vocab@)),
        ({
            let pieces = hf::bpe_pieces(schema::entry_views(tj.model.vocab@));
            vocab::numbers_by_bytes(pieces, pieces.len()).contains_key(key)
        }),
    ensures
        ({
            let pieces = hf::bpe_pieces(schema::entry_views(tj.model.vocab@));
            merge::bytes_of(
                hf::bpe_vocab(tj),
                vocab::numbers_by_bytes(pieces, pieces.len())[key],
            ) == key
        }),
{
    let entries = schema::entry_views(tj.model.vocab@);
    let pieces = hf::bpe_pieces(entries);
    let inv = vocab::numbers_by_bytes(pieces, pieces.len());
    lemma_indexed(pieces, pieces.len(), key);
    let i = choose|i: int| 0 <= i < pieces.len() && #[trigger] pieces[i] == (key, inv[key]);
    assert forall|a: int, b: int| 0 <= a < b < pieces.len() implies (#[trigger] pieces[a]).1 != (
    #[trigger] pieces[b]).1 by {
        assert(entries[a].1 != entries[b].1);
    }
    lemma_slot(pieces, i, pieces.len());
    let ids = vocab::ids_of(pieces);
    assert(ids[i] == inv[key]);
    lemma_slot_count(ids, ids.len(), i);
    assert(entries[i].0.len() > 0);
    lemma_nonempty(entries[i].0);
    lemma_extended(
        vocab::slots(pieces),
        tj.added_tokens@,
        tj.added_tokens@.len(),
        inv[key] as int,
    );
}

/// Whether a merge joins entries to the entry that spells both.
spec fn joins(inv: Map<Seq<u8>, u32>, p: (u32, u32, u32), l: Seq<u8>, r: Seq<u8>) -> bool {
    &&& inv.contains_key(l)
    &&& inv.contains_key(r)
    &&& inv.contains_key(l + r)
    &&& p == (inv[l], inv[r], inv[l + r])
}

proof fn lemma_pairs_join(list: Seq<(String, String)>, inv: Map<Seq<u8>, u32>, n: nat, i: int)
    requires
        0 <= i < hf::bpe_pairs(list, inv, n).len(),
    ensures
        exists|l: Seq<u8>, r: Seq<u8>| joins(inv, hf::bpe_pairs(list, inv, n)[i], l, r),
    decreases n,
{
    if n > 0 && n <= list.len() {
        let before = hf::bpe_pairs(list, inv, (n - 1) as nat);
        if i < before.len() {
            lemma_pairs_join(list, inv, (n - 1) as nat, i);
            let (l, r) = choose|l: Seq<u8>, r: Seq<u8>| joins(inv, before[i], l, r);
            assert(joins(inv, hf::bpe_pairs(list, inv, n)[i], l, r));
        } else {
            assert(joins(
                inv,
                hf::bpe_pairs(list, inv, n)[i],
                vocab::byte_level(list[n - 1].0@),
                vocab::byte_level(list[n - 1].1@),
            ));
        }
    }
}

proof fn lemma_tabled(merges: Seq<Merge>, n: nat, pair: (u32, u32))
    requires
        n <= merges.len(),
        merge::table_of(merges, n).contains_key(pair),
    ensures
        exists|i: int|
            0 <= i < n && merge::is_merge(
                #[trigger] merges[i],
                pair,
                merge::table_of(merges, n),
            ),
    decreases n,
{
    if n > 0 {
        let before = merge::table_of(merges, (n - 1) as nat);
        if before.contains_key(pair) {
            lemma_tabled(merges, (n - 1) as nat, pair);
            let i = choose|i: int|
                0 <= i < n - 1 && merge::is_merge(#[trigger] merges[i], pair, before);
            assert(merge::is_merge(merges[i], pair, merge::table_of(merges, n)));
        } else {
            assert(merge::is_merge(merges[n - 1], pair, merge::table_of(merges, n)));
        }
    }
}

proof fn lemma_inverse(entries: Seq<Seq<u8>>, n: nat, key: Seq<u8>)
    requires
        n <= entries.len(),
        tiktoken::inverse(entries, n).contains_key(key),
    ensures
        tiktoken::inverse(entries, n)[key] < n,
        entries[tiktoken::inverse(entries, n)[key] as int] == key,
    decreases n,
{
    if n > 0 {
        if !(entries[n - 1] == key && n - 1 <= u32::MAX && key.len() > 0) {
            lemma_inverse(entries, (n - 1) as nat, key);
        }
    }
}

/// A byte-level tokenizer that was loaded from a sound file changes no text. The
/// file is sound where no two entries share a number and none is nameless; it
/// asks for no composition, leading space or stripping, its pre-tokenizer tiles
/// the text, and its added tokens have entries of their own.
pub proof fn law_loaded_is_faithful(tj: TokenizerJson, t: Tokenizer)
    requires
        hf::bpe_describes(tj, t),
        distinct(schema::entry_views(tj.model.vocab@)),
        dispatch::tiling(t.scheme),
        !t.normalize_nfc,
        !t.add_prefix_space,
        forall|i: int|
            0 <= i < t.added_tokens@.len() ==> round_trip::spells_itself(
                #[trigger] t.added_tokens@[i],
                superword::views(t.vocab@),
            ),
    ensures
        round_trip::faithful(t),
{
    let entries = superword::views(t.vocab@);
    let pieces = hf::bpe_pieces(schema::entry_views(tj.model.vocab@));
    let inv = vocab::numbers_by_bytes(pieces, pieces.len());
    let pairs = hf::bpe_list(tj);
    let merges = hf::ranked(pairs);
    let table = merge::table_of(merges, pairs.len());
    assert forall|pair: (u32, u32)| #[trigger] table.contains_key(pair) implies merge::bytes_of(
        entries,
        table[pair].0,
    ) == merge::bytes_of(entries, pair.0) + merge::bytes_of(entries, pair.1) by {
        lemma_tabled(merges, pairs.len(), pair);
        let i = choose|i: int|
            0 <= i < pairs.len() && merge::is_merge(#[trigger] merges[i], pair, table);
        lemma_pairs_join(tj.model.merges@, inv, tj.model.merges@.len(), i);
        let (l, r) = choose|l: Seq<u8>, r: Seq<u8>| joins(inv, pairs[i], l, r);
        lemma_index_spells(tj, l);
        lemma_index_spells(tj, r);
        lemma_index_spells(tj, l + r);
    }
    let ids = (t.model->bytes).ids();
    assert forall|b: u8| (#[trigger] ids[b as int]) matches Some(id) implies merge::bytes_of(
        entries,
        ids[b as int]->0,
    ) == seq![b] by {
        byte_remapping::lemma_byte_token(entries, b, 0);
    }
    assert forall|key: Seq<u8>| #[trigger]
        t.vocab_inv@.contains_key(key) implies merge::bytes_of(entries, t.vocab_inv@[key])
        == key by {
        lemma_inverse(entries, entries.len(), key);
    }
}

proof fn lemma_no_missing(entries: Seq<Seq<u8>>, b: int, c: u8)
    requires
        hf::missing_byte(entries, b) is None,
        0 <= b <= c,
        byte_remapping::utf8_legal(c as int),
    ensures
        byte_remapping::byte_token(entries, c) is Some,
    decreases c - b,
{
    if b < c {
        lemma_no_missing(entries, b + 1, c);
    }
}

/// Decoding gives back every well-formed text that a byte-level tokenizer, loaded
/// from a sound file, encoded.
pub proof fn law_loaded_round_trip(tj: TokenizerJson, t: Tokenizer, text: Seq<u8>)
    requires
        hf::bpe_fault(tj) is None,
        hf::bpe_describes(tj, t),
        distinct(schema::entry_views(tj.model.vocab@)),
        dispatch::tiling(t.scheme),
        !t.normalize_nfc,
        !t.add_prefix_space,
        forall|i: int|
            0 <= i < t.added_tokens@.len() ==> round_trip::spells_itself(
                #[trigger] t.added_tokens@[i],
                superword::views(t.vocab@),
            ),
        valid_utf8(text),
    ensures
        merge::text_of(superword::views(t.vocab@), t.tokens(text)) == text,
{
    law_loaded_is_faithful(tj, t);
    let bytes = t.model->bytes;
    assert forall|i: int| 0 <= i < text.len() implies bytes.ids()[(#[trigger] text[i]) as int]
        is Some by {
        byte_remapping::law_text_is_legal(text, i);
        lemma_no_missing(hf::bpe_vocab(tj), 0, text[i]);
        assert(bytes.ids()[text[i] as int] == byte_remapping::byte_token(
            hf::bpe_vocab(tj),
            text[i],
        ));
    }
    round_trip::law_decode_encode(t, text);
}

proof fn lemma_same_steps(j: Doc, a: NormalizerJson, b: NormalizerJson)
    requires
        schema::reads_normalizer(j, a),
        schema::reads_normalizer(j, b),
    ensures
        sentencepiece::sp_steps(a) == sentencepiece::sp_steps(b),
    decreases a, 0int,
{
    if a.kind@ == "Sequence"@ {
        lemma_same_steps_from(
            json::items_at(j, "normalizers"@, 1),
            a.normalizers@,
            b.normalizers@,
            0,
        );
    }
}

proof fn lemma_same_steps_from(
    items: Seq<Doc>,
    a: Seq<NormalizerJson>,
    b: Seq<NormalizerJson>,
    i: int,
)
    requires
        0 <= i,
        a.len() == items.len(),
        b.len() == items.len(),
        forall|k: int| 0 <= k < a.len() ==> schema::reads_normalizer(items[k], #[trigger] a[k]),
        forall|k: int| 0 <= k < b.len() ==> schema::reads_normalizer(items[k], #[trigger] b[k]),
    ensures
        sentencepiece::sp_steps_from(a, i) == sentencepiece::sp_steps_from(b, i),
    decreases a, a.len() - i,
{
    if i < a.len() {
        assert(schema::reads_normalizer(items[i], b[i]));
        lemma_same_steps(items[i], a[i], b[i]);
        lemma_same_steps_from(items, a, b, i + 1);
    }
}

proof fn lemma_same_metaspace(j: Doc, a: PreTokenizerJson, b: PreTokenizerJson)
    requires
        schema::reads_pre_tokenizer(j, a),
        schema::reads_pre_tokenizer(j, b),
    ensures
        sentencepiece::metaspace_of(a) == sentencepiece::metaspace_of(b),
{
}

proof fn lemma_same_setting(
    j: Doc,
    a: Option<PreTokenizerJson>,
    b: Option<PreTokenizerJson>,
    steps: Seq<Step>,
)
    requires
        schema::reads_opt_pre_tokenizer(j, a),
        schema::reads_opt_pre_tokenizer(j, b),
    ensures
        sentencepiece::metaspace_setting(a, steps) == sentencepiece::metaspace_setting(b, steps),
{
    match (a, b) {
        (Some(x), Some(y)) => {
            let d = json::field(j, "pre_tokenizer"@, 2)->0;
            lemma_same_metaspace(d, x, y);
            if x.pretokenizers@.len() == 1 {
                let inner = json::items_at(d, "pretokenizers"@, 1)[0];
                assert(schema::reads_pre_tokenizer(inner, x.pretokenizers@[0]));
                assert(schema::reads_pre_tokenizer(inner, y.pretokenizers@[0]));
                lemma_same_metaspace(inner, x.pretokenizers@[0], y.pretokenizers@[0]);
            }
        },
        _ => {},
    }
}

/// A document decides why it is refused as a SentencePiece-style tokenizer.
proof fn lemma_same_fault(j: Doc, a: TokenizerJson, b: TokenizerJson)
    requires
        schema::reads_tokenizer(j, a),
        schema::reads_tokenizer(j, b),
    ensures
        a.model.byte_fallback == b.model.byte_fallback,
        sentencepiece::steps_setting(a.normalizer) == sentencepiece::steps_setting(b.normalizer),
        sentencepiece::sp_fault(a) == sentencepiece::sp_fault(b),
{
    match (a.normalizer, b.normalizer) {
        (Some(x), Some(y)) => {
            lemma_same_steps(json::field(j, "normalizer"@, 3)->0, x, y);
        },
        _ => {},
    }
    match sentencepiece::steps_setting(a.normalizer) {
        Ok(steps) => lemma_same_setting(j, a.pre_tokenizer, b.pre_tokenizer, steps),
        Err(_) => {},
    }
}

proof fn lemma_same_merges(
    items: Seq<Doc>,
    a: Seq<(String, String)>,
    b: Seq<(String, String)>,
    inv: Map<Seq<u8>, u32>,
    n: nat,
)
    requires
        schema::reads_merges(items, a),
        schema::reads_merges(items, b),
    ensures
        sentencepiece::sp_merges(a, inv, n) == sentencepiece::sp_merges(b, inv, n),
    decreases n,
{
    if n > 0 && n <= a.len() {
        lemma_same_merges(items, a, b, inv, (n - 1) as nat);
        assert(schema::merge_sides(items[n - 1]) == (a[n - 1].0@, a[n - 1].1@));
        assert(schema::merge_sides(items[n - 1]) == (b[n - 1].0@, b[n - 1].1@));
    }
}

proof fn lemma_same_added(
    items: Seq<Doc>,
    a: Seq<AddedToken>,
    b: Seq<AddedToken>,
    entries: Seq<Seq<u8>>,
    normalized: bool,
    n: nat,
)
    requires
        schema::reads_added_tokens(items, a),
        schema::reads_added_tokens(items, b),
    ensures
        vocab::extended(entries, a, n) == vocab::extended(entries, b, n),
        sentencepiece::added_that(a, normalized, n) == sentencepiece::added_that(b, normalized, n),
    decreases n,
{
    if n > 0 && n <= a.len() {
        lemma_same_added(items, a, b, entries, normalized, (n - 1) as nat);
        assert(schema::reads_added(items[n - 1], a[n - 1]));
        assert(schema::reads_added(items[n - 1], b[n - 1]));
    }
}

/// Whether two SentencePiece-style tokenizers hold the same tables.
pub open spec fn same_tables(a: SentencePieceBPE, b: SentencePieceBPE) -> bool {
    &&& a.merges@ == b.merges@
    &&& a.vocab_inv@ == b.vocab_inv@
    &&& superword::views(a.vocab@) == superword::views(b.vocab@)
    &&& forall|x: u8| #[trigger]
        sentencepiece::opt_number(a.byte_fallback_ids@[x as int]) == sentencepiece::opt_number(
            b.byte_fallback_ids@[x as int],
        )
    &&& sentencepiece::steps_of(a.norm_ops@) == sentencepiece::steps_of(b.norm_ops@)
    &&& a.metaspace == b.metaspace
    &&& sentencepiece::spec_views(a.added_tokens@) == sentencepiece::spec_views(b.added_tokens@)
    &&& sentencepiece::spec_views(a.norm_added_tokens@) == sentencepiece::spec_views(
        b.norm_added_tokens@,
    )
}

proof fn lemma_same_tables(
    j: Doc,
    s: TokenizerJson,
    t: TokenizerJson,
    a: SentencePieceBPE,
    b: SentencePieceBPE,
)
    requires
        schema::reads_tokenizer(j, s),
        schema::reads_tokenizer(j, t),
        sentencepiece::sp_describes(s, a),
        sentencepiece::sp_describes(t, b),
    ensures
        same_tables(a, b),
{
    lemma_same_fault(j, s, t);
    let entries = schema::entry_views(s.model.vocab@);
    let pieces = sentencepiece::sp_pieces(entries);
    let inv = vocab::numbers_by_bytes(pieces, pieces.len());
    let model = json::field(j, "model"@, 0)->0;
    lemma_same_merges(
        json::items_at(model, "merges"@, 2),
        s.model.merges@,
        t.model.merges@,
        inv,
        s.model.merges@.len(),
    );
    lemma_same_setting(j, s.pre_tokenizer, t.pre_tokenizer, sentencepiece::steps_of(a.norm_ops@));
    let listed = json::items_at(j, "added_tokens"@, 1);
    let slots = vocab::slots(pieces);
    let n = s.added_tokens@.len();
    lemma_same_added(listed, s.added_tokens@, t.added_tokens@, slots, true, n);
    lemma_same_added(listed, s.added_tokens@, t.added_tokens@, slots, false, n);
    assert forall|x: u8| #[trigger]
        sentencepiece::opt_number(a.byte_fallback_ids@[x as int]) == sentencepiece::opt_number(
            b.byte_fallback_ids@[x as int],
        ) by {
        assert(sentencepiece::opt_number(a.byte_fallback_ids@[x as int])
            == sentencepiece::fallback_id(entries, x));
        assert(sentencepiece::opt_number(b.byte_fallback_ids@[x as int])
            == sentencepiece::fallback_id(entries, x));
    }
}

/// Loading a SentencePiece-style tokenizer and loading whatever a file holds
/// agree on a file of the BPE family: one gives a tokenizer exactly where the
/// other gives a SentencePiece-style one, with the same tables, and neither does
/// where the file does not fall back on bytes.
pub proof fn law_sentencepiece_agrees(
    j: Doc,
    tj: TokenizerJson,
    a: SentencePieceBPE,
    t: HfTokenizer,
    reason: Seq<char>,
)
    requires
        hf::family_in(j) == Ok::<ModelFamily, Seq<char>>(ModelFamily::Bpe),
    ensures
        hf::sp_loads(j, a) ==> hf::loads(j, HfTokenizer::SentencePiece(a)),
        hf::sp_loads(j, a) ==> !hf::load_refuses(j, reason) && !hf::sp_refuses(j, reason),
        hf::sp_loads(j, a) && hf::loads(j, t) ==> (t matches HfTokenizer::SentencePiece(m)
            && same_tables(a, m)),
        hf::loads(j, t) ==> (t matches HfTokenizer::SentencePiece(m) ==> {
            &&& hf::sp_loads(j, m)
            &&& !hf::sp_refuses(j, reason)
            &&& !hf::load_refuses(j, reason)
        }),
        schema::reads_tokenizer(j, tj) && !tj.model.byte_fallback ==> !hf::sp_loads(j, a) && !(
        t is SentencePiece && hf::loads(j, t)),
{
    if hf::sp_loads(j, a) {
        let s = choose|s: TokenizerJson| #[trigger]
            schema::reads_tokenizer(j, s) && sentencepiece::sp_fault(s) is None
                && sentencepiece::sp_describes(s, a);
        assert(hf::load_fault(ModelFamily::Bpe, s) is None);
        assert(hf::load_describes(ModelFamily::Bpe, s, HfTokenizer::SentencePiece(a)));
        lemma_no_refusal(j, s, reason);
        if hf::loads(j, t) {
            let u = choose|u: TokenizerJson| #[trigger]
                schema::reads_tokenizer(j, u) && hf::load_fault(ModelFamily::Bpe, u) is None
                    && hf::load_describes(ModelFamily::Bpe, u, t);
            lemma_same_fault(j, s, u);
            match t {
                HfTokenizer::SentencePiece(m) => lemma_same_tables(j, s, u, a, m),
                HfTokenizer::Bpe(_) => {},
            }
        }
        if schema::reads_tokenizer(j, tj) {
            lemma_same_fault(j, s, tj);
        }
    }
    if t is SentencePiece && hf::loads(j, t) {
        let u = choose|u: TokenizerJson| #[trigger]
            schema::reads_tokenizer(j, u) && hf::load_fault(ModelFamily::Bpe, u) is None
                && hf::load_describes(ModelFamily::Bpe, u, t);
        assert(sentencepiece::sp_fault(u) is None);
        lemma_no_refusal(j, u, reason);
        if schema::reads_tokenizer(j, tj) {
            lemma_same_fault(j, u, tj);
        }
    }
}

proof fn lemma_no_refusal(j: Doc, s: TokenizerJson, reason: Seq<char>)
    requires
        hf::family_in(j) == Ok::<ModelFamily, Seq<char>>(ModelFamily::Bpe),
        schema::reads_tokenizer(j, s),
        sentencepiece::sp_fault(s) is None,
    ensures
        !hf::sp_refuses(j, reason),
        !hf::load_refuses(j, reason),
{
    if hf::sp_refuses(j, reason) {
        let u = choose|u: TokenizerJson| #[trigger]
            schema::reads_tokenizer(j, u) && sentencepiece::sp_fault(u) == Some(reason);
        lemma_same_fault(j, s, u);
    }
    if hf::load_refuses(j, reason) {
        let u = choose|u: TokenizerJson| #[trigger]
            schema::reads_tokenizer(j, u) && hf::load_fault(ModelFamily::Bpe, u) == Some(reason);
        lemma_same_fault(j, s, u);
    }
}

proof fn lemma_piece_origin(entries: Seq<(Seq<char>, u32)>, fallback: bool, n: nat, k: int)
    requires
        0 <= k < sentencepiece::pieces_that(entries, fallback, n).len(),
    ensures
        exists|e: int|
            0 <= e < n <= entries.len() && sentencepiece::pieces_that(entries, fallback, n)[k] == (
                vocab::token_bytes((#[trigger] entries[e]).0),
                entries[e].1,
            ),
    decreases n,
{
    if n > 0 && n <= entries.len() {
        let before = sentencepiece::pieces_that(entries, fallback, (n - 1) as nat);
        if k < before.len() {
            lemma_piece_origin(entries, fallback, (n - 1) as nat, k);
            let e = choose|e: int|
                0 <= e < n - 1 && before[k] == (
                    vocab::token_bytes((#[trigger] entries[e]).0),
                    entries[e].1,
                );
            assert(0 <= e < n);
        } else {
            assert(entries[n - 1] == entries[n - 1]);
        }
    }
}

proof fn lemma_piece_present(entries: Seq<(Seq<char>, u32)>, fallback: bool, n: nat, e: int)
    requires
        0 <= e < n <= entries.len(),
        (vocab::fallback_byte(encode_utf8(entries[e].0)) is Some) == fallback,
    ensures
        exists|k: int|
            0 <= k < sentencepiece::pieces_that(entries, fallback, n).len() && (
            #[trigger] sentencepiece::pieces_that(entries, fallback, n)[k]).1 == entries[e].1,
    decreases n,
{
    let all = sentencepiece::pieces_that(entries, fallback, n);
    let before = sentencepiece::pieces_that(entries, fallback, (n - 1) as nat);
    if e < n - 1 {
        lemma_piece_present(entries, fallback, (n - 1) as nat, e);
        let k = choose|k: int| 0 <= k < before.len() && (#[trigger] before[k]).1 == entries[e].1;
        assert(all[k] == before[k]);
    } else {
        assert(all[before.len() as int].1 == entries[e].1);
    }
}

proof fn lemma_only_slot(pieces: Seq<(Seq<u8>, u32)>, id: int, n: nat, k: int, bytes: Seq<u8>)
    requires
        0 <= k < n <= pieces.len(),
        pieces[k].1 == id,
        forall|i: int| 0 <= i < n && (#[trigger] pieces[i]).1 == id ==> pieces[i].0 == bytes,
    ensures
        vocab::slot(pieces, id, n) == bytes,
    decreases n,
{
    if pieces[n - 1].1 != id {
        lemma_only_slot(pieces, id, (n - 1) as nat, k, bytes);
    }
}

proof fn lemma_piece_bytes(entries: Seq<(Seq<char>, u32)>, i: int, k: int)
    requires
        distinct(entries),
        0 <= i < entries.len(),
        0 <= k < sentencepiece::sp_pieces(entries).len(),
        sentencepiece::sp_pieces(entries)[k].1 == entries[i].1,
    ensures
        sentencepiece::sp_pieces(entries)[k].0 == vocab::token_bytes(entries[i].0),
{
    let first = sentencepiece::pieces_that(entries, true, entries.len());
    let second = sentencepiece::pieces_that(entries, false, entries.len());
    let piece = sentencepiece::sp_pieces(entries)[k];
    if k < first.len() {
        assert(piece == first[k]);
        lemma_piece_origin(entries, true, entries.len(), k);
    } else {
        assert(piece == second[k - first.len()]);
        lemma_piece_origin(entries, false, entries.len(), k - first.len());
    }
    let e = choose|e: int|
        0 <= e < entries.len() && piece == (
            vocab::token_bytes((#[trigger] entries[e]).0),
            entries[e].1,
        );
    if e < i {
        assert(entries[e].1 != entries[i].1);
    } else if e > i {
        assert(entries[i].1 != entries[e].1);
    }
}

proof fn lemma_piece_of(entries: Seq<(Seq<char>, u32)>, i: int) -> (k: int)
    requires
        0 <= i < entries.len(),
    ensures
        0 <= k < sentencepiece::sp_pieces(entries).len(),
        sentencepiece::sp_pieces(entries)[k].1 == entries[i].1,
{
    let first = sentencepiece::pieces_that(entries, true, entries.len());
    let second = sentencepiece::pieces_that(entries, false, entries.len());
    let pieces = sentencepiece::sp_pieces(entries);
    if vocab::fallback_byte(encode_utf8(entries[i].0)) is Some {
        lemma_piece_present(entries, true, entries.len(), i);
        let k = choose|k: int| 0 <= k < first.len() && (#[trigger] first[k]).1 == entries[i].1;
        assert(pieces[k] == first[k]);
        k
    } else {
        lemma_piece_present(entries, false, entries.len(), i);
        let k = choose|k: int| 0 <= k < second.len() && (#[trigger] second[k]).1 == entries[i].1;
        assert(pieces[first.len() + k] == second[k]);
        first.len() + k
    }
}

/// Tokens keep the numbers that they have in a file: where no two entries share
/// a number and none is nameless, every entry of a SentencePiece-style tokenizer
/// is what the string of that number stands for.
pub proof fn law_sentencepiece_keeps_numbers(tj: TokenizerJson, m: SentencePieceBPE, i: int)
    requires
        sentencepiece::sp_describes(tj, m),
        distinct(schema::entry_views(tj.model.vocab@)),
        0 <= i < schema::entry_views(tj.model.vocab@).len(),
    ensures
        ({
            let (name, id) = schema::entry_views(tj.model.vocab@)[i];
            &&& id < m.vocab@.len()
            &&& superword::views(m.vocab@)[id as int] == vocab::token_bytes(name)
        }),
{
    let entries = schema::entry_views(tj.model.vocab@);
    let name = entries[i].0;
    let id = entries[i].1;
    let pieces = sentencepiece::sp_pieces(entries);
    let slots = vocab::slots(pieces);
    let k = lemma_piece_of(entries, i);
    assert(vocab::slot(pieces, id as int, pieces.len()) == vocab::token_bytes(name)) by {
        assert forall|p: int| 0 <= p < pieces.len() && (#[trigger] pieces[p]).1
            == id implies pieces[p].0 == vocab::token_bytes(name) by {
            lemma_piece_bytes(entries, i, p);
        }
        lemma_only_slot(pieces, id as int, pieces.len(), k, vocab::token_bytes(name));
    }
    assert(id < slots.len()) by {
        let ids = vocab::ids_of(pieces);
        assert(ids[k] == id);
        lemma_slot_count(ids, ids.len(), k);
    }
    assert(slots[id as int] == vocab::token_bytes(name));
    assert(entries[i].0.len() > 0);
    lemma_spelled(name);
    lemma_extended(slots, tj.added_tokens@, tj.added_tokens@.len(), id as int);
    assert(superword::views(m.vocab@).len() == m.vocab@.len());
}

} // verus!
