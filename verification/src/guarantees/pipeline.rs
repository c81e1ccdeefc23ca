//! From text to tokens and back: what happens to a segment, and what tokens spell.

use crate::bpe::bert_normalizer;
use crate::bpe::merge;
use crate::bpe::superword;
use crate::bpe::tiktoken;
use crate::bpe::tiktoken::{Model, Tokenizer};
use crate::bpe::wordpiece;
use crate::pretokenize::fast::dispatch;
use crate::pretokenize::walker;
use crate::pretokenize::walker::Step;
use vstd::prelude::*;
use vstd::utf8::*;

verus! {

/// The tokens of the pretokens of a text from `pos` on, one pretoken after the
/// other.
pub open spec fn walked(t: Tokenizer, text: Seq<u8>, pos: int) -> Seq<u32>
    decreases text.len() - pos,
{
    match dispatch::type_step(t.scheme, text)(pos) {
        Some((start, end)) => if 0 <= pos <= start < end <= text.len() {
            t.pretoken_tokens(text.subrange(start, end)) + walked(t, text, end)
        } else {
            Seq::empty()
        },
        None => Seq::empty(),
    }
}

proof fn lemma_spans_front(t: Tokenizer, text: Seq<u8>, span: (int, int), rest: Seq<(int, int)>, n: nat)
    requires
        n <= rest.len(),
    ensures
        t.span_tokens(text, seq![span] + rest, n + 1) == t.pretoken_tokens(
            text.subrange(span.0, span.1),
        ) + t.span_tokens(text, rest, n),
    decreases n,
{
    let all = seq![span] + rest;
    if n == 0 {
        assert(all[0] == span);
        assert(t.span_tokens(text, all, 0) =~= Seq::<u32>::empty());
        assert(t.span_tokens(text, all, 1) =~= t.pretoken_tokens(text.subrange(span.0, span.1))
            + Seq::<u32>::empty());
    } else {
        lemma_spans_front(t, text, span, rest, (n - 1) as nat);
        assert(all[n as int] == rest[n - 1]);
        assert(t.span_tokens(text, all, n + 1) =~= t.pretoken_tokens(
            text.subrange(span.0, span.1),
        ) + t.span_tokens(text, rest, n));
    }
}

proof fn lemma_walked(t: Tokenizer, text: Seq<u8>, pos: int, max: nat)
    requires
        0 <= pos <= text.len(),
        max >= text.len() - pos,
    ensures
        ({
            let spans = walker::spans_from(dispatch::type_step(t.scheme, text), pos, max);
            t.span_tokens(text, spans, spans.len()) == walked(t, text, pos)
        }),
    decreases max,
{
    let step = dispatch::type_step(t.scheme, text);
    dispatch::lemma_forward(t.scheme, text);
    assert(match step(pos) {
        None => true,
        Some(span) => pos <= span.0 < span.1 <= text.len(),
    });
    if let Some(span) = step(pos) {
        let rest = walker::spans_from(step, span.1, (max - 1) as nat);
        lemma_walked(t, text, span.1, (max - 1) as nat);
        lemma_spans_front(t, text, span, rest, rest.len());
        assert((seq![span] + rest).len() == rest.len() + 1);
    }
}

/// A normalized text is cut into pretokens, and its tokens are theirs in order,
/// none left out; a space is put before it where one is to be added and it does
/// not start with one.
pub proof fn law_pretokens_in_order(t: Tokenizer, text: Seq<u8>)
    ensures
        t.add_prefix_space && text.len() > 0 && text[0] != 0x20 ==> t.normalized_tokens(text)
            == walked(t, seq![0x20u8] + text, 0),
        !t.add_prefix_space || text.len() == 0 || text[0] == 0x20 ==> t.normalized_tokens(text)
            == walked(t, text, 0),
{
    let full = t.prefixed(text);
    lemma_walked(t, full, 0, full.len());
}

/// Where a space is added, a text and the text with a space before it have the
/// same tokens.
pub proof fn law_added_space(t: Tokenizer, text: Seq<u8>)
    requires
        t.add_prefix_space,
        text.len() > 0,
        text[0] != 0x20,
    ensures
        t.normalized_tokens(text) == t.normalized_tokens(seq![0x20u8] + text),
{
    law_pretokens_in_order(t, text);
    law_pretokens_in_order(t, seq![0x20u8] + text);
}

/// A segment is normalized and then tokenized: by the BERT steps where there is
/// such a normalizer, into NFC where that is asked for, and else not at all.
pub proof fn law_segment(t: Tokenizer, seg: Seq<u8>)
    requires
        seg.len() > 0,
    ensures
        t.normalizer is None && !t.normalize_nfc ==> t.segment_tokens(seg) == t.normalized_tokens(
            seg,
        ),
        t.normalizer is None && t.normalize_nfc && valid_utf8(seg) ==> t.segment_tokens(seg)
            == t.normalized_tokens(encode_utf8(tiktoken::nfc_form(decode_utf8(seg)))),
        t.normalizer is None && t.normalize_nfc && !valid_utf8(seg) ==> t.segment_tokens(seg)
            == t.normalized_tokens(seg),
        t.normalizer matches Some(n) ==> t.segment_tokens(seg) == t.normalized_tokens(
            bert_normalizer::normalized(n.steps(), seg),
        ),
{
}

/// A pretoken of a WordPiece tokenizer is a word of its model.
pub proof fn law_words_of_model(t: Tokenizer, pretoken: Seq<u8>)
    ensures
        t.model matches Model::WordPiece { model, .. } ==> t.pretoken_tokens(pretoken)
            == wordpiece::word_tokens(
            model.head_map(),
            model.cont_map(),
            model.unk_token().0,
            model.max_chars(),
            pretoken,
        ),
{
}

/// Tokens spell their entries one after the other; a number without an entry
/// spells nothing.
pub proof fn law_tokens_spell_entries(t: Tokenizer, a: Seq<u32>, b: Seq<u32>, id: u32)
    ensures
        merge::text_of(superword::views(t.vocab@), a + b) == merge::text_of(
            superword::views(t.vocab@),
            a,
        ) + merge::text_of(superword::views(t.vocab@), b),
        id < t.vocab@.len() ==> merge::text_of(superword::views(t.vocab@), seq![id])
            == t.vocab@[id as int]@,
        id >= t.vocab@.len() ==> merge::text_of(superword::views(t.vocab@), seq![id]) == Seq::<
            u8,
        >::empty(),
        merge::text_of(superword::views(t.vocab@), Seq::empty()) == Seq::<u8>::empty(),
{
    merge::lemma_text_concat(superword::views(t.vocab@), a, b);
    merge::lemma_text_one(superword::views(t.vocab@), id);
}

/// A walk hands out 256 spans at a time, and fewer only at the end of the text.
pub proof fn law_chunks(step: Step, pos: int)
    ensures
        ({
            let spans = walker::spans_from(step, pos, walker::PRETOKEN_CHUNK as nat);
            &&& spans.len() <= 256
            &&& spans.len() < 256 ==> step(
                walker::pos_after(step, pos, walker::PRETOKEN_CHUNK as nat),
            ) is None
        }),
{
    lemma_chunk(step, pos, 256);
}

proof fn lemma_chunk(step: Step, pos: int, n: nat)
    ensures
        walker::spans_from(step, pos, n).len() <= n,
        walker::spans_from(step, pos, n).len() < n ==> step(walker::pos_after(step, pos, n))
            is None,
    decreases n,
{
    if n > 0 {
        if let Some(span) = step(pos) {
            lemma_chunk(step, span.1, (n - 1) as nat);
        }
    }
}

/// A text of no bytes has no tokens.
pub proof fn law_empty_text(t: Tokenizer)
    ensures
        t.tokens(Seq::empty()) == Seq::<u32>::empty(),
        t.segment_tokens(Seq::empty()) == Seq::<u32>::empty(),
{
    let none = Seq::<u8>::empty();
    assert(none.subrange(0, 0) =~= none);
    assert(tiktoken::next_added(t.added_tokens@, none, 0) is None);
}

} // verus!
