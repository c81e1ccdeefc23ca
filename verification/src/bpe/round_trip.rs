//! What decoding gives back of encoding.

use super::byte_remapping;
use super::merge;
use super::superword;
use super::tiktoken;
use super::tiktoken::{AddedTokenDef, Model, Tokenizer};
use super::wordpiece;
use crate::pretokenize::fast::dispatch;
use crate::pretokenize::options::PretokenizerType;
use crate::pretokenize::walker;
use crate::pretokenize::walker::Step;
use vstd::prelude::*;

verus! {

/// Whether an index gives tokens that spell the bytes looked up.
pub open spec fn index_spells(inv: Map<Seq<u8>, u32>, vocab: Seq<Seq<u8>>) -> bool {
    forall|key: Seq<u8>| #[trigger]
        inv.contains_key(key) ==> merge::bytes_of(vocab, inv[key]) == key
}

/// Whether an added token spells its content and takes nothing else.
pub open spec fn spells_itself(def: AddedTokenDef, vocab: Seq<Seq<u8>>) -> bool {
    !def.lstrip && !def.rstrip && merge::bytes_of(vocab, def.id.0) == def.content@
}

/// Whether a byte-level tokenizer changes no text: its tokens spell what they
/// were made of, its pretokens tile the text, and nothing is normalized, added
/// or taken away.
pub open spec fn faithful(t: Tokenizer) -> bool {
    let vocab = superword::views(t.vocab@);
    &&& t.model matches Model::Bpe { merges, bytes, .. }
    &&& merge::consistent(merges@, vocab)
    &&& byte_remapping::bytes_spell(bytes.ids(), vocab)
    &&& t.ignore_merges ==> index_spells(t.vocab_inv@, vocab)
    &&& dispatch::tiling(t.scheme)
    &&& t.normalizer is None
    &&& !t.normalize_nfc
    &&& !t.add_prefix_space
    &&& forall|i: int|
        0 <= i < t.added_tokens@.len() ==> spells_itself(#[trigger] t.added_tokens@[i], vocab)
}

/// Whether every byte of a text has a token.
pub open spec fn covered(t: Tokenizer, text: Seq<u8>) -> bool {
    t.model matches Model::Bpe { bytes, .. } && forall|i: int|
        0 <= i < text.len() ==> bytes.ids()[(#[trigger] text[i]) as int] is Some
}

proof fn lemma_pretoken_text(t: Tokenizer, text: Seq<u8>)
    requires
        faithful(t),
        covered(t, text),
    ensures
        merge::text_of(superword::views(t.vocab@), t.pretoken_tokens(text)) == text,
{
    let vocab = superword::views(t.vocab@);
    match t.model {
        Model::Bpe { merges, bytes, .. } => {
            if t.ignore_merges && t.vocab_inv@.contains_key(text) {
                merge::lemma_text_one(vocab, t.vocab_inv@[text]);
            } else {
                byte_remapping::lemma_byte_tokens_text(bytes.ids(), vocab, text);
                merge::law_text_preserved(
                    merges@,
                    vocab,
                    byte_remapping::byte_tokens(bytes.ids(), text),
                );
            }
        },
        Model::WordPiece { .. } => {},
    }
}

/// Whether spans lie end to end from `pos` to `end`.
spec fn chained(spans: Seq<(int, int)>, pos: int, end: int) -> bool {
    &&& spans.len() == 0 ==> pos >= end
    &&& spans.len() > 0 ==> spans[0].0 == pos && spans.last().1 == end
    &&& forall|k: int, m: int|
        0 <= k && m == k + 1 && m < spans.len() ==> (#[trigger] spans[k]).1 == (
        #[trigger] spans[m]).0
    &&& forall|k: int| 0 <= k < spans.len() ==> pos <= (#[trigger] spans[k]).0 < spans[k].1 <= end
}

proof fn lemma_chained(scheme: PretokenizerType, text: Seq<u8>, pos: int, max: nat)
    requires
        dispatch::tiling(scheme),
        0 <= pos <= text.len(),
        max >= text.len() - pos,
    ensures
        chained(
            walker::spans_from(dispatch::type_step(scheme, text), pos, max),
            pos,
            text.len() as int,
        ),
    decreases max,
{
    let step: Step = dispatch::type_step(scheme, text);
    dispatch::law_tiles(scheme, text, pos);
    if pos < text.len() {
        let span = (pos, dispatch::pretoken_end(scheme, text, pos));
        lemma_chained(scheme, text, span.1, (max - 1) as nat);
        let rest = walker::spans_from(step, span.1, (max - 1) as nat);
        let spans = walker::spans_from(step, pos, max);
        assert(spans =~= seq![span] + rest);
        assert forall|k: int| 0 <= k < spans.len() implies pos <= (#[trigger] spans[k]).0
            < spans[k].1 <= text.len() by {
            if k > 0 {
                assert(spans[k] == rest[k - 1]);
            }
        }
        assert forall|k: int, m: int| 0 <= k && m == k + 1 && m < spans.len() implies (
        #[trigger] spans[k]).1 == (#[trigger] spans[m]).0 by {
            assert(spans[m] == rest[m - 1]);
            if k > 0 {
                assert(spans[k] == rest[k - 1]);
            }
        }
        if rest.len() > 0 {
            assert(spans.last() == rest.last());
        }
    }
}

proof fn lemma_span_text(t: Tokenizer, text: Seq<u8>, spans: Seq<(int, int)>, n: nat)
    requires
        faithful(t),
        covered(t, text),
        chained(spans, 0, text.len() as int),
        n <= spans.len(),
    ensures
        merge::text_of(superword::views(t.vocab@), t.span_tokens(text, spans, n))
            == text.subrange(
            0,
            if n == 0 {
                0
            } else {
                spans[n - 1].1
            },
        ),
    decreases n,
{
    let vocab = superword::views(t.vocab@);
    if n == 0 {
        assert(text.subrange(0, 0) =~= Seq::<u8>::empty());
    } else {
        let before = (n - 1) as nat;
        lemma_span_text(t, text, spans, before);
        let span = spans[n - 1];
        let piece = text.subrange(span.0, span.1);
        assert forall|i: int| 0 <= i < piece.len() implies (t.model matches Model::Bpe {
            bytes,
            ..
        } && bytes.ids()[(#[trigger] piece[i]) as int] is Some) by {
            assert(piece[i] == text[span.0 + i]);
        }
        lemma_pretoken_text(t, piece);
        merge::lemma_text_concat(
            vocab,
            t.span_tokens(text, spans, before),
            t.pretoken_tokens(piece),
        );
        if n > 1 {
            let k = n - 2;
            assert(spans[k].1 == spans[k + 1].0);
        }
        assert(text.subrange(0, span.0) + piece =~= text.subrange(0, span.1));
    }
}

proof fn lemma_segment_text(t: Tokenizer, seg: Seq<u8>)
    requires
        faithful(t),
        covered(t, seg),
    ensures
        merge::text_of(superword::views(t.vocab@), t.segment_tokens(seg)) == seg,
{
    if seg.len() > 0 {
        let spans = walker::all_spans(dispatch::type_step(t.scheme, seg), seg.len());
        lemma_chained(t.scheme, seg, 0, seg.len());
        lemma_span_text(t, seg, spans, spans.len());
        assert(spans.len() > 0);
        assert(seg.subrange(0, seg.len() as int) =~= seg);
    } else {
        assert(seg =~= Seq::<u8>::empty());
    }
}

proof fn lemma_longest_stands(added: Seq<AddedTokenDef>, bytes: Seq<u8>, pos: int, n: nat)
    requires
        n <= added.len(),
    ensures
        tiktoken::longest_at(added, bytes, pos, n) matches Some(i) ==> 0 <= i < n
            && tiktoken::stands_at(added[i], bytes, pos),
    decreases n,
{
    if n > 0 {
        lemma_longest_stands(added, bytes, pos, (n - 1) as nat);
    }
}

proof fn lemma_next_stands(added: Seq<AddedTokenDef>, bytes: Seq<u8>, pos: int)
    requires
        0 <= pos,
    ensures
        tiktoken::next_added(added, bytes, pos) matches Some((at, i)) ==> {
            &&& pos <= at < bytes.len()
            &&& 0 <= i < added.len()
            &&& tiktoken::stands_at(added[i], bytes, at)
        },
    decreases bytes.len() - pos,
{
    if pos < bytes.len() {
        lemma_longest_stands(added, bytes, pos, added.len());
        lemma_next_stands(added, bytes, pos + 1);
    }
}

proof fn lemma_text_from(t: Tokenizer, bytes: Seq<u8>, pos: int)
    requires
        faithful(t),
        covered(t, bytes),
        0 <= pos <= bytes.len(),
    ensures
        merge::text_of(superword::views(t.vocab@), t.tokens_from(bytes, pos)) == bytes.subrange(
            pos,
            bytes.len() as int,
        ),
    decreases bytes.len() - pos,
{
    let vocab = superword::views(t.vocab@);
    let added = t.added_tokens@;
    lemma_next_stands(added, bytes, pos);
    let end = match tiktoken::next_added(added, bytes, pos) {
        None => bytes.len() as int,
        Some((at, _)) => at,
    };
    let gap = bytes.subrange(pos, end);
    assert forall|i: int| 0 <= i < gap.len() implies (t.model matches Model::Bpe { bytes: b, .. }
        && b.ids()[(#[trigger] gap[i]) as int] is Some) by {
        assert(gap[i] == bytes[pos + i]);
    }
    lemma_segment_text(t, gap);
    if let Some((at, i)) = tiktoken::next_added(added, bytes, pos) {
        let def = added[i];
        assert(spells_itself(def, vocab));
        let rest = bytes.subrange(at, bytes.len() as int);
        assert(wordpiece::has_prefix(rest, def.content@));
        let next = at + def.content@.len();
        assert(rest.subrange(0, def.content@.len() as int) =~= bytes.subrange(at, next));
        lemma_text_from(t, bytes, next);
        let tokens = t.segment_tokens(gap);
        merge::lemma_text_concat(vocab, tokens, seq![def.id.0]);
        merge::lemma_text_one(vocab, def.id.0);
        assert(tokens + seq![def.id.0] =~= tokens.push(def.id.0));
        merge::lemma_text_concat(vocab, tokens.push(def.id.0), t.tokens_from(bytes, next));
        assert((gap + bytes.subrange(at, next)) + bytes.subrange(next, bytes.len() as int)
            =~= bytes.subrange(pos, bytes.len() as int));
    }
}

/// Decoding gives back what was encoded: the tokens of a text, under a
/// byte-level tokenizer that changes no text, spell that text.
pub proof fn law_decode_encode(t: Tokenizer, text: Seq<u8>)
    requires
        faithful(t),
        covered(t, text),
    ensures
        merge::text_of(superword::views(t.vocab@), t.tokens(text)) == text,
{
    lemma_text_from(t, text, 0);
    assert(text.subrange(0, text.len() as int) =~= text);
}

} // verus!
