//! What follows a pretoken is split and tokenized as a text of its own.

use super::added_tokens;
use super::bert_words;
use super::characters;
use super::gpt2;
use super::kinds;
use super::kinds::Kind;
use super::pipeline;
use super::runs;
use super::stage1;
use crate::bpe::tiktoken::Tokenizer;
use crate::pretokenize::fast::bert as walk;
use crate::pretokenize::fast::dispatch;
use crate::pretokenize::options::PretokenizerType;
use crate::pretokenize::pattern;
use crate::pretokenize::pattern::{Alt, CharSet};
use crate::pretokenize::schemes;
use crate::pretokenize::unicode::bert::BertCharClass;
use crate::utf8;
use vstd::prelude::*;
use vstd::utf8::*;

verus! {

/// An offset further on.
spec fn moved(at: Option<int>, by: int) -> Option<int> {
    match at {
        Some(at) => Some(at + by),
        None => None,
    }
}

proof fn lemma_cp(text: Seq<u8>, pos: int, k: int)
    requires
        0 <= pos <= text.len(),
        0 <= k <= text.len() - pos,
    ensures
        utf8::cp_at(text.skip(pos), k) == utf8::cp_at(text, pos + k),
        utf8::next_pos(text.skip(pos), k) + pos == utf8::next_pos(text, pos + k),
{
    reveal(utf8::cp_at);
    reveal(utf8::cp_len);
    assert(utf8::tail(text.skip(pos), k) =~= utf8::tail(text, pos + k));
}

proof fn lemma_run(set: CharSet, text: Seq<u8>, pos: int, k: int, max: nat)
    requires
        0 <= pos <= text.len(),
        0 <= k <= text.len() - pos,
    ensures
        pattern::run_len(set, text.skip(pos), k, max) == pattern::run_len(
            set,
            text,
            pos + k,
            max,
        ),
        forall|n: nat|
            n <= pattern::run_len(set, text, pos + k, max) ==> #[trigger] pattern::after(
                text.skip(pos),
                k,
                n,
            ) + pos == pattern::after(text, pos + k, n),
    decreases max,
{
    let rest = text.skip(pos);
    if max > 0 && pos + k < text.len() {
        lemma_cp(text, pos, k);
        utf8::lemma_cp(text, pos + k);
        let next = utf8::next_pos(rest, k);
        if pattern::in_set(set, utf8::cp_at(text, pos + k)) {
            lemma_run(set, text, pos, next, (max - 1) as nat);
            assert forall|n: nat|
                n <= pattern::run_len(set, text, pos + k, max) implies #[trigger] pattern::after(
                rest,
                k,
                n,
            ) + pos == pattern::after(text, pos + k, n) by {
                if n > 0 {
                    let m = (n - 1) as nat;
                    assert(pattern::after(rest, next, m) + pos == pattern::after(
                        text,
                        pos + next,
                        m,
                    ));
                }
            }
        }
    }
}

proof fn lemma_match(a: Alt, k: nat, text: Seq<u8>, pos: int, x: int)
    requires
        0 <= pos <= text.len(),
        0 <= x <= text.len() - pos,
    ensures
        moved(pattern::match_items(a, k, text.skip(pos), x), pos) == pattern::match_items(
            a,
            k,
            text,
            pos + x,
        ),
    decreases a.items.len() - k, 1nat, 0nat,
{
    if k >= a.items.len() {
        lemma_cp(text, pos, x);
    } else {
        let item = a.items[k as int];
        let n = pattern::run_len(item.set, text, pos + x, item.max as nat);
        lemma_run(item.set, text, pos, x, item.max as nat);
        lemma_back_off(a, k, text, pos, x, n);
    }
}

proof fn lemma_back_off(a: Alt, k: nat, text: Seq<u8>, pos: int, x: int, n: nat)
    requires
        0 <= pos <= text.len(),
        0 <= x <= text.len() - pos,
        k < a.items.len(),
        n <= pattern::run_len(a.items[k as int].set, text, pos + x, a.items[k as int].max as nat),
    ensures
        moved(pattern::back_off(a, k, text.skip(pos), x, n), pos) == pattern::back_off(
            a,
            k,
            text,
            pos + x,
            n,
        ),
    decreases a.items.len() - k, 0nat, n,
{
    let item = a.items[k as int];
    if n >= item.min {
        lemma_run(item.set, text, pos, x, item.max as nat);
        pattern::lemma_run(item.set, text, pos + x, item.max as nat, n);
        let y = pattern::after(text.skip(pos), x, n);
        assert(y + pos == pattern::after(text, pos + x, n));
        lemma_match(a, k + 1, text, pos, y);
        if n > 0 {
            lemma_back_off(a, k, text, pos, x, (n - 1) as nat);
        }
    }
}

proof fn lemma_first_match(p: Seq<Alt>, i: nat, text: Seq<u8>, pos: int, x: int)
    requires
        0 <= pos <= text.len(),
        0 <= x <= text.len() - pos,
    ensures
        moved(pattern::first_match_from(p, i, text.skip(pos), x), pos)
            == pattern::first_match_from(p, i, text, pos + x),
    decreases p.len() - i,
{
    if i < p.len() {
        lemma_match(p[i as int], 0, text, pos, x);
        lemma_first_match(p, i + 1, text, pos, x);
    }
}

proof fn lemma_gap(p: Seq<Alt>, text: Seq<u8>, pos: int, x: int)
    requires
        0 <= pos <= text.len(),
        0 <= x <= text.len() - pos,
    ensures
        pattern::gap_end(p, text.skip(pos), x) + pos == pattern::gap_end(p, text, pos + x),
    decreases text.len() - pos - x,
{
    if pos + x < text.len() {
        lemma_first_match(p, 0, text, pos, x);
        lemma_cp(text, pos, x);
        utf8::lemma_cp(text, pos + x);
        lemma_gap(p, text, pos, utf8::next_pos(text.skip(pos), x));
    }
}

proof fn lemma_piece(p: Seq<Alt>, text: Seq<u8>, pos: int, x: int)
    requires
        0 <= pos,
        0 <= x < text.len() - pos,
    ensures
        pattern::piece_end(p, text.skip(pos), x) + pos == pattern::piece_end(p, text, pos + x),
{
    lemma_first_match(p, 0, text, pos, x);
    lemma_cp(text, pos, x);
    utf8::lemma_cp(text, pos + x);
    lemma_gap(p, text, pos, utf8::next_pos(text.skip(pos), x));
}

proof fn lemma_class_run(class: BertCharClass, text: Seq<u8>, pos: int, x: int)
    requires
        0 <= pos <= text.len(),
        0 <= x <= text.len() - pos,
    ensures
        walk::class_run_end(class, text.skip(pos), x) + pos == walk::class_run_end(
            class,
            text,
            pos + x,
        ),
    decreases text.len() - pos - x,
{
    if pos + x < text.len() {
        lemma_cp(text, pos, x);
        utf8::lemma_cp(text, pos + x);
        if walk::class_at(text, pos + x) == class {
            lemma_class_run(class, text, pos, utf8::next_pos(text.skip(pos), x));
        }
    }
}

/// What stands before an offset does not matter to the pretokens from it on.
pub proof fn law_walk_looks_ahead_only(
    scheme: PretokenizerType,
    text: Seq<u8>,
    pos: int,
    x: int,
)
    requires
        0 <= pos <= text.len(),
        0 <= x <= text.len() - pos,
    ensures
        match dispatch::type_step(scheme, text.skip(pos))(x) {
            Some((start, end)) => dispatch::type_step(scheme, text)(pos + x) == Some(
                (start + pos, end + pos),
            ),
            None => dispatch::type_step(scheme, text)(pos + x) is None,
        },
{
    let rest = text.skip(pos);
    if scheme == PretokenizerType::Bert {
        lemma_class_run(BertCharClass::Whitespace, text, pos, x);
        let start = walk::class_run_end(BertCharClass::Whitespace, rest, x);
        walk::lemma_class_run(BertCharClass::Whitespace, rest, x);
        if start < rest.len() {
            lemma_cp(text, pos, start);
            lemma_class_run(BertCharClass::Word, text, pos, start);
        }
    } else {
        dispatch::law_tiles(scheme, rest, x);
        dispatch::law_tiles(scheme, text, pos + x);
        if pos + x < text.len() {
            lemma_piece(schemes::gpt2_alts(), text, pos, x);
            lemma_piece(schemes::stage1_alts(), text, pos, x);
            lemma_piece(schemes::bounded_alts(), text, pos, x);
        }
    }
}

proof fn lemma_walked(t: Tokenizer, text: Seq<u8>, pos: int, x: int)
    requires
        0 <= pos <= text.len(),
        0 <= x <= text.len() - pos,
    ensures
        pipeline::walked(t, text.skip(pos), x) == pipeline::walked(t, text, pos + x),
    decreases text.len() - pos - x,
{
    let rest = text.skip(pos);
    law_walk_looks_ahead_only(t.scheme, text, pos, x);
    if let Some((start, end)) = dispatch::type_step(t.scheme, rest)(x) {
        if 0 <= x <= start < end <= rest.len() {
            lemma_walked(t, text, pos, end);
            assert(rest.subrange(start, end) =~= text.subrange(start + pos, end + pos));
        }
    }
}

/// The tokens of a text are those of its first pretoken and then those of what
/// follows it, tokenized as a text of its own.
pub proof fn law_first_pretoken_then_rest(t: Tokenizer, text: Seq<u8>)
    requires
        !t.add_prefix_space,
    ensures
        match dispatch::type_step(t.scheme, text)(0) {
            Some((start, end)) => t.normalized_tokens(text) == t.pretoken_tokens(
                text.subrange(start, end),
            ) + t.normalized_tokens(text.skip(end)),
            None => t.normalized_tokens(text) == Seq::<u32>::empty(),
        },
{
    pipeline::law_pretokens_in_order(t, text);
    dispatch::lemma_forward(t.scheme, text);
    let step = dispatch::type_step(t.scheme, text);
    assert(match step(0) {
        None => true,
        Some(span) => 0 <= span.0 < span.1 <= text.len(),
    });
    if let Some((start, end)) = step(0) {
        pipeline::law_pretokens_in_order(t, text.skip(end));
        lemma_walked(t, text, end, 0);
    }
}

/// Under the GPT-2 scheme a text that starts with a run of letters, of numbers or
/// of other characters has the tokens of that run, with a space before it where
/// there is one, and then those of the rest.
pub proof fn law_gpt2_word_by_word(
    t: Tokenizer,
    kind: Kind,
    spaced: bool,
    chars: Seq<char>,
    rest: Seq<u8>,
)
    requires
        t.scheme == PretokenizerType::GPT2,
        !t.add_prefix_space,
        chars.len() > 0,
        forall|i: int| 0 <= i < chars.len() ==> kinds::is(kind, (#[trigger] chars[i]) as u32),
        rest.len() == 0 || !kinds::is(kind, runs::first(rest)),
        ({
            let word = encode_utf8(
                (if spaced {
                    seq![' ']
                } else {
                    Seq::empty()
                }) + chars,
            );
            (word + rest).len() <= usize::MAX && !gpt2::contraction(word + rest, 0)
        }),
    ensures
        ({
            let word = encode_utf8(
                (if spaced {
                    seq![' ']
                } else {
                    Seq::empty()
                }) + chars,
            );
            t.normalized_tokens(word + rest) == t.pretoken_tokens(word) + t.normalized_tokens(rest)
        }),
{
    let lead = if spaced {
        seq![' ']
    } else {
        Seq::empty()
    };
    let word = encode_utf8(lead + chars);
    let text = word + rest;
    assert(text.skip(0) =~= word + rest);
    gpt2::law_runs(kind, text, 0, spaced, chars, rest);
    runs::lemma_parts(text, 0, lead, chars, rest);
    if spaced {
        utf8::lemma_encode_ascii(' ');
    } else {
        assert(encode_utf8(lead) =~= Seq::<u8>::empty());
    }
    law_first_pretoken_then_rest(t, text);
    assert(text.subrange(0, word.len() as int) =~= word);
    assert(text.skip(word.len() as int) =~= rest);
}

/// Under the BERT scheme a text of a word, behind white space or not, has the
/// tokens of the word and then those of the rest.
pub proof fn law_bert_word_by_word(
    t: Tokenizer,
    spaces: Seq<char>,
    word: Seq<char>,
    rest: Seq<u8>,
)
    requires
        t.scheme == PretokenizerType::Bert,
        !t.add_prefix_space,
        stage1::all(spaces, |cp: u32| characters::white(cp)),
        word.len() > 0,
        stage1::all(word, |cp: u32| bert_words::is_word(cp)),
        rest.len() == 0 || !bert_words::is_word(runs::first(rest)),
    ensures
        t.normalized_tokens(encode_utf8(spaces + word) + rest) == t.pretoken_tokens(
            encode_utf8(word),
        ) + t.normalized_tokens(rest),
{
    let text = encode_utf8(spaces + word) + rest;
    let start = encode_utf8(spaces).len() as int;
    let end = start + encode_utf8(word).len();
    assert(text.skip(0) =~= encode_utf8(spaces + word) + rest);
    bert_words::law_words(text, 0, spaces, word, rest);
    utf8::lemma_encode_concat(spaces, word);
    law_first_pretoken_then_rest(t, text);
    assert(text.subrange(start, end) =~= encode_utf8(word));
    assert(text.skip(end) =~= rest);
}

/// A text without added tokens, under a tokenizer that normalizes nothing, has the
/// tokens of its first pretoken and then those of the rest.
pub proof fn law_text_by_pretokens(t: Tokenizer, text: Seq<u8>)
    requires
        !t.add_prefix_space,
        t.normalizer is None,
        !t.normalize_nfc,
        text.len() > 0,
        added_tokens::none_within(t.added_tokens@, text, 0, text.len() as int),
    ensures
        match dispatch::type_step(t.scheme, text)(0) {
            Some((start, end)) => t.tokens(text) == t.pretoken_tokens(text.subrange(start, end))
                + t.tokens(text.skip(end)),
            None => t.tokens(text) == Seq::<u32>::empty(),
        },
{
    added_tokens::law_plain_text(t, text);
    pipeline::law_segment(t, text);
    law_first_pretoken_then_rest(t, text);
    dispatch::lemma_forward(t.scheme, text);
    let step = dispatch::type_step(t.scheme, text);
    assert(match step(0) {
        None => true,
        Some(span) => 0 <= span.0 < span.1 <= text.len(),
    });
    if let Some((_, end)) = step(0) {
        let rest = text.skip(end);
        assert forall|d: int, k: int|
            0 <= d < t.added_tokens@.len() && 0 <= k
                < rest.len() implies !(#[trigger] added_tokens::found_at(
            t.added_tokens@[d],
            rest,
            k,
        )) by {
            added_tokens::lemma_found_in_rest(t.added_tokens@[d], text, end, k);
            assert(!added_tokens::found_at(t.added_tokens@[d], text, end + k));
        }
        added_tokens::law_plain_text(t, rest);
        if rest.len() > 0 {
            pipeline::law_segment(t, rest);
        } else {
            pipeline::law_pretokens_in_order(t, rest);
            dispatch::lemma_forward(t.scheme, rest);
            let after = dispatch::type_step(t.scheme, rest);
            assert(match after(0) {
                None => true,
                Some(span) => 0 <= span.0 < span.1 <= rest.len(),
            });
            assert(pipeline::walked(t, rest, 0) =~= Seq::<u32>::empty());
        }
    }
}

} // verus!
