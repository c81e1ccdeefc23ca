//! Added tokens are taken out of a text before anything else happens to it: none
//! is passed over, and of those that stand at one place the longest counts.

use super::characters;
use crate::bpe::tiktoken;
use crate::bpe::tiktoken::{AddedTokenDef, Tokenizer};
use crate::pretokenize::pattern;
use crate::pretokenize::pattern::CharSet;
use crate::utf8;
use vstd::prelude::*;
use vstd::utf8::*;

verus! {

/// Whether the content of an added token stands in a text at `k`.
pub open spec fn found_at(def: AddedTokenDef, text: Seq<u8>, k: int) -> bool {
    &&& def.content@.len() > 0
    &&& 0 <= k
    &&& k + def.content@.len() <= text.len()
    &&& text.subrange(k, k + def.content@.len()) == def.content@
}

/// Whether added token `i` is the one that counts at `k`: it stands there, no
/// longer one does, and no earlier one of its length.
pub open spec fn counts_at(added: Seq<AddedTokenDef>, text: Seq<u8>, k: int, i: int) -> bool {
    &&& 0 <= i < added.len()
    &&& found_at(added[i], text, k)
    &&& forall|d: int|
        0 <= d < added.len() && found_at(#[trigger] added[d], text, k) ==> {
            ||| added[d].content@.len() < added[i].content@.len()
            ||| added[d].content@.len() == added[i].content@.len() && i <= d
        }
}

/// Whether no added token stands in a text at an offset in a range.
pub open spec fn none_within(added: Seq<AddedTokenDef>, text: Seq<u8>, from: int, to: int) -> bool {
    forall|d: int, k: int|
        0 <= d < added.len() && from <= k < to ==> !(#[trigger] found_at(added[d], text, k))
}

proof fn lemma_stands(def: AddedTokenDef, text: Seq<u8>, k: int)
    requires
        0 <= k <= text.len(),
    ensures
        tiktoken::stands_at(def, text, k) == found_at(def, text, k),
{
    let rest = text.subrange(k, text.len() as int);
    let n = def.content@.len() as int;
    if k + n <= text.len() {
        assert(rest.subrange(0, n) =~= text.subrange(k, k + n));
    }
}

proof fn lemma_longest(added: Seq<AddedTokenDef>, text: Seq<u8>, k: int, n: nat)
    requires
        0 <= k <= text.len(),
        n <= added.len(),
    ensures
        match tiktoken::longest_at(added, text, k, n) {
            None => forall|d: int| 0 <= d < n ==> !found_at(#[trigger] added[d], text, k),
            Some(i) => {
                &&& 0 <= i < n
                &&& found_at(added[i], text, k)
                &&& forall|d: int|
                    0 <= d < n && found_at(#[trigger] added[d], text, k) ==> {
                        ||| added[d].content@.len() < added[i].content@.len()
                        ||| added[d].content@.len() == added[i].content@.len() && i <= d
                    }
            },
        },
    decreases n,
{
    if n > 0 {
        lemma_longest(added, text, k, (n - 1) as nat);
        lemma_stands(added[n - 1], text, k);
    }
}

/// The next added token is the leftmost: none stands between the place from which
/// one is looked for and the place where one is found, or, where none is found,
/// the end of the text. At that place it is the longest.
pub proof fn law_next_added_token(added: Seq<AddedTokenDef>, text: Seq<u8>, pos: int)
    requires
        0 <= pos <= text.len(),
    ensures
        match tiktoken::next_added(added, text, pos) {
            None => none_within(added, text, pos, text.len() as int),
            Some((at, i)) => pos <= at && none_within(added, text, pos, at) && counts_at(
                added,
                text,
                at,
                i,
            ),
        },
    decreases text.len() - pos,
{
    if pos < text.len() {
        lemma_longest(added, text, pos, added.len());
        if tiktoken::longest_at(added, text, pos, added.len()) is None {
            law_next_added_token(added, text, pos + 1);
            assert forall|d: int| 0 <= d < added.len() implies !(#[trigger] found_at(
                added[d],
                text,
                pos,
            )) by {
                let def = added[d];
            }
        }
    }
}

/// The token that is found is decided by where contents stand.
pub proof fn law_next_is(added: Seq<AddedTokenDef>, text: Seq<u8>, pos: int, at: int, i: int)
    requires
        0 <= pos <= at <= text.len(),
        none_within(added, text, pos, at),
        counts_at(added, text, at, i),
    ensures
        tiktoken::next_added(added, text, pos) == Some((at, i)),
{
    law_next_added_token(added, text, pos);
    match tiktoken::next_added(added, text, pos) {
        None => {
            assert(found_at(added[i], text, at));
            assert(false);
        },
        Some((b, j)) => {
            if b < at {
                assert(found_at(added[j], text, b));
                assert(false);
            }
            if at < b {
                assert(found_at(added[i], text, at));
                assert(false);
            }
            assert(found_at(added[j], text, at));
            assert(found_at(added[i], text, b));
            let one = added[i];
            let other = added[j];
        },
    }
}

proof fn lemma_next_none(added: Seq<AddedTokenDef>, text: Seq<u8>, pos: int)
    requires
        0 <= pos <= text.len(),
        none_within(added, text, pos, text.len() as int),
    ensures
        tiktoken::next_added(added, text, pos) is None,
{
    law_next_added_token(added, text, pos);
    if let Some((at, i)) = tiktoken::next_added(added, text, pos) {
        assert(found_at(added[i], text, at));
    }
}

/// A text in which no added token stands is one segment.
pub proof fn law_plain_text(t: Tokenizer, text: Seq<u8>)
    requires
        none_within(t.added_tokens@, text, 0, text.len() as int),
    ensures
        t.tokens(text) == t.segment_tokens(text),
{
    lemma_next_none(t.added_tokens@, text, 0);
    assert(text.subrange(0, text.len() as int) =~= text);
}

/// A text that is the content of an added token is that token alone, of added
/// tokens with one content the first.
pub proof fn law_added_token_alone(t: Tokenizer, text: Seq<u8>, i: int)
    requires
        0 <= i < t.added_tokens@.len(),
        text.len() > 0,
        t.added_tokens@[i].content@ == text,
        forall|d: int| 0 <= d < i ==> (#[trigger] t.added_tokens@[d]).content@ != text,
    ensures
        t.tokens(text) == seq![t.added_tokens@[i].id.0],
{
    let added = t.added_tokens@;
    let end = text.len() as int;
    assert(text.subrange(0, end) =~= text);
    assert forall|d: int| 0 <= d < added.len() && found_at(#[trigger] added[d], text, 0) implies {
        ||| added[d].content@.len() < added[i].content@.len()
        ||| added[d].content@.len() == added[i].content@.len() && i <= d
    } by {
        if added[d].content@.len() == text.len() {
            assert(added[d].content@ == text);
        }
    }
    law_next_is(added, text, 0, 0, i);
    let gap = text.subrange(0, 0);
    assert(gap =~= Seq::<u8>::empty());
    assert(tiktoken::trimmed_end(gap) == gap);
    assert(pattern::run_len(CharSet::White, text, end, pattern::MANY as nat) == 0);
    assert(pattern::after(text, end, 0) == end);
    lemma_next_none(added, text, end);
    let rest = text.subrange(end, end);
    assert(rest =~= Seq::<u8>::empty());
    assert(t.tokens_from(text, end) =~= Seq::<u32>::empty());
    assert(t.tokens(text) =~= seq![added[i].id.0]);
}

/// What stands behind an offset stands in the rest.
pub proof fn lemma_found_in_rest(def: AddedTokenDef, text: Seq<u8>, pos: int, k: int)
    requires
        0 <= pos <= text.len(),
        0 <= k,
    ensures
        found_at(def, text.skip(pos), k) == found_at(def, text, pos + k),
{
    let n = def.content@.len() as int;
    if pos + k + n <= text.len() {
        assert(text.skip(pos).subrange(k, k + n) =~= text.subrange(pos + k, pos + k + n));
    }
}

proof fn lemma_cp_in_rest(text: Seq<u8>, pos: int, k: int)
    requires
        0 <= pos <= text.len(),
        0 <= k <= text.len() - pos,
    ensures
        utf8::cp_at(text.skip(pos), k) == utf8::cp_at(text, pos + k),
        utf8::next_pos(text.skip(pos), k) + pos == utf8::next_pos(text, pos + k),
{
    reveal(utf8::cp_at);
    reveal(utf8::cp_len);
    assert(utf8::tail(text.skip(pos), k) =~= utf8::tail(text, pos + k));
}

proof fn lemma_run_in_rest(text: Seq<u8>, pos: int, k: int, max: nat)
    requires
        0 <= pos <= text.len(),
        0 <= k <= text.len() - pos,
    ensures
        ({
            let n = pattern::run_len(CharSet::White, text, pos + k, max);
            &&& pattern::run_len(CharSet::White, text.skip(pos), k, max) == n
            &&& pattern::after(text.skip(pos), k, n) + pos == pattern::after(text, pos + k, n)
        }),
    decreases max,
{
    let rest = text.skip(pos);
    if max > 0 && pos + k < text.len() {
        lemma_cp_in_rest(text, pos, k);
        utf8::lemma_cp(text, pos + k);
        lemma_run_in_rest(text, pos, utf8::next_pos(rest, k), (max - 1) as nat);
    }
}

/// What follows an offset is encoded as a text of its own.
proof fn lemma_tokens_from(t: Tokenizer, text: Seq<u8>, pos: int, k: int)
    requires
        0 <= pos <= text.len(),
        0 <= k <= text.len() - pos,
    ensures
        t.tokens_from(text, pos + k) == t.tokens_from(text.skip(pos), k),
    decreases text.len() - pos - k,
{
    let added = t.added_tokens@;
    let rest = text.skip(pos);
    law_next_added_token(added, rest, k);
    match tiktoken::next_added(added, rest, k) {
        None => {
            assert forall|d: int, j: int|
                0 <= d < added.len() && pos + k <= j < text.len() implies !(#[trigger] found_at(
                added[d],
                text,
                j,
            )) by {
                lemma_found_in_rest(added[d], text, pos, j - pos);
                assert(!found_at(added[d], rest, j - pos));
            }
            lemma_next_none(added, text, pos + k);
            assert(text.subrange(pos + k, text.len() as int) =~= rest.subrange(
                k,
                rest.len() as int,
            ));
        },
        Some((at, i)) => {
            assert forall|d: int, j: int|
                0 <= d < added.len() && pos + k <= j < pos + at implies !(#[trigger] found_at(
                added[d],
                text,
                j,
            )) by {
                lemma_found_in_rest(added[d], text, pos, j - pos);
                assert(!found_at(added[d], rest, j - pos));
            }
            lemma_found_in_rest(added[i], text, pos, at);
            assert forall|d: int|
                0 <= d < added.len() && found_at(#[trigger] added[d], text, pos + at) implies {
                ||| added[d].content@.len() < added[i].content@.len()
                ||| added[d].content@.len() == added[i].content@.len() && i <= d
            } by {
                lemma_found_in_rest(added[d], text, pos, at);
            }
            law_next_is(added, text, pos + k, pos + at, i);
            let def = added[i];
            let end = at + def.content@.len();
            assert(text.subrange(pos + k, pos + at) =~= rest.subrange(k, at));
            lemma_run_in_rest(text, pos, end, pattern::MANY as nat);
            let n = pattern::run_len(CharSet::White, rest, end, pattern::MANY as nat);
            pattern::lemma_run(CharSet::White, rest, end, pattern::MANY as nat, n);
            let next = if def.rstrip {
                tiktoken::past_white(rest, end)
            } else {
                end
            };
            assert(k < next <= rest.len());
            lemma_tokens_from(t, text, pos, next);
        },
    }
}

/// Whether a text is white space throughout.
pub open spec fn all_white(chars: Seq<char>) -> bool {
    forall|i: int| 0 <= i < chars.len() ==> characters::white((#[trigger] chars[i]) as u32)
}

/// Whether a text ends with a white-space character.
pub open spec fn ends_white(text: Seq<u8>) -> bool {
    exists|head: Seq<u8>, c: char|
        characters::white(c as u32) && text == #[trigger] (head + characters::bytes_of(c))
}

/// Whether a text starts with a white-space character.
pub open spec fn starts_white(text: Seq<u8>) -> bool {
    exists|c: char, rest: Seq<u8>|
        characters::white(c as u32) && text == #[trigger] (characters::bytes_of(c) + rest)
}

/// White space at the end of a text is what is stripped there.
proof fn lemma_trimmed(kept: Seq<u8>, spaces: Seq<char>)
    requires
        all_white(spaces),
        !ends_white(kept),
    ensures
        tiktoken::trimmed_end(kept + encode_utf8(spaces)) == kept,
    decreases spaces.len(),
{
    if spaces.len() == 0 {
        assert(kept + encode_utf8(spaces) =~= kept);
        if let Some(cp) = utf8::last_char(kept) {
            characters::law_last_char_stands(kept);
            characters::law_white(cp);
            let c = cp as char;
            if characters::white(cp) {
                assert(kept == kept.take(kept.len() - utf8::last_len(kept))
                    + characters::bytes_of(c));
            }
        }
    } else {
        let before = spaces.drop_last();
        let c = spaces.last();
        assert(spaces =~= before + seq![c]);
        utf8::lemma_encode_concat(before, seq![c]);
        let head = kept + encode_utf8(before);
        let whole = kept + encode_utf8(spaces);
        assert(whole =~= head + characters::bytes_of(c));
        characters::law_last_char(head, c);
        assert(characters::white(spaces[spaces.len() - 1] as u32));
        characters::law_white(c as u32);
        assert(whole.subrange(0, whole.len() - utf8::last_len(whole)) =~= head);
        assert forall|i: int| 0 <= i < before.len() implies characters::white(
            (#[trigger] before[i]) as u32,
        ) by {
            assert(spaces[i] == before[i]);
        }
        lemma_trimmed(kept, before);
    }
}

/// White space at an offset is what is passed over there.
proof fn lemma_past(text: Seq<u8>, pos: int, spaces: Seq<char>, rest: Seq<u8>, max: nat)
    requires
        0 <= pos <= text.len(),
        text.skip(pos) == encode_utf8(spaces) + rest,
        all_white(spaces),
        !starts_white(rest),
        text.len() - pos <= max,
    ensures
        pattern::after(text, pos, pattern::run_len(CharSet::White, text, pos, max)) == pos
            + encode_utf8(spaces).len(),
    decreases spaces.len(),
{
    if spaces.len() == 0 {
        assert(text.skip(pos) =~= rest);
        if pos < text.len() {
            let cp = utf8::cp_at(text, pos);
            characters::law_white(cp);
            if characters::white(cp) {
                characters::law_char_stands(text, pos);
                let c = cp as char;
                let n = characters::bytes_of(c).len() as int;
                assert(rest =~= characters::bytes_of(c) + text.skip(pos + n));
                assert(starts_white(rest));
            }
        }
    } else {
        let c = spaces[0];
        let more = spaces.drop_first();
        assert(spaces =~= seq![c] + more);
        utf8::lemma_encode_concat(seq![c], more);
        let one = characters::bytes_of(c);
        encode_utf8_first_scalar(seq![c]);
        assert(text.skip(pos) =~= one + (encode_utf8(more) + rest));
        assert(text.subrange(pos, pos + one.len()) =~= text.skip(pos).subrange(
            0,
            one.len() as int,
        ));
        assert(text.skip(pos).subrange(0, one.len() as int) =~= one);
        characters::law_char_read(text, pos, c);
        assert(characters::white(spaces[0] as u32));
        characters::law_white(c as u32);
        let x = encode_utf8(more) + rest;
        assert((one + x).skip(one.len() as int) =~= x);
        assert(text.skip(pos + one.len()) =~= text.skip(pos).skip(one.len() as int));
        assert forall|i: int| 0 <= i < more.len() implies characters::white(
            (#[trigger] more[i]) as u32,
        ) by {
            assert(spaces[i + 1] == more[i]);
        }
        lemma_past(text, pos + one.len(), more, rest, (max - 1) as nat);
    }
}

/// An added token splits a text: what stands before it and what follows it are
/// encoded as texts of their own, with the token between them. White space before
/// it goes with it where it strips on the left, and white space behind it where it
/// strips on the right.
pub proof fn law_added_token_splits(
    t: Tokenizer,
    before: Seq<u8>,
    left: Seq<char>,
    i: int,
    right: Seq<char>,
    after: Seq<u8>,
)
    requires
        0 <= i < t.added_tokens@.len(),
        all_white(left),
        all_white(right),
        t.added_tokens@[i].lstrip ==> !ends_white(before),
        t.added_tokens@[i].rstrip ==> !starts_white(after),
        !t.added_tokens@[i].lstrip ==> left.len() == 0,
        !t.added_tokens@[i].rstrip ==> right.len() == 0,
        ({
            let text = before + encode_utf8(left) + t.added_tokens@[i].content@ + encode_utf8(right)
                + after;
            let at = before.len() + encode_utf8(left).len();
            &&& text.len() <= usize::MAX
            &&& none_within(t.added_tokens@, text, 0, at as int)
            &&& counts_at(t.added_tokens@, text, at as int, i)
        }),
    ensures
        t.tokens(
            before + encode_utf8(left) + t.added_tokens@[i].content@ + encode_utf8(right) + after,
        ) == t.tokens(before) + seq![t.added_tokens@[i].id.0] + t.tokens(after),
{
    let def = t.added_tokens@[i];
    let spaces = encode_utf8(right);
    let gap = before + encode_utf8(left);
    let text = before + encode_utf8(left) + def.content@ + spaces + after;
    let end = gap.len() + def.content@.len();
    if def.lstrip {
        lemma_trimmed(before, left);
    } else {
        assert(gap =~= before);
    }
    assert(text.skip(end as int) =~= spaces + after);
    if def.rstrip {
        lemma_past(text, end as int, right, after, pattern::MANY as nat);
    } else {
        assert(spaces =~= Seq::<u8>::empty());
    }
    lemma_splits(t, text, before, encode_utf8(left), i, spaces, after);
}

proof fn lemma_none_before(added: Seq<AddedTokenDef>, text: Seq<u8>, before: Seq<u8>, at: int)
    requires
        before.len() <= at,
        before.is_prefix_of(text),
        none_within(added, text, 0, at),
    ensures
        none_within(added, before, 0, before.len() as int),
{
    assert forall|d: int, k: int|
        0 <= d < added.len() && 0 <= k < before.len() implies !(#[trigger] found_at(
        added[d],
        before,
        k,
    )) by {
        if found_at(added[d], before, k) {
            let n = added[d].content@.len() as int;
            assert(text.subrange(0, before.len() as int).subrange(k, k + n) =~= text.subrange(
                k,
                k + n,
            ));
            assert(found_at(added[d], text, k));
        }
    }
}

proof fn lemma_splits(
    t: Tokenizer,
    text: Seq<u8>,
    before: Seq<u8>,
    left: Seq<u8>,
    i: int,
    right: Seq<u8>,
    after: Seq<u8>,
)
    requires
        0 <= i < t.added_tokens@.len(),
        text == before + left + t.added_tokens@[i].content@ + right + after,
        none_within(t.added_tokens@, text, 0, (before.len() + left.len()) as int),
        counts_at(t.added_tokens@, text, (before.len() + left.len()) as int, i),
        (if t.added_tokens@[i].lstrip {
            tiktoken::trimmed_end(before + left)
        } else {
            before + left
        }) == before,
        ({
            let end = (before.len() + left.len() + t.added_tokens@[i].content@.len()) as int;
            (if t.added_tokens@[i].rstrip {
                tiktoken::past_white(text, end)
            } else {
                end
            }) == end + right.len()
        }),
    ensures
        t.tokens(text) == t.tokens(before) + seq![t.added_tokens@[i].id.0] + t.tokens(after),
{
    let added = t.added_tokens@;
    let def = added[i];
    let gap = before + left;
    let at = gap.len() as int;
    let next = at + def.content@.len() + right.len();
    law_next_is(added, text, 0, at, i);
    assert(text.subrange(0, at) =~= gap);
    assert(text.subrange(0, before.len() as int) =~= before);
    lemma_none_before(added, text, before, at);
    law_plain_text(t, before);
    assert(text.skip(next) =~= after);
    lemma_tokens_from(t, text, next, 0);
    assert(t.tokens(text) == t.segment_tokens(before).push(def.id.0) + t.tokens_from(text, next));
    assert(t.tokens(text) =~= t.tokens(before) + seq![def.id.0] + t.tokens(after));
}

} // verus!
