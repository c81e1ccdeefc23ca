//! Runs of characters in a text.

use super::characters;
use crate::pretokenize::pattern;
use crate::pretokenize::pattern::{Alt, CharSet};
use crate::utf8;
use vstd::prelude::*;
use vstd::utf8::*;

verus! {

/// Whether a text stands in another from `pos` on, with `after` behind it up to
/// the end.
pub open spec fn stands(bytes: Seq<u8>, pos: int, chars: Seq<char>, after: Seq<u8>) -> bool {
    &&& 0 <= pos <= bytes.len()
    &&& bytes.skip(pos) == encode_utf8(chars) + after
}

/// The first character of a text, where it has one, is read as a number.
pub open spec fn first(after: Seq<u8>) -> u32 {
    utf8::cp_at(after, 0)
}

/// A character at the start of what stands at `pos` is read there.
pub proof fn lemma_first(bytes: Seq<u8>, pos: int, chars: Seq<char>, after: Seq<u8>)
    requires
        stands(bytes, pos, chars, after),
        chars.len() > 0,
    ensures
        pos < bytes.len(),
        utf8::cp_at(bytes, pos) == chars[0] as u32,
        utf8::next_pos(bytes, pos) == pos + characters::bytes_of(chars[0]).len(),
        stands(bytes, utf8::next_pos(bytes, pos), chars.drop_first(), after),
        encode_utf8(chars).len() == characters::bytes_of(chars[0]).len() + encode_utf8(
            chars.drop_first(),
        ).len(),
        1 <= characters::bytes_of(chars[0]).len() <= 4,
{
    let c = chars[0];
    let rest = chars.drop_first();
    let one = characters::bytes_of(c);
    assert(chars =~= seq![c] + rest);
    utf8::lemma_encode_concat(seq![c], rest);
    let x = encode_utf8(rest) + after;
    assert(encode_utf8(chars) + after =~= one + x);
    assert((one + x).subrange(0, one.len() as int) =~= one);
    assert((one + x).skip(one.len() as int) =~= x);
    assert(bytes.subrange(pos, pos + one.len()) =~= bytes.skip(pos).subrange(0, one.len() as int));
    characters::law_char_read(bytes, pos, c);
    assert(bytes.skip(pos + one.len()) =~= bytes.skip(pos).skip(one.len() as int));
}

/// What stands behind is read from there on.
pub proof fn lemma_behind(bytes: Seq<u8>, pos: int, after: Seq<u8>)
    requires
        stands(bytes, pos, Seq::empty(), after),
    ensures
        utf8::cp_at(bytes, pos) == first(after),
        pos == bytes.len() <==> after.len() == 0,
{
    reveal(utf8::cp_at);
    assert(encode_utf8(Seq::<char>::empty()) + after =~= after);
    assert(bytes.skip(pos).len() == bytes.len() - pos);
    assert(utf8::tail(bytes, pos) =~= utf8::tail(after, 0));
}

/// A run of characters of a set.
pub proof fn lemma_run(
    set: CharSet,
    bytes: Seq<u8>,
    pos: int,
    chars: Seq<char>,
    after: Seq<u8>,
    max: nat,
)
    requires
        stands(bytes, pos, chars, after),
        forall|i: int| 0 <= i < chars.len() ==> pattern::in_set(set, (#[trigger] chars[i]) as u32),
        chars.len() <= max,
    ensures
        pattern::run_len(set, bytes, pos, max) >= chars.len(),
        pattern::after(bytes, pos, chars.len()) == pos + encode_utf8(chars).len(),
        stands(bytes, pos + encode_utf8(chars).len(), Seq::empty(), after),
        chars.len() == max || after.len() == 0 || !pattern::in_set(set, first(after))
            ==> pattern::run_len(set, bytes, pos, max) == chars.len(),
    decreases chars.len(),
{
    if chars.len() == 0 {
        assert(encode_utf8(chars) =~= Seq::<u8>::empty());
        assert(chars =~= Seq::<char>::empty());
        lemma_behind(bytes, pos, after);
    } else {
        lemma_first(bytes, pos, chars, after);
        let rest = chars.drop_first();
        assert forall|i: int| 0 <= i < rest.len() implies pattern::in_set(
            set,
            (#[trigger] rest[i]) as u32,
        ) by {
            assert(chars[i + 1] == rest[i]);
        }
        assert(pattern::in_set(set, chars[0] as u32));
        lemma_run(set, bytes, utf8::next_pos(bytes, pos), rest, after, (max - 1) as nat);
    }
}

/// What stands at `pos` in two parts: the second stands behind the first.
pub proof fn lemma_parts(bytes: Seq<u8>, pos: int, a: Seq<char>, b: Seq<char>, after: Seq<u8>)
    requires
        stands(bytes, pos, a + b, after),
    ensures
        stands(bytes, pos, a, encode_utf8(b) + after),
        stands(bytes, pos + encode_utf8(a).len(), b, after),
        encode_utf8(a + b).len() == encode_utf8(a).len() + encode_utf8(b).len(),
        b.len() > 0 ==> first(encode_utf8(b) + after) == b[0] as u32 && (encode_utf8(b)
            + after).len() > 0,
        b.len() == 0 ==> encode_utf8(b) + after == after,
{
    utf8::lemma_encode_concat(a, b);
    let x = encode_utf8(b) + after;
    assert(encode_utf8(a + b) + after =~= encode_utf8(a) + x);
    assert((encode_utf8(a) + x).skip(encode_utf8(a).len() as int) =~= x);
    assert(bytes.skip(pos + encode_utf8(a).len()) =~= bytes.skip(pos).skip(
        encode_utf8(a).len() as int,
    ));
    if b.len() > 0 {
        assert(x.skip(0) =~= x);
        lemma_first(x, 0, b, after);
    } else {
        assert(encode_utf8(b) =~= Seq::<u8>::empty());
        assert(x =~= after);
    }
}

/// An item whose longest repetition lets the rest match takes it.
pub proof fn lemma_takes_all(a: Alt, k: nat, bytes: Seq<u8>, pos: int, n: nat)
    requires
        k < a.items.len(),
        pattern::run_len(a.items[k as int].set, bytes, pos, a.items[k as int].max as nat) == n,
        n >= a.items[k as int].min,
        pattern::match_items(a, k + 1, bytes, pattern::after(bytes, pos, n)) is Some,
    ensures
        pattern::match_items(a, k, bytes, pos) == pattern::match_items(
            a,
            k + 1,
            bytes,
            pattern::after(bytes, pos, n),
        ),
{
}

/// An item that occurs too rarely does not match.
pub proof fn lemma_too_few(a: Alt, k: nat, bytes: Seq<u8>, pos: int)
    requires
        k < a.items.len(),
        pattern::run_len(a.items[k as int].set, bytes, pos, a.items[k as int].max as nat)
            < a.items[k as int].min,
    ensures
        pattern::match_items(a, k, bytes, pos) is None,
{
}

/// The last item of an alternative takes what it can.
pub proof fn lemma_last_item(a: Alt, k: nat, bytes: Seq<u8>, pos: int)
    requires
        k + 1 == a.items.len(),
        !a.lookahead,
        pattern::run_len(a.items[k as int].set, bytes, pos, a.items[k as int].max as nat)
            >= a.items[k as int].min,
    ensures
        pattern::match_items(a, k, bytes, pos) == Some(
            pattern::after(
                bytes,
                pos,
                pattern::run_len(a.items[k as int].set, bytes, pos, a.items[k as int].max as nat),
            ),
        ),
{
    let n = pattern::run_len(a.items[k as int].set, bytes, pos, a.items[k as int].max as nat);
    assert(pattern::match_items(a, k + 1, bytes, pattern::after(bytes, pos, n)) == Some(
        pattern::after(bytes, pos, n),
    ));
}

/// The first alternative that matches counts.
pub proof fn lemma_first_match(p: Seq<Alt>, i: nat, j: nat, bytes: Seq<u8>, pos: int)
    requires
        i <= j < p.len(),
        forall|k: int|
            i <= k < j ==> pattern::match_items(#[trigger] p[k], 0, bytes, pos) is None,
        pattern::match_items(p[j as int], 0, bytes, pos) is Some,
    ensures
        pattern::first_match_from(p, i, bytes, pos) == pattern::match_items(
            p[j as int],
            0,
            bytes,
            pos,
        ),
    decreases j - i,
{
    if i < j {
        assert(pattern::match_items(p[i as int], 0, bytes, pos) is None);
        lemma_first_match(p, i + 1, j, bytes, pos);
    }
}

/// White space before the end of a text, or before a character that is none: all
/// of it at the end, else all but its last character, where there is more than one.
pub proof fn lemma_white_before(
    a: Alt,
    bytes: Seq<u8>,
    pos: int,
    spaces: Seq<char>,
    after: Seq<u8>,
)
    requires
        a.items.len() == 1,
        a.lookahead,
        a.items[0].min == 1,
        a.items[0].max == pattern::MANY,
        stands(bytes, pos, spaces, after),
        bytes.len() <= pattern::MANY,
        spaces.len() > 0,
        forall|i: int|
            0 <= i < spaces.len() ==> pattern::in_set(
                a.items[0].set,
                (#[trigger] spaces[i]) as u32,
            ) && characters::white(spaces[i] as u32),
        after.len() == 0 || !pattern::in_set(a.items[0].set, first(after)),
    ensures
        pattern::match_items(a, 0, bytes, pos) == (if after.len() == 0 || characters::white(
            first(after),
        ) {
            Some(pos + encode_utf8(spaces).len())
        } else if spaces.len() > 1 {
            Some(pos + encode_utf8(spaces.drop_last()).len())
        } else {
            None
        }),
{
    let n = spaces.len();
    let many = pattern::MANY as nat;
    lemma_len(spaces);
    assert(encode_utf8(spaces).len() <= bytes.skip(pos).len());
    lemma_run(a.items[0].set, bytes, pos, spaces, after, many);
    let end = pos + encode_utf8(spaces).len();
    lemma_behind(bytes, end, after);
    characters::law_white(first(after));
    assert(pattern::match_items(a, 0, bytes, pos) == pattern::back_off(a, 0, bytes, pos, n));
    if after.len() == 0 || characters::white(first(after)) {
        assert(pattern::match_items(a, 1, bytes, end) == Some(end));
    } else {
        assert(pattern::match_items(a, 1, bytes, end) is None);
        let most = spaces.drop_last();
        let last = seq![spaces.last()];
        assert(spaces =~= most + last);
        lemma_parts(bytes, pos, most, last, after);
        lemma_run(a.items[0].set, bytes, pos, most, encode_utf8(last) + after, many);
        let mid = pos + encode_utf8(most).len();
        lemma_first(bytes, mid, last, after);
        assert(characters::white(spaces[n - 1] as u32));
        characters::law_white(last[0] as u32);
        assert(pattern::after(bytes, pos, (n - 1) as nat) == mid);
        assert(pattern::match_items(a, 1, bytes, mid) == Some(mid));
        reveal_with_fuel(pattern::back_off, 3);
        if n == 1 {
            assert(pattern::back_off(a, 0, bytes, pos, 0) is None);
        } else {
            assert(pattern::back_off(a, 0, bytes, pos, (n - 1) as nat) == Some(mid));
        }
    }
}

/// A text has at least as many bytes as characters.
pub proof fn lemma_len(chars: Seq<char>)
    ensures
        chars.len() <= encode_utf8(chars).len(),
    decreases chars.len(),
{
    if chars.len() > 0 {
        let e = encode_utf8(chars);
        assert(e.skip(0) =~= e + Seq::<u8>::empty());
        lemma_first(e, 0, chars, Seq::empty());
        lemma_len(chars.drop_first());
    }
}

} // verus!
