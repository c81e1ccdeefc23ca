//! The pretokens of the bounded superword scheme: numbers three digits at a time,
//! two or more other characters, spaces before white space or the end of the text,
//! and everything between them.

use super::characters;
use super::kinds;
use super::runs;
use super::stage1;
use crate::pretokenize::fast::dispatch;
use crate::pretokenize::options::PretokenizerType;
use crate::pretokenize::pattern;
use crate::pretokenize::pattern::CharSet;
use crate::pretokenize::schemes;
use crate::utf8;
use vstd::prelude::*;
use vstd::utf8::*;

verus! {

/// The step of the walk at `pos`.
pub open spec fn step(bytes: Seq<u8>, pos: int) -> Option<(int, int)> {
    dispatch::type_step(PretokenizerType::SuperwordBounded, bytes)(pos)
}

/// Whether two other characters stand at `pos`.
pub open spec fn two_others(bytes: Seq<u8>, pos: int) -> bool {
    let next = utf8::next_pos(bytes, pos);
    &&& pos < next < bytes.len()
    &&& kinds::is_other(utf8::cp_at(bytes, pos))
    &&& kinds::is_other(utf8::cp_at(bytes, next))
}

/// Whether something that is split off starts at `pos`: a number, two other
/// characters, a space before those, or a space before white space or the end of
/// the text.
pub open spec fn splits(bytes: Seq<u8>, pos: int) -> bool {
    let cp = utf8::cp_at(bytes, pos);
    let next = utf8::next_pos(bytes, pos);
    ||| kinds::is_number(cp)
    ||| two_others(bytes, pos)
    ||| cp == 0x20 && (next >= bytes.len() || characters::white(utf8::cp_at(bytes, next))
        || two_others(bytes, next))
}

/// Numbers go three characters at a time, and fewer only where no number follows.
pub proof fn law_numbers(bytes: Seq<u8>, pos: int, digits: Seq<char>, after: Seq<u8>)
    requires
        runs::stands(bytes, pos, digits, after),
        bytes.len() <= usize::MAX,
        1 <= digits.len() <= 3,
        stage1::all(digits, |cp: u32| kinds::is_number(cp)),
        digits.len() == 3 || after.len() == 0 || !kinds::is_number(runs::first(after)),
    ensures
        step(bytes, pos) == Some((pos, pos + encode_utf8(digits).len())),
{
    let p = schemes::bounded_alts();
    runs::lemma_first(bytes, pos, digits, after);
    assert forall|i: int| 0 <= i < digits.len() implies pattern::in_set(
        CharSet::Number,
        (#[trigger] digits[i]) as u32,
    ) by {
        kinds::law_sets(digits[i] as u32);
    }
    kinds::law_sets(runs::first(after));
    runs::lemma_run(CharSet::Number, bytes, pos, digits, after, 3);
    runs::lemma_last_item(p[0], 0, bytes, pos);
    runs::lemma_first_match(p, 0, 0, bytes, pos);
    dispatch::law_tiles(PretokenizerType::SuperwordBounded, bytes, pos);
}

/// Two or more other characters go together, with a space before them and with the
/// line ends and slashes behind them.
pub proof fn law_other_characters(
    bytes: Seq<u8>,
    pos: int,
    spaced: bool,
    others: Seq<char>,
    tail: Seq<char>,
    after: Seq<u8>,
)
    requires
        runs::stands(
            bytes,
            pos,
            (if spaced {
                seq![' ']
            } else {
                Seq::empty()
            }) + (others + tail),
            after,
        ),
        bytes.len() <= usize::MAX,
        others.len() >= 2,
        stage1::all(others, |cp: u32| kinds::is_other(cp)),
        stage1::all(tail, |cp: u32| stage1::newline(cp) || cp == 0x2F),
        tail.len() > 0 ==> stage1::newline(tail[0] as u32),
        after.len() == 0 || (!stage1::newline(runs::first(after)) && runs::first(after) != 0x2F),
        tail.len() == 0 ==> after.len() == 0 || !kinds::is_other(runs::first(after)),
    ensures
        step(bytes, pos) == Some(
            (
                pos,
                pos + (if spaced {
                    1int
                } else {
                    0int
                }) + encode_utf8(others + tail).len(),
            ),
        ),
{
    let p = schemes::bounded_alts();
    let many = pattern::MANY as nat;
    let lead = if spaced {
        seq![' ']
    } else {
        Seq::empty()
    };
    let both = others + tail;
    runs::lemma_parts(bytes, pos, lead, both, after);
    runs::lemma_first(bytes, pos, lead + both, after);
    let start = pos + encode_utf8(lead).len();
    runs::lemma_first(bytes, start, both, after);
    runs::lemma_parts(bytes, start, others, tail, after);
    stage1::lemma_fits(bytes, start, both, after);
    assert(both[0] == others[0]);
    assert(kinds::is_other(others[0] as u32));
    kinds::law_sets(others[0] as u32);
    kinds::law_sets(runs::first(after));
    if spaced {
        utf8::lemma_encode_ascii(' ');
        assert((lead + both)[0] == ' ');
    } else {
        assert(encode_utf8(lead) =~= Seq::<u8>::empty());
        assert(lead + both =~= both);
    }
    kinds::law_sets(utf8::cp_at(bytes, pos));
    stage1::lemma_none_here(p[0], 0, bytes, pos);
    assert forall|i: int| 0 <= i < others.len() implies pattern::in_set(
        CharSet::Other,
        (#[trigger] others[i]) as u32,
    ) by {
        kinds::law_sets(others[i] as u32);
    }
    assert forall|i: int| 0 <= i < tail.len() implies pattern::in_set(
        CharSet::NewlineOrSlash,
        (#[trigger] tail[i]) as u32,
    ) by {
        kinds::law_sets(tail[i] as u32);
    }
    if tail.len() > 0 {
        kinds::law_sets(tail[0] as u32);
    }
    runs::lemma_run(CharSet::Other, bytes, start, others, encode_utf8(tail) + after, many);
    let mid = start + encode_utf8(others).len();
    runs::lemma_run(CharSet::NewlineOrSlash, bytes, mid, tail, after, many);
    runs::lemma_last_item(p[1], 2, bytes, mid);
    runs::lemma_takes_all(p[1], 1, bytes, start, others.len());
    reveal_with_fuel(pattern::run_len, 2);
    reveal_with_fuel(pattern::after, 2);
    let n = pattern::run_len(schemes::space(), bytes, pos, 1);
    assert(p[1].items[0] == schemes::opt(schemes::space()));
    assert(n == if spaced {
        1nat
    } else {
        0nat
    });
    runs::lemma_takes_all(p[1], 0, bytes, pos, n);
    runs::lemma_first_match(p, 0, 1, bytes, pos);
    dispatch::law_tiles(PretokenizerType::SuperwordBounded, bytes, pos);
}

/// What two other characters are to the pattern.
proof fn lemma_two_others(bytes: Seq<u8>, pos: int)
    requires
        0 <= pos <= bytes.len() <= pattern::MANY,
    ensures
        pattern::match_items(schemes::bounded_alts()[1], 1, bytes, pos) is Some <==> pos
            < bytes.len() && two_others(bytes, pos),
{
    let a = schemes::bounded_alts()[1];
    let many = pattern::MANY as nat;
    let n = pattern::run_len(CharSet::Other, bytes, pos, many);
    reveal_with_fuel(pattern::run_len, 3);
    if pos < bytes.len() {
        utf8::lemma_cp(bytes, pos);
        let next = utf8::next_pos(bytes, pos);
        kinds::law_sets(utf8::cp_at(bytes, pos));
        kinds::law_sets(utf8::cp_at(bytes, next));
    }
    if n >= 2 {
        runs::lemma_last_item(a, 2, bytes, pattern::after(bytes, pos, n));
        runs::lemma_takes_all(a, 1, bytes, pos, n);
    } else {
        runs::lemma_too_few(a, 1, bytes, pos);
    }
}

/// The pattern matches where something is split off, and nowhere else.
pub proof fn law_where_it_splits(bytes: Seq<u8>, pos: int)
    requires
        0 <= pos < bytes.len() <= usize::MAX,
    ensures
        pattern::first_match(schemes::bounded_alts(), bytes, pos) is Some <==> splits(bytes, pos),
{
    let p = schemes::bounded_alts();
    let many = pattern::MANY as nat;
    let cp = utf8::cp_at(bytes, pos);
    let next = utf8::next_pos(bytes, pos);
    utf8::lemma_cp(bytes, pos);
    kinds::law_sets(cp);
    kinds::law_sets(utf8::cp_at(bytes, next));
    reveal_with_fuel(pattern::first_match_from, 4);
    reveal_with_fuel(pattern::after, 2);
    if kinds::is_number(cp) {
        assert(pattern::run_len(CharSet::Number, bytes, pos, 3) >= 1);
        runs::lemma_last_item(p[0], 0, bytes, pos);
    } else {
        stage1::lemma_none_here(p[0], 0, bytes, pos);
    }
    lemma_two_others(bytes, pos);
    lemma_two_others(bytes, next);
    let n = pattern::run_len(schemes::space(), bytes, pos, 1);
    assert(p[1].items[0] == schemes::opt(schemes::space()));
    assert(pattern::match_items(p[1], 0, bytes, pos) == pattern::back_off(p[1], 0, bytes, pos, n));
    assert(pattern::back_off(p[1], 0, bytes, pos, 0) == pattern::match_items(p[1], 1, bytes, pos));
    assert(n == 1 <==> cp == 0x20) by {
        reveal_with_fuel(pattern::run_len, 2);
    }
    assert(n <= 1) by {
        reveal_with_fuel(pattern::run_len, 2);
    }
    let a = p[2];
    let m = pattern::run_len(schemes::space(), bytes, pos, many);
    if cp != 0x20 {
        stage1::lemma_none_here(a, 0, bytes, pos);
    } else {
        pattern::lemma_run(schemes::space(), bytes, pos, many, 1);
        pattern::lemma_run(schemes::space(), bytes, pos, many, m);
        assert(m >= 1);
        assert(pattern::after(bytes, pos, 1) == next);
        if next >= bytes.len() || characters::white(utf8::cp_at(bytes, next)) {
            assert(pattern::match_items(a, 1, bytes, next) == Some(next));
            pattern::lemma_back_off_finds(a, 0, bytes, pos, m, 1);
        } else {
            assert(m == 1) by {
                if m > 1 {
                    assert(pattern::in_set(schemes::space(), utf8::cp_at(bytes, next)));
                }
            }
            assert(pattern::match_items(a, 1, bytes, next) is None);
            assert(pattern::back_off(a, 0, bytes, pos, 0) is None);
            assert(pattern::back_off(a, 0, bytes, pos, 1) is None);
        }
    }
}

/// Spaces go together up to white space or the end of the text; before anything
/// else all but the last do.
pub proof fn law_spaces(bytes: Seq<u8>, pos: int, spaces: Seq<char>, after: Seq<u8>)
    requires
        runs::stands(bytes, pos, spaces, after),
        bytes.len() <= usize::MAX,
        spaces.len() > 0,
        stage1::all(spaces, |cp: u32| cp == 0x20),
        after.len() == 0 || runs::first(after) != 0x20,
        spaces.len() > 1 || after.len() == 0 || characters::white(runs::first(after)),
    ensures
        step(bytes, pos) == Some(
            (
                pos,
                pos + (if after.len() == 0 || characters::white(runs::first(after)) {
                    spaces.len() as int
                } else {
                    spaces.len() - 1
                }),
            ),
        ),
{
    let p = schemes::bounded_alts();
    let many = pattern::MANY as nat;
    stage1::lemma_fits(bytes, pos, spaces, after);
    runs::lemma_first(bytes, pos, spaces, after);
    assert forall|i: int| 0 <= i < spaces.len() implies pattern::in_set(
        schemes::space(),
        (#[trigger] spaces[i]) as u32,
    ) && characters::white(spaces[i] as u32) by {}
    lemma_spaces_len(spaces);
    assert(stage1::all(spaces.drop_last(), |cp: u32| cp == 0x20)) by {
        assert forall|i: int| 0 <= i < spaces.drop_last().len() implies (
        #[trigger] spaces.drop_last()[i]) as u32 == 0x20 by {
            assert(spaces[i] as u32 == 0x20);
        }
    }
    lemma_spaces_len(spaces.drop_last());
    runs::lemma_white_before(p[2], bytes, pos, spaces, after);
    assert(spaces[0] as u32 == 0x20);
    kinds::law_sets(0x20);
    stage1::lemma_none_here(p[0], 0, bytes, pos);
    let next = utf8::next_pos(bytes, pos);
    let more = spaces.drop_first();
    if more.len() > 0 {
        runs::lemma_first(bytes, next, more, after);
        assert(spaces[1] == more[0]);
        assert(spaces[1] as u32 == 0x20);
    } else {
        assert(more =~= Seq::<char>::empty());
        runs::lemma_behind(bytes, next, after);
        kinds::law_classes(runs::first(after));
    }
    lemma_two_others(bytes, pos);
    lemma_two_others(bytes, next);
    reveal_with_fuel(pattern::run_len, 2);
    reveal_with_fuel(pattern::after, 2);
    let n = pattern::run_len(schemes::space(), bytes, pos, 1);
    assert(p[1].items[0] == schemes::opt(schemes::space()));
    assert(pattern::match_items(p[1], 0, bytes, pos) == pattern::back_off(p[1], 0, bytes, pos, n));
    assert(pattern::back_off(p[1], 0, bytes, pos, 0) == pattern::match_items(p[1], 1, bytes, pos));
    assert(n == 1);
    assert(pattern::match_items(p[1], 0, bytes, pos) is None);
    runs::lemma_first_match(p, 0, 2, bytes, pos);
    dispatch::law_tiles(PretokenizerType::SuperwordBounded, bytes, pos);
}

proof fn lemma_spaces_len(spaces: Seq<char>)
    requires
        stage1::all(spaces, |cp: u32| cp == 0x20),
    ensures
        encode_utf8(spaces).len() == spaces.len(),
    decreases spaces.len(),
{
    if spaces.len() > 0 {
        let rest = spaces.drop_first();
        assert(stage1::all(rest, |cp: u32| cp == 0x20)) by {
            assert forall|i: int| 0 <= i < rest.len() implies (#[trigger] rest[i]) as u32
                == 0x20 by {
                assert(spaces[i + 1] as u32 == 0x20);
            }
        }
        lemma_spaces_len(rest);
        let e = encode_utf8(spaces);
        assert(e.skip(0) =~= e + Seq::<u8>::empty());
        runs::lemma_first(e, 0, spaces, Seq::empty());
        assert(spaces[0] as u32 == 0x20);
        utf8::lemma_encode_ascii(spaces[0]);
    }
}

/// What is not split off stays together, up to where something is or to the end of
/// the text.
pub proof fn law_rest_stays_together(bytes: Seq<u8>, pos: int, chars: Seq<char>, after: Seq<u8>)
    requires
        runs::stands(bytes, pos, chars, after),
        bytes.len() <= usize::MAX,
        chars.len() > 0,
        forall|k: int|
            0 <= k < chars.len() ==> !splits(
                bytes,
                pos + encode_utf8(#[trigger] chars.take(k)).len(),
            ),
        after.len() == 0 || splits(bytes, pos + encode_utf8(chars).len()),
    ensures
        step(bytes, pos) == Some((pos, pos + encode_utf8(chars).len())),
{
    let p = schemes::bounded_alts();
    runs::lemma_first(bytes, pos, chars, after);
    stage1::lemma_fits(bytes, pos, chars, after);
    assert(chars.take(0) =~= Seq::<char>::empty());
    assert(encode_utf8(chars.take(0)) =~= Seq::<u8>::empty());
    law_where_it_splits(bytes, pos);
    lemma_rest(bytes, pos, chars, after, 1);
    assert(chars.take(1) =~= seq![chars[0]]);
    dispatch::law_tiles(PretokenizerType::SuperwordBounded, bytes, pos);
}

proof fn lemma_rest(bytes: Seq<u8>, pos: int, chars: Seq<char>, after: Seq<u8>, k: int)
    requires
        runs::stands(bytes, pos, chars, after),
        bytes.len() <= usize::MAX,
        0 <= k <= chars.len(),
        forall|i: int|
            0 <= i < chars.len() ==> !splits(
                bytes,
                pos + encode_utf8(#[trigger] chars.take(i)).len(),
            ),
        after.len() == 0 || splits(bytes, pos + encode_utf8(chars).len()),
    ensures
        pattern::gap_end(
            schemes::bounded_alts(),
            bytes,
            pos + encode_utf8(chars.take(k)).len(),
        ) == pos + encode_utf8(chars).len(),
    decreases chars.len() - k,
{
    let p = schemes::bounded_alts();
    let a = chars.take(k);
    let b = chars.skip(k);
    assert(chars =~= a + b);
    runs::lemma_parts(bytes, pos, a, b, after);
    let at = pos + encode_utf8(a).len();
    stage1::lemma_fits(bytes, pos, chars, after);
    if k == chars.len() {
        assert(a =~= chars);
        assert(b =~= Seq::<char>::empty());
        runs::lemma_behind(bytes, at, after);
        if at < bytes.len() {
            law_where_it_splits(bytes, at);
        }
    } else {
        runs::lemma_first(bytes, at, b, after);
        assert(!splits(bytes, pos + encode_utf8(chars.take(k)).len()));
        law_where_it_splits(bytes, at);
        assert(chars.take(k + 1) =~= a + seq![b[0]]);
        utf8::lemma_encode_concat(a, seq![b[0]]);
        lemma_rest(bytes, pos, chars, after, k + 1);
        assert(pattern::gap_end(p, bytes, at) == pattern::gap_end(
            p,
            bytes,
            utf8::next_pos(bytes, at),
        ));
    }
}

/// A superword is not split at all: from every offset the rest is one pretoken.
pub proof fn law_superword_whole(bytes: Seq<u8>, pos: int)
    requires
        0 <= pos,
    ensures
        pos < bytes.len() ==> dispatch::type_step(PretokenizerType::Superword, bytes)(pos) == Some(
            (pos, bytes.len() as int),
        ),
        pos >= bytes.len() ==> dispatch::type_step(PretokenizerType::Superword, bytes)(pos) is None,
{
    dispatch::law_tiles(PretokenizerType::Superword, bytes, pos);
}

} // verus!
