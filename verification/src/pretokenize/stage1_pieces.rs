//! What meets where a piece of the SuperBPE stage-1 pattern ends.

use super::pattern;
use super::pattern::{Alt, CharSet};
use super::schemes;
use super::unicode::category;
use crate::utf8;
use vstd::prelude::*;

verus! {

/// Whether a piece may end between the characters `x` and `y`, where `w` comes
/// before `x`, if that is known, and `tail` says whether `x` may be a slash after
/// a line end. White space on both sides is left aside.
pub open spec fn may_part(w: Option<u32>, x: u32, y: u32, tail: bool) -> bool {
    let low = pattern::in_set(CharSet::LowerRun, x);
    let up = pattern::in_set(CharSet::UpperRun, x);
    let other = pattern::in_set(CharSet::Other, x);
    let number_next = pattern::in_set(CharSet::Number, y);
    // A run of letters before anything but letters, or before a capital.
    ||| (low || up) && !pattern::in_set(CharSet::LowerRun, y) && (low || !pattern::in_set(
        CharSet::UpperRun,
        y,
    ))
    // A number or a line end before anything.
    ||| pattern::in_set(CharSet::Number, x)
    ||| pattern::in_set(CharSet::Newline, x)
    // White space before what does not take it.
    ||| pattern::in_set(CharSet::White, x) && (number_next || (x != 0x20 && pattern::in_set(
        CharSet::Other,
        y,
    )))
    // Punctuation before a number, before white space and, unless it is the
    // first of its run, before a letter.
    ||| other && (number_next || (pattern::in_set(CharSet::White, y) && !pattern::in_set(
        CharSet::Newline,
        y,
    )))
    ||| other && pattern::in_set(CharSet::Letter, y) && match w {
        None => true,
        Some(w) => pattern::in_set(CharSet::Other, w) || w == 0x20,
    }
    // The slashes after a run of punctuation and a line end.
    ||| x == 0x2F && tail && !pattern::in_set(CharSet::NewlineOrSlash, y)
}

/// Whether the slashes that end a text follow a line end, or are all of it.
pub open spec fn slashes_may_follow_line(s: Seq<u8>) -> bool
    decreases s.len(),
{
    if s.len() == 0 {
        true
    } else if s.last() == 0x2F {
        slashes_may_follow_line(s.drop_last())
    } else {
        s.last() == 0x0D || s.last() == 0x0A
    }
}

/// The character before the last one, where both are well-formed.
pub open spec fn prior_char(s: Seq<u8>) -> Option<u32> {
    utf8::last_char(s.take(s.len() - utf8::last_len(s)))
}

/// May a piece end between two characters?
pub fn chars_may_part(w: Option<u32>, x: u32, y: u32, tail: bool) -> (res: bool)
    requires
        w matches Some(w) ==> w < category::CODE_POINTS,
        x < category::CODE_POINTS,
        y < category::CODE_POINTS,
    ensures
        res == may_part(w, x, y, tail),
{
    let low = pattern::set_contains(CharSet::LowerRun, x);
    let other = pattern::set_contains(CharSet::Other, x);
    let number_next = pattern::set_contains(CharSet::Number, y);
    let inside = match w {
        None => true,
        Some(w) => w == 0x20 || pattern::set_contains(CharSet::Other, w),
    };
    ((low || pattern::set_contains(CharSet::UpperRun, x)) && !pattern::set_contains(
        CharSet::LowerRun,
        y,
    ) && (low || !pattern::set_contains(CharSet::UpperRun, y))) || pattern::set_contains(
        CharSet::Number,
        x,
    ) || pattern::set_contains(CharSet::Newline, x) || (pattern::set_contains(CharSet::White, x)
        && (number_next || (x != 0x20 && pattern::set_contains(CharSet::Other, y)))) || (other && (
    number_next || (pattern::set_contains(CharSet::White, y) && !pattern::set_contains(
        CharSet::Newline,
        y,
    )))) || (other && inside && pattern::set_contains(CharSet::Letter, y)) || (x == 0x2F && tail
        && !pattern::set_contains(CharSet::NewlineOrSlash, y))
}

/// Do the slashes that end a text follow a line end, or are they all of it?
pub fn slashes_after_line(s: &[u8]) -> (res: bool)
    ensures
        res == slashes_may_follow_line(s@),
{
    let mut n: usize = s.len();
    assert(s@.take(n as int) =~= s@);
    while n > 0
        invariant
            n <= s@.len(),
            slashes_may_follow_line(s@) == slashes_may_follow_line(s@.take(n as int)),
        decreases n,
    {
        let b: u8 = s[n - 1];
        assert(s@.take(n as int).last() == b);
        if b != 0x2F {
            return b == 0x0D || b == 0x0A;
        }
        assert(s@.take(n as int).drop_last() =~= s@.take(n - 1));
        n -= 1;
    }
    true
}

/// How often an item is repeated where the items from it on match: as often as
/// the rest allows.
proof fn repetitions(a: Alt, k: nat, bytes: Seq<u8>, pos: int, n: nat) -> (c: nat)
    requires
        k < a.items.len(),
        pattern::back_off(a, k, bytes, pos, n) is Some,
    ensures
        a.items[k as int].min <= c <= n,
        pattern::match_items(a, k + 1, bytes, pattern::after(bytes, pos, c)) == pattern::back_off(
            a,
            k,
            bytes,
            pos,
            n,
        ),
        forall|m: nat|
            c < m <= n ==> pattern::match_items(
                a,
                k + 1,
                bytes,
                #[trigger] pattern::after(bytes, pos, m),
            ) is None,
    decreases n,
{
    if pattern::match_items(a, k + 1, bytes, pattern::after(bytes, pos, n)) is Some {
        n
    } else {
        repetitions(a, k, bytes, pos, (n - 1) as nat)
    }
}

/// Where the items from `k` on match nowhere, the rest matches after no
/// repetition.
proof fn lemma_no_match(a: Alt, k: nat, bytes: Seq<u8>, pos: int, c: nat)
    requires
        k < a.items.len(),
        pattern::match_items(a, k, bytes, pos) is None,
        a.items[k as int].min <= c <= pattern::run_len(
            a.items[k as int].set,
            bytes,
            pos,
            a.items[k as int].max as nat,
        ),
    ensures
        pattern::match_items(a, k + 1, bytes, pattern::after(bytes, pos, c)) is None,
{
    if pattern::match_items(a, k + 1, bytes, pattern::after(bytes, pos, c)) is Some {
        let item = a.items[k as int];
        pattern::lemma_back_off_finds(
            a,
            k,
            bytes,
            pos,
            pattern::run_len(item.set, bytes, pos, item.max as nat),
            c,
        );
    }
}

/// The last item of an alternative takes all it can.
proof fn lemma_final_item(a: Alt, k: nat, bytes: Seq<u8>, pos: int)
    requires
        k + 1 == a.items.len(),
        !a.lookahead,
    ensures
        ({
            let item = a.items[k as int];
            let n = pattern::run_len(item.set, bytes, pos, item.max as nat);
            pattern::match_items(a, k, bytes, pos) == (if n >= item.min {
                Some(pattern::after(bytes, pos, n))
            } else {
                None
            })
        }),
{
    let item = a.items[k as int];
    let n = pattern::run_len(item.set, bytes, pos, item.max as nat);
    assert(pattern::match_items(a, k + 1, bytes, pattern::after(bytes, pos, n)) == Some(
        pattern::after(bytes, pos, n),
    ));
}

/// A run is read code point by code point, and its last one is in its set.
proof fn lemma_run_last(set: CharSet, bytes: Seq<u8>, pos: int, max: nat, n: nat)
    requires
        0 <= pos <= bytes.len(),
        utf8::aligned(bytes, 0, pos),
        n <= pattern::run_len(set, bytes, pos, max),
    ensures
        pos + n <= pattern::after(bytes, pos, n) <= bytes.len(),
        utf8::aligned(bytes, 0, pattern::after(bytes, pos, n)),
        n > 0 ==> pattern::in_set(set, utf8::cp_before(bytes, pattern::after(bytes, pos, n))),
    decreases n,
{
    if n > 0 {
        let m = (n - 1) as nat;
        pattern::lemma_run(set, bytes, pos, max, m);
        pattern::lemma_run(set, bytes, pos, max, n);
        lemma_run_last(set, bytes, pos, max, m);
        pattern::lemma_after_step(bytes, pos, m);
        utf8::lemma_cp_before(bytes, pattern::after(bytes, pos, m));
    }
}

/// What comes after a run that could not go on is not in its set.
proof fn lemma_run_stops(set: CharSet, bytes: Seq<u8>, pos: int)
    requires
        0 <= pos <= bytes.len() <= pattern::MANY,
    ensures
        ({
            let end = pattern::after(
                bytes,
                pos,
                pattern::run_len(set, bytes, pos, pattern::MANY as nat),
            );
            &&& pos <= end <= bytes.len()
            &&& end < bytes.len() ==> !pattern::in_set(set, utf8::cp_at(bytes, end))
        }),
{
    let n = pattern::run_len(set, bytes, pos, pattern::MANY as nat);
    pattern::lemma_run(set, bytes, pos, pattern::MANY as nat, n);
}

/// An optional character at `pos`, and where the next item starts.
proof fn lemma_optional(set: CharSet, bytes: Seq<u8>, pos: int, n: nat)
    requires
        0 <= pos <= bytes.len(),
        utf8::aligned(bytes, 0, pos),
        n <= pattern::run_len(set, bytes, pos, 1),
    ensures
        n <= 1,
        0 <= pos <= pattern::after(bytes, pos, n) <= bytes.len(),
        utf8::aligned(bytes, 0, pattern::after(bytes, pos, n)),
        n == 0 ==> pattern::after(bytes, pos, n) == pos,
        n == 1 ==> pattern::in_set(set, utf8::cp_before(bytes, pattern::after(bytes, pos, n))),
{
    pattern::lemma_run(set, bytes, pos, 1, n);
    lemma_run_last(set, bytes, pos, 1, n);
}

/// What is known of an ending of a text leaves open what may meet after it.
pub proof fn lemma_ending_parts(s: Seq<u8>, whole: Seq<u8>, x: u32, y: u32)
    requires
        s.is_suffix_of(whole),
        utf8::last_char(s) is Some,
        may_part(prior_char(whole), x, y, slashes_may_follow_line(whole)),
    ensures
        may_part(prior_char(s), x, y, slashes_may_follow_line(s)),
{
    utf8::lemma_last_char_suffix(s, whole);
    if slashes_may_follow_line(whole) {
        lemma_ending_slashes(s, whole);
    }
    let k = utf8::last_len(s);
    let own = s.take(s.len() - k);
    let all = whole.take(whole.len() - k);
    assert forall|i: int| 0 <= i < s.len() implies s[i] == whole[whole.len() - s.len() + i] by {
        assert(whole.subrange(whole.len() - s.len(), whole.len() as int)[i] == s[i]);
    }
    assert(all.subrange(all.len() - own.len(), all.len() as int) =~= own);
    if utf8::last_char(own) is Some {
        utf8::lemma_last_char_suffix(own, all);
    }
}

proof fn lemma_ending_slashes(s: Seq<u8>, whole: Seq<u8>)
    requires
        s.is_suffix_of(whole),
        slashes_may_follow_line(whole),
    ensures
        slashes_may_follow_line(s),
    decreases s.len(),
{
    if s.len() > 0 {
        let last = whole.subrange(whole.len() - s.len(), whole.len() as int);
        assert(last == s);
        assert(last[s.len() - 1] == whole.last());
        if s.last() == 0x2F {
            let (a, b) = (s.drop_last(), whole.drop_last());
            assert(b.subrange(b.len() - a.len(), b.len() as int) =~= a);
            lemma_ending_slashes(a, b);
        }
    }
}

/// What may meet at `at`: white space on both sides, or characters that may part.
pub open spec fn parts_at(bytes: Seq<u8>, at: int) -> bool {
    let head = bytes.take(at);
    let x = utf8::cp_before(bytes, at);
    let y = utf8::cp_at(bytes, at);
    ||| pattern::in_set(CharSet::White, x) && pattern::in_set(CharSet::White, y)
    ||| may_part(prior_char(head), x, y, slashes_may_follow_line(head))
}

/// A letter run with its last letters in lower case, after an optional character.
proof fn lemma_lower_piece(bytes: Seq<u8>, pos: int, end: int)
    requires
        0 <= pos < bytes.len() <= pattern::MANY,
        utf8::aligned(bytes, 0, pos),
        pattern::match_items(schemes::stage1_alts()[0], 0, bytes, pos) == Some(end),
    ensures
        utf8::aligned(bytes, 0, end),
        0 <= end < bytes.len() ==> parts_at(bytes, end),
{
    let a = schemes::stage1_alts()[0];
    let many = pattern::MANY as nat;
    let lead = CharSet::NoNewlineLetterNumber;
    let n0 = repetitions(a, 0, bytes, pos, pattern::run_len(lead, bytes, pos, 1));
    lemma_optional(lead, bytes, pos, n0);
    let q = pattern::after(bytes, pos, n0);
    let n1 = repetitions(a, 1, bytes, q, pattern::run_len(CharSet::UpperRun, bytes, q, many));
    lemma_run_last(CharSet::UpperRun, bytes, q, many, n1);
    let r = pattern::after(bytes, q, n1);
    lemma_final_item(a, 2, bytes, r);
    let n2 = pattern::run_len(CharSet::LowerRun, bytes, r, many);
    lemma_run_last(CharSet::LowerRun, bytes, r, many, n2);
    lemma_run_stops(CharSet::LowerRun, bytes, r);
}

/// A letter run in upper case, and any letters in lower case after it.
proof fn lemma_upper_piece(bytes: Seq<u8>, pos: int, end: int)
    requires
        0 <= pos < bytes.len() <= pattern::MANY,
        utf8::aligned(bytes, 0, pos),
        pattern::match_items(schemes::stage1_alts()[1], 0, bytes, pos) == Some(end),
    ensures
        utf8::aligned(bytes, 0, end),
        0 <= end < bytes.len() ==> parts_at(bytes, end),
{
    let a = schemes::stage1_alts()[1];
    let many = pattern::MANY as nat;
    let lead = CharSet::NoNewlineLetterNumber;
    let n0 = repetitions(a, 0, bytes, pos, pattern::run_len(lead, bytes, pos, 1));
    lemma_optional(lead, bytes, pos, n0);
    let q = pattern::after(bytes, pos, n0);
    let most = pattern::run_len(CharSet::UpperRun, bytes, q, many);
    let n1 = repetitions(a, 1, bytes, q, most);
    lemma_final_item(a, 2, bytes, pattern::after(bytes, q, most));
    assert(n1 == most);
    lemma_run_last(CharSet::UpperRun, bytes, q, many, n1);
    lemma_run_stops(CharSet::UpperRun, bytes, q);
    let r = pattern::after(bytes, q, n1);
    let n2 = pattern::run_len(CharSet::LowerRun, bytes, r, many);
    lemma_run_last(CharSet::LowerRun, bytes, r, many, n2);
    lemma_run_stops(CharSet::LowerRun, bytes, r);
}

/// A number.
proof fn lemma_number_piece(bytes: Seq<u8>, pos: int, end: int)
    requires
        0 <= pos < bytes.len() <= pattern::MANY,
        utf8::aligned(bytes, 0, pos),
        pattern::match_items(schemes::stage1_alts()[2], 0, bytes, pos) == Some(end),
    ensures
        utf8::aligned(bytes, 0, end),
        0 <= end < bytes.len() ==> parts_at(bytes, end),
{
    let a = schemes::stage1_alts()[2];
    lemma_final_item(a, 0, bytes, pos);
    lemma_run_last(
        CharSet::Number,
        bytes,
        pos,
        3,
        pattern::run_len(CharSet::Number, bytes, pos, 3),
    );
}

/// White space up to a line end.
proof fn lemma_line_piece(bytes: Seq<u8>, pos: int, end: int)
    requires
        0 <= pos < bytes.len() <= pattern::MANY,
        utf8::aligned(bytes, 0, pos),
        pattern::match_items(schemes::stage1_alts()[4], 0, bytes, pos) == Some(end),
    ensures
        utf8::aligned(bytes, 0, end),
        0 <= end < bytes.len() ==> parts_at(bytes, end),
{
    let a = schemes::stage1_alts()[4];
    let many = pattern::MANY as nat;
    let n0 = repetitions(a, 0, bytes, pos, pattern::run_len(CharSet::White, bytes, pos, many));
    lemma_run_last(CharSet::White, bytes, pos, many, n0);
    let q = pattern::after(bytes, pos, n0);
    lemma_final_item(a, 1, bytes, q);
    lemma_run_last(
        CharSet::Newline,
        bytes,
        q,
        many,
        pattern::run_len(CharSet::Newline, bytes, q, many),
    );
}

/// White space before white space.
proof fn lemma_space_piece(bytes: Seq<u8>, pos: int, end: int)
    requires
        0 <= pos < bytes.len() <= pattern::MANY,
        utf8::aligned(bytes, 0, pos),
        pattern::match_items(schemes::stage1_alts()[5], 0, bytes, pos) == Some(end),
    ensures
        utf8::aligned(bytes, 0, end),
        0 <= end < bytes.len() ==> parts_at(bytes, end),
{
    let a = schemes::stage1_alts()[5];
    let many = pattern::MANY as nat;
    let n = repetitions(a, 0, bytes, pos, pattern::run_len(CharSet::White, bytes, pos, many));
    lemma_run_last(CharSet::White, bytes, pos, many, n);
}

/// One character of a set, and what comes after it.
proof fn lemma_one_of(set: CharSet, bytes: Seq<u8>, pos: int, max: nat)
    requires
        0 <= pos < bytes.len(),
        pattern::in_set(set, utf8::cp_at(bytes, pos)),
        max >= 1,
    ensures
        pattern::run_len(set, bytes, pos, max) >= 1,
        pattern::after(bytes, pos, 1) == utf8::next_pos(bytes, pos),
{
    reveal_with_fuel(pattern::after, 2);
}

/// Where no letter run matches, no letter follows a character that could come
/// before one.
proof fn lemma_no_letter_after(bytes: Seq<u8>, pos: int)
    requires
        0 <= pos < utf8::next_pos(bytes, pos) < bytes.len(),
        pattern::match_items(schemes::stage1_alts()[0], 0, bytes, pos) is None,
        pattern::match_items(schemes::stage1_alts()[1], 0, bytes, pos) is None,
        pattern::in_set(CharSet::NoNewlineLetterNumber, utf8::cp_at(bytes, pos)),
    ensures
        !pattern::in_set(CharSet::UpperRun, utf8::cp_at(bytes, utf8::next_pos(bytes, pos))),
        !pattern::in_set(CharSet::LowerRun, utf8::cp_at(bytes, utf8::next_pos(bytes, pos))),
{
    let low = schemes::stage1_alts()[0];
    let up = schemes::stage1_alts()[1];
    let many = pattern::MANY as nat;
    let next = utf8::next_pos(bytes, pos);
    lemma_one_of(CharSet::NoNewlineLetterNumber, bytes, pos, 1);
    lemma_no_match(low, 0, bytes, pos, 1);
    lemma_no_match(up, 0, bytes, pos, 1);
    if pattern::in_set(CharSet::LowerRun, utf8::cp_at(bytes, next)) {
        lemma_one_of(CharSet::LowerRun, bytes, next, many);
        lemma_no_match(low, 1, bytes, next, 0);
        assert(pattern::after(bytes, next, 0) == next);
        lemma_final_item(low, 2, bytes, next);
    }
    if pattern::in_set(CharSet::UpperRun, utf8::cp_at(bytes, next)) {
        lemma_one_of(CharSet::UpperRun, bytes, next, many);
        lemma_no_match(up, 1, bytes, next, 1);
        lemma_final_item(up, 2, bytes, pattern::after(bytes, next, 1));
    }
}

/// A single character of white space, other than a line end.
proof fn lemma_single_space_piece(bytes: Seq<u8>, pos: int, end: int)
    requires
        0 <= pos < bytes.len() <= pattern::MANY,
        utf8::aligned(bytes, 0, pos),
        forall|i: int|
            0 <= i < 6 ==> pattern::match_items(
                #[trigger] schemes::stage1_alts()[i],
                0,
                bytes,
                pos,
            ) is None,
        pattern::match_items(schemes::stage1_alts()[6], 0, bytes, pos) == Some(end),
    ensures
        utf8::aligned(bytes, 0, end),
        0 <= end < bytes.len() ==> parts_at(bytes, end),
{
    let p = schemes::stage1_alts();
    let many = pattern::MANY as nat;
    let n = pattern::run_len(CharSet::White, bytes, pos, many);
    lemma_final_item(p[6], 0, bytes, pos);
    lemma_run_last(CharSet::White, bytes, pos, many, n);
    lemma_run_stops(CharSet::White, bytes, pos);
    if n >= 2 {
        let m = (n - 1) as nat;
        assert(pattern::match_items(p[5], 0, bytes, pos) is None);
        lemma_no_match(p[5], 0, bytes, pos, m);
        pattern::lemma_run(CharSet::White, bytes, pos, many, m);
        assert(false);
    }
    reveal_with_fuel(pattern::after, 2);
    assert(end == utf8::next_pos(bytes, pos));
    utf8::lemma_cp(bytes, pos);
    utf8::lemma_cp_before(bytes, pos);
    let x = utf8::cp_at(bytes, pos);
    assert(pattern::in_set(CharSet::White, x));
    assert(!pattern::in_set(CharSet::Newline, x)) by {
        if pattern::in_set(CharSet::Newline, x) {
            assert(pattern::match_items(p[4], 0, bytes, pos) is None);
            lemma_no_match(p[4], 0, bytes, pos, 0);
            lemma_one_of(CharSet::Newline, bytes, pos, many);
            lemma_final_item(p[4], 1, bytes, pos);
        }
    }
    if end < bytes.len() {
        let y = utf8::cp_at(bytes, end);
        assert(pattern::match_items(p[0], 0, bytes, pos) is None);
        assert(pattern::match_items(p[1], 0, bytes, pos) is None);
        lemma_no_letter_after(bytes, pos);
        if x == 0x20 && pattern::in_set(CharSet::Other, y) {
            assert(pattern::match_items(p[3], 0, bytes, pos) is None);
            lemma_one_of(schemes::space(), bytes, pos, 1);
            lemma_no_match(p[3], 0, bytes, pos, 1);
            lemma_one_of(CharSet::Other, bytes, end, many);
            lemma_no_match(p[3], 1, bytes, end, 1);
            lemma_final_item(p[3], 2, bytes, pattern::after(bytes, end, 1));
        }
    }
}

/// Line ends and slashes are read byte by byte.
proof fn lemma_tail_bytes(bytes: Seq<u8>, pos: int, max: nat, n: nat)
    requires
        0 <= pos <= bytes.len(),
        n <= pattern::run_len(CharSet::NewlineOrSlash, bytes, pos, max),
    ensures
        pattern::after(bytes, pos, n) == pos + n,
        pos + n <= bytes.len(),
        forall|i: int|
            pos <= i < pos + n ==> #[trigger] bytes[i] == 0x0D || bytes[i] == 0x0A || bytes[i]
                == 0x2F,
    decreases n,
{
    if n > 0 {
        utf8::lemma_cp(bytes, pos);
        lemma_tail_bytes(bytes, pos + 1, (max - 1) as nat, (n - 1) as nat);
    }
}

/// Slashes after a line end.
proof fn lemma_slashes_after_line(bytes: Seq<u8>, from: int, end: int)
    requires
        0 <= from < end <= bytes.len(),
        bytes[from] == 0x0D || bytes[from] == 0x0A,
        forall|i: int|
            from <= i < end ==> #[trigger] bytes[i] == 0x0D || bytes[i] == 0x0A || bytes[i] == 0x2F,
    ensures
        slashes_may_follow_line(bytes.take(end)),
    decreases end,
{
    let head = bytes.take(end);
    assert(head.last() == bytes[end - 1]);
    if head.last() == 0x2F {
        lemma_slashes_after_line(bytes, from, end - 1);
        assert(head.drop_last() =~= bytes.take(end - 1));
    }
}

/// Punctuation after an optional space, and the line ends and slashes after it.
proof fn lemma_other_piece(bytes: Seq<u8>, pos: int, end: int)
    requires
        0 <= pos < bytes.len() <= pattern::MANY,
        utf8::aligned(bytes, 0, pos),
        pattern::match_items(schemes::stage1_alts()[0], 0, bytes, pos) is None,
        pattern::match_items(schemes::stage1_alts()[1], 0, bytes, pos) is None,
        pattern::match_items(schemes::stage1_alts()[3], 0, bytes, pos) == Some(end),
    ensures
        utf8::aligned(bytes, 0, end),
        0 <= end < bytes.len() ==> parts_at(bytes, end),
{
    let a = schemes::stage1_alts()[3];
    let many = pattern::MANY as nat;
    let n0 = repetitions(a, 0, bytes, pos, pattern::run_len(schemes::space(), bytes, pos, 1));
    lemma_optional(schemes::space(), bytes, pos, n0);
    let q = pattern::after(bytes, pos, n0);
    let most = pattern::run_len(CharSet::Other, bytes, q, many);
    let n1 = repetitions(a, 1, bytes, q, most);
    lemma_final_item(a, 2, bytes, pattern::after(bytes, q, most));
    assert(n1 == most);
    lemma_run_last(CharSet::Other, bytes, q, many, n1);
    lemma_run_stops(CharSet::Other, bytes, q);
    let r = pattern::after(bytes, q, n1);
    let n2 = pattern::run_len(CharSet::NewlineOrSlash, bytes, r, many);
    lemma_run_last(CharSet::NewlineOrSlash, bytes, r, many, n2);
    lemma_run_stops(CharSet::NewlineOrSlash, bytes, r);
    lemma_tail_bytes(bytes, r, many, n2);
    if n2 > 0 {
        utf8::lemma_cp(bytes, r);
        assert(bytes[r] == 0x0D || bytes[r] == 0x0A);
        lemma_slashes_after_line(bytes, r, end);
    } else if end < bytes.len() && pattern::in_set(CharSet::Letter, utf8::cp_at(bytes, end)) {
        let m = (n1 - 1) as nat;
        let last = pattern::after(bytes, q, m);
        pattern::lemma_run(CharSet::Other, bytes, q, many, m);
        lemma_run_last(CharSet::Other, bytes, q, many, m);
        pattern::lemma_after_step(bytes, q, m);
        utf8::lemma_cp_before(bytes, last);
        assert(end == utf8::next_pos(bytes, last));
        if n1 == 1 && n0 == 0 {
            assert(last == pos);
            utf8::lemma_cp(bytes, pos);
            lemma_no_letter_after(bytes, pos);
            assert(false);
        }
        let w = utf8::cp_before(bytes, last);
        assert(pattern::in_set(CharSet::Other, w) || w == 0x20);
        let head = bytes.take(end);
        if utf8::last_char(head) is Some {
            assert(head.take(head.len() - utf8::last_len(head)) =~= bytes.take(last));
        } else {
            assert(utf8::last_len(head) == 0);
            assert(head.take(head.len() as int) =~= head);
        }
    }
}

/// What meets where a piece ends. A piece starts anew after a line end and after
/// a number; a run of letters ends before anything but more letters, or before a
/// capital; white space joins what follows it, as far as that can have it; and
/// punctuation goes on until something else comes, with a letter after it only
/// where it is not the first.
pub proof fn law_stage1_boundary(bytes: Seq<u8>, pos: int)
    requires
        0 <= pos < bytes.len() <= pattern::MANY,
        utf8::aligned(bytes, 0, pos),
    ensures
        ({
            let end = pattern::piece_end(schemes::stage1_alts(), bytes, pos);
            &&& pos < end <= bytes.len()
            &&& utf8::aligned(bytes, 0, end)
            &&& end < bytes.len() ==> parts_at(bytes, end)
        }),
{
    let p = schemes::stage1_alts();
    let end = pattern::piece_end(p, bytes, pos);
    schemes::law_stage1_covers(bytes, pos);
    schemes::lemma_productive();
    pattern::law_piece_bounds(p, bytes, pos);
    reveal_with_fuel(pattern::first_match_from, 8);
    if pattern::match_items(p[0], 0, bytes, pos) is Some {
        lemma_lower_piece(bytes, pos, end);
    } else if pattern::match_items(p[1], 0, bytes, pos) is Some {
        lemma_upper_piece(bytes, pos, end);
    } else if pattern::match_items(p[2], 0, bytes, pos) is Some {
        lemma_number_piece(bytes, pos, end);
    } else if pattern::match_items(p[3], 0, bytes, pos) is Some {
        lemma_other_piece(bytes, pos, end);
    } else if pattern::match_items(p[4], 0, bytes, pos) is Some {
        lemma_line_piece(bytes, pos, end);
    } else if pattern::match_items(p[5], 0, bytes, pos) is Some {
        lemma_space_piece(bytes, pos, end);
    } else {
        lemma_single_space_piece(bytes, pos, end);
    }
}

} // verus!
