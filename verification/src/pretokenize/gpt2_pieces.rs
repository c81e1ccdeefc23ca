//! Where the pieces of the GPT-2 pattern end, read off the text without
//! backtracking.

use super::pattern;
use super::pattern::{Alt, CharSet};
use super::schemes;
use super::unicode::classes;
use super::unicode::classes::CharClass;
use crate::utf8;
use vstd::prelude::*;
use vstd::utf8::*;

verus! {

/// The class of the code point at `pos`.
pub open spec fn class_at(bytes: Seq<u8>, pos: int) -> CharClass {
    classes::char_class(utf8::cp_at(bytes, pos))
}

/// Whether the code points from `pos` to `end` are all of one class.
pub open spec fn uniform(bytes: Seq<u8>, pos: int, end: int, class: CharClass) -> bool
    decreases end - pos,
{
    pos == end || {
        &&& 0 <= pos < utf8::next_pos(bytes, pos) <= end <= bytes.len()
        &&& class_at(bytes, pos) == class
        &&& uniform(bytes, utf8::next_pos(bytes, pos), end, class)
    }
}

/// Whether `pos..end` is a longest run of one class.
pub open spec fn full_run(bytes: Seq<u8>, pos: int, end: int, class: CharClass) -> bool {
    &&& pos < end
    &&& uniform(bytes, pos, end, class)
    &&& end >= bytes.len() || class_at(bytes, end) != class
}

/// Whether `pos..end` is a piece of white space: before white space or the end
/// of the text, or a single character other than the space.
pub open spec fn white_piece(bytes: Seq<u8>, pos: int, end: int) -> bool {
    &&& pos < end
    &&& uniform(bytes, pos, end, CharClass::Whitespace)
    &&& end >= bytes.len() || class_at(bytes, end) == CharClass::Whitespace || (utf8::next_pos(
        bytes,
        pos,
    ) == end && bytes[pos] != 0x20)
}

/// The end of the contraction at `pos`, if there is one.
pub open spec fn contraction_end(bytes: Seq<u8>, pos: int) -> Option<int> {
    if bytes[pos] != 0x27 || pos + 1 >= bytes.len() {
        None
    } else if bytes[pos + 1] == 0x73 || bytes[pos + 1] == 0x64 || bytes[pos + 1] == 0x6D || bytes[pos
        + 1] == 0x74 {
        Some(pos + 2)
    } else if pos + 2 < bytes.len() && ((bytes[pos + 1] == 0x6C && bytes[pos + 2] == 0x6C) || (
    bytes[pos + 1] == 0x76 && bytes[pos + 2] == 0x65) || (bytes[pos + 1] == 0x72 && bytes[pos + 2]
        == 0x65)) {
        Some(pos + 3)
    } else {
        None
    }
}

/// The set of a class.
spec fn class_set(class: CharClass) -> CharSet {
    match class {
        CharClass::Letter => CharSet::Letter,
        CharClass::Number => CharSet::Number,
        CharClass::Whitespace => CharSet::White,
        CharClass::Other => CharSet::Other,
    }
}

proof fn lemma_run_uniform(class: CharClass, bytes: Seq<u8>, pos: int, max: nat)
    requires
        0 <= pos <= bytes.len(),
    ensures
        uniform(
            bytes,
            pos,
            pattern::after(bytes, pos, pattern::run_len(class_set(class), bytes, pos, max)),
            class,
        ),
    decreases max,
{
    let set = class_set(class);
    pattern::lemma_run(set, bytes, pos, max, pattern::run_len(set, bytes, pos, max));
    if max > 0 && pos < bytes.len() && pattern::in_set(set, utf8::cp_at(bytes, pos)) {
        utf8::lemma_cp(bytes, pos);
        let next = utf8::next_pos(bytes, pos);
        lemma_run_uniform(class, bytes, next, (max - 1) as nat);
    }
}

/// The longest run of a class, as far as a text can be long.
proof fn lemma_full_run(class: CharClass, bytes: Seq<u8>, pos: int)
    requires
        0 <= pos < bytes.len() <= pattern::MANY,
        class_at(bytes, pos) == class,
    ensures
        pattern::run_len(class_set(class), bytes, pos, pattern::MANY as nat) >= 1,
        full_run(
            bytes,
            pos,
            pattern::after(
                bytes,
                pos,
                pattern::run_len(class_set(class), bytes, pos, pattern::MANY as nat),
            ),
            class,
        ),
{
    let set = class_set(class);
    let many = pattern::MANY as nat;
    let n = pattern::run_len(set, bytes, pos, many);
    lemma_run_uniform(class, bytes, pos, many);
    pattern::lemma_run(set, bytes, pos, many, n);
}

/// An item that must be there once.
proof fn lemma_one(a: Alt, k: nat, set: CharSet, bytes: Seq<u8>, pos: int)
    requires
        k < a.items.len(),
        a.items[k as int] == schemes::one(set),
        0 <= pos,
    ensures
        pattern::match_items(a, k, bytes, pos) == (if pos < bytes.len() && pattern::in_set(
            set,
            utf8::cp_at(bytes, pos),
        ) {
            pattern::match_items(a, k + 1, bytes, utf8::next_pos(bytes, pos))
        } else {
            None
        }),
{
    reveal_with_fuel(pattern::run_len, 2);
    reveal_with_fuel(pattern::after, 2);
    let n = pattern::run_len(set, bytes, pos, 1);
    assert(pattern::match_items(a, k, bytes, pos) == pattern::back_off(a, k, bytes, pos, n));
    assert(pattern::back_off(a, k, bytes, pos, 0) is None);
}

/// An item that may be there once.
proof fn lemma_opt(a: Alt, k: nat, set: CharSet, bytes: Seq<u8>, pos: int)
    requires
        k < a.items.len(),
        a.items[k as int] == schemes::opt(set),
        0 <= pos,
    ensures
        pattern::match_items(a, k, bytes, pos) == (if pos < bytes.len() && pattern::in_set(
            set,
            utf8::cp_at(bytes, pos),
        ) && pattern::match_items(a, k + 1, bytes, utf8::next_pos(bytes, pos)) is Some {
            pattern::match_items(a, k + 1, bytes, utf8::next_pos(bytes, pos))
        } else {
            pattern::match_items(a, k + 1, bytes, pos)
        }),
{
    reveal_with_fuel(pattern::run_len, 2);
    reveal_with_fuel(pattern::after, 2);
    let n = pattern::run_len(set, bytes, pos, 1);
    assert(pattern::match_items(a, k, bytes, pos) == pattern::back_off(a, k, bytes, pos, n));
    assert(pattern::back_off(a, k, bytes, pos, 0) == pattern::match_items(a, k + 1, bytes, pos));
}

/// A class repeated at least once, at the end of an alternative.
proof fn lemma_plus(a: Alt, k: nat, class: CharClass, bytes: Seq<u8>, pos: int)
    requires
        k + 1 == a.items.len(),
        a.items[k as int] == schemes::plus(class_set(class)),
        !a.lookahead,
        0 <= pos <= bytes.len() <= pattern::MANY,
    ensures
        pos < bytes.len() && class_at(bytes, pos) == class ==> {
            &&& pattern::match_items(a, k, bytes, pos) matches Some(end)
            &&& full_run(bytes, pos, end, class)
        },
        pos == bytes.len() || class_at(bytes, pos) != class ==> pattern::match_items(
            a,
            k,
            bytes,
            pos,
        ) is None,
{
    let set = class_set(class);
    let n = pattern::run_len(set, bytes, pos, pattern::MANY as nat);
    if pos < bytes.len() && class_at(bytes, pos) == class {
        lemma_full_run(class, bytes, pos);
        assert(pattern::match_items(a, k + 1, bytes, pattern::after(bytes, pos, n)) == Some(
            pattern::after(bytes, pos, n),
        ));
    } else {
        assert(!pattern::in_set(set, utf8::cp_at(bytes, pos)) || pos == bytes.len());
        assert(n == 0);
    }
}

/// A byte below 128 is the code point, and no other code point is below 128.
proof fn lemma_literal(bytes: Seq<u8>, pos: int, c: u8)
    requires
        0 <= pos < bytes.len(),
        c < 0x80,
    ensures
        utf8::cp_at(bytes, pos) == c <==> bytes[pos] == c,
        bytes[pos] == c ==> utf8::next_pos(bytes, pos) == pos + 1,
{
    utf8::lemma_cp(bytes, pos);
}

/// What the first four alternatives give at `pos`: the contraction there.
proof fn lemma_contractions(bytes: Seq<u8>, pos: int)
    requires
        0 <= pos < bytes.len(),
    ensures
        ({
            let p = schemes::gpt2_alts();
            let m = |i: int| pattern::match_items(p[i], 0, bytes, pos);
            match contraction_end(bytes, pos) {
                Some(end) => {
                    &&& m(0) == Some(end) || (m(0) is None && m(1) == Some(end)) || (m(0) is None
                        && m(1) is None && m(2) == Some(end)) || (m(0) is None && m(1) is None && m(2)
                        is None && m(3) == Some(end))
                },
                None => m(0) is None && m(1) is None && m(2) is None && m(3) is None,
            }
        }),
{
    let p = schemes::gpt2_alts();
    let quote = schemes::apostrophe();
    lemma_literal(bytes, pos, 0x27);
    lemma_one(p[0], 0, quote, bytes, pos);
    lemma_one(p[1], 0, quote, bytes, pos);
    lemma_one(p[2], 0, quote, bytes, pos);
    lemma_one(p[3], 0, quote, bytes, pos);
    if bytes[pos] == 0x27 {
        lemma_one(p[0], 1, CharSet::ContractionSuffix, bytes, pos + 1);
        lemma_one(p[1], 1, CharSet::Literal(0x6C), bytes, pos + 1);
        lemma_one(p[2], 1, CharSet::Literal(0x76), bytes, pos + 1);
        lemma_one(p[3], 1, CharSet::Literal(0x72), bytes, pos + 1);
        if pos + 1 < bytes.len() {
            utf8::lemma_cp(bytes, pos + 1);
            if bytes[pos + 1] < 0x80 {
                lemma_one(p[1], 2, CharSet::Literal(0x6C), bytes, pos + 2);
                lemma_one(p[2], 2, CharSet::Literal(0x65), bytes, pos + 2);
                lemma_one(p[3], 2, CharSet::Literal(0x65), bytes, pos + 2);
                if pos + 2 < bytes.len() {
                    utf8::lemma_cp(bytes, pos + 2);
                }
            }
        }
    }
}

/// An optional space and a run of a class.
proof fn lemma_spaced_run(a: Alt, class: CharClass, bytes: Seq<u8>, pos: int)
    requires
        class != CharClass::Whitespace,
        a == schemes::alt(seq![schemes::opt(schemes::space()), schemes::plus(class_set(class))]),
        0 <= pos < bytes.len() <= pattern::MANY,
    ensures
        ({
            let m = pattern::match_items(a, 0, bytes, pos);
            if bytes[pos] == 0x20 {
                if pos + 1 < bytes.len() && class_at(bytes, pos + 1) == class {
                    m matches Some(end) && full_run(bytes, pos + 1, end, class)
                } else {
                    m is None
                }
            } else if class_at(bytes, pos) == class {
                m matches Some(end) && full_run(bytes, pos, end, class)
            } else {
                m is None
            }
        }),
{
    lemma_opt(a, 0, schemes::space(), bytes, pos);
    lemma_literal(bytes, pos, 0x20);
    lemma_plus(a, 1, class, bytes, pos);
    if bytes[pos] == 0x20 {
        lemma_plus(a, 1, class, bytes, pos + 1);
    }
}

/// A run that ends at `end` continues a run that ends at `mid`.
proof fn lemma_uniform_prefix(class: CharClass, bytes: Seq<u8>, pos: int, max: nat, n: nat)
    requires
        0 <= pos <= bytes.len(),
        n <= pattern::run_len(class_set(class), bytes, pos, max),
    ensures
        uniform(bytes, pos, pattern::after(bytes, pos, n), class),
    decreases n,
{
    if n > 0 {
        utf8::lemma_cp(bytes, pos);
        pattern::lemma_run(class_set(class), bytes, pos, max, n);
        lemma_uniform_prefix(
            class,
            bytes,
            utf8::next_pos(bytes, pos),
            (max - 1) as nat,
            (n - 1) as nat,
        );
    }
}

/// White space: all of a run before the end of the text, all but the last
/// character of it before another one, and a single one as it is.
proof fn lemma_whites(bytes: Seq<u8>, pos: int)
    requires
        0 <= pos < bytes.len() <= pattern::MANY,
    ensures
        ({
            let p = schemes::gpt2_alts();
            let first = pattern::match_items(p[7], 0, bytes, pos);
            let second = pattern::match_items(p[8], 0, bytes, pos);
            if class_at(bytes, pos) == CharClass::Whitespace {
                &&& second is Some
                &&& first matches Some(end) ==> {
                    &&& pos < end
                    &&& uniform(bytes, pos, end, CharClass::Whitespace)
                    &&& end >= bytes.len() || class_at(bytes, end) == CharClass::Whitespace
                }
                &&& first is None ==> second == Some(utf8::next_pos(bytes, pos))
            } else {
                first is None && second is None
            }
        }),
{
    let p = schemes::gpt2_alts();
    let white = CharClass::Whitespace;
    let many = pattern::MANY as nat;
    let n = pattern::run_len(CharSet::White, bytes, pos, many);
    lemma_plus(p[8], 0, white, bytes, pos);
    if class_at(bytes, pos) == white {
        lemma_full_run(white, bytes, pos);
        pattern::lemma_run(CharSet::White, bytes, pos, many, n);
        let end = pattern::after(bytes, pos, n);
        assert(pattern::match_items(p[8], 1, bytes, end) == Some(end));
        assert(pattern::match_items(p[7], 0, bytes, pos) == pattern::back_off(
            p[7],
            0,
            bytes,
            pos,
            n,
        ));
        if end < bytes.len() {
            assert(pattern::match_items(p[7], 1, bytes, end) is None);
            let m = (n - 1) as nat;
            if m > 0 {
                pattern::lemma_run(CharSet::White, bytes, pos, many, m);
                lemma_uniform_prefix(white, bytes, pos, many, m);
                let mid = pattern::after(bytes, pos, m);
                assert(pattern::match_items(p[7], 1, bytes, mid) == Some(mid));
                assert(pattern::back_off(p[7], 0, bytes, pos, m) == Some(mid));
            } else {
                assert(pattern::back_off(p[7], 0, bytes, pos, 0) is None);
                reveal_with_fuel(pattern::after, 2);
            }
        } else {
            assert(pattern::match_items(p[7], 1, bytes, end) == Some(end));
        }
    } else {
        assert(n == 0);
        assert(pattern::back_off(p[7], 0, bytes, pos, 0) is None);
    }
}

/// Where the piece at `pos` ends: a contraction where there is one, a space and
/// the run of one class after it, the run of one class at `pos`, or white
/// space.
pub proof fn law_gpt2_piece(bytes: Seq<u8>, pos: int)
    requires
        0 <= pos < bytes.len() <= pattern::MANY,
    ensures
        ({
            let end = pattern::piece_end(schemes::gpt2_alts(), bytes, pos);
            match contraction_end(bytes, pos) {
                Some(contracted) => end == contracted,
                None => if bytes[pos] == 0x20 && pos + 1 < bytes.len() && class_at(bytes, pos + 1)
                    != CharClass::Whitespace {
                    full_run(bytes, pos + 1, end, class_at(bytes, pos + 1))
                } else if class_at(bytes, pos) != CharClass::Whitespace {
                    full_run(bytes, pos, end, class_at(bytes, pos))
                } else {
                    white_piece(bytes, pos, end)
                },
            }
        }),
{
    let p = schemes::gpt2_alts();
    schemes::law_gpt2_covers(bytes, pos);
    reveal_with_fuel(pattern::first_match_from, 10);
    lemma_contractions(bytes, pos);
    lemma_spaced_run(p[4], CharClass::Letter, bytes, pos);
    lemma_spaced_run(p[5], CharClass::Number, bytes, pos);
    lemma_spaced_run(p[6], CharClass::Other, bytes, pos);
    lemma_whites(bytes, pos);
    lemma_literal(bytes, pos, 0x20);
    utf8::lemma_cp(bytes, pos);
    reveal_with_fuel(uniform, 2);
}

/// A run is read code point by code point, and its last one is of its class.
pub proof fn lemma_uniform_walk(bytes: Seq<u8>, pos: int, end: int, class: CharClass)
    requires
        0 <= pos <= end <= bytes.len(),
        uniform(bytes, pos, end, class),
        utf8::aligned(bytes, 0, pos),
    ensures
        utf8::aligned(bytes, 0, end),
        pos < end ==> classes::char_class(utf8::cp_before(bytes, end)) == class,
    decreases end - pos,
{
    if pos < end {
        utf8::lemma_cp_before(bytes, pos);
        lemma_uniform_walk(bytes, utf8::next_pos(bytes, pos), end, class);
    }
}

/// A run can be cut before every byte that is no continuation byte.
proof fn lemma_uniform_split(bytes: Seq<u8>, pos: int, mid: int, end: int, class: CharClass)
    requires
        uniform(bytes, pos, end, class),
        0 <= pos <= mid < end <= bytes.len(),
        !is_continuation_byte(bytes[mid]),
    ensures
        uniform(bytes, pos, mid, class),
        uniform(bytes, mid, end, class),
    decreases end - pos,
{
    if pos < mid {
        if mid < utf8::next_pos(bytes, pos) {
            utf8::lemma_inside(bytes, pos, mid);
        }
        lemma_uniform_split(bytes, utf8::next_pos(bytes, pos), mid, end, class);
    }
}

/// Runs of one class from one place on end at one place.
pub proof fn lemma_run_end(bytes: Seq<u8>, pos: int, one: int, other: int, class: CharClass)
    requires
        uniform(bytes, pos, one, class),
        one >= bytes.len() || class_at(bytes, one) != class,
        uniform(bytes, pos, other, class),
        other >= bytes.len() || class_at(bytes, other) != class,
        0 <= pos <= one <= bytes.len(),
        pos <= other <= bytes.len(),
    ensures
        one == other,
    decreases bytes.len() - pos,
{
    if pos < one && pos < other {
        lemma_run_end(bytes, utf8::next_pos(bytes, pos), one, other, class);
    }
}

/// A contraction is an apostrophe and letters.
proof fn lemma_contraction(bytes: Seq<u8>, pos: int, end: int)
    requires
        0 <= pos < bytes.len(),
        contraction_end(bytes, pos) == Some(end),
        utf8::aligned(bytes, 0, pos),
    ensures
        pos + 1 < end <= bytes.len(),
        utf8::aligned(bytes, 0, end),
        class_at(bytes, pos + 1) == CharClass::Letter,
        end == pos + 3 ==> class_at(bytes, pos + 2) == CharClass::Letter,
        end == pos + 2 || end == pos + 3,
        classes::char_class(utf8::cp_before(bytes, end)) == CharClass::Letter,
        classes::char_class(utf8::cp_before(bytes, pos + 2)) == CharClass::Letter,
{
    utf8::lemma_cp(bytes, pos);
    utf8::lemma_cp(bytes, pos + 1);
    utf8::lemma_cp_before(bytes, pos);
    utf8::lemma_cp_before(bytes, pos + 1);
    if end == pos + 3 {
        utf8::lemma_cp(bytes, pos + 2);
        utf8::lemma_cp_before(bytes, pos + 2);
    }
}

/// What meets where a piece ends: characters of different classes, white space
/// on both sides, or letters after a contraction. A space is last in a piece
/// only before white space.
pub proof fn lemma_piece_boundary(bytes: Seq<u8>, pos: int)
    requires
        0 <= pos < bytes.len() <= pattern::MANY,
        utf8::aligned(bytes, 0, pos),
    ensures
        ({
            let end = pattern::piece_end(schemes::gpt2_alts(), bytes, pos);
            let before = classes::char_class(utf8::cp_before(bytes, end));
            &&& pos < end <= bytes.len()
            &&& utf8::aligned(bytes, 0, end)
            &&& end < bytes.len() && before == class_at(bytes, end) ==> before
                == CharClass::Whitespace || (before == CharClass::Letter && bytes[pos] == 0x27)
            &&& end < bytes.len() && bytes[end - 1] == 0x20 ==> class_at(bytes, end)
                == CharClass::Whitespace
        }),
{
    let end = pattern::piece_end(schemes::gpt2_alts(), bytes, pos);
    law_gpt2_piece(bytes, pos);
    schemes::lemma_productive();
    pattern::law_piece_bounds(schemes::gpt2_alts(), bytes, pos);
    if bytes[end - 1] == 0x20 {
        utf8::lemma_cp_before_ascii(bytes, end);
    }
    match contraction_end(bytes, pos) {
        Some(_) => {
            lemma_contraction(bytes, pos, end);
        },
        None => if bytes[pos] == 0x20 && pos + 1 < bytes.len() && class_at(bytes, pos + 1)
            != CharClass::Whitespace {
            utf8::lemma_cp(bytes, pos);
            utf8::lemma_cp_before(bytes, pos);
            lemma_uniform_walk(bytes, pos + 1, end, class_at(bytes, pos + 1));
        } else {
            lemma_uniform_walk(bytes, pos, end, class_at(bytes, pos));
            if utf8::next_pos(bytes, pos) == end {
                utf8::lemma_cp_before(bytes, pos);
                lemma_literal(bytes, pos, 0x20);
            }
        },
    }
}

/// What meets inside a piece: characters of one class, a space and what follows
/// it, or an apostrophe and what follows it.
pub proof fn lemma_piece_inside(bytes: Seq<u8>, pos: int, at: int)
    requires
        0 <= pos < at < bytes.len() <= pattern::MANY,
        at < pattern::piece_end(schemes::gpt2_alts(), bytes, pos),
        utf8::aligned(bytes, 0, pos),
        !is_continuation_byte(bytes[at]),
    ensures
        classes::char_class(utf8::cp_before(bytes, at)) == class_at(bytes, at) || bytes[at - 1]
            == 0x20 || bytes[at - 1] == 0x27,
{
    let end = pattern::piece_end(schemes::gpt2_alts(), bytes, pos);
    law_gpt2_piece(bytes, pos);
    schemes::lemma_productive();
    pattern::law_piece_bounds(schemes::gpt2_alts(), bytes, pos);
    match contraction_end(bytes, pos) {
        Some(_) => {
            lemma_contraction(bytes, pos, end);
        },
        None => if bytes[pos] == 0x20 && pos + 1 < bytes.len() && class_at(bytes, pos + 1)
            != CharClass::Whitespace {
            utf8::lemma_cp(bytes, pos);
            utf8::lemma_cp_before(bytes, pos);
            let class = class_at(bytes, pos + 1);
            if at > pos + 1 {
                lemma_uniform_split(bytes, pos + 1, at, end, class);
                lemma_uniform_walk(bytes, pos + 1, at, class);
            }
        } else {
            let class = class_at(bytes, pos);
            lemma_uniform_split(bytes, pos, at, end, class);
            lemma_uniform_walk(bytes, pos, at, class);
        },
    }
}

/// A piece holds the whole of its first code point.
pub proof fn lemma_first_whole(bytes: Seq<u8>, pos: int)
    requires
        0 <= pos < bytes.len() <= pattern::MANY,
    ensures
        pos < utf8::next_pos(bytes, pos) <= pattern::piece_end(schemes::gpt2_alts(), bytes, pos),
{
    law_gpt2_piece(bytes, pos);
    utf8::lemma_cp(bytes, pos);
}

} // verus!
