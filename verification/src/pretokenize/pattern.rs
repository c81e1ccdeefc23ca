//! Alternations of greedy character-set repetitions over byte strings, matched
//! leftmost-first with backtracking.
//!
//! This is the fragment of regular expressions that the pretokenizers are
//! stated in: an alternative is a sequence of items, each a character set with
//! a repetition range, optionally followed by the lookahead `(?!\S)`. Text is
//! read code point by code point as [`crate::utf8`] defines it.

use super::unicode::category;
use super::unicode::classes;
use super::unicode::classes::{CharClass, O200kCharClass};
use crate::utf8;
use vstd::prelude::*;

verus! {

/// Repetition without an upper bound: no text is longer.
pub const MANY: usize = usize::MAX;

/// A set of characters.
#[derive(Clone, Copy, Debug, PartialEq, Eq, Structural)]
pub enum CharSet {
    /// One character.
    Literal(u32),
    /// `[sdmt]`.
    ContractionSuffix,
    /// `\p{L}`.
    Letter,
    /// `\p{N}`.
    Number,
    /// `\s`.
    White,
    /// `[^\s\p{L}\p{N}]`.
    Other,
    /// `[\r\n]`.
    Newline,
    /// `[\r\n/]`.
    NewlineOrSlash,
    /// `[^\r\n\p{L}\p{N}]`.
    NoNewlineLetterNumber,
    /// `[\p{Lu}\p{Lt}\p{Lm}\p{Lo}\p{M}]`.
    UpperRun,
    /// `[\p{Ll}\p{Lm}\p{Lo}\p{M}]`.
    LowerRun,
}

/// Whether a code point is in a set.
pub open spec fn in_set(set: CharSet, cp: u32) -> bool {
    match set {
        CharSet::Literal(c) => cp == c,
        CharSet::ContractionSuffix => cp == 's' || cp == 'd' || cp == 'm' || cp == 't',
        CharSet::Letter => classes::char_class(cp) == CharClass::Letter,
        CharSet::Number => classes::char_class(cp) == CharClass::Number,
        CharSet::White => classes::char_class(cp) == CharClass::Whitespace,
        CharSet::Other => classes::char_class(cp) == CharClass::Other,
        CharSet::Newline => cp == '\r' || cp == '\n',
        CharSet::NewlineOrSlash => cp == '\r' || cp == '\n' || cp == '/',
        CharSet::NoNewlineLetterNumber => cp != '\r' && cp != '\n' && classes::char_class(cp)
            != CharClass::Letter && classes::char_class(cp) != CharClass::Number,
        CharSet::UpperRun => classes::o200k_char_class(cp) == O200kCharClass::Upper
            || classes::o200k_char_class(cp) == O200kCharClass::Caseless
            || classes::o200k_char_class(cp) == O200kCharClass::Mark,
        CharSet::LowerRun => classes::o200k_char_class(cp) == O200kCharClass::Lower
            || classes::o200k_char_class(cp) == O200kCharClass::Caseless
            || classes::o200k_char_class(cp) == O200kCharClass::Mark,
    }
}

/// A character set repeated between `min` and `max` times, as often as
/// possible.
#[derive(Clone, Copy, Debug, PartialEq, Eq, Structural)]
pub struct Item {
    pub set: CharSet,
    pub min: usize,
    pub max: usize,
}

/// A sequence of items; with `lookahead`, the match must not be followed by a
/// non-white character.
pub struct Alt {
    pub items: Seq<Item>,
    pub lookahead: bool,
}

/// The offset `n` code points after `pos`.
pub open spec fn after(bytes: Seq<u8>, pos: int, n: nat) -> int
    decreases n,
{
    if n == 0 {
        pos
    } else {
        after(bytes, utf8::next_pos(bytes, pos), (n - 1) as nat)
    }
}

/// How many code points from `pos` on are in `set`, counting up to `max`.
pub open spec fn run_len(set: CharSet, bytes: Seq<u8>, pos: int, max: nat) -> nat
    decreases max,
{
    if max > 0 && 0 <= pos < bytes.len() && in_set(set, utf8::cp_at(bytes, pos)) {
        1 + run_len(set, bytes, utf8::next_pos(bytes, pos), (max - 1) as nat)
    } else {
        0
    }
}

/// `(?!\S)`: the end of the text, or white space.
pub open spec fn no_nonspace(bytes: Seq<u8>, pos: int) -> bool {
    pos >= bytes.len() || in_set(CharSet::White, utf8::cp_at(bytes, pos))
}

/// Where items `k` onwards match from `pos`: the first success when item `k` is
/// repeated as often as possible, then once less, and so on.
pub open spec fn match_items(alt: Alt, k: nat, bytes: Seq<u8>, pos: int) -> Option<int>
    decreases alt.items.len() - k, 1nat, 0nat,
{
    if k >= alt.items.len() {
        if !alt.lookahead || no_nonspace(bytes, pos) {
            Some(pos)
        } else {
            None
        }
    } else {
        let item = alt.items[k as int];
        back_off(alt, k, bytes, pos, run_len(item.set, bytes, pos, item.max as nat))
    }
}

/// Where the rest matches when item `k` is repeated at most `n` times from
/// `pos`.
pub open spec fn back_off(alt: Alt, k: nat, bytes: Seq<u8>, pos: int, n: nat) -> Option<int>
    decreases alt.items.len() - k, 0nat, n,
    when k < alt.items.len()
{
    if n < alt.items[k as int].min {
        None
    } else {
        match match_items(alt, k + 1, bytes, after(bytes, pos, n)) {
            Some(end) => Some(end),
            None => if n == 0 {
                None
            } else {
                back_off(alt, k, bytes, pos, (n - 1) as nat)
            },
        }
    }
}

/// Where the first matching alternative, from the `i`th on, ends.
pub open spec fn first_match_from(pattern: Seq<Alt>, i: nat, bytes: Seq<u8>, pos: int) -> Option<
    int,
>
    decreases pattern.len() - i,
{
    if i >= pattern.len() {
        None
    } else {
        match match_items(pattern[i as int], 0, bytes, pos) {
            Some(end) => Some(end),
            None => first_match_from(pattern, i + 1, bytes, pos),
        }
    }
}

/// Where a match of the pattern at `pos` ends, if there is one.
pub open spec fn first_match(pattern: Seq<Alt>, bytes: Seq<u8>, pos: int) -> Option<int> {
    first_match_from(pattern, 0, bytes, pos)
}

/// The first offset at or after `pos` where the pattern matches, or the end of
/// the text.
pub open spec fn gap_end(pattern: Seq<Alt>, bytes: Seq<u8>, pos: int) -> int
    decreases bytes.len() - pos,
{
    if pos < 0 || pos >= bytes.len() {
        bytes.len() as int
    } else if first_match(pattern, bytes, pos) is Some {
        pos
    } else {
        proof {
            utf8::lemma_cp(bytes, pos);
        }
        gap_end(pattern, bytes, utf8::next_pos(bytes, pos))
    }
}

/// The end of the piece that starts at `pos`: a match, or the text up to the
/// next one.
pub open spec fn piece_end(pattern: Seq<Alt>, bytes: Seq<u8>, pos: int) -> int {
    match first_match(pattern, bytes, pos) {
        Some(end) => end,
        None => gap_end(pattern, bytes, utf8::next_pos(bytes, pos)),
    }
}

/// An alternative that cannot match the empty text.
pub open spec fn productive(alt: Alt) -> bool {
    exists|i: int| 0 <= i < alt.items.len() && (#[trigger] alt.items[i]).min >= 1
}

/// A pattern that cannot match the empty text.
pub open spec fn productive_pattern(pattern: Seq<Alt>) -> bool {
    forall|i: int| 0 <= i < pattern.len() ==> productive(#[trigger] pattern[i])
}

/// The offsets of a run stay within the text, and move forward.
pub proof fn lemma_run(set: CharSet, bytes: Seq<u8>, pos: int, max: nat, n: nat)
    requires
        0 <= pos <= bytes.len(),
        n <= run_len(set, bytes, pos, max),
    ensures
        run_len(set, bytes, pos, max) <= max,
        run_len(set, bytes, pos, max) <= bytes.len() - pos,
        pos + n <= after(bytes, pos, n) <= bytes.len(),
        n < run_len(set, bytes, pos, max) ==> after(bytes, pos, n) < bytes.len() && in_set(
            set,
            utf8::cp_at(bytes, after(bytes, pos, n)),
        ),
        n == run_len(set, bytes, pos, max) && n < max && after(bytes, pos, n) < bytes.len()
            ==> !in_set(set, utf8::cp_at(bytes, after(bytes, pos, n))),
    decreases max,
{
    if max > 0 && 0 <= pos < bytes.len() && in_set(set, utf8::cp_at(bytes, pos)) {
        utf8::lemma_cp(bytes, pos);
        let next = utf8::next_pos(bytes, pos);
        if n > 0 {
            lemma_run(set, bytes, next, (max - 1) as nat, (n - 1) as nat);
        } else {
            lemma_run(set, bytes, next, (max - 1) as nat, 0);
        }
    }
}

/// Stepping once more.
pub proof fn lemma_after_step(bytes: Seq<u8>, pos: int, n: nat)
    ensures
        after(bytes, pos, n + 1) == utf8::next_pos(bytes, after(bytes, pos, n)),
    decreases n,
{
    reveal_with_fuel(after, 2);
    if n > 0 {
        lemma_after_step(bytes, utf8::next_pos(bytes, pos), (n - 1) as nat);
    }
}

/// A run of `n` members makes the run at least `n` long, and one that stops
/// makes it exactly `n` long.
pub proof fn lemma_run_is(set: CharSet, bytes: Seq<u8>, pos: int, max: nat, n: nat)
    requires
        0 <= pos <= bytes.len(),
        n <= max,
        forall|i: nat|
            i < n ==> 0 <= #[trigger] after(bytes, pos, i) < bytes.len() && in_set(
                set,
                utf8::cp_at(bytes, after(bytes, pos, i)),
            ),
    ensures
        run_len(set, bytes, pos, max) >= n,
        n == max || after(bytes, pos, n) >= bytes.len() || !in_set(
            set,
            utf8::cp_at(bytes, after(bytes, pos, n)),
        ) ==> run_len(set, bytes, pos, max) == n,
    decreases n,
{
    if n > 0 {
        assert(after(bytes, pos, 0) == pos);
        utf8::lemma_cp(bytes, pos);
        let next = utf8::next_pos(bytes, pos);
        assert forall|i: nat| i < n - 1 implies 0 <= #[trigger] after(bytes, next, i) < bytes.len()
            && in_set(set, utf8::cp_at(bytes, after(bytes, next, i))) by {
            assert(after(bytes, pos, i + 1) == after(bytes, next, i));
        }
        lemma_run_is(set, bytes, next, (max - 1) as nat, (n - 1) as nat);
    }
}

/// A match ends within the text, not before it starts, and past it when an item
/// that must be present is still to come.
pub proof fn lemma_match_bounds(alt: Alt, k: nat, bytes: Seq<u8>, pos: int)
    requires
        0 <= pos <= bytes.len(),
        k <= alt.items.len(),
    ensures
        match_items(alt, k, bytes, pos) matches Some(end) ==> {
            &&& pos <= end <= bytes.len()
            &&& (exists|i: int| k <= i < alt.items.len() && (#[trigger] alt.items[i]).min >= 1)
                ==> pos < end
        },
    decreases alt.items.len() - k, 1nat, 0nat,
{
    if k < alt.items.len() {
        let item = alt.items[k as int];
        lemma_back_off_bounds(
            alt,
            k,
            bytes,
            pos,
            run_len(item.set, bytes, pos, item.max as nat),
        );
    }
}

proof fn lemma_back_off_bounds(alt: Alt, k: nat, bytes: Seq<u8>, pos: int, n: nat)
    requires
        0 <= pos <= bytes.len(),
        k < alt.items.len(),
        n <= run_len(alt.items[k as int].set, bytes, pos, alt.items[k as int].max as nat),
    ensures
        back_off(alt, k, bytes, pos, n) matches Some(end) ==> {
            &&& pos <= end <= bytes.len()
            &&& (exists|i: int| k <= i < alt.items.len() && (#[trigger] alt.items[i]).min >= 1)
                ==> pos < end
        },
    decreases alt.items.len() - k, 0nat, n,
{
    let item = alt.items[k as int];
    lemma_run(item.set, bytes, pos, item.max as nat, n);
    if n >= item.min {
        lemma_match_bounds(alt, k + 1, bytes, after(bytes, pos, n));
        if n > 0 {
            lemma_back_off_bounds(alt, k, bytes, pos, (n - 1) as nat);
        }
        if exists|i: int| k <= i < alt.items.len() && (#[trigger] alt.items[i]).min >= 1 {
            let i = choose|i: int| k <= i < alt.items.len() && (#[trigger] alt.items[i]).min >= 1;
            if i > k {
                assert(k + 1 <= i < alt.items.len() && alt.items[i].min >= 1);
            }
        }
    }
}

/// Backing off finds a match whenever some repetition count leads to one.
pub proof fn lemma_back_off_finds(alt: Alt, k: nat, bytes: Seq<u8>, pos: int, n: nat, c: nat)
    requires
        k < alt.items.len(),
        alt.items[k as int].min <= c <= n,
        match_items(alt, k + 1, bytes, after(bytes, pos, c)) is Some,
    ensures
        back_off(alt, k, bytes, pos, n) is Some,
    decreases n,
{
    if c < n {
        lemma_back_off_finds(alt, k, bytes, pos, (n - 1) as nat, c);
    }
}

/// A match of a pattern ends within the text and past its start.
pub proof fn lemma_first_match_bounds(pattern: Seq<Alt>, i: nat, bytes: Seq<u8>, pos: int)
    requires
        0 <= pos <= bytes.len(),
        productive_pattern(pattern),
    ensures
        first_match_from(pattern, i, bytes, pos) matches Some(end) ==> pos < end <= bytes.len(),
    decreases pattern.len() - i,
{
    if i < pattern.len() {
        lemma_match_bounds(pattern[i as int], 0, bytes, pos);
        assert(productive(pattern[i as int]));
        lemma_first_match_bounds(pattern, i + 1, bytes, pos);
    }
}

/// A gap ends within the text, at or after where it is looked for.
pub proof fn lemma_gap_bounds(pattern: Seq<Alt>, bytes: Seq<u8>, pos: int)
    requires
        0 <= pos <= bytes.len(),
    ensures
        pos <= gap_end(pattern, bytes, pos) <= bytes.len(),
    decreases bytes.len() - pos,
{
    if pos < bytes.len() {
        utf8::lemma_cp(bytes, pos);
        lemma_gap_bounds(pattern, bytes, utf8::next_pos(bytes, pos));
    }
}

/// Every piece is nonempty and ends within the text: a pattern that cannot
/// match the empty text cuts any text into pieces that tile it.
pub proof fn law_piece_bounds(pattern: Seq<Alt>, bytes: Seq<u8>, pos: int)
    requires
        productive_pattern(pattern),
        0 <= pos < bytes.len(),
    ensures
        pos < piece_end(pattern, bytes, pos) <= bytes.len(),
{
    lemma_first_match_bounds(pattern, 0, bytes, pos);
    utf8::lemma_cp(bytes, pos);
    lemma_gap_bounds(pattern, bytes, utf8::next_pos(bytes, pos));
}

/// Is the code point in the set?
pub fn set_contains(set: CharSet, cp: u32) -> (res: bool)
    requires
        cp < category::CODE_POINTS,
    ensures
        res == in_set(set, cp),
{
    match set {
        CharSet::Literal(c) => cp == c,
        CharSet::ContractionSuffix => cp == 0x73 || cp == 0x64 || cp == 0x6D || cp == 0x74,
        CharSet::Letter => matches!(classes::class_of(cp), CharClass::Letter),
        CharSet::Number => matches!(classes::class_of(cp), CharClass::Number),
        CharSet::White => matches!(classes::class_of(cp), CharClass::Whitespace),
        CharSet::Other => matches!(classes::class_of(cp), CharClass::Other),
        CharSet::Newline => cp == 0x0D || cp == 0x0A,
        CharSet::NewlineOrSlash => cp == 0x0D || cp == 0x0A || cp == 0x2F,
        CharSet::NoNewlineLetterNumber => cp != 0x0D && cp != 0x0A && matches!(
            classes::class_of(cp),
            CharClass::Whitespace | CharClass::Other
        ),
        CharSet::UpperRun => matches!(
            classes::o200k_class_of(cp),
            O200kCharClass::Upper | O200kCharClass::Caseless | O200kCharClass::Mark
        ),
        CharSet::LowerRun => matches!(
            classes::o200k_class_of(cp),
            O200kCharClass::Lower | O200kCharClass::Caseless | O200kCharClass::Mark
        ),
    }
}

/// An alternative, as data.
#[derive(Debug)]
pub struct Alternative {
    pub items: Vec<Item>,
    pub lookahead: bool,
}

impl View for Alternative {
    type V = Alt;

    open spec fn view(&self) -> Alt {
        Alt { items: self.items@, lookahead: self.lookahead }
    }
}

/// The alternatives of a pattern as the mathematical pattern.
pub open spec fn alts(pattern: Seq<Alternative>) -> Seq<Alt> {
    Seq::new(pattern.len(), |i: int| pattern[i]@)
}

/// The offsets after 0, 1, ... repetitions of a set, up to the longest run.
fn run_offsets(set: CharSet, max: usize, bytes: &[u8], pos: usize) -> (offsets: Vec<usize>)
    requires
        pos <= bytes@.len(),
    ensures
        offsets@.len() == run_len(set, bytes@, pos as int, max as nat) + 1,
        forall|i: int|
            0 <= i < offsets@.len() ==> #[trigger] offsets@[i] == after(
                bytes@,
                pos as int,
                i as nat,
            ) && offsets@[i] <= bytes@.len(),
{
    let mut offsets: Vec<usize> = Vec::new();
    offsets.push(pos);
    let mut p: usize = pos;
    let mut n: usize = 0;
    while n < max && p < bytes.len()
        invariant_except_break
            pos <= bytes@.len(),
            n <= max,
            pos + n <= p <= bytes@.len(),
            p == after(bytes@, pos as int, n as nat),
            offsets@.len() == n + 1,
            forall|i: int|
                0 <= i < offsets@.len() ==> #[trigger] offsets@[i] == after(
                    bytes@,
                    pos as int,
                    i as nat,
                ) && offsets@[i] <= bytes@.len(),
            forall|i: nat|
                i < n ==> 0 <= #[trigger] after(bytes@, pos as int, i) < bytes@.len() && in_set(
                    set,
                    utf8::cp_at(bytes@, after(bytes@, pos as int, i)),
                ),
        ensures
            pos <= bytes@.len(),
            n <= max,
            offsets@.len() == n + 1,
            forall|i: int|
                0 <= i < offsets@.len() ==> #[trigger] offsets@[i] == after(
                    bytes@,
                    pos as int,
                    i as nat,
                ) && offsets@[i] <= bytes@.len(),
            forall|i: nat|
                i < n ==> 0 <= #[trigger] after(bytes@, pos as int, i) < bytes@.len() && in_set(
                    set,
                    utf8::cp_at(bytes@, after(bytes@, pos as int, i)),
                ),
            n == max || after(bytes@, pos as int, n as nat) >= bytes@.len() || !in_set(
                set,
                utf8::cp_at(bytes@, after(bytes@, pos as int, n as nat)),
            ),
        decreases bytes@.len() - p,
    {
        proof {
            utf8::lemma_cp(bytes@, p as int);
            lemma_after_step(bytes@, pos as int, n as nat);
        }
        let (cp, len) = utf8::decode_cp(bytes, p);
        if !set_contains(set, cp) {
            break;
        }
        p += len;
        n += 1;
        offsets.push(p);
    }
    proof {
        lemma_run_is(set, bytes@, pos as int, max as nat, n as nat);
    }
    offsets
}

/// The end of the longest run of a set from `pos` on, counting up to `max`.
pub fn scan_run(set: CharSet, max: usize, bytes: &[u8], pos: usize) -> (end: usize)
    requires
        pos <= bytes@.len(),
    ensures
        end == after(bytes@, pos as int, run_len(set, bytes@, pos as int, max as nat)),
        pos <= end <= bytes@.len(),
        end == pos <==> run_len(set, bytes@, pos as int, max as nat) == 0,
{
    let mut p: usize = pos;
    let mut n: usize = 0;
    while n < max && p < bytes.len()
        invariant_except_break
            pos <= bytes@.len(),
            n <= max,
            pos + n <= p <= bytes@.len(),
            p == after(bytes@, pos as int, n as nat),
            forall|i: nat|
                i < n ==> 0 <= #[trigger] after(bytes@, pos as int, i) < bytes@.len() && in_set(
                    set,
                    utf8::cp_at(bytes@, after(bytes@, pos as int, i)),
                ),
        ensures
            n <= max,
            pos + n <= p <= bytes@.len(),
            p == after(bytes@, pos as int, n as nat),
            forall|i: nat|
                i < n ==> 0 <= #[trigger] after(bytes@, pos as int, i) < bytes@.len() && in_set(
                    set,
                    utf8::cp_at(bytes@, after(bytes@, pos as int, i)),
                ),
            n == max || p >= bytes@.len() || !in_set(set, utf8::cp_at(bytes@, p as int)),
        decreases bytes@.len() - p,
    {
        proof {
            lemma_after_step(bytes@, pos as int, n as nat);
        }
        let (cp, len) = utf8::decode_cp(bytes, p);
        if !set_contains(set, cp) {
            break;
        }
        p += len;
        n += 1;
    }
    proof {
        lemma_run_is(set, bytes@, pos as int, max as nat, n as nat);
    }
    p
}

/// Matches items `k` onwards of an alternative at `pos`.
pub fn match_alternative(alt: &Alternative, k: usize, bytes: &[u8], pos: usize) -> (res: Option<
    usize,
>)
    requires
        k <= alt.items@.len(),
        pos <= bytes@.len(),
    ensures
        match res {
            Some(end) => match_items(alt@, k as nat, bytes@, pos as int) == Some(end as int),
            None => match_items(alt@, k as nat, bytes@, pos as int) is None,
        },
    decreases alt.items@.len() - k,
{
    if k == alt.items.len() {
        if !alt.lookahead || pos == bytes.len() {
            return Some(pos);
        }
        proof {
            utf8::lemma_cp(bytes@, pos as int);
        }
        let (cp, _) = utf8::decode_cp(bytes, pos);
        return if set_contains(CharSet::White, cp) {
            Some(pos)
        } else {
            None
        };
    }
    let item = alt.items[k];
    let offsets = run_offsets(item.set, item.max, bytes, pos);
    let mut n: usize = offsets.len() - 1;
    loop
        invariant
            k < alt.items.len(),
            item == alt.items@[k as int],
            pos <= bytes@.len(),
            n < offsets@.len(),
            forall|i: int|
                0 <= i < offsets@.len() ==> #[trigger] offsets@[i] == after(
                    bytes@,
                    pos as int,
                    i as nat,
                ) && offsets@[i] <= bytes@.len(),
            match_items(alt@, k as nat, bytes@, pos as int) == back_off(
                alt@,
                k as nat,
                bytes@,
                pos as int,
                n as nat,
            ),
        decreases n,
    {
        if n < item.min {
            return None;
        }
        assert(offsets@[n as int] == after(bytes@, pos as int, n as nat));
        let rest = match_alternative(alt, k + 1, bytes, offsets[n]);
        if rest.is_some() {
            return rest;
        }
        if n == 0 {
            return None;
        }
        n -= 1;
    }
}

/// Matches a pattern at `pos`: the end of the first alternative that matches.
pub fn match_pattern(pattern: &Vec<Alternative>, bytes: &[u8], pos: usize) -> (res: Option<usize>)
    requires
        pos <= bytes@.len(),
    ensures
        match res {
            Some(end) => first_match(alts(pattern@), bytes@, pos as int) == Some(end as int),
            None => first_match(alts(pattern@), bytes@, pos as int) is None,
        },
{
    let mut i: usize = 0;
    while i < pattern.len()
        invariant
            i <= pattern@.len(),
            pos <= bytes@.len(),
            first_match(alts(pattern@), bytes@, pos as int) == first_match_from(
                alts(pattern@),
                i as nat,
                bytes@,
                pos as int,
            ),
        decreases pattern@.len() - i,
    {
        let found = match_alternative(&pattern[i], 0, bytes, pos);
        if found.is_some() {
            return found;
        }
        i += 1;
    }
    None
}

/// The end of the piece that starts at `pos`.
pub fn advance(pattern: &Vec<Alternative>, bytes: &[u8], pos: usize) -> (end: usize)
    requires
        productive_pattern(alts(pattern@)),
        pos < bytes@.len(),
    ensures
        end == piece_end(alts(pattern@), bytes@, pos as int),
        pos < end <= bytes@.len(),
{
    proof {
        law_piece_bounds(alts(pattern@), bytes@, pos as int);
        utf8::lemma_cp(bytes@, pos as int);
    }
    match match_pattern(pattern, bytes, pos) {
        Some(end) => end,
        None => {
            let (_, len) = utf8::decode_cp(bytes, pos);
            let mut p: usize = pos + len;
            while p < bytes.len()
                invariant
                    pos < p <= bytes@.len(),
                    piece_end(alts(pattern@), bytes@, pos as int) == gap_end(
                        alts(pattern@),
                        bytes@,
                        p as int,
                    ),
                decreases bytes@.len() - p,
            {
                if match_pattern(pattern, bytes, p).is_some() {
                    return p;
                }
                proof {
                    utf8::lemma_cp(bytes@, p as int);
                }
                let (_, step) = utf8::decode_cp(bytes, p);
                p += step;
            }
            p
        },
    }
}

} // verus!
