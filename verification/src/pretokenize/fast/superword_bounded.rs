//! The bounded superword scheme:
//! `\p{N}{1,3}| ?[^\s\p{L}\p{N}]{2,}[\r\n/]*| +(?!\S)`
//!
//! Only what bounds a runaway token is split off: digits three at a time,
//! punctuation runs of two or more, and trailing spaces. Letters and lone
//! punctuation stay in the gaps, which are pieces of their own, so a superword
//! may span white space.

use crate::pretokenize::pattern;
use crate::pretokenize::pattern::CharSet;
use crate::pretokenize::schemes;
use crate::pretokenize::unicode::category;
use crate::pretokenize::unicode::classes;
use crate::pretokenize::unicode::classes::CharClass;
use crate::pretokenize::walker;
use crate::pretokenize::walker::{Pretoken, SpanBatch, SpanWalker, Step};
use crate::utf8;
use vstd::prelude::*;

verus! {

/// The pieces of the pattern, gaps included.
pub open spec fn bounded_step(bytes: Seq<u8>) -> Step {
    |pos: int|
        if pos >= bytes.len() {
            None
        } else {
            Some((pos, pattern::piece_end(schemes::bounded_alts(), bytes, pos)))
        }
}

/// The number of consecutive members of a set.
spec fn run(set: CharSet, bytes: Seq<u8>, pos: int) -> nat {
    pattern::run_len(set, bytes, pos, pattern::MANY as nat)
}

/// The end of the longest run of a set.
spec fn run_to(set: CharSet, bytes: Seq<u8>, pos: int) -> int {
    pattern::after(bytes, pos, run(set, bytes, pos))
}

/// Where `[^\s\p{L}\p{N}]{2,}[\r\n/]*` from `pos` ends.
spec fn punct_end(bytes: Seq<u8>, pos: int) -> Option<int> {
    if run(CharSet::Other, bytes, pos) < 2 {
        None
    } else {
        Some(run_to(CharSet::NewlineOrSlash, bytes, run_to(CharSet::Other, bytes, pos)))
    }
}

/// Where ` +(?!\S)` from `pos` ends: the whole run of spaces where no
/// non-white character follows, else all of it but the last space.
spec fn spaces_end(bytes: Seq<u8>, pos: int) -> Option<int> {
    let n = run(schemes::space(), bytes, pos);
    if n == 0 {
        None
    } else if pattern::no_nonspace(bytes, pattern::after(bytes, pos, n)) {
        Some(pattern::after(bytes, pos, n))
    } else if n == 1 {
        None
    } else {
        Some(pattern::after(bytes, pos, (n - 1) as nat))
    }
}

/// The alternative that matches at `pos`, decided by the character there.
spec fn match_end(bytes: Seq<u8>, pos: int) -> Option<int> {
    let cp = utf8::cp_at(bytes, pos);
    match classes::char_class(cp) {
        CharClass::Number => Some(
            pattern::after(bytes, pos, pattern::run_len(CharSet::Number, bytes, pos, 3)),
        ),
        CharClass::Other => punct_end(bytes, pos),
        CharClass::Whitespace => if cp == 0x20 {
            match punct_end(bytes, utf8::next_pos(bytes, pos)) {
                Some(end) => Some(end),
                None => spaces_end(bytes, pos),
            }
        } else {
            None
        },
        CharClass::Letter => None,
    }
}

/// From the punctuation item on, the second alternative never backs off.
proof fn lemma_punct(bytes: Seq<u8>, pos: int)
    requires
        0 <= pos <= bytes.len(),
    ensures
        pattern::match_items(schemes::bounded_alts()[1], 1, bytes, pos) == punct_end(bytes, pos),
{
    let a = schemes::bounded_alts()[1];
    let n = run(CharSet::Other, bytes, pos);
    let p = pattern::after(bytes, pos, n);
    let m = run(CharSet::NewlineOrSlash, bytes, p);
    assert(pattern::match_items(a, 3, bytes, pattern::after(bytes, p, m)) == Some(
        pattern::after(bytes, p, m),
    ));
    assert(pattern::match_items(a, 2, bytes, p) == pattern::back_off(a, 2, bytes, p, m));
    assert(pattern::match_items(a, 1, bytes, pos) == pattern::back_off(a, 1, bytes, pos, n));
}

/// The third alternative gives back at most one space: the character before
/// the one it would stop at is then a space.
proof fn lemma_spaces(bytes: Seq<u8>, pos: int)
    requires
        0 <= pos <= bytes.len(),
    ensures
        pattern::match_items(schemes::bounded_alts()[2], 0, bytes, pos) == spaces_end(bytes, pos),
{
    let a = schemes::bounded_alts()[2];
    let n = run(schemes::space(), bytes, pos);
    pattern::lemma_run(schemes::space(), bytes, pos, pattern::MANY as nat, n);
    assert(pattern::match_items(a, 0, bytes, pos) == pattern::back_off(a, 0, bytes, pos, n));
    assert(pattern::match_items(a, 1, bytes, pattern::after(bytes, pos, n)) == (
    if pattern::no_nonspace(bytes, pattern::after(bytes, pos, n)) {
        Some(pattern::after(bytes, pos, n))
    } else {
        None
    }));
    if n >= 1 {
        let less = (n - 1) as nat;
        pattern::lemma_run(schemes::space(), bytes, pos, pattern::MANY as nat, less);
        assert(pattern::no_nonspace(bytes, pattern::after(bytes, pos, less)));
        assert(pattern::match_items(a, 1, bytes, pattern::after(bytes, pos, less)) == Some(
            pattern::after(bytes, pos, less),
        ));
        assert(pattern::back_off(a, 0, bytes, pos, less) == (if less == 0 {
            None
        } else {
            Some(pattern::after(bytes, pos, less))
        }));
    }
}

/// What the pattern matches is decided by the character at `pos`.
proof fn lemma_match(bytes: Seq<u8>, pos: int)
    requires
        0 <= pos < bytes.len(),
    ensures
        pattern::first_match(schemes::bounded_alts(), bytes, pos) == match_end(bytes, pos),
{
    reveal_with_fuel(pattern::first_match_from, 4);
    reveal_with_fuel(pattern::after, 2);
    utf8::lemma_cp(bytes, pos);
    let cp = utf8::cp_at(bytes, pos);
    let alts = schemes::bounded_alts();
    let next = utf8::next_pos(bytes, pos);
    // Digits.
    let n = pattern::run_len(CharSet::Number, bytes, pos, 3);
    assert(pattern::match_items(alts[0], 0, bytes, pos) == pattern::back_off(
        alts[0],
        0,
        bytes,
        pos,
        n,
    ));
    assert(pattern::match_items(alts[0], 1, bytes, pattern::after(bytes, pos, n)) == Some(
        pattern::after(bytes, pos, n),
    ));
    // Punctuation, with or without a leading space.
    let s = pattern::run_len(schemes::space(), bytes, pos, 1);
    assert(s == if cp == 0x20 {
        1nat
    } else {
        0nat
    }) by {
        reveal_with_fuel(pattern::run_len, 2);
    }
    lemma_punct(bytes, pos);
    lemma_punct(bytes, next);
    assert(pattern::after(bytes, pos, 0) == pos);
    assert(pattern::after(bytes, pos, 1) == next);
    assert(pattern::match_items(alts[1], 0, bytes, pos) == pattern::back_off(
        alts[1],
        0,
        bytes,
        pos,
        s,
    ));
    assert(pattern::back_off(alts[1], 0, bytes, pos, 0) == punct_end(bytes, pos));
    // Spaces.
    lemma_spaces(bytes, pos);
}

/// Decodes the character at `pos`, ASCII without a call.
fn cp_at(bytes: &[u8], pos: usize) -> (res: (u32, usize))
    requires
        pos < bytes@.len(),
    ensures
        res.0 == utf8::cp_at(bytes@, pos as int),
        res.1 == utf8::cp_len(bytes@, pos as int),
        res.0 < category::CODE_POINTS,
        pos + res.1 == utf8::next_pos(bytes@, pos as int) <= bytes@.len() <= usize::MAX,
{
    proof {
        utf8::lemma_cp(bytes@, pos as int);
    }
    let b: u8 = bytes[pos];
    if b < 0x80 {
        assert(bytes.len() <= usize::MAX);
        (b as u32, 1)
    } else {
        utf8::decode_cp(bytes, pos)
    }
}

/// `[\r\n/]*` from `pos` on. All three bytes are ASCII, so a bytewise loop
/// cannot stop inside a character.
fn scan_nl_slash(bytes: &[u8], pos: usize) -> (end: usize)
    requires
        pos <= bytes@.len(),
    ensures
        end == run_to(CharSet::NewlineOrSlash, bytes@, pos as int),
        pos <= end <= bytes@.len(),
{
    let mut p: usize = pos;
    while p < bytes.len()
        invariant_except_break
            pos <= p <= bytes@.len(),
            p == pattern::after(bytes@, pos as int, (p - pos) as nat),
            forall|i: nat|
                i < p - pos ==> 0 <= #[trigger] pattern::after(bytes@, pos as int, i)
                    < bytes@.len() && pattern::in_set(
                    CharSet::NewlineOrSlash,
                    utf8::cp_at(bytes@, pattern::after(bytes@, pos as int, i)),
                ),
        ensures
            pos <= p <= bytes.len(),
            p == pattern::after(bytes@, pos as int, (p - pos) as nat),
            forall|i: nat|
                i < p - pos ==> 0 <= #[trigger] pattern::after(bytes@, pos as int, i)
                    < bytes@.len() && pattern::in_set(
                    CharSet::NewlineOrSlash,
                    utf8::cp_at(bytes@, pattern::after(bytes@, pos as int, i)),
                ),
            p == bytes@.len() || !pattern::in_set(
                CharSet::NewlineOrSlash,
                utf8::cp_at(bytes@, p as int),
            ),
        decreases bytes@.len() - p,
    {
        proof {
            utf8::lemma_cp(bytes@, p as int);
            pattern::lemma_after_step(bytes@, pos as int, (p - pos) as nat);
        }
        let b: u8 = bytes[p];
        if b != 0x0D && b != 0x0A && b != 0x2F {
            break;
        }
        p += 1;
    }
    proof {
        pattern::lemma_run_is(
            CharSet::NewlineOrSlash,
            bytes@,
            pos as int,
            pattern::MANY as nat,
            (p - pos) as nat,
        );
    }
    p
}

/// If the character at `pos` is `[^\s\p{L}\p{N}]`, the offset just past it.
fn other_end_at(bytes: &[u8], pos: usize) -> (res: Option<usize>)
    requires
        pos <= bytes@.len(),
    ensures
        match res {
            Some(end) => {
                &&& pos < bytes@.len()
                &&& classes::char_class(utf8::cp_at(bytes@, pos as int)) == CharClass::Other
                &&& end == utf8::next_pos(bytes@, pos as int)
                &&& pos < end <= bytes@.len()
            },
            None => pos == bytes@.len() || classes::char_class(utf8::cp_at(bytes@, pos as int))
                != CharClass::Other,
        },
{
    if pos >= bytes.len() {
        return None;
    }
    proof {
        utf8::lemma_cp(bytes@, pos as int);
    }
    let (cp, l) = cp_at(bytes, pos);
    if matches!(classes::class_of(cp), CharClass::Other) {
        Some(pos + l)
    } else {
        None
    }
}

/// `[^\s\p{L}\p{N}]{2,}[\r\n/]*` from `start` on. A single punctuation
/// character matches nothing and stays in its gap.
fn punct_run_end(bytes: &[u8], start: usize) -> (res: Option<usize>)
    requires
        start <= bytes@.len(),
    ensures
        match res {
            Some(end) => punct_end(bytes@, start as int) == Some(end as int) && start < end
                <= bytes@.len(),
            None => punct_end(bytes@, start as int) is None,
        },
{
    match other_end_at(bytes, start) {
        None => None,
        Some(first) => {
            let ghost rest = pattern::run_len(
                CharSet::Other,
                bytes@,
                first as int,
                (pattern::MANY - 1) as nat,
            );
            proof {
                let full = run(CharSet::Other, bytes@, start as int);
                assert(full == 1 + rest);
                assert(pattern::after(bytes@, start as int, full) == pattern::after(
                    bytes@,
                    first as int,
                    rest,
                ));
            }
            let last: usize = pattern::scan_run(
                CharSet::Other,
                pattern::MANY - 1,
                bytes,
                first,
            );
            if last == first {
                return None;
            }
            Some(scan_nl_slash(bytes, last))
        },
    }
}

/// ` +(?!\S)` from `pos` on, where a space stands.
fn space_run_end(bytes: &[u8], pos: usize) -> (res: Option<usize>)
    requires
        pos < bytes@.len(),
        bytes@[pos as int] == 0x20,
    ensures
        match res {
            Some(end) => spaces_end(bytes@, pos as int) == Some(end as int) && pos < end
                <= bytes@.len(),
            None => spaces_end(bytes@, pos as int) is None,
        },
{
    let mut end: usize = pos;
    while end < bytes.len()
        invariant_except_break
            pos <= end <= bytes@.len(),
            end == pattern::after(bytes@, pos as int, (end - pos) as nat),
            forall|i: nat|
                i <= end - pos ==> #[trigger] pattern::after(bytes@, pos as int, i) == pos + i,
            forall|i: nat|
                i < end - pos ==> 0 <= #[trigger] pattern::after(bytes@, pos as int, i)
                    < bytes@.len() && pattern::in_set(
                    schemes::space(),
                    utf8::cp_at(bytes@, pattern::after(bytes@, pos as int, i)),
                ),
        ensures
            pos <= end <= bytes.len(),
            end == pattern::after(bytes@, pos as int, (end - pos) as nat),
            forall|i: nat|
                i <= end - pos ==> #[trigger] pattern::after(bytes@, pos as int, i) == pos + i,
            forall|i: nat|
                i < end - pos ==> 0 <= #[trigger] pattern::after(bytes@, pos as int, i)
                    < bytes@.len() && pattern::in_set(
                    schemes::space(),
                    utf8::cp_at(bytes@, pattern::after(bytes@, pos as int, i)),
                ),
            end == bytes@.len() || !pattern::in_set(
                schemes::space(),
                utf8::cp_at(bytes@, end as int),
            ),
        decreases bytes@.len() - end,
    {
        proof {
            utf8::lemma_cp(bytes@, end as int);
            pattern::lemma_after_step(bytes@, pos as int, (end - pos) as nat);
        }
        if bytes[end] != 0x20 {
            break;
        }
        end += 1;
    }
    proof {
        utf8::lemma_cp(bytes@, pos as int);
        pattern::lemma_run_is(
            schemes::space(),
            bytes@,
            pos as int,
            pattern::MANY as nat,
            (end - pos) as nat,
        );
        assert(pattern::after(bytes@, pos as int, 0) == pos);
        assert(end > pos);
        assert(pattern::after(bytes@, pos as int, (end - pos - 1) as nat) == end - 1);
    }
    if end == bytes.len() {
        return Some(end);
    }
    let (cp, _) = cp_at(bytes, end);
    if matches!(classes::class_of(cp), CharClass::Whitespace) {
        return Some(end);
    }
    if end - 1 > pos {
        Some(end - 1)
    } else {
        None
    }
}

/// The end of the alternative that matches at `pos`, or `None` where none does,
/// so that `pos` starts a gap. `cp` and `l` are the character at `pos`.
fn match_cp(bytes: &[u8], pos: usize, cp: u32, l: usize) -> (res: Option<usize>)
    requires
        pos < bytes@.len(),
        cp == utf8::cp_at(bytes@, pos as int),
        l == utf8::cp_len(bytes@, pos as int),
    ensures
        match res {
            Some(end) => pattern::first_match(schemes::bounded_alts(), bytes@, pos as int) == Some(
                end as int,
            ) && pos < end <= bytes@.len(),
            None => pattern::first_match(schemes::bounded_alts(), bytes@, pos as int) is None,
        },
{
    proof {
        lemma_match(bytes@, pos as int);
        utf8::lemma_cp(bytes@, pos as int);
    }
    match classes::class_of(cp) {
        CharClass::Number => {
            proof {
                assert(pattern::in_set(CharSet::Number, cp));
                assert(pattern::run_len(CharSet::Number, bytes@, pos as int, 3) >= 1);
            }
            Some(pattern::scan_run(CharSet::Number, 3, bytes, pos))
        },
        CharClass::Other => punct_run_end(bytes, pos),
        CharClass::Whitespace => {
            if cp != 0x20 {
                return None;
            }
            assert(pos < bytes.len());
            match punct_run_end(bytes, pos + 1) {
                Some(end) => Some(end),
                None => space_run_end(bytes, pos),
            }
        },
        CharClass::Letter => None,
    }
}

/// The end of the gap whose first character is `first_len` bytes long at `pos`.
/// No alternative starts with a letter, so ASCII letters are skipped without
/// trying one.
fn scan_gap_from(bytes: &[u8], pos: usize, first_len: usize) -> (end: usize)
    requires
        pos < bytes@.len(),
        first_len == utf8::cp_len(bytes@, pos as int),
    ensures
        end == pattern::gap_end(
            schemes::bounded_alts(),
            bytes@,
            utf8::next_pos(bytes@, pos as int),
        ),
        pos < end <= bytes@.len(),
{
    proof {
        utf8::lemma_cp(bytes@, pos as int);
    }
    let len: usize = bytes.len();
    let mut p: usize = pos + first_len;
    while p < len
        invariant
            len == bytes@.len(),
            pos < p <= len,
            pattern::gap_end(
                schemes::bounded_alts(),
                bytes@,
                utf8::next_pos(bytes@, pos as int),
            ) == pattern::gap_end(schemes::bounded_alts(), bytes@, p as int),
        decreases len - p,
    {
        proof {
            utf8::lemma_cp(bytes@, p as int);
            lemma_match(bytes@, p as int);
        }
        let b: u8 = bytes[p];
        if (0x41 <= b && b <= 0x5A) || (0x61 <= b && b <= 0x7A) {
            p += 1;
        } else {
            let (cp, l) = cp_at(bytes, p);
            if match_cp(bytes, p, cp, l).is_some() {
                return p;
            }
            p += l;
        }
    }
    len
}

/// The end of the piece that starts at `pos`.
fn advance_pos(bytes: &[u8], pos: usize) -> (end: usize)
    requires
        pos < bytes@.len(),
    ensures
        end == pattern::piece_end(schemes::bounded_alts(), bytes@, pos as int),
        pos < end <= bytes@.len(),
{
    let (cp, l) = cp_at(bytes, pos);
    match match_cp(bytes, pos, cp, l) {
        Some(end) => end,
        None => scan_gap_from(bytes, pos, l),
    }
}

/// Yields the pieces of the bounded superword pattern.
#[derive(Debug)]
pub struct FastSuperwordBoundedPretokenizer<'a> {
    bytes: &'a [u8],
    pos: usize,
}

impl<'a> SpanWalker<'a> for FastSuperwordBoundedPretokenizer<'a> {
    open spec fn valid(&self) -> bool {
        true
    }

    closed spec fn text(&self) -> Seq<u8> {
        self.bytes@
    }

    closed spec fn position(&self) -> int {
        self.pos as int
    }

    open spec fn step(&self) -> Step {
        bounded_step(self.text())
    }

    fn bytes(&self) -> &'a [u8] {
        self.bytes
    }

    fn next_span(&mut self) -> Option<(usize, usize)> {
        if self.pos >= self.bytes.len() {
            return None;
        }
        let start: usize = self.pos;
        self.pos = advance_pos(self.bytes, start);
        Some((start, self.pos))
    }
}

impl<'a> FastSuperwordBoundedPretokenizer<'a> {
    /// A walk from the start of the text.
    pub fn new(bytes: &'a [u8]) -> (res: Self)
        ensures
            res.text() == bytes@,
            res.position() == 0,
    {
        Self::with_pos(bytes, 0)
    }

    /// Resumes at a byte offset previously returned by [`Self::pos`].
    pub fn with_pos(bytes: &'a [u8], pos: usize) -> (res: Self)
        ensures
            res.text() == bytes@,
            res.position() == pos,
    {
        FastSuperwordBoundedPretokenizer { bytes, pos }
    }

    /// The current byte offset.
    pub fn pos(&self) -> (pos: usize)
        ensures
            pos == self.position(),
    {
        self.pos
    }

    /// The next pretoken, or `None` at the end of the text.
    pub fn next(&mut self) -> (res: Option<Pretoken<'a>>)
        ensures
            final(self).text() == old(self).text(),
            old(self).position() >= old(self).text().len() ==> res is None
                && final(self).position() == old(self).position(),
            old(self).position() < old(self).text().len() ==> {
                &&& res matches Some(p)
                &&& p.0@ == old(self).text().subrange(old(self).position(), final(self).position())
                &&& final(self).position() == pattern::piece_end(
                    schemes::bounded_alts(),
                    old(self).text(),
                    old(self).position(),
                )
            },
    {
        walker::next_pretoken(self)
    }

    /// Fills a batch with the next pretokens.
    pub fn fill_spans(&mut self, batch: &mut SpanBatch<'a>) -> (n: usize)
        ensures
            final(self).text() == old(self).text(),
            final(batch).spans() == walker::texts(
                old(self).text(),
                walker::spans_from(
                    bounded_step(old(self).text()),
                    old(self).position(),
                    walker::PRETOKEN_CHUNK as nat,
                ),
            ),
            n == final(batch).spans().len(),
            final(self).position() == walker::pos_after(
                bounded_step(old(self).text()),
                old(self).position(),
                walker::PRETOKEN_CHUNK as nat,
            ),
    {
        walker::fill_spans(self, batch)
    }
}

} // verus!
