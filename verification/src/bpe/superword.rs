//! Two-level encoding for superword tokenizers: the units of level 1, and how
//! far its merges reach.
//!
//! A superword tokenizer learns its merges in two stages, the second without
//! the white space restriction of the first, and declares no splitting. Its
//! merges can still be applied in two levels: those below a threshold within
//! units of the first-stage scheme, and then all of them over the result. The
//! threshold is the smallest merged token at whose junction a unit can end.
//!
//! Whether one can is tried out in a handful of contexts. Where these cannot
//! show it, what may meet at a boundary decides: a token can hold a part of a
//! character only, and the stage-1 scheme looks further back than a context
//! reaches.

use crate::pretokenize::fast::dispatch;
use crate::pretokenize::fast::dispatch::FastPretokenizerDispatch;
use crate::pretokenize::fast::level1;
use crate::pretokenize::options::PretokenizerType;
use crate::pretokenize::pattern;
use crate::pretokenize::pattern::CharSet;
use crate::pretokenize::stage1_pieces;
use crate::pretokenize::walker;
use crate::pretokenize::walker::{Pretoken, SpanBatch, SpanWalker, Step};
use super::merge::{Merge, MergeTable};
use crate::utf8;
use vstd::prelude::*;
use vstd::slice::slice_subrange;

verus! {

/// Level-1 units over a scheme chosen at run time, one at a time.
#[derive(Debug)]
pub struct Level1Units<'a> {
    bytes: &'a [u8],
    inner: FastPretokenizerDispatch<'a>,
    /// A pretoken that did not glue onto the unit just returned, and so starts
    /// the next one.
    pending: Option<(usize, usize)>,
}

impl<'a> Level1Units<'a> {
    /// The scheme.
    pub closed spec fn scheme(&self) -> PretokenizerType {
        self.inner.scheme()
    }
}

impl<'a> SpanWalker<'a> for Level1Units<'a> {
    closed spec fn valid(&self) -> bool {
        &&& self.inner.valid()
        &&& self.inner.text() == self.bytes@
        &&& dispatch::tiling(self.inner.scheme())
        &&& 0 <= self.inner.position()
        &&& match self.pending {
            Some((start, end)) => {
                &&& start < end <= self.bytes@.len()
                &&& end == dispatch::pretoken_end(self.inner.scheme(), self.bytes@, start as int)
                &&& self.inner.position() == end
            },
            None => true,
        }
    }

    closed spec fn text(&self) -> Seq<u8> {
        self.bytes@
    }

    closed spec fn position(&self) -> int {
        match self.pending {
            Some((start, _)) => start as int,
            None => self.inner.position(),
        }
    }

    open spec fn step(&self) -> Step {
        level1::unit_step(level1::type_ends(self.scheme(), self.text()), self.text())
    }

    fn bytes(&self) -> &'a [u8] {
        self.bytes
    }

    fn next_span(&mut self) -> (res: Option<(usize, usize)>)
        ensures
            final(self).scheme() == old(self).scheme(),
    {
        let bytes = self.bytes;
        let ghost scheme = self.inner.scheme();
        let ghost ends = level1::type_ends(scheme, bytes@);
        proof {
            dispatch::law_tiles(scheme, bytes@, self.inner.position());
        }
        let (start, first_end) = match self.pending {
            Some(span) => {
                self.pending = None;
                span
            },
            None => match self.inner.next_span() {
                Some(span) => span,
                None => {
                    return None;
                },
            },
        };
        let mut end: usize = first_end;
        let mut prev_start: usize = start;
        while end < bytes.len()
            invariant
                self.inner.valid(),
                self.inner.text() == bytes@,
                self.bytes@ == bytes@,
                self.inner.scheme() == scheme,
                self.inner.position() == end,
                self.pending is None,
                dispatch::tiling(scheme),
                start <= prev_start < end <= bytes@.len(),
                start == old(self).position(),
                bytes@ == old(self).text(),
                scheme == old(self).scheme(),
                ends == level1::type_ends(scheme, bytes@),
                level1::unit_end(ends, bytes@, start as int, ends(start as int))
                    == level1::unit_end(ends, bytes@, prev_start as int, end as int),
            decreases bytes@.len() - end,
        {
            proof {
                dispatch::law_tiles(scheme, bytes@, end as int);
            }
            match self.inner.next_span() {
                None => {
                    return Some((start, end));
                },
                Some((next_start, next_end)) => {
                    if !level1::glues(
                        slice_subrange(bytes, prev_start, end),
                        slice_subrange(bytes, next_start, next_end),
                    ) {
                        self.pending = Some((next_start, next_end));
                        return Some((start, end));
                    }
                    prev_start = next_start;
                    end = next_end;
                },
            }
        }
        Some((start, end))
    }
}

impl<'a> Level1Units<'a> {
    /// The units of `bytes` over a tiling scheme.
    pub fn new(bytes: &'a [u8], scheme: PretokenizerType) -> (res: Self)
        requires
            dispatch::tiling(scheme),
        ensures
            res.valid(),
            res.text() == bytes@,
            res.position() == 0,
            res.scheme() == scheme,
    {
        Level1Units { bytes, inner: scheme.pretokenize(bytes), pending: None }
    }

    /// The next unit as offsets, or `None` at the end of the text.
    pub fn next_unit(&mut self) -> (res: Option<(usize, usize)>)
        requires
            old(self).valid(),
        ensures
            final(self).valid(),
            final(self).text() == old(self).text(),
            final(self).scheme() == old(self).scheme(),
            match res {
                None => {
                    &&& old(self).step()(old(self).position()) is None
                    &&& final(self).position() == old(self).position()
                },
                Some((start, end)) => {
                    &&& old(self).step()(old(self).position()) == Some((start as int, end as int))
                    &&& final(self).position() == end
                    &&& start < end <= old(self).text().len()
                },
            },
    {
        self.next_span()
    }

    /// The next unit, or `None` at the end of the text.
    pub fn next(&mut self) -> (res: Option<Pretoken<'a>>)
        requires
            old(self).valid(),
        ensures
            final(self).valid(),
            final(self).text() == old(self).text(),
            final(self).step() == old(self).step(),
            match old(self).step()(old(self).position()) {
                None => res is None && final(self).position() == old(self).position(),
                Some((start, end)) => {
                    &&& res matches Some(p)
                    &&& p.0@ == old(self).text().subrange(start, end)
                    &&& final(self).position() == end
                },
            },
    {
        walker::next_pretoken(self)
    }

    /// Fills a batch with the next units.
    pub fn fill_spans(&mut self, batch: &mut SpanBatch<'a>) -> (n: usize)
        requires
            old(self).valid(),
        ensures
            final(self).valid(),
            final(self).text() == old(self).text(),
            final(self).step() == old(self).step(),
            final(batch).spans() == walker::texts(
                old(self).text(),
                walker::spans_from(
                    old(self).step(),
                    old(self).position(),
                    walker::PRETOKEN_CHUNK as nat,
                ),
            ),
            n == final(batch).spans().len(),
            final(self).position() == walker::pos_after(
                old(self).step(),
                old(self).position(),
                walker::PRETOKEN_CHUNK as nat,
            ),
    {
        walker::fill_spans(self, batch)
    }
}

/// The bytes of the entries of a vocabulary.
pub open spec fn views(vocab: Seq<Vec<u8>>) -> Seq<Seq<u8>> {
    Seq::new(vocab.len(), |i: int| vocab[i]@)
}

/// The last character of one token and the first of another, where both have it
/// whole. A token can be a fragment of a character.
pub open spec fn junction(a: Seq<u8>, b: Seq<u8>) -> Option<(u32, u32)> {
    match (utf8::last_char(a), utf8::first_char(b)) {
        (Some(last), Some(first)) => Some((last, first)),
        _ => None,
    }
}

/// The characters on the two sides of a junction, where both are whole.
pub fn junction_chars(a: &[u8], b: &[u8]) -> (res: Option<(u32, u32)>)
    ensures
        res == junction(a@, b@),
{
    match utf8::decode_last(a) {
        None => None,
        Some(last) => match utf8::decode_first(b) {
            None => None,
            Some(first) => Some((last, first)),
        },
    }
}

/// Whether a unit ends at offset `at`, among the units from `pos` on.
pub open spec fn unit_ends_at(
    scheme: PretokenizerType,
    bytes: Seq<u8>,
    pos: int,
    at: int,
) -> bool
    decreases bytes.len() - pos,
{
    match level1::unit_step(level1::type_ends(scheme, bytes), bytes)(pos) {
        None => false,
        Some((_, end)) => end == at || (pos < end < at && end <= bytes.len() && unit_ends_at(
            scheme,
            bytes,
            end,
            at,
        )),
    }
}

/// Does a unit end exactly at byte offset `at`?
pub fn splits_at(bytes: &[u8], at: usize, scheme: PretokenizerType) -> (res: bool)
    requires
        dispatch::tiling(scheme),
    ensures
        res == unit_ends_at(scheme, bytes@, 0, at as int),
{
    let mut units = Level1Units::new(bytes, scheme);
    loop
        invariant
            units.valid(),
            units.text() == bytes@,
            units.scheme() == scheme,
            unit_ends_at(scheme, bytes@, 0, at as int) == unit_ends_at(
                scheme,
                bytes@,
                units.position(),
                at as int,
            ),
        decreases bytes@.len() - units.position(),
    {
        match units.next_unit() {
            None => {
                return false;
            },
            Some((_, end)) => {
                if end == at {
                    return true;
                }
                if end > at {
                    return false;
                }
            },
        }
    }
}

/// How many contexts a junction is tried in on either side.
pub const VERIFY_PADS: usize = 8;

/// The contexts: one for each class that the schemes tell apart, a run of
/// spaces, and none.
pub open spec fn pad(i: int) -> Seq<u8> {
    if i == 1 {
        seq![0x78u8]
    } else if i == 2 {
        seq![0x20u8]
    } else if i == 3 {
        seq![0x20u8, 0x20u8]
    } else if i == 4 {
        seq![0x0Au8]
    } else if i == 5 {
        seq![0x31u8]
    } else if i == 6 {
        seq![0x21u8]
    } else if i == 7 {
        seq![0x27u8]
    } else {
        Seq::empty()
    }
}

fn append_pad(i: usize, out: &mut Vec<u8>)
    ensures
        final(out)@ == old(out)@ + pad(i as int),
{
    let ghost before = out@;
    match i {
        1 => out.push(0x78),
        2 => out.push(0x20),
        3 => {
            out.push(0x20);
            out.push(0x20);
        },
        4 => out.push(0x0A),
        5 => out.push(0x31),
        6 => out.push(0x21),
        7 => out.push(0x27),
        _ => {},
    }
    assert(out@ =~= before + pad(i as int));
}

/// Two tokens in a context.
pub open spec fn probe(left: Seq<u8>, right: Seq<u8>, i: int, j: int) -> Seq<u8> {
    pad(i) + left + right + pad(j)
}

/// Whether a unit can end at the junction of two tokens in one of the contexts.
pub open spec fn can_split(scheme: PretokenizerType, left: Seq<u8>, right: Seq<u8>) -> bool {
    exists|i: int, j: int|
        0 <= i < VERIFY_PADS && 0 <= j < VERIFY_PADS && #[trigger] unit_ends_at(
            scheme,
            probe(left, right, i, j),
            0,
            (pad(i) + left).len() as int,
        )
}

/// Can a unit end at the junction of two tokens? Both are planted whole in
/// every pair of contexts: where a unit ends can depend on how a run started.
pub fn junction_can_split(left: &[u8], right: &[u8], scheme: PretokenizerType) -> (res: bool)
    requires
        dispatch::tiling(scheme),
    ensures
        res == can_split(scheme, left@, right@),
{
    let mut i: usize = 0;
    while i < VERIFY_PADS
        invariant
            dispatch::tiling(scheme),
            i <= VERIFY_PADS,
            forall|a: int, b: int|
                0 <= a < i && 0 <= b < VERIFY_PADS ==> !#[trigger] unit_ends_at(
                    scheme,
                    probe(left@, right@, a, b),
                    0,
                    (pad(a) + left@).len() as int,
                ),
        decreases VERIFY_PADS - i,
    {
        let mut j: usize = 0;
        while j < VERIFY_PADS
            invariant
                dispatch::tiling(scheme),
                i < VERIFY_PADS,
                j <= VERIFY_PADS,
                forall|a: int, b: int|
                    0 <= a < i && 0 <= b < VERIFY_PADS ==> !#[trigger] unit_ends_at(
                        scheme,
                        probe(left@, right@, a, b),
                        0,
                        (pad(a) + left@).len() as int,
                    ),
                forall|b: int|
                    0 <= b < j ==> !#[trigger] unit_ends_at(
                        scheme,
                        probe(left@, right@, i as int, b),
                        0,
                        (pad(i as int) + left@).len() as int,
                    ),
            decreases VERIFY_PADS - j,
        {
            let mut text: Vec<u8> = Vec::new();
            append_pad(i, &mut text);
            text.extend_from_slice(left);
            assert(text@ =~= pad(i as int) + left@);
            let at: usize = text.len();
            text.extend_from_slice(right);
            assert(text@ =~= pad(i as int) + left@ + right@);
            append_pad(j, &mut text);
            assert(text@ =~= probe(left@, right@, i as int, j as int));
            if splits_at(&text, at, scheme) {
                return true;
            }
            j += 1;
        }
        i += 1;
    }
    false
}

/// Whether a text starts with a number.
pub open spec fn starts_number(s: Seq<u8>) -> bool {
    match utf8::first_char(s) {
        Some(cp) => pattern::in_set(CharSet::Number, cp),
        None => false,
    }
}

/// Whether a text starts with a number, with at most `more` bytes after it.
pub open spec fn number_may_start(head: Seq<u8>, more: nat) -> bool {
    exists|t: Seq<u8>| t.len() <= more && #[trigger] starts_number(head + t)
}

/// A character that more bytes complete takes a continuation byte first.
proof fn lemma_completed(head: Seq<u8>, t: Seq<u8>)
    requires
        head.len() > 0,
        utf8::first_char(head) is None,
        utf8::first_char(head + t) is Some,
    ensures
        t.len() > 0,
        0x80 <= t[0] <= 0xBF,
        head + t == head.push(t[0]) + t.drop_first(),
{
    let whole = head + t;
    assert forall|i: int| 0 <= i < head.len() implies whole[i] == head[i] by {}
    if t.len() == 0 {
        assert(whole =~= head);
    }
    assert(whole[head.len() as int] == t[0]);
    assert(whole =~= head.push(t[0]) + t.drop_first());
}

/// Can the text start with a number, once its first character is completed?
pub fn may_start_number(head: &[u8], more: usize) -> (res: bool)
    requires
        head@.len() > 0,
    ensures
        res == number_may_start(head@, more as nat),
    decreases more,
{
    match utf8::decode_first(head) {
        Some(cp) => {
            proof {
                let none = Seq::<u8>::empty();
                assert(head@ + none =~= head@);
                assert(starts_number(head@ + none) == starts_number(head@));
                assert forall|t: Seq<u8>| #[trigger] starts_number(head@ + t) implies starts_number(
                    head@,
                ) by {
                    let whole = head@ + t;
                    assert(utf8::tail(whole, 0) =~= whole);
                    assert(whole.subrange(0, head@.len() as int) =~= head@);
                    utf8::lemma_first_char_prefix(head@, whole, 0);
                    reveal(utf8::cp_at);
                }
            }
            pattern::set_contains(CharSet::Number, cp)
        },
        None => {
            if more == 0 {
                proof {
                    assert forall|t: Seq<u8>| t.len() <= 0 implies !#[trigger] starts_number(
                        head@ + t,
                    ) by {
                        assert(head@ + t =~= head@);
                    }
                }
                return false;
            }
            let ghost rest = (more - 1) as nat;
            let mut b: u8 = 0x80;
            while b <= 0xBF
                invariant
                    0x80 <= b <= 0xC0,
                    more > 0,
                    rest == more - 1,
                    head@.len() > 0,
                    utf8::first_char(head@) is None,
                    forall|c: u8|
                        0x80 <= c < b ==> !#[trigger] number_may_start(head@.push(c), rest),
                decreases 0xC0 - b,
            {
                let mut longer: Vec<u8> = Vec::new();
                longer.extend_from_slice(head);
                longer.push(b);
                assert(longer@ =~= head@.push(b));
                if may_start_number(&longer, more - 1) {
                    proof {
                        let t = choose|t: Seq<u8>|
                            t.len() <= rest && #[trigger] starts_number(head@.push(b) + t);
                        let all = seq![b] + t;
                        assert(head@ + all =~= head@.push(b) + t);
                        assert(starts_number(head@ + all));
                    }
                    return true;
                }
                b += 1;
            }
            proof {
                assert forall|t: Seq<u8>| t.len() <= more implies !#[trigger] starts_number(
                    head@ + t,
                ) by {
                    if starts_number(head@ + t) {
                        lemma_completed(head@, t);
                        assert(starts_number(head@.push(t[0]) + t.drop_first()));
                        assert(number_may_start(head@.push(t[0]), rest));
                    }
                }
            }
            false
        },
    }
}

/// Whether a unit may end between two tokens of which one holds only a part of
/// the character there. Where that is the left one, everything is possible but
/// what glues in any case. Where it is the right one, it may be a character of
/// any kind after all; only a space goes with whatever follows it, and in the
/// stage-1 scheme not with a number.
pub open spec fn torn_may_part(
    scheme: PretokenizerType,
    left: Seq<u8>,
    right: Seq<u8>,
) -> bool {
    &&& left.len() > 0
    &&& right.len() > 0
    &&& {
        ||| utf8::last_char(left) is None && right[0] < 0x80 && !(0x30 <= right[0] <= 0x39)
        ||| utf8::first_char(right) is None && left.last() < 0x80 && left.last() != 0x27 && (
        left.last() != 0x20 || (scheme != PretokenizerType::GPT2 && number_may_start(right, 3)))
    }
}

/// Whether a unit of the stage-1 scheme may end between two tokens, by the
/// characters that meet.
pub open spec fn stage1_may_part(left: Seq<u8>, right: Seq<u8>) -> bool {
    match junction(left, right) {
        None => false,
        Some((x, y)) => {
            &&& left.last() < 0x80 || right[0] < 0x80
            &&& x != 0x27
            &&& !(0x30 <= right[0] <= 0x39)
            &&& !(pattern::in_set(CharSet::White, x) && pattern::in_set(CharSet::White, y))
            &&& stage1_pieces::may_part(
                stage1_pieces::prior_char(left),
                x,
                y,
                stage1_pieces::slashes_may_follow_line(left),
            )
        },
    }
}

/// Whether a unit may end between two tokens in some context or other.
pub open spec fn may_part(scheme: PretokenizerType, left: Seq<u8>, right: Seq<u8>) -> bool {
    ||| torn_may_part(scheme, left, right)
    ||| scheme == PretokenizerType::SuperBPEStage1 && stage1_may_part(left, right)
}

/// May a unit end between two tokens in some context or other?
pub fn junction_may_part(left: &[u8], right: &[u8], scheme: PretokenizerType) -> (res: bool)
    ensures
        res == may_part(scheme, left@, right@),
{
    if left.len() == 0 || right.len() == 0 {
        return false;
    }
    let last: u8 = left[left.len() - 1];
    let next: u8 = right[0];
    if 0x30 <= next && next <= 0x39 {
        proof {
            utf8::lemma_first_ascii(right@);
        }
        return false;
    }
    match (utf8::decode_last_len(left), utf8::decode_first(right)) {
        (None, _) => {
            proof {
                if last < 0x80 {
                    utf8::lemma_last_ascii(left@);
                }
            }
            next < 0x80
        },
        (Some(_), None) => {
            let gpt2 = matches!(scheme, PretokenizerType::GPT2);
            last < 0x80 && last != 0x27 && (last != 0x20 || (!gpt2 && may_start_number(right, 3)))
        },
        (Some((x, k)), Some(y)) => {
            if !matches!(scheme, PretokenizerType::SuperBPEStage1) {
                return false;
            }
            if (last >= 0x80 && next >= 0x80) || x == 0x27 {
                return false;
            }
            let white = pattern::set_contains(CharSet::White, x);
            if white && pattern::set_contains(CharSet::White, y) {
                return false;
            }
            let rest = slice_subrange(left, 0, left.len() - k);
            assert(rest@ =~= left@.take(left@.len() - k));
            let w = utf8::decode_last(rest);
            stage1_pieces::chars_may_part(w, x, y, stage1_pieces::slashes_after_line(left))
        },
    }
}

/// Whether a unit can end at the junction of a merge.
pub open spec fn splittable(
    vocab: Seq<Seq<u8>>,
    m: Merge,
    scheme: PretokenizerType,
) -> bool {
    &&& m.left < vocab.len()
    &&& m.right < vocab.len()
    &&& {
        let (left, right) = (vocab[m.left as int], vocab[m.right as int]);
        ||| junction(left, right) is Some && can_split(scheme, left, right)
        ||| may_part(scheme, left, right)
    }
}

/// Whether `t` is the least merged token at whose junction a unit can end.
pub open spec fn is_threshold(
    vocab: Seq<Seq<u8>>,
    merges: Seq<Merge>,
    scheme: PretokenizerType,
    t: Option<u32>,
) -> bool {
    match t {
        None => forall|i: int|
            0 <= i < merges.len() ==> !splittable(vocab, #[trigger] merges[i], scheme),
        Some(id) => {
            &&& exists|i: int|
                0 <= i < merges.len() && splittable(vocab, #[trigger] merges[i], scheme)
                    && merges[i].merged == id
            &&& forall|i: int|
                0 <= i < merges.len() && splittable(vocab, #[trigger] merges[i], scheme)
                    ==> merges[i].merged >= id
        },
    }
}

/// The least merged token at whose junction a unit can end, or `None` where
/// there is no such merge: then the tokenizer has no superwords.
pub fn derive_threshold(
    vocab: &Vec<Vec<u8>>,
    merges: &MergeTable,
    scheme: PretokenizerType,
) -> (res: Option<u32>)
    requires
        merges.well_formed(),
        dispatch::tiling(scheme),
    ensures
        is_threshold(views(vocab@), merges.merges(), scheme, res),
{
    let mut least: Option<u32> = None;
    let mut i: usize = 0;
    while i < merges.len()
        invariant
            merges.well_formed(),
            dispatch::tiling(scheme),
            i <= merges.merges().len(),
            match least {
                None => forall|k: int|
                    0 <= k < i ==> !splittable(
                        views(vocab@),
                        #[trigger] merges.merges()[k],
                        scheme,
                    ),
                Some(id) => {
                    &&& exists|k: int|
                        0 <= k < i && splittable(
                            views(vocab@),
                            #[trigger] merges.merges()[k],
                            scheme,
                        ) && merges.merges()[k].merged == id
                    &&& forall|k: int|
                        0 <= k < i && splittable(
                            views(vocab@),
                            #[trigger] merges.merges()[k],
                            scheme,
                        ) ==> merges.merges()[k].merged >= id
                },
            },
        decreases merges.merges().len() - i,
    {
        let m = merges.entry(i);
        let worth = match least {
            None => true,
            Some(id) => m.merged < id,
        };
        if worth && (m.left as usize) < vocab.len() && (m.right as usize) < vocab.len() {
            let left = &vocab[m.left as usize];
            let right = &vocab[m.right as usize];
            if junction_may_part(left, right, scheme) || (junction_chars(left, right).is_some()
                && junction_can_split(left, right, scheme)) {
                assert(splittable(views(vocab@), merges.merges()[i as int], scheme));
                least = Some(m.merged);
            }
        }
        i += 1;
    }
    least
}

/// A threshold is safe and as large as the test can justify: no merge below it
/// has a junction at which a unit can end, and no larger number has that
/// property.
pub proof fn law_threshold_is_least(
    vocab: Seq<Seq<u8>>,
    merges: Seq<Merge>,
    scheme: PretokenizerType,
    t: u32,
    bound: int,
)
    requires
        is_threshold(vocab, merges, scheme, Some(t)),
    ensures
        bound <= t <==> forall|i: int|
            0 <= i < merges.len() && (#[trigger] merges[i]).merged < bound ==> !splittable(
                vocab,
                merges[i],
                scheme,
            ),
{
    if bound > t {
        let i = choose|i: int|
            0 <= i < merges.len() && splittable(vocab, #[trigger] merges[i], scheme)
                && merges[i].merged == t;
        assert(merges[i].merged < bound);
    }
}

} // verus!
