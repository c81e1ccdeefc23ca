//! Level-1 units: pretokens of a first-stage scheme, with adjacent ones glued
//! where a low merge could span their junction.
//!
//! A unit is a pretoken extended over every following pretoken that glues onto
//! it. Whether one does is decided from the pretoken immediately left of the
//! junction and the one immediately right of it, never from the accumulated
//! unit: a rule that reads how the left side starts would otherwise satisfy
//! itself again after every glue and swallow the rest of the text.
//!
//! [`Level1Walk`] yields one unit at a time. [`Level1Fill`] yields a chunk: it
//! harvests pretoken boundaries into a buffer of 16-bit offsets, drops the
//! glued ones with [`glue_filter`], and takes what is left as unit ends. Both
//! give the same units.

use super::dispatch;
use super::r50k::R50kScheme;
use super::scheme::Scheme;
use super::superbpe_stage1::SuperBPEStage1Scheme;
use crate::pretokenize::options::PretokenizerType;
use crate::pretokenize::unicode::category;
use crate::pretokenize::walker;
use crate::pretokenize::walker::{SpanBatch, Step};
use crate::utf8;
use vstd::prelude::*;
use vstd::slice::slice_subrange;

verus! {

/// Whether a byte string ends with white space. One that does not end with a
/// well-formed character counts as if it did: that only glues more.
pub open spec fn ends_white(s: Seq<u8>) -> bool {
    match utf8::last_char(s) {
        Some(cp) => category::is_white_space(cp),
        None => true,
    }
}

/// Whether a byte string starts with white space, or with no well-formed
/// character.
pub open spec fn starts_white(s: Seq<u8>) -> bool {
    match utf8::first_char(s) {
        Some(cp) => category::is_white_space(cp),
        None => true,
    }
}

/// Whether `next` glues onto the pretoken `prev` before it: white space on both
/// sides, an apostrophe at either end of `prev`, a digit at the start of `next`,
/// or characters other than ASCII on both sides. The last holds whatever these
/// characters are, so it holds too where a token has only a part of one.
pub open spec fn glued(prev: Seq<u8>, next: Seq<u8>) -> bool {
    ||| ends_white(prev) && starts_white(next)
    ||| prev.len() > 0 && prev.last() == 0x27
    ||| prev.len() > 0 && prev[0] == 0x27
    ||| next.len() > 0 && 0x30 <= next[0] <= 0x39
    ||| prev.len() > 0 && next.len() > 0 && prev.last() >= 0x80 && next[0] >= 0x80
}

/// The end of the unit whose last pretoken so far is `prev_start..end`.
pub open spec fn unit_end(
    ends: spec_fn(int) -> int,
    bytes: Seq<u8>,
    prev_start: int,
    end: int,
) -> int
    decreases bytes.len() - end,
{
    if 0 <= end < ends(end) <= bytes.len() && glued(
        bytes.subrange(prev_start, end),
        bytes.subrange(end, ends(end)),
    ) {
        unit_end(ends, bytes, end, ends(end))
    } else {
        end
    }
}

/// The units over pretokens that end where `ends` says.
pub open spec fn unit_step(ends: spec_fn(int) -> int, bytes: Seq<u8>) -> Step {
    |pos: int|
        if pos >= bytes.len() {
            None
        } else {
            Some((pos, unit_end(ends, bytes, pos, ends(pos))))
        }
}

/// The pretoken ends of a scheme.
pub open spec fn scheme_ends<S: Scheme>(bytes: Seq<u8>) -> spec_fn(int) -> int {
    |pos: int| S::end_of(bytes, pos)
}

/// Units are nonempty, in order and within the text.
pub proof fn lemma_units_forward(ends: spec_fn(int) -> int, bytes: Seq<u8>)
    requires
        forall|pos: int| 0 <= pos < bytes.len() ==> pos < #[trigger] ends(pos) <= bytes.len(),
    ensures
        walker::forward(unit_step(ends, bytes), bytes.len() as int),
{
    let step = unit_step(ends, bytes);
    assert forall|pos: int| 0 <= pos implies match #[trigger] step(pos) {
        None => true,
        Some(span) => pos <= span.0 < span.1 <= bytes.len(),
    } by {
        if pos < bytes.len() {
            law_unit_extends(ends, bytes, pos, ends(pos));
        }
    }
}

/// Gluing only removes boundaries: a unit ends where its first pretoken ends,
/// or later, and within the text.
pub proof fn law_unit_extends(
    ends: spec_fn(int) -> int,
    bytes: Seq<u8>,
    prev_start: int,
    end: int,
)
    requires
        0 <= prev_start < end <= bytes.len(),
    ensures
        end <= unit_end(ends, bytes, prev_start, end) <= bytes.len(),
    decreases bytes.len() - end,
{
    if 0 <= end < ends(end) <= bytes.len() && glued(
        bytes.subrange(prev_start, end),
        bytes.subrange(end, ends(end)),
    ) {
        law_unit_extends(ends, bytes, end, ends(end));
    }
}

/// Does the byte string end with white space? ASCII is decided by the byte.
pub fn ends_with_whitespace(s: &[u8]) -> (res: bool)
    ensures
        res == ends_white(s@),
{
    if s.len() == 0 {
        return true;
    }
    let b: u8 = s[s.len() - 1];
    if b < 0x80 {
        proof {
            utf8::lemma_last_ascii(s@);
        }
        return (0x09 <= b && b <= 0x0D) || b == 0x20;
    }
    ends_with_whitespace_decode(s)
}

fn ends_with_whitespace_decode(s: &[u8]) -> (res: bool)
    ensures
        res == ends_white(s@),
{
    match utf8::decode_last(s) {
        Some(cp) => category::is_white_space_cp(cp),
        None => true,
    }
}

/// Does the byte string start with white space? ASCII is decided by the byte.
pub fn starts_with_whitespace(s: &[u8]) -> (res: bool)
    ensures
        res == starts_white(s@),
{
    if s.len() == 0 {
        return true;
    }
    let b: u8 = s[0];
    if b < 0x80 {
        proof {
            utf8::lemma_first_ascii(s@);
        }
        return (0x09 <= b && b <= 0x0D) || b == 0x20;
    }
    starts_with_whitespace_decode(s)
}

fn starts_with_whitespace_decode(s: &[u8]) -> (res: bool)
    ensures
        res == starts_white(s@),
{
    match utf8::decode_first(s) {
        Some(cp) => category::is_white_space_cp(cp),
        None => true,
    }
}

/// Does `next` glue onto the pretoken `prev` before it?
pub fn glues(prev: &[u8], next: &[u8]) -> (res: bool)
    ensures
        res == glued(prev@, next@),
{
    (ends_with_whitespace(prev) && starts_with_whitespace(next)) || (prev.len() > 0
        && prev[prev.len() - 1] == 0x27) || (prev.len() > 0 && prev[0] == 0x27) || (next.len() > 0
        && 0x30 <= next[0] && next[0] <= 0x39) || (prev.len() > 0 && next.len() > 0
        && prev[prev.len() - 1] >= 0x80 && next[0] >= 0x80)
}

/// One unit at a time over a scheme's pretokens.
#[derive(Debug)]
pub struct Level1Walk<S: Scheme> {
    scheme: S,
    pos: usize,
    /// A pretoken that did not glue onto the unit just returned, and so starts
    /// the next one.
    pending: Option<(usize, usize)>,
}

impl<S: Scheme> Level1Walk<S> {
    /// The walk over `bytes` is consistent.
    pub closed spec fn valid(&self, bytes: Seq<u8>) -> bool {
        &&& self.scheme.valid()
        &&& match self.pending {
            Some((start, end)) => {
                &&& start < bytes.len()
                &&& end == S::end_of(bytes, start as int)
                &&& self.pos == end
            },
            None => true,
        }
    }

    /// Where the next unit starts.
    pub closed spec fn position(&self) -> int {
        match self.pending {
            Some((start, _)) => start as int,
            None => self.pos as int,
        }
    }

    /// A walk from `pos` on.
    pub fn new(pos: usize) -> (walk: Self)
        ensures
            forall|bytes: Seq<u8>| walk.valid(bytes),
            walk.position() == pos,
    {
        Level1Walk { scheme: S::create(), pos, pending: None }
    }

    /// The next unit as offsets, or `None` at the end of the text.
    pub fn next_unit(&mut self, bytes: &[u8]) -> (res: Option<(usize, usize)>)
        requires
            old(self).valid(bytes@),
        ensures
            final(self).valid(bytes@),
            match res {
                None => {
                    &&& old(self).position() >= bytes@.len()
                    &&& final(self).position() == old(self).position()
                },
                Some((start, end)) => {
                    &&& unit_step(scheme_ends::<S>(bytes@), bytes@)(old(self).position()) == Some(
                        (start as int, end as int),
                    )
                    &&& start == old(self).position()
                    &&& final(self).position() == end
                    &&& start < end <= bytes@.len()
                },
            },
    {
        let ghost ends = scheme_ends::<S>(bytes@);
        let (start, first_end) = match self.pending {
            Some(span) => {
                self.pending = None;
                span
            },
            None => {
                if self.pos >= bytes.len() {
                    return None;
                }
                let start: usize = self.pos;
                self.pos = self.scheme.advance(bytes, start);
                (start, self.pos)
            },
        };
        proof {
            S::lemma_end_of(bytes@, start as int);
        }
        let mut end: usize = first_end;
        let mut prev_start: usize = start;
        while end < bytes.len()
            invariant
                self.scheme.valid(),
                self.pending is None,
                self.pos == end,
                start <= prev_start < end <= bytes@.len(),
                start == old(self).position(),
                ends == scheme_ends::<S>(bytes@),
                unit_end(ends, bytes@, start as int, ends(start as int)) == unit_end(
                    ends,
                    bytes@,
                    prev_start as int,
                    end as int,
                ),
            decreases bytes@.len() - end,
        {
            proof {
                S::lemma_end_of(bytes@, end as int);
                assert(ends(end as int) == S::end_of(bytes@, end as int));
            }
            let next_end: usize = self.scheme.advance(bytes, end);
            self.pos = next_end;
            if !glues(slice_subrange(bytes, prev_start, end), slice_subrange(bytes, end, next_end)) {
                self.pending = Some((end, next_end));
                return Some((start, end));
            }
            prev_start = end;
            end = next_end;
        }
        Some((start, end))
    }
}

/// Whether boundary `i` of a harvest is a unit end: the pretokens on its two
/// sides do not glue, or it ends the text. The last boundary of a harvest has
/// no pretoken after it, so it is kept only where it ends the text.
pub open spec fn kept(bytes: Seq<u8>, base: int, buf: Seq<u16>, i: int) -> bool {
    if i == buf.len() - 1 {
        base + buf[i] >= bytes.len()
    } else {
        !glued(
            bytes.subrange(
                if i == 0 {
                    base
                } else {
                    base + buf[i - 1]
                },
                base + buf[i],
            ),
            bytes.subrange(base + buf[i], base + buf[i + 1]),
        )
    }
}

/// The boundaries kept among the first `n`.
pub open spec fn kept_upto(bytes: Seq<u8>, base: int, buf: Seq<u16>, n: nat) -> Seq<u16>
    decreases n,
{
    if n == 0 {
        Seq::empty()
    } else if kept(bytes, base, buf, n - 1) {
        kept_upto(bytes, base, buf, (n - 1) as nat).push(buf[n - 1])
    } else {
        kept_upto(bytes, base, buf, (n - 1) as nat)
    }
}

/// Drops the glued boundaries of a harvest in place: `buf` holds pretoken ends
/// relative to `fill_base`, ascending; afterwards its first `w` entries are the
/// unit ends among them. The write cursor never passes the read cursor.
pub fn glue_filter(bytes: &[u8], fill_base: usize, buf: &mut Vec<u16>) -> (w: usize)
    requires
        forall|i: int, j: int| 0 <= i < j < old(buf)@.len() ==> old(buf)@[i] < old(buf)@[j],
        forall|i: int|
            0 <= i < old(buf)@.len() ==> fill_base + (#[trigger] old(buf)@[i]) <= bytes@.len(),
    ensures
        final(buf)@.len() == old(buf)@.len(),
        w <= final(buf)@.len(),
        final(buf)@.subrange(0, w as int) == kept_upto(
            bytes@,
            fill_base as int,
            old(buf)@,
            old(buf)@.len(),
        ),
{
    let nb: usize = buf.len();
    let ghost orig = buf@;
    if nb == 0 {
        assert(buf@.subrange(0, 0) =~= Seq::<u16>::empty());
        return 0;
    }
    let len: usize = bytes.len();
    let mut w: usize = 0;
    let mut prev: usize = 0;
    let mut i: usize = 0;
    proof {
        assert(buf@.subrange(0, 0) =~= Seq::<u16>::empty());
        assert(fill_base + orig[0] <= bytes@.len());
    }
    while i < nb - 1
        invariant
            nb == orig.len(),
            nb >= 1,
            len == bytes@.len(),
            buf@.len() == nb,
            w <= i <= nb - 1,
            prev == (if i == 0 {
                0int
            } else {
                orig[i - 1] as int
            }),
            fill_base <= len,
            forall|k: int| i <= k < nb ==> buf@[k] == orig[k],
            forall|a: int, b: int| 0 <= a < b < orig.len() ==> orig[a] < orig[b],
            forall|k: int| 0 <= k < orig.len() ==> fill_base + (#[trigger] orig[k]) <= bytes@.len(),
            buf@.subrange(0, w as int) == kept_upto(bytes@, fill_base as int, orig, i as nat),
        decreases nb - i,
    {
        let end: usize = buf[i] as usize;
        let next_end: usize = buf[i + 1] as usize;
        assert(end == orig[i as int] && next_end == orig[i + 1]);
        assert(fill_base + orig[i + 1] <= bytes@.len());
        let left = slice_subrange(bytes, fill_base + prev, fill_base + end);
        let right = slice_subrange(bytes, fill_base + end, fill_base + next_end);
        let keep = !glues(left, right);
        let ghost before = buf@;
        let value: u16 = buf[i];
        buf.set(w, value);
        proof {
            assert(buf@.subrange(0, w as int) =~= before.subrange(0, w as int));
            assert(buf@.subrange(0, w + 1) =~= before.subrange(0, w as int).push(value));
        }
        if keep {
            w += 1;
        }
        prev = end;
        i += 1;
    }
    let last: u16 = buf[nb - 1];
    assert(last == orig[nb - 1]);
    if fill_base + last as usize >= len {
        let ghost before = buf@;
        buf.set(w, last);
        proof {
            assert(buf@.subrange(0, w + 1) =~= before.subrange(0, w as int).push(last));
        }
        w += 1;
    }
    w
}

/// The start of pretoken `i` of a harvest from `base`.
pub open spec fn start_of(base: int, buf: Seq<u16>, i: int) -> int {
    if i == 0 {
        base
    } else {
        base + buf[i - 1]
    }
}

/// Whether `buf` holds the ends of consecutive pretokens from `base` on.
pub open spec fn chained(
    ends: spec_fn(int) -> int,
    bytes: Seq<u8>,
    base: int,
    buf: Seq<u16>,
) -> bool {
    forall|i: int|
        0 <= i < buf.len() ==> {
            &&& base + #[trigger] buf[i] == ends(start_of(base, buf, i))
            &&& start_of(base, buf, i) < base + buf[i] <= bytes.len()
        }
}

/// The spans between consecutive offsets from `base` on.
pub open spec fn spans_between(base: int, offsets: Seq<u16>) -> Seq<(int, int)> {
    Seq::new(offsets.len(), |i: int| (start_of(base, offsets, i), base + offsets[i]))
}

proof fn lemma_ascending(
    ends: spec_fn(int) -> int,
    bytes: Seq<u8>,
    base: int,
    buf: Seq<u16>,
    i: int,
    j: int,
)
    requires
        chained(ends, bytes, base, buf),
        0 <= i < j < buf.len(),
    ensures
        buf[i] < buf[j],
    decreases j - i,
{
    assert(base + buf[j] == ends(start_of(base, buf, j)));
    if i < j - 1 {
        lemma_ascending(ends, bytes, base, buf, i, j - 1);
    }
}

/// The kept boundaries of a harvest are the ends of the next units, and until
/// one is kept the unit in progress goes on past the harvest so far.
proof fn lemma_kept_units(
    ends: spec_fn(int) -> int,
    bytes: Seq<u8>,
    base: int,
    buf: Seq<u16>,
    n: nat,
)
    requires
        0 <= base < bytes.len(),
        chained(ends, bytes, base, buf),
        n <= buf.len(),
    ensures
        ({
            let ks = kept_upto(bytes, base, buf, n);
            let step = unit_step(ends, bytes);
            let cur = start_of(base, ks, ks.len() as int);
            &&& ks.len() <= n
            &&& walker::spans_from(step, base, ks.len()) == spans_between(base, ks)
            &&& walker::pos_after(step, base, ks.len()) == cur
            &&& forall|k: int|
                0 <= k < ks.len() ==> {
                    let span = #[trigger] spans_between(base, ks)[k];
                    base <= span.0 < span.1 <= bytes.len()
                }
            &&& base <= cur <= start_of(base, buf, n as int)
            &&& n < buf.len() ==> unit_end(ends, bytes, cur, ends(cur)) == unit_end(
                ends,
                bytes,
                start_of(base, buf, n as int),
                base + buf[n as int],
            )
        }),
    decreases n,
{
    let step = unit_step(ends, bytes);
    if n == 0 {
        assert(walker::spans_from(step, base, 0) =~= spans_between(base, Seq::<u16>::empty()));
    } else {
        let m = (n - 1) as nat;
        lemma_kept_units(ends, bytes, base, buf, m);
        let before = kept_upto(bytes, base, buf, m);
        let cur = start_of(base, before, before.len() as int);
        let prev = start_of(base, buf, m as int);
        let end = base + buf[m as int];
        assert(end == ends(prev));
        if n < buf.len() {
            assert(base + buf[n as int] == ends(start_of(base, buf, n as int)));
        }
        if kept(bytes, base, buf, m as int) {
            assert(unit_end(ends, bytes, prev, end) == end);
            assert(step(cur) == Some((cur, end)));
            walker::lemma_spans_step(step, base, before.len());
            let after = before.push(buf[m as int]);
            assert(spans_between(base, after) =~= spans_between(base, before).push((cur, end)));
        }
    }
}

/// Units of a text, a chunk at a time.
#[derive(Debug)]
pub struct Level1Fill<'a, S: Scheme> {
    bytes: &'a [u8],
    scheme: S,
    pos: usize,
}

impl<'a, S: Scheme> Level1Fill<'a, S> {
    /// The fill is consistent.
    pub closed spec fn valid(&self) -> bool {
        self.scheme.valid()
    }

    /// The text.
    pub closed spec fn text(&self) -> Seq<u8> {
        self.bytes@
    }

    /// Where the next unit starts.
    pub closed spec fn position(&self) -> int {
        self.pos as int
    }

    /// The units of the text.
    pub open spec fn step(&self) -> Step {
        unit_step(scheme_ends::<S>(self.text()), self.text())
    }

    /// A fill from the start of the text.
    pub fn new(bytes: &'a [u8]) -> (fill: Self)
        ensures
            fill.valid(),
            fill.text() == bytes@,
            fill.position() == 0,
    {
        Level1Fill { bytes, scheme: S::create(), pos: 0 }
    }

    /// The ends of the next pretokens relative to the position, at most
    /// `needed`, as far as they fit 16 bits.
    fn harvest(&self, needed: usize) -> (buf: Vec<u16>)
        requires
            self.valid(),
        ensures
            buf@.len() <= needed,
            chained(scheme_ends::<S>(self.text()), self.text(), self.position(), buf@),
    {
        let ghost ends = scheme_ends::<S>(self.bytes@);
        let mut buf: Vec<u16> = Vec::new();
        let mut end: usize = self.pos;
        while buf.len() < needed && end < self.bytes.len()
            invariant
                self.valid(),
                ends == scheme_ends::<S>(self.bytes@),
                buf@.len() <= needed,
                end == start_of(self.pos as int, buf@, buf@.len() as int),
                self.pos <= end,
                chained(ends, self.bytes@, self.pos as int, buf@),
            decreases needed - buf@.len(),
        {
            let next: usize = self.scheme.advance(self.bytes, end);
            if next - self.pos > 0xFFFF {
                return buf;
            }
            let ghost before = buf@;
            buf.push((next - self.pos) as u16);
            proof {
                assert forall|i: int| 0 <= i < buf@.len() implies {
                    &&& self.pos + #[trigger] buf@[i] == ends(start_of(self.pos as int, buf@, i))
                    &&& start_of(self.pos as int, buf@, i) < self.pos + buf@[i]
                        <= self.bytes@.len()
                } by {
                    assert(start_of(self.pos as int, buf@, i) == start_of(
                        self.pos as int,
                        before,
                        i,
                    ));
                    if i < before.len() {
                        assert(self.pos + before[i] == ends(start_of(self.pos as int, before, i)));
                    }
                }
            }
            end = next;
        }
        buf
    }

    /// Replaces the contents of `batch` with the next units, at most
    /// [`walker::PRETOKEN_CHUNK`], and returns how many there are. Fewer are
    /// given only at the end of the text.
    pub fn fill_spans(&mut self, batch: &mut SpanBatch<'a>) -> (n: usize)
        requires
            old(self).valid(),
        ensures
            final(self).valid(),
            final(self).text() == old(self).text(),
            final(batch).spans() == walker::texts(
                old(self).text(),
                walker::spans_from(
                    old(self).step(),
                    old(self).position(),
                    walker::PRETOKEN_CHUNK as nat,
                ),
            ),
            n == final(batch).spans().len(),
            final(self).position() == walker::pos_after(
                old(self).step(),
                old(self).position(),
                walker::PRETOKEN_CHUNK as nat,
            ),
    {
        let bytes = self.bytes;
        let ghost ends = scheme_ends::<S>(bytes@);
        let ghost step = unit_step(ends, bytes@);
        let ghost from = self.pos as int;
        let mut entries: Vec<&'a [u8]> = Vec::new();
        while entries.len() < walker::PRETOKEN_CHUNK && self.pos < bytes.len()
            invariant
                self.valid(),
                self.bytes@ == bytes@,
                bytes@ == old(self).text(),
                from == old(self).position(),
                ends == scheme_ends::<S>(bytes@),
                step == unit_step(ends, bytes@),
                entries@.len() <= walker::PRETOKEN_CHUNK,
                self.pos == walker::pos_after(step, from, entries@.len()),
                walker::spans_from(step, from, entries@.len()).len() == entries@.len(),
                forall|i: int|
                    0 <= i < entries@.len() ==> (#[trigger] entries@[i])@ == walker::texts(
                        bytes@,
                        walker::spans_from(step, from, entries@.len()),
                    )[i],
            decreases walker::PRETOKEN_CHUNK - entries@.len(),
        {
            let base: usize = self.pos;
            let ghost n = entries@.len();
            let ghost given = walker::spans_from(step, from, n);
            let mut buf = self.harvest(walker::PRETOKEN_CHUNK - entries.len());
            let ghost harvested = buf@;
            proof {
                assert forall|i: int, j: int| 0 <= i < j < buf@.len() implies buf@[i] < buf@[j] by {
                    lemma_ascending(ends, bytes@, base as int, buf@, i, j);
                }
                lemma_kept_units(ends, bytes@, base as int, harvested, harvested.len());
            }
            let w: usize = glue_filter(bytes, base, &mut buf);
            let ghost ks = kept_upto(bytes@, base as int, harvested, harvested.len());
            assert(buf@.subrange(0, w as int).len() == w);
            if w == 0 {
                let mut walk = Level1Walk::<S>::new(base);
                let unit = walk.next_unit(bytes);
                proof {
                    walker::lemma_spans_step(step, from, n);
                }
                match unit {
                    Some((start, end)) => {
                        entries.push(slice_subrange(bytes, start, end));
                        self.pos = end;
                    },
                    None => {},
                }
            } else {
                proof {
                    walker::law_resume(step, from, n, w as nat);
                    assert(walker::spans_from(step, base as int, w as nat) == spans_between(
                        base as int,
                        ks,
                    ));
                }
                let ghost all = walker::spans_from(step, from, n + w as nat);
                let mut start: usize = base;
                let mut i: usize = 0;
                while i < w
                    invariant
                        i <= w <= buf@.len(),
                        buf@.subrange(0, w as int) == ks,
                        ks.len() == w,
                        start == start_of(base as int, ks, i as int),
                        base <= start <= bytes@.len(),
                        entries@.len() == n + i,
                        all == given + spans_between(base as int, ks),
                        given.len() == n,
                        forall|k: int| 0 <= k < w ==> {
                            let span = #[trigger] spans_between(base as int, ks)[k];
                            base <= span.0 < span.1 <= bytes@.len()
                        },
                        forall|k: int|
                            0 <= k < n + i ==> (#[trigger] entries@[k])@ == walker::texts(
                                bytes@,
                                all,
                            )[k],
                    decreases w - i,
                {
                    assert(buf@[i as int] == buf@.subrange(0, w as int)[i as int]);
                    assert(spans_between(base as int, ks)[i as int] == (
                        start as int,
                        base + ks[i as int],
                    ));
                    assert(base + ks[i as int] <= bytes.len());
                    let end: usize = base + buf[i] as usize;
                    entries.push(slice_subrange(bytes, start, end));
                    assert(all[n + i] == (start as int, end as int));
                    start = end;
                    i += 1;
                }
                self.pos = start;
            }
        }
        proof {
            if entries@.len() < walker::PRETOKEN_CHUNK {
                walker::lemma_spans_exhausted(
                    step,
                    from,
                    entries@.len(),
                    walker::PRETOKEN_CHUNK as nat,
                );
            }
        }
        let n: usize = entries.len();
        *batch = SpanBatch { entries };
        assert(batch.spans() =~= walker::texts(
            bytes@,
            walker::spans_from(step, from, walker::PRETOKEN_CHUNK as nat),
        ));
        n
    }
}

/// Units of a text, a chunk at a time, over a scheme chosen at run time.
#[derive(Debug)]
pub enum Level1Spans<'a> {
    SuperBPEStage1(Level1Fill<'a, SuperBPEStage1Scheme>),
    Gpt2(Level1Fill<'a, R50kScheme>),
}

impl<'a> Level1Spans<'a> {
    /// The scheme.
    pub open spec fn scheme(&self) -> PretokenizerType {
        match self {
            Level1Spans::SuperBPEStage1(_) => PretokenizerType::SuperBPEStage1,
            Level1Spans::Gpt2(_) => PretokenizerType::GPT2,
        }
    }

    /// The fill is consistent.
    pub open spec fn valid(&self) -> bool {
        match self {
            Level1Spans::SuperBPEStage1(f) => f.valid(),
            Level1Spans::Gpt2(f) => f.valid(),
        }
    }

    /// The text.
    pub open spec fn text(&self) -> Seq<u8> {
        match self {
            Level1Spans::SuperBPEStage1(f) => f.text(),
            Level1Spans::Gpt2(f) => f.text(),
        }
    }

    /// Where the next unit starts.
    pub open spec fn position(&self) -> int {
        match self {
            Level1Spans::SuperBPEStage1(f) => f.position(),
            Level1Spans::Gpt2(f) => f.position(),
        }
    }

    /// The units of `bytes`, or `None` for a scheme that has none here.
    pub fn new(bytes: &'a [u8], scheme: PretokenizerType) -> (res: Option<Self>)
        ensures
            res is Some <==> scheme == PretokenizerType::SuperBPEStage1 || scheme
                == PretokenizerType::GPT2,
            res matches Some(spans) ==> {
                &&& spans.valid()
                &&& spans.text() == bytes@
                &&& spans.position() == 0
                &&& spans.scheme() == scheme
            },
    {
        match scheme {
            PretokenizerType::SuperBPEStage1 => Some(
                Level1Spans::SuperBPEStage1(Level1Fill::new(bytes)),
            ),
            PretokenizerType::GPT2 => Some(Level1Spans::Gpt2(Level1Fill::new(bytes))),
            _ => None,
        }
    }

    /// Replaces the contents of `batch` with the next units, at most
    /// [`walker::PRETOKEN_CHUNK`], and returns how many there are.
    pub fn fill_spans(&mut self, batch: &mut SpanBatch<'a>) -> (n: usize)
        requires
            old(self).valid(),
        ensures
            final(self).valid(),
            final(self).text() == old(self).text(),
            final(self).scheme() == old(self).scheme(),
            final(batch).spans() == walker::texts(
                old(self).text(),
                walker::spans_from(
                    unit_step(type_ends(old(self).scheme(), old(self).text()), old(self).text()),
                    old(self).position(),
                    walker::PRETOKEN_CHUNK as nat,
                ),
            ),
            n == final(batch).spans().len(),
            final(self).position() == walker::pos_after(
                unit_step(type_ends(old(self).scheme(), old(self).text()), old(self).text()),
                old(self).position(),
                walker::PRETOKEN_CHUNK as nat,
            ),
    {
        proof {
            lemma_type_ends(self.text());
        }
        match self {
            Level1Spans::SuperBPEStage1(f) => f.fill_spans(batch),
            Level1Spans::Gpt2(f) => f.fill_spans(batch),
        }
    }
}

/// The pretoken ends of a scheme chosen at run time.
pub open spec fn type_ends(scheme: PretokenizerType, bytes: Seq<u8>) -> spec_fn(int) -> int {
    |pos: int| dispatch::pretoken_end(scheme, bytes, pos)
}

proof fn lemma_type_ends(bytes: Seq<u8>)
    ensures
        type_ends(PretokenizerType::SuperBPEStage1, bytes) == scheme_ends::<SuperBPEStage1Scheme>(
            bytes,
        ),
        type_ends(PretokenizerType::GPT2, bytes) == scheme_ends::<R50kScheme>(bytes),
{
    assert(type_ends(PretokenizerType::SuperBPEStage1, bytes) =~= scheme_ends::<
        SuperBPEStage1Scheme,
    >(bytes));
    assert(type_ends(PretokenizerType::GPT2, bytes) =~= scheme_ends::<R50kScheme>(bytes));
}

/// Whether span `k` is nonempty and starts where the one before it ends.
pub open spec fn joined(spans: Seq<(int, int)>, k: int) -> bool {
    &&& spans[k].0 == (if k == 0 {
        0
    } else {
        spans[k - 1].1
    })
    &&& spans[k].0 < spans[k].1
}

/// Whether spans tile the text from its start to `end`.
pub open spec fn tile(spans: Seq<(int, int)>, end: int) -> bool {
    &&& forall|k: int| 0 <= k < spans.len() ==> #[trigger] joined(spans, k)
    &&& end == (if spans.len() == 0 {
        0
    } else {
        spans.last().1
    })
}

proof fn lemma_units_tile(scheme: PretokenizerType, bytes: Seq<u8>, n: nat)
    requires
        dispatch::tiling(scheme),
    ensures
        ({
            let step = unit_step(type_ends(scheme, bytes), bytes);
            &&& tile(walker::spans_from(step, 0, n), walker::pos_after(step, 0, n))
            &&& 0 <= walker::pos_after(step, 0, n) <= bytes.len()
        }),
    decreases n,
{
    if n > 0 {
        let m = (n - 1) as nat;
        let ends = type_ends(scheme, bytes);
        let step = unit_step(ends, bytes);
        lemma_units_tile(scheme, bytes, m);
        walker::lemma_spans_step(step, 0, m);
        let pos = walker::pos_after(step, 0, m);
        let spans = walker::spans_from(step, 0, m);
        if let Some(span) = step(pos) {
            dispatch::law_tiles(scheme, bytes, pos);
            law_unit_extends(ends, bytes, pos, ends(pos));
            let longer = spans.push(span);
            assert forall|k: int| 0 <= k < longer.len() implies #[trigger] joined(longer, k) by {
                if k < spans.len() {
                    assert(joined(spans, k));
                }
            }
        }
    }
}

/// The units of a text are nonempty and follow each other from its start to its
/// end.
pub proof fn law_units_tile(scheme: PretokenizerType, bytes: Seq<u8>)
    requires
        dispatch::tiling(scheme),
    ensures
        tile(
            walker::all_spans(unit_step(type_ends(scheme, bytes), bytes), bytes.len()),
            bytes.len() as int,
        ),
        walker::forward(unit_step(type_ends(scheme, bytes), bytes), bytes.len() as int),
{
    let ends = type_ends(scheme, bytes);
    let step = unit_step(ends, bytes);
    assert forall|pos: int| 0 <= pos < bytes.len() implies pos < #[trigger] ends(pos)
        <= bytes.len() by {
        dispatch::law_tiles(scheme, bytes, pos);
    }
    lemma_units_forward(ends, bytes);
    lemma_units_tile(scheme, bytes, bytes.len());
    walker::lemma_span_count(step, bytes.len() as int, 0, bytes.len());
}

/// The walks agree on every text: one that chooses its scheme at run time and one
/// made for the scheme take the same steps, these give units that tile the text,
/// and the chunks, pulled one after the other until one is short, give all of
/// them.
pub proof fn law_walkers_agree(scheme: PretokenizerType, bytes: Seq<u8>, fills: nat)
    requires
        scheme == PretokenizerType::SuperBPEStage1 || scheme == PretokenizerType::GPT2,
    ensures
        ({
            let step = unit_step(type_ends(scheme, bytes), bytes);
            let all = walker::all_spans(step, bytes.len());
            let chunk = walker::PRETOKEN_CHUNK as nat;
            let given = walker::spans_from(step, 0, fills * chunk);
            let next = walker::spans_from(
                step,
                walker::pos_after(step, 0, fills * chunk),
                chunk,
            );
            &&& scheme == PretokenizerType::SuperBPEStage1 ==> step == unit_step(
                scheme_ends::<SuperBPEStage1Scheme>(bytes),
                bytes,
            )
            &&& scheme == PretokenizerType::GPT2 ==> step == unit_step(
                scheme_ends::<R50kScheme>(bytes),
                bytes,
            )
            &&& tile(all, bytes.len() as int)
            &&& walker::spans_from(step, 0, (fills + 1) * chunk) == given + next
            &&& next.len() <= chunk
            &&& next.len() < chunk ==> given + next == all
        }),
{
    let step = unit_step(type_ends(scheme, bytes), bytes);
    let chunk = walker::PRETOKEN_CHUNK as nat;
    let done = fills * chunk;
    lemma_type_ends(bytes);
    law_units_tile(scheme, bytes);
    walker::law_resume(step, 0, done, chunk);
    assert((fills + 1) * chunk == done + chunk) by (nonlinear_arith)
        requires
            done == fills * chunk,
    ;
    let pos = walker::pos_after(step, 0, done);
    walker::lemma_spans_step(step, pos, chunk);
    if walker::spans_from(step, pos, chunk).len() < chunk {
        walker::lemma_all_spans(step, bytes.len(), done + chunk);
    }
}

} // verus!
