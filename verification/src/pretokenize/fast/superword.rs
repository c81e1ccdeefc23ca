//! The whitespace-lifted scheme of superword tokenizers: no splitting at all.
//! The whole segment is one pretoken, and the merges run across it.

use crate::pretokenize::walker;
use crate::pretokenize::walker::{Pretoken, SpanBatch, SpanWalker, Step};
use vstd::prelude::*;

verus! {

/// What is left of the text, as one span.
pub open spec fn superword_step(bytes: Seq<u8>) -> Step {
    |pos: int|
        if pos >= bytes.len() {
            None
        } else {
            Some((pos, bytes.len() as int))
        }
}

/// Yields the input segment as a single pretoken.
#[derive(Debug)]
pub struct FastSuperwordPretokenizer<'a> {
    bytes: &'a [u8],
    pos: usize,
}

impl<'a> SpanWalker<'a> for FastSuperwordPretokenizer<'a> {
    open spec fn valid(&self) -> bool {
        true
    }

    closed spec fn text(&self) -> Seq<u8> {
        self.bytes@
    }

    closed spec fn position(&self) -> int {
        self.pos as int
    }

    open spec fn step(&self) -> Step {
        superword_step(self.text())
    }

    fn bytes(&self) -> &'a [u8] {
        self.bytes
    }

    fn next_span(&mut self) -> Option<(usize, usize)> {
        if self.pos >= self.bytes.len() {
            return None;
        }
        let start: usize = self.pos;
        self.pos = self.bytes.len();
        Some((start, self.pos))
    }
}

impl<'a> FastSuperwordPretokenizer<'a> {
    /// A walk from the start of the segment.
    pub fn new(bytes: &'a [u8]) -> (res: Self)
        ensures
            res.text() == bytes@,
            res.position() == 0,
    {
        Self::with_pos(bytes, 0)
    }

    /// Resumes at a byte offset previously returned by [`Self::pos`].
    pub fn with_pos(bytes: &'a [u8], pos: usize) -> (res: Self)
        ensures
            res.text() == bytes@,
            res.position() == pos,
    {
        FastSuperwordPretokenizer { bytes, pos }
    }

    /// The current byte offset.
    pub fn pos(&self) -> (pos: usize)
        ensures
            pos == self.position(),
    {
        self.pos
    }

    /// The next pretoken: all that is left.
    pub fn next(&mut self) -> (res: Option<Pretoken<'a>>)
        ensures
            final(self).text() == old(self).text(),
            old(self).position() >= old(self).text().len() ==> res is None
                && final(self).position() == old(self).position(),
            old(self).position() < old(self).text().len() ==> {
                &&& res matches Some(p)
                &&& p.0@ == old(self).text().subrange(
                    old(self).position(),
                    old(self).text().len() as int,
                )
                &&& final(self).position() == old(self).text().len()
            },
    {
        walker::next_pretoken(self)
    }

    /// Fills a batch with the next pretokens, at most one here.
    pub fn fill_spans(&mut self, batch: &mut SpanBatch<'a>) -> (n: usize)
        ensures
            final(self).text() == old(self).text(),
            final(batch).spans() == walker::texts(
                old(self).text(),
                walker::spans_from(
                    superword_step(old(self).text()),
                    old(self).position(),
                    walker::PRETOKEN_CHUNK as nat,
                ),
            ),
            n == final(batch).spans().len(),
            final(self).position() == walker::pos_after(
                superword_step(old(self).text()),
                old(self).position(),
                walker::PRETOKEN_CHUNK as nat,
            ),
    {
        walker::fill_spans(self, batch)
    }
}

/// The segment is one pretoken: the empty one yields none, and a chunk of any
/// other is the segment itself.
pub proof fn law_whole_segment(bytes: Seq<u8>, max: nat)
    requires
        max >= 1,
    ensures
        bytes.len() == 0 ==> walker::spans_from(superword_step(bytes), 0, max).len() == 0,
        bytes.len() > 0 ==> walker::texts(
            bytes,
            walker::spans_from(superword_step(bytes), 0, max),
        ) == seq![bytes],
{
    reveal_with_fuel(walker::spans_from, 2);
    if bytes.len() > 0 {
        let spans = walker::spans_from(superword_step(bytes), 0, max);
        assert(spans =~= seq![(0int, bytes.len() as int)]);
        assert(bytes.subrange(0, bytes.len() as int) =~= bytes);
        assert(walker::texts(bytes, spans) =~= seq![bytes]);
    }
}

} // verus!
