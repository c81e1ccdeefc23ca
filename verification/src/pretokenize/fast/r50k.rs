//! The GPT-2 (r50k) pretokenizer:
//! `'(?:[sdmt]|ll|ve|re)| ?\p{L}+| ?\p{N}+| ?[^\s\p{L}\p{N}]+|\s+(?!\S)|\s+`

use super::scheme::Scheme;
use crate::pretokenize::pattern;
use crate::pretokenize::pattern::Alternative;
use crate::pretokenize::schemes;
use crate::pretokenize::walker;
use crate::pretokenize::walker::{Pretoken, SpanBatch, SpanWalker, Step};
use vstd::prelude::*;

verus! {

/// The GPT-2 pattern.
#[derive(Debug)]
pub struct R50kScheme {
    alternatives: Vec<Alternative>,
}

impl Scheme for R50kScheme {
    closed spec fn valid(&self) -> bool {
        pattern::alts(self.alternatives@) == schemes::gpt2_alts()
    }

    open spec fn end_of(bytes: Seq<u8>, pos: int) -> int {
        pattern::piece_end(schemes::gpt2_alts(), bytes, pos)
    }

    proof fn lemma_end_of(bytes: Seq<u8>, pos: int) {
        schemes::lemma_productive();
        pattern::law_piece_bounds(schemes::gpt2_alts(), bytes, pos);
    }

    fn create() -> Self {
        R50kScheme { alternatives: schemes::gpt2_pattern() }
    }

    fn advance(&self, bytes: &[u8], pos: usize) -> usize {
        proof {
            schemes::lemma_productive();
        }
        pattern::advance(&self.alternatives, bytes, pos)
    }
}

/// The pieces of the pattern.
pub open spec fn r50k_step(bytes: Seq<u8>) -> Step {
    |pos: int|
        if pos >= bytes.len() {
            None
        } else {
            Some((pos, pattern::piece_end(schemes::gpt2_alts(), bytes, pos)))
        }
}

/// Yields the pieces of the GPT-2 pattern.
#[derive(Debug)]
pub struct FastR50kPretokenizer<'a> {
    bytes: &'a [u8],
    pos: usize,
    scheme: R50kScheme,
}

impl<'a> SpanWalker<'a> for FastR50kPretokenizer<'a> {
    closed spec fn valid(&self) -> bool {
        self.scheme.valid()
    }

    closed spec fn text(&self) -> Seq<u8> {
        self.bytes@
    }

    closed spec fn position(&self) -> int {
        self.pos as int
    }

    open spec fn step(&self) -> Step {
        r50k_step(self.text())
    }

    fn bytes(&self) -> &'a [u8] {
        self.bytes
    }

    fn next_span(&mut self) -> Option<(usize, usize)> {
        if self.pos >= self.bytes.len() {
            return None;
        }
        let start: usize = self.pos;
        self.pos = self.scheme.advance(self.bytes, start);
        Some((start, self.pos))
    }
}

impl<'a> FastR50kPretokenizer<'a> {
    /// A walk from the start of the text.
    pub fn new(bytes: &'a [u8]) -> (res: Self)
        ensures
            res.valid(),
            res.text() == bytes@,
            res.position() == 0,
    {
        Self::with_pos(bytes, 0)
    }

    /// Resumes at a byte offset previously returned by [`Self::pos`].
    pub fn with_pos(bytes: &'a [u8], pos: usize) -> (res: Self)
        ensures
            res.valid(),
            res.text() == bytes@,
            res.position() == pos,
    {
        FastR50kPretokenizer { bytes, pos, scheme: R50kScheme::create() }
    }

    /// The current byte offset.
    pub fn pos(&self) -> (pos: usize)
        ensures
            pos == self.position(),
    {
        self.pos
    }

    /// The next pretoken, or `None` at the end of the text.
    pub fn next(&mut self) -> (res: Option<Pretoken<'a>>)
        requires
            old(self).valid(),
        ensures
            final(self).valid(),
            final(self).text() == old(self).text(),
            old(self).position() >= old(self).text().len() ==> res is None
                && final(self).position() == old(self).position(),
            old(self).position() < old(self).text().len() ==> {
                &&& res matches Some(p)
                &&& p.0@ == old(self).text().subrange(old(self).position(), final(self).position())
                &&& final(self).position() == pattern::piece_end(
                    schemes::gpt2_alts(),
                    old(self).text(),
                    old(self).position(),
                )
            },
    {
        walker::next_pretoken(self)
    }

    /// Fills a batch with the next pretokens.
    pub fn fill_spans(&mut self, batch: &mut SpanBatch<'a>) -> (n: usize)
        requires
            old(self).valid(),
        ensures
            final(self).valid(),
            final(self).text() == old(self).text(),
            final(batch).spans() == walker::texts(
                old(self).text(),
                walker::spans_from(
                    r50k_step(old(self).text()),
                    old(self).position(),
                    walker::PRETOKEN_CHUNK as nat,
                ),
            ),
            n == final(batch).spans().len(),
            final(self).position() == walker::pos_after(
                r50k_step(old(self).text()),
                old(self).position(),
                walker::PRETOKEN_CHUNK as nat,
            ),
    {
        walker::fill_spans(self, batch)
    }
}

} // verus!
