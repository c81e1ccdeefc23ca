//! A pretokenizer chosen at run time.

use super::bert;
use super::bert::FastBertPretokenizer;
use super::r50k;
use super::r50k::FastR50kPretokenizer;
use super::superbpe_stage1;
use super::superbpe_stage1::FastSuperBPEStage1Pretokenizer;
use super::superword;
use super::superword::FastSuperwordPretokenizer;
use super::superword_bounded;
use super::superword_bounded::FastSuperwordBoundedPretokenizer;
use crate::pretokenize::options::PretokenizerType;
use crate::pretokenize::pattern;
use crate::pretokenize::schemes;
use crate::pretokenize::walker;
use crate::pretokenize::walker::{Pretoken, SpanBatch, SpanWalker, Step};
use vstd::prelude::*;

verus! {

/// The pretokens of a scheme.
pub open spec fn type_step(scheme: PretokenizerType, bytes: Seq<u8>) -> Step {
    match scheme {
        PretokenizerType::GPT2 => r50k::r50k_step(bytes),
        PretokenizerType::SuperBPEStage1 => superbpe_stage1::stage1_step(bytes),
        PretokenizerType::Superword => superword::superword_step(bytes),
        PretokenizerType::SuperwordBounded => superword_bounded::bounded_step(bytes),
        PretokenizerType::Bert => bert::bert_step(bytes),
    }
}

/// Whether the pretokens of a scheme tile the text: all but BERT's do.
pub open spec fn tiling(scheme: PretokenizerType) -> bool {
    scheme != PretokenizerType::Bert
}

/// The end of the pretoken of a tiling scheme that starts at `pos`.
pub open spec fn pretoken_end(scheme: PretokenizerType, bytes: Seq<u8>, pos: int) -> int {
    match scheme {
        PretokenizerType::GPT2 => pattern::piece_end(schemes::gpt2_alts(), bytes, pos),
        PretokenizerType::SuperBPEStage1 => pattern::piece_end(schemes::stage1_alts(), bytes, pos),
        PretokenizerType::SuperwordBounded => pattern::piece_end(
            schemes::bounded_alts(),
            bytes,
            pos,
        ),
        PretokenizerType::Superword | PretokenizerType::Bert => bytes.len() as int,
    }
}

/// Every pretoken of a tiling scheme starts where the one before it ended.
pub proof fn law_tiles(scheme: PretokenizerType, bytes: Seq<u8>, pos: int)
    requires
        tiling(scheme),
        0 <= pos,
    ensures
        pos >= bytes.len() ==> type_step(scheme, bytes)(pos) is None,
        pos < bytes.len() ==> {
            &&& type_step(scheme, bytes)(pos) == Some((pos, pretoken_end(scheme, bytes, pos)))
            &&& pos < pretoken_end(scheme, bytes, pos) <= bytes.len()
        },
{
    if pos < bytes.len() {
        schemes::lemma_productive();
        pattern::law_piece_bounds(schemes::gpt2_alts(), bytes, pos);
        pattern::law_piece_bounds(schemes::stage1_alts(), bytes, pos);
        pattern::law_piece_bounds(schemes::bounded_alts(), bytes, pos);
    }
}

/// Every scheme's pretokens are nonempty, in order and within the text.
pub proof fn lemma_forward(scheme: PretokenizerType, bytes: Seq<u8>)
    ensures
        walker::forward(type_step(scheme, bytes), bytes.len() as int),
{
    let step = type_step(scheme, bytes);
    assert forall|pos: int| 0 <= pos implies match #[trigger] step(pos) {
        None => true,
        Some(span) => pos <= span.0 < span.1 <= bytes.len(),
    } by {
        if tiling(scheme) {
            law_tiles(scheme, bytes, pos);
        } else if pos <= bytes.len() {
            bert::law_bert_pieces(bytes, pos);
        }
    }
}

/// A walk over a text with a scheme chosen at run time.
#[derive(Debug)]
pub enum FastPretokenizerDispatch<'a> {
    GPT2(FastR50kPretokenizer<'a>),
    SuperBPEStage1(FastSuperBPEStage1Pretokenizer<'a>),
    Superword(FastSuperwordPretokenizer<'a>),
    SuperwordBounded(FastSuperwordBoundedPretokenizer<'a>),
    Bert(FastBertPretokenizer<'a>),
}

impl<'a> FastPretokenizerDispatch<'a> {
    /// The scheme.
    pub open spec fn scheme(&self) -> PretokenizerType {
        match self {
            FastPretokenizerDispatch::GPT2(_) => PretokenizerType::GPT2,
            FastPretokenizerDispatch::SuperBPEStage1(_) => PretokenizerType::SuperBPEStage1,
            FastPretokenizerDispatch::Superword(_) => PretokenizerType::Superword,
            FastPretokenizerDispatch::SuperwordBounded(_) => PretokenizerType::SuperwordBounded,
            FastPretokenizerDispatch::Bert(_) => PretokenizerType::Bert,
        }
    }
}

impl<'a> SpanWalker<'a> for FastPretokenizerDispatch<'a> {
    open spec fn valid(&self) -> bool {
        match self {
            FastPretokenizerDispatch::GPT2(w) => w.valid(),
            FastPretokenizerDispatch::SuperBPEStage1(w) => w.valid(),
            FastPretokenizerDispatch::Superword(w) => w.valid(),
            FastPretokenizerDispatch::SuperwordBounded(w) => w.valid(),
            FastPretokenizerDispatch::Bert(w) => w.valid(),
        }
    }

    open spec fn text(&self) -> Seq<u8> {
        match self {
            FastPretokenizerDispatch::GPT2(w) => w.text(),
            FastPretokenizerDispatch::SuperBPEStage1(w) => w.text(),
            FastPretokenizerDispatch::Superword(w) => w.text(),
            FastPretokenizerDispatch::SuperwordBounded(w) => w.text(),
            FastPretokenizerDispatch::Bert(w) => w.text(),
        }
    }

    open spec fn position(&self) -> int {
        match self {
            FastPretokenizerDispatch::GPT2(w) => w.position(),
            FastPretokenizerDispatch::SuperBPEStage1(w) => w.position(),
            FastPretokenizerDispatch::Superword(w) => w.position(),
            FastPretokenizerDispatch::SuperwordBounded(w) => w.position(),
            FastPretokenizerDispatch::Bert(w) => w.position(),
        }
    }

    open spec fn step(&self) -> Step {
        type_step(self.scheme(), self.text())
    }

    fn bytes(&self) -> &'a [u8] {
        match self {
            FastPretokenizerDispatch::GPT2(w) => w.bytes(),
            FastPretokenizerDispatch::SuperBPEStage1(w) => w.bytes(),
            FastPretokenizerDispatch::Superword(w) => w.bytes(),
            FastPretokenizerDispatch::SuperwordBounded(w) => w.bytes(),
            FastPretokenizerDispatch::Bert(w) => w.bytes(),
        }
    }

    fn next_span(&mut self) -> (res: Option<(usize, usize)>)
        ensures
            final(self).scheme() == old(self).scheme(),
    {
        match self {
            FastPretokenizerDispatch::GPT2(w) => w.next_span(),
            FastPretokenizerDispatch::SuperBPEStage1(w) => w.next_span(),
            FastPretokenizerDispatch::Superword(w) => w.next_span(),
            FastPretokenizerDispatch::SuperwordBounded(w) => w.next_span(),
            FastPretokenizerDispatch::Bert(w) => w.next_span(),
        }
    }
}

impl PretokenizerType {
    /// A walk over `bytes` with this scheme.
    pub fn pretokenize<'a>(self, bytes: &'a [u8]) -> (res: FastPretokenizerDispatch<'a>)
        ensures
            res.valid(),
            res.text() == bytes@,
            res.position() == 0,
            res.scheme() == self,
    {
        match self {
            PretokenizerType::GPT2 => FastPretokenizerDispatch::GPT2(
                FastR50kPretokenizer::new(bytes),
            ),
            PretokenizerType::SuperBPEStage1 => FastPretokenizerDispatch::SuperBPEStage1(
                FastSuperBPEStage1Pretokenizer::new(bytes),
            ),
            PretokenizerType::Superword => FastPretokenizerDispatch::Superword(
                FastSuperwordPretokenizer::new(bytes),
            ),
            PretokenizerType::SuperwordBounded => FastPretokenizerDispatch::SuperwordBounded(
                FastSuperwordBoundedPretokenizer::new(bytes),
            ),
            PretokenizerType::Bert => FastPretokenizerDispatch::Bert(
                FastBertPretokenizer::new(bytes),
            ),
        }
    }
}

impl<'a> FastPretokenizerDispatch<'a> {
    /// The next pretoken, or `None` at the end of the text.
    pub fn next(&mut self) -> (res: Option<Pretoken<'a>>)
        requires
            old(self).valid(),
        ensures
            final(self).valid(),
            final(self).text() == old(self).text(),
            final(self).step() == old(self).step(),
            match old(self).step()(old(self).position()) {
                None => res is None && final(self).position() == old(self).position(),
                Some((start, end)) => {
                    &&& res matches Some(p)
                    &&& p.0@ == old(self).text().subrange(start, end)
                    &&& final(self).position() == end
                },
            },
    {
        walker::next_pretoken(self)
    }

    /// Fills a batch with the next pretokens.
    pub fn fill_spans(&mut self, batch: &mut SpanBatch<'a>) -> (n: usize)
        requires
            old(self).valid(),
        ensures
            final(self).valid(),
            final(self).text() == old(self).text(),
            final(self).step() == old(self).step(),
            final(batch).spans() == walker::texts(
                old(self).text(),
                walker::spans_from(
                    old(self).step(),
                    old(self).position(),
                    walker::PRETOKEN_CHUNK as nat,
                ),
            ),
            n == final(batch).spans().len(),
            final(self).position() == walker::pos_after(
                old(self).step(),
                old(self).position(),
                walker::PRETOKEN_CHUNK as nat,
            ),
    {
        walker::fill_spans(self, batch)
    }
}

} // verus!
