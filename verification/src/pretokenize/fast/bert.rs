//! The BERT pretokenizer: the text is split at white space, which is dropped,
//! and every punctuation character is isolated. A piece is a maximal run of
//! characters that are neither, or a single punctuation character. Unlike those
//! of the other schemes, the spans do not tile the text.

use crate::pretokenize::unicode::bert;
use crate::pretokenize::unicode::bert::{
    BertCharClass, BERT_BYTE_NON_ASCII, BERT_BYTE_PUNCT, BERT_BYTE_WORD, BERT_BYTE_WS,
};
use crate::pretokenize::walker;
use crate::pretokenize::walker::{Pretoken, SpanBatch, SpanWalker, Step};
use crate::utf8;
use vstd::prelude::*;

verus! {

/// The class of the character at `pos`.
pub open spec fn class_at(bytes: Seq<u8>, pos: int) -> BertCharClass {
    bert::bert_char_class(utf8::cp_at(bytes, pos))
}

/// The end of the longest run of a class from `pos` on.
pub open spec fn class_run_end(class: BertCharClass, bytes: Seq<u8>, pos: int) -> int
    decreases bytes.len() - pos,
{
    if pos < 0 || pos >= bytes.len() {
        bytes.len() as int
    } else if class_at(bytes, pos) == class {
        proof {
            utf8::lemma_cp(bytes, pos);
        }
        class_run_end(class, bytes, utf8::next_pos(bytes, pos))
    } else {
        pos
    }
}

/// The next piece at or after `pos`: past the white space, a punctuation
/// character or a run of word characters.
pub open spec fn bert_step(bytes: Seq<u8>) -> Step {
    |pos: int|
        {
            let start = class_run_end(BertCharClass::Whitespace, bytes, pos);
            if start >= bytes.len() {
                None
            } else if class_at(bytes, start) == BertCharClass::Punct {
                Some((start, utf8::next_pos(bytes, start)))
            } else {
                Some((start, class_run_end(BertCharClass::Word, bytes, start)))
            }
        }
}

/// A run ends within the text, where its class does.
pub proof fn lemma_class_run(class: BertCharClass, bytes: Seq<u8>, pos: int)
    requires
        0 <= pos <= bytes.len(),
    ensures
        pos <= class_run_end(class, bytes, pos) <= bytes.len(),
        class_run_end(class, bytes, pos) < bytes.len() ==> class_at(
            bytes,
            class_run_end(class, bytes, pos),
        ) != class,
        pos < bytes.len() && class_at(bytes, pos) == class ==> pos < class_run_end(
            class,
            bytes,
            pos,
        ),
    decreases bytes.len() - pos,
{
    if pos < bytes.len() {
        utf8::lemma_cp(bytes, pos);
        if class_at(bytes, pos) == class {
            lemma_class_run(class, bytes, utf8::next_pos(bytes, pos));
        }
    }
}

/// Every piece is nonempty, lies within the text and after all earlier ones,
/// and starts with a character that is not white space; where there is no
/// piece, only white space was left.
pub proof fn law_bert_pieces(bytes: Seq<u8>, pos: int)
    requires
        0 <= pos <= bytes.len(),
    ensures
        match bert_step(bytes)(pos) {
            None => class_run_end(BertCharClass::Whitespace, bytes, pos) == bytes.len(),
            Some((start, end)) => {
                &&& pos <= start < end <= bytes.len()
                &&& start == class_run_end(BertCharClass::Whitespace, bytes, pos)
                &&& class_at(bytes, start) != BertCharClass::Whitespace
                &&& class_at(bytes, start) == BertCharClass::Punct ==> end == utf8::next_pos(
                    bytes,
                    start,
                )
                &&& class_at(bytes, start) == BertCharClass::Word ==> end == bytes.len()
                    || class_at(bytes, end) != BertCharClass::Word
            },
        },
{
    lemma_class_run(BertCharClass::Whitespace, bytes, pos);
    let start = class_run_end(BertCharClass::Whitespace, bytes, pos);
    if start < bytes.len() {
        utf8::lemma_cp(bytes, start);
        lemma_class_run(BertCharClass::Word, bytes, start);
    }
}

/// The next piece at or after `pos`, as its start and end; `None` at the end of
/// the text, possibly after a trailing run of white space.
fn next_span(bytes: &[u8], pos: usize) -> (res: Option<(usize, usize)>)
    ensures
        match res {
            None => bert_step(bytes@)(pos as int) is None,
            Some((start, end)) => {
                &&& bert_step(bytes@)(pos as int) == Some((start as int, end as int))
                &&& pos <= start < end <= bytes@.len()
            },
        },
{
    let len: usize = bytes.len();
    let mut start: usize = pos;
    let mut first_len: usize = 0;
    // Skip white space; a punctuation character after it is a piece already.
    while first_len == 0
        invariant
            len == bytes@.len(),
            pos <= start,
            class_run_end(BertCharClass::Whitespace, bytes@, pos as int) == class_run_end(
                BertCharClass::Whitespace,
                bytes@,
                start as int,
            ),
            first_len > 0 ==> {
                &&& start < len
                &&& first_len == utf8::cp_len(bytes@, start as int)
                &&& class_at(bytes@, start as int) == BertCharClass::Word
            },
        decreases
                len - start + (if first_len == 0 {
                    1int
                } else {
                    0int
                }),
    {
        if start >= len {
            return None;
        }
        let b: u8 = bytes[start];
        proof {
            utf8::lemma_cp(bytes@, start as int);
            bert::law_byte_class(b);
        }
        let class: u8 = bert::bert_byte_class(b);
        if class == BERT_BYTE_WS {
            start += 1;
        } else if class == BERT_BYTE_PUNCT {
            return Some((start, start + 1));
        } else if class == BERT_BYTE_WORD {
            first_len = 1;
        } else {
            let (cp, l) = utf8::decode_cp(bytes, start);
            match bert::bert_class_of(cp) {
                BertCharClass::Whitespace => {
                    start += l;
                },
                BertCharClass::Punct => {
                    return Some((start, start + l));
                },
                BertCharClass::Word => {
                    first_len = l;
                },
            }
        }
    }
    // The word run, up to the next white space or punctuation.
    proof {
        utf8::lemma_cp(bytes@, start as int);
    }
    let mut p: usize = start + first_len;
    while p < len
        invariant
            len == bytes@.len(),
            pos <= start < p <= len,
            class_at(bytes@, start as int) == BertCharClass::Word,
            start == class_run_end(BertCharClass::Whitespace, bytes@, pos as int),
            class_run_end(BertCharClass::Word, bytes@, start as int) == class_run_end(
                BertCharClass::Word,
                bytes@,
                p as int,
            ),
        decreases len - p,
    {
        let b: u8 = bytes[p];
        proof {
            utf8::lemma_cp(bytes@, p as int);
            bert::law_byte_class(b);
        }
        let class: u8 = bert::bert_byte_class(b);
        if class == BERT_BYTE_WORD {
            p += 1;
        } else if class != BERT_BYTE_NON_ASCII {
            return Some((start, p));
        } else {
            let (cp, l) = utf8::decode_cp(bytes, p);
            if !matches!(bert::bert_class_of(cp), BertCharClass::Word) {
                return Some((start, p));
            }
            p += l;
        }
    }
    Some((start, len))
}

/// Yields the pieces of the BERT pretokenizer.
#[derive(Debug)]
pub struct FastBertPretokenizer<'a> {
    bytes: &'a [u8],
    pos: usize,
}

impl<'a> SpanWalker<'a> for FastBertPretokenizer<'a> {
    open spec fn valid(&self) -> bool {
        true
    }

    closed spec fn text(&self) -> Seq<u8> {
        self.bytes@
    }

    closed spec fn position(&self) -> int {
        self.pos as int
    }

    open spec fn step(&self) -> Step {
        bert_step(self.text())
    }

    fn bytes(&self) -> &'a [u8] {
        self.bytes
    }

    fn next_span(&mut self) -> Option<(usize, usize)> {
        match next_span(self.bytes, self.pos) {
            None => None,
            Some((start, end)) => {
                self.pos = end;
                Some((start, end))
            },
        }
    }
}

impl<'a> FastBertPretokenizer<'a> {
    /// A walk from the start of the text.
    pub fn new(bytes: &'a [u8]) -> (res: Self)
        ensures
            res.text() == bytes@,
            res.position() == 0,
    {
        FastBertPretokenizer { bytes, pos: 0 }
    }

    /// Resumes at a byte offset previously returned by [`Self::pos`].
    pub fn with_pos(bytes: &'a [u8], pos: usize) -> (res: Self)
        ensures
            res.text() == bytes@,
            res.position() == pos,
    {
        FastBertPretokenizer { bytes, pos }
    }

    /// The current byte offset.
    pub fn pos(&self) -> (pos: usize)
        ensures
            pos == self.position(),
    {
        self.pos
    }

    /// The next pretoken, or `None` at the end of the text.
    pub fn next(&mut self) -> (res: Option<Pretoken<'a>>)
        ensures
            final(self).text() == old(self).text(),
            match bert_step(old(self).text())(old(self).position()) {
                None => res is None && final(self).position() == old(self).position(),
                Some((start, end)) => {
                    &&& res matches Some(p)
                    &&& p.0@ == old(self).text().subrange(start, end)
                    &&& final(self).position() == end
                },
            },
    {
        walker::next_pretoken(self)
    }

    /// Fills a batch with the next pretokens.
    pub fn fill_spans(&mut self, batch: &mut SpanBatch<'a>) -> (n: usize)
        ensures
            final(self).text() == old(self).text(),
            final(batch).spans() == walker::texts(
                old(self).text(),
                walker::spans_from(
                    bert_step(old(self).text()),
                    old(self).position(),
                    walker::PRETOKEN_CHUNK as nat,
                ),
            ),
            n == final(batch).spans().len(),
            final(self).position() == walker::pos_after(
                bert_step(old(self).text()),
                old(self).position(),
                walker::PRETOKEN_CHUNK as nat,
            ),
    {
        walker::fill_spans(self, batch)
    }
}

} // verus!
