//! Walkers over a text that yield spans of it, one at a time or in chunks.

use vstd::prelude::*;
use vstd::slice::slice_subrange;

verus! {

/// A piece of the text, handed to the merge loop as a whole.
#[derive(Clone, Copy, Debug, PartialEq, Eq)]
pub struct Pretoken<'a>(pub &'a [u8]);

/// How many spans a fill hands out at most. A fill that hands out fewer has
/// reached the end of the text.
pub const PRETOKEN_CHUNK: usize = 256;

/// From an offset, the next span as its start and end, if there is one. The
/// walk goes on from the end.
pub type Step = spec_fn(int) -> Option<(int, int)>;

/// The first spans, at most `max`, that a step function gives from `pos` on.
pub open spec fn spans_from(step: Step, pos: int, max: nat) -> Seq<(int, int)>
    decreases max,
{
    if max == 0 {
        Seq::empty()
    } else {
        match step(pos) {
            None => Seq::empty(),
            Some(span) => seq![span] + spans_from(step, span.1, (max - 1) as nat),
        }
    }
}

/// Where the walk stands after at most `max` spans.
pub open spec fn pos_after(step: Step, pos: int, max: nat) -> int
    decreases max,
{
    if max == 0 {
        pos
    } else {
        match step(pos) {
            None => pos,
            Some(span) => pos_after(step, span.1, (max - 1) as nat),
        }
    }
}

/// The bytes of each span.
pub open spec fn texts(bytes: Seq<u8>, spans: Seq<(int, int)>) -> Seq<Seq<u8>> {
    Seq::new(spans.len(), |i: int| bytes.subrange(spans[i].0, spans[i].1))
}

/// One more span, where there is one.
pub proof fn lemma_spans_step(step: Step, pos: int, n: nat)
    ensures
        match step(pos_after(step, pos, n)) {
            None => {
                &&& spans_from(step, pos, n + 1) == spans_from(step, pos, n)
                &&& pos_after(step, pos, n + 1) == pos_after(step, pos, n)
            },
            Some(span) => {
                &&& spans_from(step, pos, n).len() == n ==> spans_from(step, pos, n + 1)
                    == spans_from(step, pos, n).push(span)
                &&& pos_after(step, pos, n + 1) == span.1
            },
        },
        spans_from(step, pos, n).len() <= n,
        spans_from(step, pos, n).len() < n ==> step(pos_after(step, pos, n)) is None,
    decreases n,
{
    reveal_with_fuel(spans_from, 2);
    reveal_with_fuel(pos_after, 2);
    if n > 0 {
        match step(pos) {
            None => {},
            Some(span) => {
                lemma_spans_step(step, span.1, (n - 1) as nat);
                let rest = spans_from(step, span.1, (n - 1) as nat);
                if let Some(last) = step(pos_after(step, pos, n)) {
                    assert(seq![span] + rest.push(last) =~= (seq![span] + rest).push(last));
                }
            },
        }
    } else {
        if let Some(span) = step(pos) {
            assert(spans_from(step, pos, 1) =~= Seq::<(int, int)>::empty().push(span));
        }
    }
}

/// Past the end of a walk there are no further spans.
pub proof fn lemma_spans_exhausted(step: Step, pos: int, n: nat, m: nat)
    requires
        n <= m,
        step(pos_after(step, pos, n)) is None,
    ensures
        spans_from(step, pos, m) == spans_from(step, pos, n),
        pos_after(step, pos, m) == pos_after(step, pos, n),
    decreases m - n,
{
    if n < m {
        lemma_spans_step(step, pos, n);
        lemma_spans_exhausted(step, pos, n + 1, m);
    }
}

/// A walk can be resumed: what comes after `n` spans is what a walk from where
/// they left off gives.
pub proof fn law_resume(step: Step, pos: int, n: nat, m: nat)
    ensures
        spans_from(step, pos, n + m) == spans_from(step, pos, n) + spans_from(
            step,
            pos_after(step, pos, n),
            m,
        ),
        pos_after(step, pos, n + m) == pos_after(step, pos_after(step, pos, n), m),
    decreases n,
{
    if n == 0 {
        assert(Seq::<(int, int)>::empty() + spans_from(step, pos, m) =~= spans_from(step, pos, m));
    } else {
        match step(pos) {
            None => {
                assert(spans_from(step, pos, m).len() == 0);
                assert(spans_from(step, pos, n) + spans_from(step, pos, m)
                    =~= Seq::<(int, int)>::empty());
            },
            Some(span) => {
                law_resume(step, span.1, (n - 1) as nat, m);
                let rest = spans_from(step, span.1, (n - 1) as nat);
                let more = spans_from(step, pos_after(step, pos, n), m);
                assert(seq![span] + (rest + more) =~= (seq![span] + rest) + more);
            },
        }
    }
}

/// Whether the spans of a step function are nonempty, in order and within a
/// text of the given length.
pub open spec fn forward(step: Step, len: int) -> bool {
    forall|pos: int|
        0 <= pos ==> match #[trigger] step(pos) {
            None => true,
            Some(span) => pos <= span.0 < span.1 <= len,
        }
}

/// There are no more spans than bytes.
pub proof fn lemma_span_count(step: Step, len: int, pos: int, n: nat)
    requires
        forward(step, len),
        0 <= pos <= len,
    ensures
        spans_from(step, pos, n).len() <= len - pos,
        pos <= pos_after(step, pos, n) <= len,
        n >= len - pos ==> step(pos_after(step, pos, n)) is None,
    decreases n,
{
    if n > 0 {
        if let Some(span) = step(pos) {
            lemma_span_count(step, len, span.1, (n - 1) as nat);
        }
    } else {
        if let Some(span) = step(pos) {
            assert(pos <= span.0 < span.1 <= len);
        }
    }
}

/// All spans of a text.
pub open spec fn all_spans(step: Step, len: nat) -> Seq<(int, int)> {
    spans_from(step, 0, len)
}

/// A walk that has ended has given all spans.
pub proof fn lemma_all_spans(step: Step, len: nat, n: nat)
    requires
        forward(step, len as int),
        step(pos_after(step, 0, n)) is None,
    ensures
        spans_from(step, 0, n) == all_spans(step, len),
{
    lemma_span_count(step, len as int, 0, len);
    if n <= len {
        lemma_spans_exhausted(step, 0, n, len);
    } else {
        lemma_spans_exhausted(step, 0, len, n);
    }
}

/// A chunk of spans.
#[derive(Debug)]
pub struct SpanBatch<'a> {
    pub entries: Vec<&'a [u8]>,
}

impl<'a> SpanBatch<'a> {
    /// The bytes of the spans.
    pub open spec fn spans(self) -> Seq<Seq<u8>> {
        Seq::new(self.entries@.len(), |i: int| self.entries@[i]@)
    }

    /// An empty batch.
    pub fn new() -> (batch: Self)
        ensures
            batch.spans() == Seq::<Seq<u8>>::empty(),
    {
        let batch = SpanBatch { entries: Vec::new() };
        assert(batch.spans() =~= Seq::<Seq<u8>>::empty());
        batch
    }

    /// The bytes of the `i`th span.
    pub fn span(&self, i: usize) -> (span: &'a [u8])
        requires
            i < self.spans().len(),
        ensures
            span@ == self.spans()[i as int],
    {
        self.entries[i]
    }
}

/// A position in a text from which spans are read in order.
pub trait SpanWalker<'a>: Sized {
    /// The walker's own invariant.
    spec fn valid(&self) -> bool;

    /// The text.
    spec fn text(&self) -> Seq<u8>;

    /// Where the walk stands.
    spec fn position(&self) -> int;

    /// What the spans are.
    spec fn step(&self) -> Step;

    /// The text.
    fn bytes(&self) -> (bytes: &'a [u8])
        requires
            self.valid(),
        ensures
            bytes@ == self.text(),
    ;

    /// The next span as offsets, or `None` at the end of the text. Spans are
    /// nonempty, within the text and in order.
    fn next_span(&mut self) -> (res: Option<(usize, usize)>)
        requires
            old(self).valid(),
        ensures
            final(self).valid(),
            final(self).text() == old(self).text(),
            final(self).step() == old(self).step(),
            match res {
                None => {
                    &&& old(self).step()(old(self).position()) is None
                    &&& final(self).position() == old(self).position()
                },
                Some((start, end)) => {
                    &&& old(self).step()(old(self).position()) == Some((start as int, end as int))
                    &&& final(self).position() == end
                    &&& old(self).position() <= start < end <= old(self).text().len()
                },
            },
    ;
}

/// The next span's bytes.
pub fn next_pretoken<'a, W: SpanWalker<'a>>(walker: &mut W) -> (res: Option<Pretoken<'a>>)
    requires
        old(walker).valid(),
    ensures
        final(walker).valid(),
        final(walker).text() == old(walker).text(),
        final(walker).step() == old(walker).step(),
        match old(walker).step()(old(walker).position()) {
            None => res is None && final(walker).position() == old(walker).position(),
            Some(span) => {
                &&& res matches Some(p)
                &&& p.0@ == old(walker).text().subrange(span.0, span.1)
                &&& final(walker).position() == span.1
            },
        },
{
    let bytes = walker.bytes();
    match walker.next_span() {
        None => None,
        Some((start, end)) => Some(Pretoken(slice_subrange(bytes, start, end))),
    }
}

/// Replaces the contents of `batch` with the next spans, at most
/// [`PRETOKEN_CHUNK`], and returns how many there are.
pub fn fill_spans<'a, W: SpanWalker<'a>>(walker: &mut W, batch: &mut SpanBatch<'a>) -> (n: usize)
    requires
        old(walker).valid(),
    ensures
        final(walker).valid(),
        final(walker).text() == old(walker).text(),
        final(walker).step() == old(walker).step(),
        final(batch).spans() == texts(
            old(walker).text(),
            spans_from(old(walker).step(), old(walker).position(), PRETOKEN_CHUNK as nat),
        ),
        n == final(batch).spans().len(),
        final(walker).position() == pos_after(
            old(walker).step(),
            old(walker).position(),
            PRETOKEN_CHUNK as nat,
        ),
{
    let bytes = walker.bytes();
    let ghost step = walker.step();
    let ghost pos = walker.position();
    let mut entries: Vec<&'a [u8]> = Vec::new();
    let mut n: usize = 0;
    while n < PRETOKEN_CHUNK
        invariant
            walker.valid(),
            walker.text() == bytes@,
            walker.step() == step,
            walker.position() == pos_after(step, pos, n as nat),
            n <= PRETOKEN_CHUNK,
            entries@.len() == n,
            spans_from(step, pos, n as nat).len() == n,
            forall|i: int|
                0 <= i < n ==> (#[trigger] entries@[i])@ == texts(
                    bytes@,
                    spans_from(step, pos, n as nat),
                )[i],
            bytes@ == old(walker).text(),
            step == old(walker).step(),
            pos == old(walker).position(),
        decreases PRETOKEN_CHUNK - n,
    {
        proof {
            lemma_spans_step(step, pos, n as nat);
        }
        match walker.next_span() {
            None => {
                proof {
                    lemma_spans_exhausted(step, pos, n as nat, PRETOKEN_CHUNK as nat);
                }
                *batch = SpanBatch { entries };
                assert(batch.spans() =~= texts(
                    bytes@,
                    spans_from(step, pos, PRETOKEN_CHUNK as nat),
                ));
                return n;
            },
            Some((start, end)) => {
                entries.push(slice_subrange(bytes, start, end));
                n += 1;
            },
        }
    }
    *batch = SpanBatch { entries };
    assert(batch.spans() =~= texts(bytes@, spans_from(step, pos, PRETOKEN_CHUNK as nat)));
    n
}

} // verus!
