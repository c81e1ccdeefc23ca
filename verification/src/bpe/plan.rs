//! The plan of a two-level encode.

use super::byte_remapping;
use super::byte_remapping::ByteRemapping;
use super::cuts;
use super::cuts::SuperwordCuts;
use super::merge;
use super::merge::{Merge, MergeTable, Table};
use super::superword;
use super::superword::Level1Units;
use crate::byte_map::ByteMap;
use crate::pretokenize::fast::dispatch;
use crate::pretokenize::fast::level1;
use crate::pretokenize::fast::level1::Level1Spans;
use crate::pretokenize::options::PretokenizerType;
use crate::pretokenize::walker;
use crate::pretokenize::walker::{SpanBatch, SpanWalker, Step};
use std::sync::Arc;
use vstd::prelude::*;
use vstd::slice::slice_subrange;
use vstd::utf8::*;

verus! {

/// How level 1 pulls its units. All three ways give the same units.
#[derive(Clone, Copy, Debug, PartialEq, Eq, Structural)]
pub enum L1Fill {
    /// One unit at a time.
    Iter,
    /// A chunk of units at a time, each found on its own.
    Buf,
    /// A chunk of units at a time, from a harvest of pretoken boundaries.
    TwoPhase,
}

/// Whether an environment variable with this value is a set flag: any value but
/// `0` is.
pub fn env_flag(value: Option<&str>) -> (res: bool)
    ensures
        res == (value matches Some(v) && v@ != "0"@),
{
    match value {
        None => false,
        Some(v) => {
            let bytes = v.as_bytes();
            proof {
                reveal_strlit("0");
                crate::utf8::lemma_encode_ascii('0');
                assert("0"@ =~= seq!['0']);
                encode_utf8_decode_utf8(v@);
                encode_utf8_decode_utf8("0"@);
                if bytes@.len() == 1 && bytes@[0] == 0x30 {
                    assert(bytes@ =~= seq![0x30u8]);
                }
            }
            !(bytes.len() == 1 && bytes[0] == 0x30)
        },
    }
}

/// Whether a text is an ASCII word, in whatever case.
pub open spec fn same_ignoring_case(bytes: Seq<u8>, word: Seq<u8>) -> bool {
    bytes.len() == word.len() && forall|i: int|
        0 <= i < bytes.len() ==> super::bert_normalizer::ascii_lower(#[trigger] bytes[i]) == word[i]
}

fn equals_ignoring_case(bytes: &[u8], word: &[u8]) -> (res: bool)
    ensures
        res == same_ignoring_case(bytes@, word@),
{
    if bytes.len() != word.len() {
        return false;
    }
    let mut i: usize = 0;
    while i < bytes.len()
        invariant
            i <= bytes@.len(),
            bytes@.len() == word@.len(),
            forall|k: int|
                0 <= k < i ==> super::bert_normalizer::ascii_lower(#[trigger] bytes@[k])
                    == word@[k],
        decreases bytes@.len() - i,
    {
        let b: u8 = bytes[i];
        let low: u8 = if 0x41 <= b && b <= 0x5A {
            b + 32
        } else {
            b
        };
        if low != word[i] {
            return false;
        }
        i += 1;
    }
    true
}

/// How level 1 pulls its units, by the value of an environment variable:
/// `iter`, `buf`, or the harvest for anything else.
pub fn env_l1_fill(value: Option<&str>) -> (res: L1Fill)
    ensures
        res == (match value {
            Some(v) => if same_ignoring_case(encode_utf8(v@), encode_utf8("iter"@)) {
                L1Fill::Iter
            } else if same_ignoring_case(encode_utf8(v@), encode_utf8("buf"@)) {
                L1Fill::Buf
            } else {
                L1Fill::TwoPhase
            },
            None => L1Fill::TwoPhase,
        }),
{
    match value {
        None => L1Fill::TwoPhase,
        Some(v) => if equals_ignoring_case(v.as_bytes(), "iter".as_bytes()) {
            L1Fill::Iter
        } else if equals_ignoring_case(v.as_bytes(), "buf".as_bytes()) {
            L1Fill::Buf
        } else {
            L1Fill::TwoPhase
        },
    }
}

/// The units of a text.
pub open spec fn units(scheme: PretokenizerType, bytes: Seq<u8>) -> Step {
    level1::unit_step(level1::type_ends(scheme, bytes), bytes)
}

/// The tokens of level 1: those of each span, merged on their own.
pub open spec fn level1_tokens(
    table: Table,
    ids: Seq<Option<u32>>,
    bytes: Seq<u8>,
    spans: Seq<(int, int)>,
) -> Seq<u32>
    decreases spans.len(),
{
    if spans.len() == 0 {
        Seq::empty()
    } else {
        level1_tokens(table, ids, bytes, spans.drop_last()) + merge::merged(
            table,
            byte_remapping::byte_tokens(ids, bytes.subrange(spans.last().0, spans.last().1)),
        )
    }
}

/// The tokens of level 2 from index `start` on: the runs between cuts, merged
/// on their own.
pub open spec fn merged_runs(
    cuts: SuperwordCuts,
    table: Table,
    s: Seq<u32>,
    start: int,
) -> Seq<u32>
    decreases s.len() - start,
{
    if start < 0 || start >= s.len() {
        Seq::empty()
    } else {
        let end = cuts.cut_after(s, start);
        if start < end <= s.len() {
            merge::merged(table, s.subrange(start, end)) + merged_runs(cuts, table, s, end)
        } else {
            Seq::empty()
        }
    }
}

/// The scheme with the larger threshold, the second where both are equal.
pub open spec fn better(stage1: Option<u32>, gpt2: Option<u32>) -> Option<(PretokenizerType, u32)> {
    match (stage1, gpt2) {
        (None, None) => None,
        (Some(a), None) => Some((PretokenizerType::SuperBPEStage1, a)),
        (None, Some(b)) => Some((PretokenizerType::GPT2, b)),
        (Some(a), Some(b)) => if a > b {
            Some((PretokenizerType::SuperBPEStage1, a))
        } else {
            Some((PretokenizerType::GPT2, b))
        },
    }
}

/// A two-level plan.
#[derive(Debug)]
pub struct SuperwordPlan {
    stage1: Arc<MergeTable>,
    stage1_scheme: PretokenizerType,
    threshold: u32,
    cuts: Arc<SuperwordCuts>,
    l1_fill: L1Fill,
    use_cuts: bool,
}

impl SuperwordPlan {
    /// The parts of the plan are sound.
    pub closed spec fn well_formed(&self) -> bool {
        &&& self.stage1.well_formed()
        &&& self.cuts.well_formed()
        &&& self.stage1_scheme == PretokenizerType::SuperBPEStage1 || self.stage1_scheme
            == PretokenizerType::GPT2
    }

    /// The merges of level 1.
    pub closed spec fn stage1_table(&self) -> Table {
        self.stage1@
    }

    /// The scheme of the units.
    pub closed spec fn scheme(&self) -> PretokenizerType {
        self.stage1_scheme
    }

    /// The bound below which a merge belongs to level 1.
    pub closed spec fn bound(&self) -> u32 {
        self.threshold
    }

    /// The cuts of level 2.
    pub closed spec fn cut_sets(&self) -> SuperwordCuts {
        *self.cuts
    }

    /// How level 1 pulls its units.
    pub closed spec fn fill(&self) -> L1Fill {
        self.l1_fill
    }

    /// Whether level 2 uses the cuts.
    pub closed spec fn cutting(&self) -> bool {
        self.use_cuts
    }

    /// The tokens of a text after level 1.
    pub open spec fn first_level(&self, ids: Seq<Option<u32>>, bytes: Seq<u8>) -> Seq<u32> {
        level1_tokens(
            self.stage1_table(),
            ids,
            bytes,
            walker::all_spans(units(self.scheme(), bytes), bytes.len()),
        )
    }

    /// The tokens of a text after both levels.
    pub open spec fn tokens(
        &self,
        table: Table,
        ids: Seq<Option<u32>>,
        bytes: Seq<u8>,
    ) -> Seq<u32> {
        let first = self.first_level(ids, bytes);
        if self.cutting() {
            merged_runs(self.cut_sets(), table, first, 0)
        } else {
            merge::merged(table, first)
        }
    }

    /// Derives the plan of a tokenizer whose merges rank by the merged token, or
    /// `None` where it has no superwords.
    pub fn build(
        vocab: &Vec<Vec<u8>>,
        vocab_inv: &ByteMap,
        merges: &MergeTable,
        l1_fill: L1Fill,
        use_cuts: bool,
    ) -> (res: Option<SuperwordPlan>)
        requires
            vocab_inv.well_formed(),
            merges.well_formed(),
        ensures
            planned(
                superword::views(vocab@),
                vocab_inv@,
                merges,
                l1_fill,
                use_cuts,
                u32::MAX,
                res,
            ),
    {
        Self::build_capped(vocab, vocab_inv, merges, l1_fill, use_cuts, u32::MAX)
    }

    /// Derives the plan with the threshold capped. The cap only lowers it, which
    /// moves merges from level 1 to level 2.
    pub fn build_capped(
        vocab: &Vec<Vec<u8>>,
        vocab_inv: &ByteMap,
        merges: &MergeTable,
        l1_fill: L1Fill,
        use_cuts: bool,
        cap: u32,
    ) -> (res: Option<SuperwordPlan>)
        requires
            vocab_inv.well_formed(),
            merges.well_formed(),
        ensures
            planned(
                superword::views(vocab@),
                vocab_inv@,
                merges,
                l1_fill,
                use_cuts,
                cap,
                res,
            ),
    {
        let a = superword::derive_threshold(vocab, merges, PretokenizerType::SuperBPEStage1);
        let b = superword::derive_threshold(vocab, merges, PretokenizerType::GPT2);
        assert(derived(superword::views(vocab@), merges.merges(), a, b));
        let (scheme, threshold) = match (a, b) {
            (None, None) => {
                return None;
            },
            (Some(a), None) => (PretokenizerType::SuperBPEStage1, a),
            (None, Some(b)) => (PretokenizerType::GPT2, b),
            (Some(a), Some(b)) => if a > b {
                (PretokenizerType::SuperBPEStage1, a)
            } else {
                (PretokenizerType::GPT2, b)
            },
        };
        let bound: u32 = if threshold < cap {
            threshold
        } else {
            cap
        };
        let stage1 = merges.restricted(bound);
        let sets = SuperwordCuts::build(vocab, vocab_inv, merges, bound);
        proof {
            sets.lemma_crossing(
                superword::views(vocab@),
                vocab_inv@,
                merges.merges(),
                bound,
                0,
                0,
            );
        }
        Some(
            SuperwordPlan {
                stage1: Arc::new(stage1),
                stage1_scheme: scheme,
                threshold: bound,
                cuts: Arc::new(sets),
                l1_fill,
                use_cuts,
            },
        )
    }

    /// A plan for another worker, on the same tables.
    pub fn fork_sized(&self) -> (res: SuperwordPlan)
        requires
            self.well_formed(),
        ensures
            res.well_formed(),
            res.stage1_table() == self.stage1_table(),
            res.scheme() == self.scheme(),
            res.bound() == self.bound(),
            res.cut_sets() == self.cut_sets(),
            res.fill() == self.fill(),
            res.cutting() == self.cutting(),
    {
        SuperwordPlan {
            stage1: self.stage1.clone(),
            stage1_scheme: self.stage1_scheme,
            threshold: self.threshold,
            cuts: self.cuts.clone(),
            l1_fill: self.l1_fill,
            use_cuts: self.use_cuts,
        }
    }

    /// Appends the level-1 tokens of one unit.
    fn append_unit(&self, ids: &ByteRemapping, unit: &[u8], out: &mut Vec<u32>)
        requires
            self.well_formed(),
            ids.well_formed(),
        ensures
            final(out)@ == old(out)@ + merge::merged(
                self.stage1_table(),
                byte_remapping::byte_tokens(ids.ids(), unit@),
            ),
    {
        let mut symbols: Vec<u32> = Vec::new();
        ids.append(unit, &mut symbols);
        assert(symbols@ =~= byte_remapping::byte_tokens(ids.ids(), unit@));
        self.stage1.merge(&mut symbols);
        out.append(&mut symbols);
    }

    /// Appends the level-1 tokens of a chunk of units.
    fn append_batch(
        &self,
        ids: &ByteRemapping,
        bytes: &[u8],
        batch: &SpanBatch<'_>,
        Ghost(given): Ghost<Seq<(int, int)>>,
        Ghost(more): Ghost<Seq<(int, int)>>,
        out: &mut Vec<u32>,
    )
        requires
            self.well_formed(),
            ids.well_formed(),
            old(out)@ == level1_tokens(self.stage1_table(), ids.ids(), bytes@, given),
            batch.spans() == walker::texts(bytes@, more),
        ensures
            final(out)@ == level1_tokens(self.stage1_table(), ids.ids(), bytes@, given + more),
    {
        let mut i: usize = 0;
        assert(given + more.take(0) =~= given);
        assert(batch.spans().len() == batch.entries@.len());
        while i < batch.entries.len()
            invariant
                self.well_formed(),
                ids.well_formed(),
                i <= batch.entries@.len(),
                batch.spans() == walker::texts(bytes@, more),
                batch.entries@.len() == more.len(),
                out@ == level1_tokens(
                    self.stage1_table(),
                    ids.ids(),
                    bytes@,
                    given + more.take(i as int),
                ),
            decreases batch.entries@.len() - i,
        {
            let unit = batch.span(i);
            proof {
                let longer = given + more.take(i + 1);
                assert(longer.drop_last() =~= given + more.take(i as int));
                assert(longer.last() == more[i as int]);
                assert(unit@ == walker::texts(bytes@, more)[i as int]);
            }
            self.append_unit(ids, unit, out);
            i += 1;
        }
        assert(more.take(more.len() as int) =~= more);
    }

    /// The tokens of a text after level 1.
    pub fn encode_level1(&self, ids: &ByteRemapping, bytes: &[u8]) -> (out: Vec<u32>)
        requires
            self.well_formed(),
            ids.well_formed(),
        ensures
            out@ == self.first_level(ids.ids(), bytes@),
    {
        let ghost step = units(self.stage1_scheme, bytes@);
        let ghost table = self.stage1_table();
        let mut out: Vec<u32> = Vec::new();
        proof {
            assert forall|pos: int| 0 <= pos < bytes@.len() implies pos < #[trigger] level1::type_ends(
                self.stage1_scheme,
                bytes@,
            )(pos) <= bytes@.len() by {
                dispatch::law_tiles(self.stage1_scheme, bytes@, pos);
            }
            level1::lemma_units_forward(level1::type_ends(self.stage1_scheme, bytes@), bytes@);
        }
        if matches!(self.l1_fill, L1Fill::TwoPhase) {
            match Level1Spans::new(bytes, self.stage1_scheme) {
                None => {},
                Some(mut spans) => {
                    let mut batch = SpanBatch::new();
                    let ghost mut n: nat = 0;
                    let mut more = true;
                    while more
                        invariant
                            self.well_formed(),
                            ids.well_formed(),
                            step == units(self.stage1_scheme, bytes@),
                            table == self.stage1_table(),
                            walker::forward(step, bytes@.len() as int),
                            spans.valid(),
                            spans.text() == bytes@,
                            spans.scheme() == self.stage1_scheme,
                            spans.position() == walker::pos_after(step, 0, n),
                            out@ == level1_tokens(
                                table,
                                ids.ids(),
                                bytes@,
                                walker::spans_from(step, 0, n),
                            ),
                            more ==> walker::spans_from(step, 0, n).len() == n,
                            !more ==> step(walker::pos_after(step, 0, n)) is None,
                        decreases
                        (if more {
                            1int
                        } else {
                            0int
                        }),
                        bytes@.len() - n,
                    {
                        proof {
                            walker::law_resume(step, 0, n, walker::PRETOKEN_CHUNK as nat);
                            walker::lemma_span_count(step, bytes@.len() as int, 0, n);
                        }
                        let ghost given = walker::spans_from(step, 0, n);
                        let ghost fresh = walker::spans_from(
                            step,
                            walker::pos_after(step, 0, n),
                            walker::PRETOKEN_CHUNK as nat,
                        );
                        let count: usize = spans.fill_spans(&mut batch);
                        self.append_batch(ids, bytes, &batch, Ghost(given), Ghost(fresh), &mut out);
                        proof {
                            n = n + walker::PRETOKEN_CHUNK as nat;
                            walker::lemma_span_count(step, bytes@.len() as int, 0, n);
                            walker::lemma_spans_step(step, 0, n);
                        }
                        if count < walker::PRETOKEN_CHUNK {
                            more = false;
                        }
                    }
                    proof {
                        walker::lemma_all_spans(step, bytes@.len(), n);
                    }
                    return out;
                },
            }
        }
        let mut walk = Level1Units::new(bytes, self.stage1_scheme);
        if matches!(self.l1_fill, L1Fill::Buf) {
            let mut batch = SpanBatch::new();
            let ghost mut n: nat = 0;
            let mut more = true;
            while more
                invariant
                    self.well_formed(),
                    ids.well_formed(),
                    step == units(self.stage1_scheme, bytes@),
                    table == self.stage1_table(),
                    walker::forward(step, bytes@.len() as int),
                    walk.valid(),
                    walk.text() == bytes@,
                    walk.step() == step,
                    walk.position() == walker::pos_after(step, 0, n),
                    out@ == level1_tokens(
                        table,
                        ids.ids(),
                        bytes@,
                        walker::spans_from(step, 0, n),
                    ),
                    more ==> walker::spans_from(step, 0, n).len() == n,
                    !more ==> step(walker::pos_after(step, 0, n)) is None,
                decreases
                        (if more {
                            1int
                        } else {
                            0int
                        }),
                        bytes@.len() - n,
            {
                proof {
                    walker::law_resume(step, 0, n, walker::PRETOKEN_CHUNK as nat);
                    walker::lemma_span_count(step, bytes@.len() as int, 0, n);
                }
                let ghost given = walker::spans_from(step, 0, n);
                let ghost fresh = walker::spans_from(
                    step,
                    walker::pos_after(step, 0, n),
                    walker::PRETOKEN_CHUNK as nat,
                );
                let count: usize = walk.fill_spans(&mut batch);
                self.append_batch(ids, bytes, &batch, Ghost(given), Ghost(fresh), &mut out);
                proof {
                    n = n + walker::PRETOKEN_CHUNK as nat;
                    walker::lemma_span_count(step, bytes@.len() as int, 0, n);
                    walker::lemma_spans_step(step, 0, n);
                }
                if count < walker::PRETOKEN_CHUNK {
                    more = false;
                }
            }
            proof {
                walker::lemma_all_spans(step, bytes@.len(), n);
            }
            return out;
        }
        let ghost mut n: nat = 0;
        loop
            invariant
                self.well_formed(),
                ids.well_formed(),
                step == units(self.stage1_scheme, bytes@),
                table == self.stage1_table(),
                walker::forward(step, bytes@.len() as int),
                walk.valid(),
                walk.text() == bytes@,
                walk.scheme() == self.stage1_scheme,
                walk.position() == walker::pos_after(step, 0, n),
                walker::spans_from(step, 0, n).len() == n,
                out@ == level1_tokens(table, ids.ids(), bytes@, walker::spans_from(step, 0, n)),
            decreases bytes@.len() - n,
        {
            proof {
                walker::lemma_span_count(step, bytes@.len() as int, 0, n);
                walker::lemma_spans_step(step, 0, n);
            }
            match walk.next_unit() {
                None => {
                    proof {
                        walker::lemma_all_spans(step, bytes@.len(), n);
                    }
                    return out;
                },
                Some((start, end)) => {
                    self.append_unit(ids, slice_subrange(bytes, start, end), &mut out);
                    proof {
                        let longer = walker::spans_from(step, 0, n + 1);
                        assert(longer.drop_last() =~= walker::spans_from(step, 0, n));
                        n = n + 1;
                        walker::lemma_span_count(step, bytes@.len() as int, 0, n);
                    }
                },
            }
        }
    }

    /// The tokens of a text after both levels.
    pub fn encode(&self, merges: &MergeTable, ids: &ByteRemapping, bytes: &[u8]) -> (out: Vec<u32>)
        requires
            self.well_formed(),
            merges.well_formed(),
            ids.well_formed(),
        ensures
            out@ == self.tokens(merges@, ids.ids(), bytes@),
    {
        let mut symbols = self.encode_level1(ids, bytes);
        if !self.use_cuts {
            merges.merge(&mut symbols);
            return symbols;
        }
        let ghost first = symbols@;
        let mut out: Vec<u32> = Vec::new();
        let mut start: usize = 0;
        assert(out@ + merged_runs(*self.cuts, merges@, first, 0) =~= merged_runs(
            *self.cuts,
            merges@,
            first,
            0,
        ));
        while start < symbols.len()
            invariant
                self.well_formed(),
                merges.well_formed(),
                symbols@ == first,
                start <= first.len(),
                merged_runs(*self.cuts, merges@, first, 0) == out@ + merged_runs(
                    *self.cuts,
                    merges@,
                    first,
                    start as int,
                ),
            decreases first.len() - start,
        {
            let end: usize = self.cuts.run_end(&symbols, start);
            let mut run: Vec<u32> = Vec::new();
            run.extend_from_slice(slice_subrange(&symbols, start, end));
            assert(run@ =~= first.subrange(start as int, end as int));
            merges.merge(&mut run);
            let ghost before = out@;
            let ghost done = run@;
            out.append(&mut run);
            assert(before + (done + merged_runs(*self.cuts, merges@, first, end as int)) =~= (before
                + done) + merged_runs(*self.cuts, merges@, first, end as int));
            start = end;
        }
        assert(out@ + Seq::<u32>::empty() =~= out@);
        out
    }
}

/// Whether `a` and `b` are the thresholds of the two schemes.
pub open spec fn derived(
    vocab: Seq<Seq<u8>>,
    merges: Seq<Merge>,
    a: Option<u32>,
    b: Option<u32>,
) -> bool {
    &&& superword::is_threshold(vocab, merges, PretokenizerType::SuperBPEStage1, a)
    &&& superword::is_threshold(vocab, merges, PretokenizerType::GPT2, b)
}

/// Whether `res` is the plan of a tokenizer with the given entries and merges:
/// the better of the two stage 1 schemes, its threshold capped, the merges below
/// it and the cuts above it; none where neither scheme has a threshold.
pub open spec fn planned(
    vocab: Seq<Seq<u8>>,
    inv: Map<Seq<u8>, u32>,
    merges: &MergeTable,
    l1_fill: L1Fill,
    use_cuts: bool,
    cap: u32,
    res: Option<SuperwordPlan>,
) -> bool {
    exists|a: Option<u32>, b: Option<u32>| #[trigger]
        derived(vocab, merges.merges(), a, b) && match better(a, b) {
            None => res is None,
            Some((scheme, threshold)) => {
                &&& res matches Some(plan)
                &&& plan.well_formed()
                &&& plan.scheme() == scheme
                &&& plan.bound() == (if threshold < cap {
                    threshold
                } else {
                    cap
                })
                &&& plan.stage1_table() == merge::below(merges@, plan.bound() as int)
                &&& plan.cut_sets().describes(vocab, inv, merges.merges(), plan.bound())
                &&& plan.fill() == l1_fill
                &&& plan.cutting() == use_cuts
            },
        }
}

} // verus!
