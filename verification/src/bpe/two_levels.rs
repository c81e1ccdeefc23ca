//! What two levels give: the tokens that one gives.

use super::byte_remapping;
use super::cuts;
use super::cuts::SuperwordCuts;
use super::merge;
use super::merge::{Merge, Table};
use super::plan;
use super::plan::SuperwordPlan;
use crate::pretokenize::fast::dispatch;
use crate::pretokenize::fast::level1;
use crate::pretokenize::options::PretokenizerType;
use crate::pretokenize::walker;
use vstd::prelude::*;

verus! {

/// Whether no merge of a table has its junction between two sequences.
pub open spec fn closed_boundary(
    table: Table,
    vocab: Seq<Seq<u8>>,
    left: Seq<u32>,
    right: Seq<u32>,
) -> bool {
    left.len() > 0 && right.len() > 0 ==> merge::sealed(
        table,
        vocab,
        merge::text_of(vocab, left),
        merge::bytes_of(vocab, left.last()),
        merge::text_of(vocab, right),
        merge::bytes_of(vocab, right[0]),
    )
}

/// Whether no merge of a table has its junction where a span starts.
pub open spec fn closed_boundaries(
    table: Table,
    vocab: Seq<Seq<u8>>,
    ids: Seq<Option<u32>>,
    bytes: Seq<u8>,
    spans: Seq<(int, int)>,
) -> bool {
    forall|k: int|
        0 <= k < spans.len() ==> closed_boundary(
            table,
            vocab,
            byte_remapping::byte_tokens(ids, bytes.subrange(0, (#[trigger] spans[k]).0)),
            byte_remapping::byte_tokens(ids, bytes.subrange(spans[k].0, spans[k].1)),
        )
}

proof fn lemma_merge_boundary(
    table: Table,
    vocab: Seq<Seq<u8>>,
    left: Seq<u32>,
    right: Seq<u32>,
)
    requires
        merge::consistent(table, vocab),
        closed_boundary(table, vocab, left, right),
    ensures
        merge::merged(table, left + right) == merge::merged(table, left) + merge::merged(
            table,
            right,
        ),
{
    let none = Seq::<u32>::empty();
    assert(merge::merged(table, none) == none);
    if left.len() == 0 {
        assert(left =~= none);
        assert(left + right =~= right);
        assert(none + merge::merged(table, right) =~= merge::merged(table, right));
    } else if right.len() == 0 {
        assert(right =~= none);
        assert(left + right =~= left);
        assert(merge::merged(table, left) + none =~= merge::merged(table, left));
    } else {
        merge::law_independent(table, vocab, left, right);
    }
}

/// Level 1 is merging the text with the merges of level 1: where none of them
/// has its junction where a span starts, the spans can be merged on their own.
pub proof fn law_first_level(
    table: Table,
    vocab: Seq<Seq<u8>>,
    ids: Seq<Option<u32>>,
    bytes: Seq<u8>,
    spans: Seq<(int, int)>,
    end: int,
)
    requires
        merge::consistent(table, vocab),
        level1::tile(spans, end),
        0 <= end <= bytes.len(),
        closed_boundaries(table, vocab, ids, bytes, spans),
    ensures
        plan::level1_tokens(table, ids, bytes, spans) == merge::merged(
            table,
            byte_remapping::byte_tokens(ids, bytes.subrange(0, end)),
        ),
    decreases spans.len(),
{
    if spans.len() == 0 {
        assert(bytes.subrange(0, 0) =~= Seq::<u8>::empty());
        assert(merge::merged(table, Seq::<u32>::empty()) == Seq::<u32>::empty());
    } else {
        let before = spans.drop_last();
        let last = spans.last();
        let k = spans.len() - 1;
        assert(level1::joined(spans, k));
        assert forall|i: int| 0 <= i < before.len() implies #[trigger] level1::joined(before, i) by {
            assert(level1::joined(spans, i));
        }
        assert forall|i: int| 0 <= i < before.len() implies closed_boundary(
            table,
            vocab,
            byte_remapping::byte_tokens(ids, bytes.subrange(0, (#[trigger] before[i]).0)),
            byte_remapping::byte_tokens(ids, bytes.subrange(before[i].0, before[i].1)),
        ) by {
            assert(before[i] == spans[i]);
        }
        if before.len() > 0 {
            assert(before.last() == spans[k - 1]);
        }
        lemma_starts(spans, k);
        law_first_level(table, vocab, ids, bytes, before, last.0);
        let head = bytes.subrange(0, last.0);
        let piece = bytes.subrange(last.0, last.1);
        assert(head + piece =~= bytes.subrange(0, end));
        byte_remapping::lemma_byte_tokens_concat(ids, head, piece);
        lemma_merge_boundary(
            table,
            vocab,
            byte_remapping::byte_tokens(ids, head),
            byte_remapping::byte_tokens(ids, piece),
        );
    }
}

proof fn lemma_starts(spans: Seq<(int, int)>, k: int)
    requires
        level1::tile(
            spans,
            if spans.len() == 0 {
                0
            } else {
                spans.last().1
            },
        ),
        0 <= k < spans.len(),
    ensures
        0 <= spans[k].0,
    decreases k,
{
    assert(level1::joined(spans, k));
    if k > 0 {
        lemma_starts(spans, k - 1);
        assert(level1::joined(spans, k - 1));
    }
}

proof fn lemma_cut_after(sets: SuperwordCuts, s: Seq<u32>, i: int)
    requires
        0 <= i < s.len(),
    ensures
        i < sets.cut_after(s, i) <= s.len(),
        sets.cut_after(s, i) < s.len() ==> !sets.crossing(
            s[sets.cut_after(s, i) - 1],
            s[sets.cut_after(s, i)],
        ),
    decreases s.len() - i,
{
    if i + 1 < s.len() && sets.crossing(s[i], s[i + 1]) {
        lemma_cut_after(sets, s, i + 1);
    }
}

/// Merging the runs between cuts on their own is merging the whole, once the
/// merges below the threshold are exhausted.
pub proof fn law_runs(
    sets: SuperwordCuts,
    table: Table,
    vocab: Seq<Seq<u8>>,
    inv: Map<Seq<u8>, u32>,
    merges: Seq<Merge>,
    threshold: u32,
    s: Seq<u32>,
    start: int,
)
    requires
        sets.describes(vocab, inv, merges, threshold),
        merge::listed_in(table, merges),
        merge::consistent(table, vocab),
        merge::causal(table),
        cuts::inverts(vocab, inv, threshold),
        merge::all_spell(vocab, s),
        merge::settled(merge::below(table, threshold as int), s),
        0 <= start <= s.len(),
    ensures
        plan::merged_runs(sets, table, s, start) == merge::merged(
            table,
            s.subrange(start, s.len() as int),
        ),
    decreases s.len() - start,
{
    let none = Seq::<u32>::empty();
    assert(merge::merged(table, none) == none);
    if start == s.len() {
        assert(s.subrange(start, s.len() as int) =~= none);
    } else {
        lemma_cut_after(sets, s, start);
        let end = sets.cut_after(s, start);
        law_runs(sets, table, vocab, inv, merges, threshold, s, end);
        let left = s.subrange(start, end);
        let right = s.subrange(end, s.len() as int);
        assert(left + right =~= s.subrange(start, s.len() as int));
        if end < s.len() {
            assert(left.last() == s[end - 1]);
            assert(right[0] == s[end]);
            assert(merge::bytes_of(vocab, s[end - 1]).len() > 0);
            assert(merge::bytes_of(vocab, s[end]).len() > 0);
            assert forall|j: int| 0 <= j < merge::pairs(left + right) implies !merge::below(
                table,
                threshold as int,
            ).contains_key(#[trigger] merge::pair_at(left + right, j)) by {
                assert(merge::pair_at(left + right, j) == merge::pair_at(s, start + j));
            }
            cuts::law_cut_is_safe(sets, table, vocab, inv, merges, threshold, left, right);
        } else {
            assert(right =~= none);
            assert(merge::merged(table, left) + none =~= merge::merged(table, left));
        }
    }
}

/// Two levels give what one gives: where no merge below the threshold has its
/// junction at a unit boundary, encoding the units on their own and merging the
/// result is merging the whole text.
pub proof fn law_two_levels(
    plan: SuperwordPlan,
    table: Table,
    vocab: Seq<Seq<u8>>,
    inv: Map<Seq<u8>, u32>,
    merges: Seq<Merge>,
    ids: Seq<Option<u32>>,
    bytes: Seq<u8>,
)
    requires
        dispatch::tiling(plan.scheme()),
        plan.stage1_table() == merge::below(table, plan.bound() as int),
        plan.cut_sets().describes(vocab, inv, merges, plan.bound()),
        merge::listed_in(table, merges),
        merge::consistent(table, vocab),
        cuts::inverts(vocab, inv, plan.bound()),
        plan.cutting() ==> merge::causal(table),
        byte_remapping::bytes_spell(ids, vocab),
        closed_boundaries(
            plan.stage1_table(),
            vocab,
            ids,
            bytes,
            walker::all_spans(plan::units(plan.scheme(), bytes), bytes.len()),
        ),
    ensures
        plan.tokens(table, ids, bytes) == merge::merged(
            table,
            byte_remapping::byte_tokens(ids, bytes),
        ),
{
    let scheme = plan.scheme();
    let step = plan::units(scheme, bytes);
    let low = plan.stage1_table();
    let spans = walker::all_spans(step, bytes.len());
    let end = bytes.len() as int;
    level1::law_units_tile(scheme, bytes);
    assert(bytes.subrange(0, end) =~= bytes);
    assert forall|pair: (u32, u32)| #[trigger] low.contains_key(pair) implies merge::bytes_of(
        vocab,
        low[pair].0,
    ) == merge::bytes_of(vocab, pair.0) + merge::bytes_of(vocab, pair.1) by {
        assert(table.contains_key(pair));
    }
    law_first_level(low, vocab, ids, bytes, spans, end);
    let first = plan.first_level(ids, bytes);
    merge::law_phases(table, plan.bound() as int, byte_remapping::byte_tokens(ids, bytes));
    if plan.cutting() {
        byte_remapping::lemma_byte_tokens_spell(ids, vocab, bytes);
        merge::lemma_all_spell(low, vocab, byte_remapping::byte_tokens(ids, bytes));
        merge::lemma_merged_settled(low, byte_remapping::byte_tokens(ids, bytes));
        law_runs(plan.cut_sets(), table, vocab, inv, merges, plan.bound(), first, 0);
        assert(first.subrange(0, first.len() as int) =~= first);
    }
}

} // verus!
