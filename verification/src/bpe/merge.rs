//! Merge tables and the merge loop.
//!
//! A merge table says which pairs of adjacent tokens may become one, and how
//! urgent each is. Merging a sequence means to replace, again and again, the
//! most urgent pair in it, the leftmost where several are equally urgent, until
//! no pair is left that may be merged.

use std::collections::HashMap;
use vstd::prelude::*;

verus! {

broadcast use vstd::std_specs::hash::group_hash_axioms;

/// A merge: `left` and `right` become `merged`; the lowest rank goes first.
#[derive(Clone, Copy, Debug, PartialEq, Eq, Structural)]
pub struct Merge {
    pub left: u32,
    pub right: u32,
    pub merged: u32,
    pub rank: u32,
}

/// What a merge table says: for a pair, the merged token and the rank.
pub type Table = Map<(u32, u32), (u32, u32)>;

/// The first `n` merges as a table; of two merges of one pair, the earlier
/// counts.
pub open spec fn table_of(merges: Seq<Merge>, n: nat) -> Table
    decreases n,
{
    if n == 0 || n > merges.len() {
        Map::empty()
    } else {
        let before = table_of(merges, (n - 1) as nat);
        let m = merges[n - 1];
        if before.contains_key((m.left, m.right)) {
            before
        } else {
            before.insert((m.left, m.right), (m.merged, m.rank))
        }
    }
}

/// The table of the first merges does not depend on later ones.
pub proof fn lemma_table_of_prefix(merges: Seq<Merge>, longer: Seq<Merge>, n: nat)
    requires
        n <= merges.len() <= longer.len(),
        forall|i: int| 0 <= i < n ==> merges[i] == longer[i],
    ensures
        table_of(merges, n) == table_of(longer, n),
    decreases n,
{
    if n > 0 {
        lemma_table_of_prefix(merges, longer, (n - 1) as nat);
    }
}

/// Whether `m` is the merge of a pair in a table.
pub open spec fn is_merge(m: Merge, pair: (u32, u32), table: Table) -> bool {
    m.left == pair.0 && m.right == pair.1 && (m.merged, m.rank) == table[pair]
}

/// Whether every merge of a table is in a list.
pub open spec fn listed_in(table: Table, merges: Seq<Merge>) -> bool {
    forall|pair: (u32, u32)| #[trigger]
        table.contains_key(pair) ==> exists|i: int|
            0 <= i < merges.len() && is_merge(#[trigger] merges[i], pair, table)
}

/// The merges of a table whose rank is below a bound.
pub open spec fn below(table: Table, bound: int) -> Table {
    Map::new(
        |pair: (u32, u32)| table.contains_key(pair) && table[pair].1 < bound,
        |pair: (u32, u32)| table[pair],
    )
}

/// The pair at index `i`.
pub open spec fn pair_at(s: Seq<u32>, i: int) -> (u32, u32) {
    (s[i], s[i + 1])
}

/// The index of the most urgent pair among the first `n`, leftmost first.
pub open spec fn best_pair(table: Table, s: Seq<u32>, n: nat) -> Option<int>
    decreases n,
{
    if n == 0 {
        None
    } else {
        let before = best_pair(table, s, (n - 1) as nat);
        if !table.contains_key(pair_at(s, n - 1)) {
            before
        } else {
            match before {
                None => Some(n - 1),
                Some(i) => if table[pair_at(s, n - 1)].1 < table[pair_at(s, i)].1 {
                    Some(n - 1)
                } else {
                    Some(i)
                },
            }
        }
    }
}

/// The number of adjacent pairs.
pub open spec fn pairs(s: Seq<u32>) -> nat {
    if s.len() < 2 {
        0
    } else {
        (s.len() - 1) as nat
    }
}

/// A sequence with the pair at `i` replaced by one token.
pub open spec fn replaced(s: Seq<u32>, i: int, token: u32) -> Seq<u32> {
    s.subrange(0, i).push(token) + s.subrange(i + 2, s.len() as int)
}

/// A sequence after all merges.
pub open spec fn merged(table: Table, s: Seq<u32>) -> Seq<u32>
    decreases s.len(),
{
    match best_pair(table, s, pairs(s)) {
        None => s,
        Some(i) => if 0 <= i < s.len() - 1 {
            merged(table, replaced(s, i, table[pair_at(s, i)].0))
        } else {
            s
        },
    }
}

/// The best pair is one of the pairs, none is more urgent, and none to its left
/// is equally urgent; without one, no pair may be merged.
pub proof fn lemma_best_pair(table: Table, s: Seq<u32>, n: nat)
    ensures
        match best_pair(table, s, n) {
            None => forall|j: int| 0 <= j < n ==> !table.contains_key(#[trigger] pair_at(s, j)),
            Some(i) => {
                &&& 0 <= i < n
                &&& table.contains_key(pair_at(s, i))
                &&& forall|j: int|
                    0 <= j < n && table.contains_key(#[trigger] pair_at(s, j)) ==> table[pair_at(
                        s,
                        i,
                    )].1 <= table[pair_at(s, j)].1
                &&& forall|j: int|
                    0 <= j < i && table.contains_key(#[trigger] pair_at(s, j)) ==> table[pair_at(
                        s,
                        i,
                    )].1 < table[pair_at(s, j)].1
            },
        },
    decreases n,
{
    if n > 0 {
        lemma_best_pair(table, s, (n - 1) as nat);
    }
}

/// What is stated of the best pair determines it.
pub proof fn lemma_best_is(table: Table, s: Seq<u32>, n: nat, i: int)
    requires
        0 <= i < n,
        table.contains_key(pair_at(s, i)),
        forall|j: int|
            0 <= j < n && table.contains_key(#[trigger] pair_at(s, j)) ==> table[pair_at(s, i)].1
                <= table[pair_at(s, j)].1,
        forall|j: int|
            0 <= j < i && table.contains_key(#[trigger] pair_at(s, j)) ==> table[pair_at(s, i)].1
                < table[pair_at(s, j)].1,
    ensures
        best_pair(table, s, n) == Some(i),
{
    lemma_best_pair(table, s, n);
    match best_pair(table, s, n) {
        None => {
            assert(!table.contains_key(pair_at(s, i)));
        },
        Some(k) => {
            assert(table.contains_key(pair_at(s, k)));
            assert(table.contains_key(pair_at(s, i)));
        },
    }
}

/// No pair that may be merged means no best pair.
pub proof fn lemma_no_best(table: Table, s: Seq<u32>, n: nat)
    requires
        forall|j: int| 0 <= j < n ==> !table.contains_key(#[trigger] pair_at(s, j)),
    ensures
        best_pair(table, s, n) is None,
{
    lemma_best_pair(table, s, n);
    if let Some(i) = best_pair(table, s, n) {
        assert(table.contains_key(pair_at(s, i)));
    }
}

/// Merging goes in phases: to merge with the whole table is to merge first with
/// the merges below any bound on the rank, and then with the whole table.
pub proof fn law_phases(table: Table, bound: int, s: Seq<u32>)
    ensures
        merged(table, s) == merged(table, merged(below(table, bound), s)),
    decreases s.len(),
{
    let low = below(table, bound);
    let n = pairs(s);
    lemma_best_pair(table, s, n);
    match best_pair(table, s, n) {
        Some(i) if table[pair_at(s, i)].1 < bound => {
            assert forall|j: int|
                0 <= j < n && low.contains_key(#[trigger] pair_at(s, j)) implies low[pair_at(
                s,
                i,
            )].1 <= low[pair_at(s, j)].1 by {
                assert(table.contains_key(pair_at(s, j)));
            }
            lemma_best_is(low, s, n, i);
            law_phases(table, bound, replaced(s, i, table[pair_at(s, i)].0));
        },
        best => {
            assert forall|j: int| 0 <= j < n implies !low.contains_key(
                #[trigger] pair_at(s, j),
            ) by {
                if low.contains_key(pair_at(s, j)) {
                    assert(table.contains_key(pair_at(s, j)));
                }
            }
            lemma_no_best(low, s, n);
        },
    }
}

/// The merges of a table whose rank is not below a bound.
pub open spec fn not_below(table: Table, bound: int) -> Table {
    Map::new(
        |pair: (u32, u32)| table.contains_key(pair) && table[pair].1 >= bound,
        |pair: (u32, u32)| table[pair],
    )
}

/// Whether every merge ranks by the token that it makes, and makes one that
/// comes after its two parts.
pub open spec fn causal(table: Table) -> bool {
    forall|pair: (u32, u32)| #[trigger]
        table.contains_key(pair) ==> {
            &&& table[pair].1 == table[pair].0
            &&& pair.0 < table[pair].0
            &&& pair.1 < table[pair].0
        }
}

/// Whether no pair of a sequence may be merged.
pub open spec fn settled(table: Table, s: Seq<u32>) -> bool {
    forall|j: int| 0 <= j < pairs(s) ==> !table.contains_key(#[trigger] pair_at(s, j))
}

/// A merged sequence is settled.
pub proof fn lemma_merged_settled(table: Table, s: Seq<u32>)
    ensures
        settled(table, merged(table, s)),
    decreases s.len(),
{
    lemma_best_pair(table, s, pairs(s));
    if let Some(i) = best_pair(table, s, pairs(s)) {
        lemma_merged_settled(table, replaced(s, i, table[pair_at(s, i)].0));
    }
}

/// Early merges are over once they are exhausted: where merges come after their
/// parts and no merge below a bound is left, none below it will be again.
pub proof fn law_settled_stays(table: Table, bound: int, s: Seq<u32>)
    requires
        causal(table),
        settled(below(table, bound), s),
    ensures
        merged(table, s) == merged(not_below(table, bound), s),
    decreases s.len(),
{
    let low = below(table, bound);
    let high = not_below(table, bound);
    let n = pairs(s);
    lemma_best_pair(table, s, n);
    assert forall|j: int| 0 <= j < n implies table.contains_key(#[trigger] pair_at(s, j))
        == high.contains_key(pair_at(s, j)) by {
        assert(!low.contains_key(pair_at(s, j)));
    }
    match best_pair(table, s, n) {
        None => {
            lemma_no_best(high, s, n);
        },
        Some(i) => {
            assert(high.contains_key(pair_at(s, i)));
            lemma_best_is(high, s, n, i);
            let token = table[pair_at(s, i)].0;
            let next = replaced(s, i, token);
            assert forall|j: int| 0 <= j < pairs(next) implies !low.contains_key(
                #[trigger] pair_at(next, j),
            ) by {
                if j + 1 < i {
                    assert(pair_at(next, j) == pair_at(s, j));
                } else if j > i {
                    assert(pair_at(next, j) == pair_at(s, j + 1));
                } else {
                    assert(pair_at(next, j).0 == token || pair_at(next, j).1 == token);
                    assert(token >= bound);
                    if low.contains_key(pair_at(next, j)) {
                        assert(table.contains_key(pair_at(next, j)));
                    }
                }
            }
            law_settled_stays(table, bound, next);
        },
    }
}

/// The bytes of a token; those of a number outside the vocabulary are none.
pub open spec fn bytes_of(vocab: Seq<Seq<u8>>, token: u32) -> Seq<u8> {
    if token < vocab.len() {
        vocab[token as int]
    } else {
        Seq::empty()
    }
}

/// The text that a sequence of tokens spells.
pub open spec fn text_of(vocab: Seq<Seq<u8>>, s: Seq<u32>) -> Seq<u8>
    decreases s.len(),
{
    if s.len() == 0 {
        Seq::empty()
    } else {
        text_of(vocab, s.drop_last()) + bytes_of(vocab, s.last())
    }
}

/// Whether every merged token spells what its two parts spell.
pub open spec fn consistent(table: Table, vocab: Seq<Seq<u8>>) -> bool {
    forall|pair: (u32, u32)| #[trigger]
        table.contains_key(pair) ==> bytes_of(vocab, table[pair].0) == bytes_of(vocab, pair.0)
            + bytes_of(vocab, pair.1)
}

/// Whether a token may come to stand left of a boundary: it ends the text left
/// of it, and ends with the token that stands there.
pub open spec fn may_end(x: Seq<u8>, text: Seq<u8>, last: Seq<u8>) -> bool {
    x.is_suffix_of(text) && last.is_suffix_of(x)
}

/// Whether a token may come to stand right of a boundary.
pub open spec fn may_start(x: Seq<u8>, text: Seq<u8>, first: Seq<u8>) -> bool {
    x.is_prefix_of(text) && first.is_prefix_of(x)
}

/// Whether no merge of the table has its junction at a boundary between two
/// texts whose adjacent tokens spell `last` and `first`.
pub open spec fn sealed(
    table: Table,
    vocab: Seq<Seq<u8>>,
    left_text: Seq<u8>,
    last: Seq<u8>,
    right_text: Seq<u8>,
    first: Seq<u8>,
) -> bool {
    forall|pair: (u32, u32)| #[trigger]
        table.contains_key(pair) ==> !(may_end(bytes_of(vocab, pair.0), left_text, last)
            && may_start(bytes_of(vocab, pair.1), right_text, first))
}

pub proof fn lemma_text_concat(vocab: Seq<Seq<u8>>, a: Seq<u32>, b: Seq<u32>)
    ensures
        text_of(vocab, a + b) == text_of(vocab, a) + text_of(vocab, b),
    decreases b.len(),
{
    if b.len() == 0 {
        assert(a + b =~= a);
        assert(text_of(vocab, a) + text_of(vocab, b) =~= text_of(vocab, a));
    } else {
        assert((a + b).drop_last() =~= a + b.drop_last());
        lemma_text_concat(vocab, a, b.drop_last());
        assert(text_of(vocab, a) + (text_of(vocab, b.drop_last()) + bytes_of(vocab, b.last()))
            =~= (text_of(vocab, a) + text_of(vocab, b.drop_last())) + bytes_of(vocab, b.last()));
    }
}

/// A single token spells its bytes.
pub proof fn lemma_text_one(vocab: Seq<Seq<u8>>, token: u32)
    ensures
        text_of(vocab, seq![token]) == bytes_of(vocab, token),
{
    reveal_with_fuel(text_of, 2);
    assert(seq![token].drop_last() =~= Seq::<u32>::empty());
    assert(Seq::<u8>::empty() + bytes_of(vocab, token) =~= bytes_of(vocab, token));
}

/// Merging a pair does not change the text.
pub proof fn lemma_text_replaced(table: Table, vocab: Seq<Seq<u8>>, s: Seq<u32>, i: int)
    requires
        consistent(table, vocab),
        0 <= i < s.len() - 1,
        table.contains_key(pair_at(s, i)),
    ensures
        text_of(vocab, replaced(s, i, table[pair_at(s, i)].0)) == text_of(vocab, s),
{
    let pair = pair_at(s, i);
    let token = table[pair].0;
    let head = s.subrange(0, i);
    let rest = s.subrange(i + 2, s.len() as int);
    assert(s =~= head + (seq![pair.0] + (seq![pair.1] + rest)));
    assert(replaced(s, i, token) =~= head + (seq![token] + rest));
    lemma_text_concat(vocab, head, seq![token] + rest);
    lemma_text_concat(vocab, seq![token], rest);
    lemma_text_concat(vocab, head, seq![pair.0] + (seq![pair.1] + rest));
    lemma_text_concat(vocab, seq![pair.0], seq![pair.1] + rest);
    lemma_text_concat(vocab, seq![pair.1], rest);
    lemma_text_one(vocab, token);
    lemma_text_one(vocab, pair.0);
    lemma_text_one(vocab, pair.1);
    assert((bytes_of(vocab, pair.0) + bytes_of(vocab, pair.1)) + text_of(vocab, rest)
        =~= bytes_of(vocab, pair.0) + (bytes_of(vocab, pair.1) + text_of(vocab, rest)));
}

/// Merging never changes the text that a sequence spells.
pub proof fn law_text_preserved(table: Table, vocab: Seq<Seq<u8>>, s: Seq<u32>)
    requires
        consistent(table, vocab),
    ensures
        text_of(vocab, merged(table, s)) == text_of(vocab, s),
    decreases s.len(),
{
    lemma_best_pair(table, s, pairs(s));
    if let Some(i) = best_pair(table, s, pairs(s)) {
        lemma_text_replaced(table, vocab, s, i);
        law_text_preserved(table, vocab, replaced(s, i, table[pair_at(s, i)].0));
    }
}

/// Whether every token of a sequence spells something.
pub open spec fn all_spell(vocab: Seq<Seq<u8>>, s: Seq<u32>) -> bool {
    forall|i: int| 0 <= i < s.len() ==> bytes_of(vocab, #[trigger] s[i]).len() > 0
}

/// Merging leaves no token that spells nothing.
pub proof fn lemma_all_spell(table: Table, vocab: Seq<Seq<u8>>, s: Seq<u32>)
    requires
        consistent(table, vocab),
        all_spell(vocab, s),
    ensures
        all_spell(vocab, merged(table, s)),
    decreases s.len(),
{
    lemma_best_pair(table, s, pairs(s));
    if let Some(i) = best_pair(table, s, pairs(s)) {
        let token = table[pair_at(s, i)].0;
        let next = replaced(s, i, token);
        assert forall|j: int| 0 <= j < next.len() implies bytes_of(
            vocab,
            #[trigger] next[j],
        ).len() > 0 by {
            if j < i {
                assert(next[j] == s[j]);
            } else if j > i {
                assert(next[j] == s[j + 1]);
            } else {
                assert(bytes_of(vocab, s[i]).len() > 0);
            }
        }
        lemma_all_spell(table, vocab, next);
    }
}

proof fn lemma_last_is_suffix(vocab: Seq<Seq<u8>>, s: Seq<u32>)
    requires
        s.len() > 0,
    ensures
        bytes_of(vocab, s.last()).is_suffix_of(text_of(vocab, s)),
{
    let last = bytes_of(vocab, s.last());
    let head = text_of(vocab, s.drop_last());
    assert((head + last).subrange(head.len() as int, (head + last).len() as int) =~= last);
}

proof fn lemma_first_is_prefix(vocab: Seq<Seq<u8>>, s: Seq<u32>)
    requires
        s.len() > 0,
    ensures
        bytes_of(vocab, s[0]).is_prefix_of(text_of(vocab, s)),
{
    let first = bytes_of(vocab, s[0]);
    let rest = s.subrange(1, s.len() as int);
    assert(s =~= seq![s[0]] + rest);
    lemma_text_concat(vocab, seq![s[0]], rest);
    lemma_text_one(vocab, s[0]);
    assert((first + text_of(vocab, rest)).subrange(0, first.len() as int) =~= first);
}

proof fn lemma_suffix_of_concat(a: Seq<u8>, b: Seq<u8>, x: Seq<u8>)
    requires
        x.is_suffix_of(b),
    ensures
        x.is_suffix_of(a + b),
{
    let t = a + b;
    assert(t.subrange(t.len() - x.len(), t.len() as int) =~= b.subrange(
        b.len() - x.len(),
        b.len() as int,
    ));
}

proof fn lemma_prefix_of_concat(a: Seq<u8>, b: Seq<u8>, x: Seq<u8>)
    requires
        x.is_prefix_of(a),
    ensures
        x.is_prefix_of(a + b),
{
    assert((a + b).subrange(0, x.len() as int) =~= a.subrange(0, x.len() as int));
}

/// Two sequences merge independently when no merge can come to fire at the
/// boundary between them, whatever has been merged on either side of it.
proof fn lemma_independent(
    table: Table,
    vocab: Seq<Seq<u8>>,
    left: Seq<u32>,
    right: Seq<u32>,
    left_text: Seq<u8>,
    last: Seq<u8>,
    right_text: Seq<u8>,
    first: Seq<u8>,
)
    requires
        consistent(table, vocab),
        sealed(table, vocab, left_text, last, right_text, first),
        left.len() > 0,
        right.len() > 0,
        text_of(vocab, left) == left_text,
        text_of(vocab, right) == right_text,
        last.is_suffix_of(bytes_of(vocab, left.last())),
        first.is_prefix_of(bytes_of(vocab, right[0])),
    ensures
        merged(table, left + right) == merged(table, left) + merged(table, right),
    decreases left.len() + right.len(),
{
    let s = left + right;
    let n = pairs(s);
    let j = left.len() - 1;
    assert(pair_at(s, j) == (left.last(), right[0]));
    lemma_last_is_suffix(vocab, left);
    lemma_first_is_prefix(vocab, right);
    assert(!table.contains_key(pair_at(s, j)));
    assert forall|k: int| 0 <= k < j implies #[trigger] pair_at(left, k) == pair_at(s, k) by {}
    assert forall|k: int| 0 <= k < pairs(right) implies #[trigger] pair_at(right, k) == pair_at(
        s,
        left.len() + k,
    ) by {}
    lemma_best_pair(table, s, n);
    match best_pair(table, s, n) {
        None => {
            assert forall|k: int| 0 <= k < pairs(left) implies !table.contains_key(
                #[trigger] pair_at(left, k),
            ) by {
                assert(!table.contains_key(pair_at(s, k)));
            }
            assert forall|k: int| 0 <= k < pairs(right) implies !table.contains_key(
                #[trigger] pair_at(right, k),
            ) by {
                assert(!table.contains_key(pair_at(s, left.len() + k)));
            }
            lemma_no_best(table, left, pairs(left));
            lemma_no_best(table, right, pairs(right));
        },
        Some(i) => {
            assert(table.contains_key(pair_at(s, i)));
            assert(i != j);
            if i < j {
                let token = table[pair_at(left, i)].0;
                assert(pair_at(left, i) == pair_at(s, i));
                assert forall|k: int|
                    0 <= k < pairs(left) && table.contains_key(
                        #[trigger] pair_at(left, k),
                    ) implies table[pair_at(left, i)].1 <= table[pair_at(left, k)].1 by {
                    assert(table.contains_key(pair_at(s, k)));
                }
                assert forall|k: int|
                    0 <= k < i && table.contains_key(#[trigger] pair_at(left, k)) implies table[
                pair_at(left, i)].1 < table[pair_at(left, k)].1 by {
                    assert(table.contains_key(pair_at(s, k)));
                }
                lemma_best_is(table, left, pairs(left), i);
                let next = replaced(left, i, token);
                assert(replaced(s, i, token) =~= next + right);
                lemma_text_replaced(table, vocab, left, i);
                if i == j - 1 {
                    assert(next.last() == token);
                    lemma_suffix_of_concat(
                        bytes_of(vocab, left[i]),
                        bytes_of(vocab, left.last()),
                        last,
                    );
                } else {
                    assert(next.last() == left.last());
                }
                lemma_independent(
                    table,
                    vocab,
                    next,
                    right,
                    left_text,
                    last,
                    right_text,
                    first,
                );
            } else {
                let k = i - left.len();
                assert(pair_at(right, k) == pair_at(s, i));
                let token = table[pair_at(right, k)].0;
                assert forall|m: int|
                    0 <= m < pairs(right) && table.contains_key(
                        #[trigger] pair_at(right, m),
                    ) implies table[pair_at(right, k)].1 <= table[pair_at(right, m)].1 by {
                    assert(table.contains_key(pair_at(s, left.len() + m)));
                }
                assert forall|m: int|
                    0 <= m < k && table.contains_key(#[trigger] pair_at(right, m)) implies table[
                pair_at(right, k)].1 < table[pair_at(right, m)].1 by {
                    assert(table.contains_key(pair_at(s, left.len() + m)));
                }
                lemma_best_is(table, right, pairs(right), k);
                let next = replaced(right, k, token);
                assert(replaced(s, i, token) =~= left + next);
                lemma_text_replaced(table, vocab, right, k);
                if k == 0 {
                    assert(next[0] == token);
                    lemma_prefix_of_concat(
                        bytes_of(vocab, right[0]),
                        bytes_of(vocab, right[1]),
                        first,
                    );
                } else {
                    assert(next[0] == right[0]);
                }
                lemma_independent(
                    table,
                    vocab,
                    left,
                    next,
                    left_text,
                    last,
                    right_text,
                    first,
                );
            }
        },
    }
}

/// Merging on the two sides of a boundary separately is merging across it, when
/// no merge of the table has its junction at the boundary.
pub proof fn law_independent(
    table: Table,
    vocab: Seq<Seq<u8>>,
    left: Seq<u32>,
    right: Seq<u32>,
)
    requires
        consistent(table, vocab),
        left.len() > 0,
        right.len() > 0,
        sealed(
            table,
            vocab,
            text_of(vocab, left),
            bytes_of(vocab, left.last()),
            text_of(vocab, right),
            bytes_of(vocab, right[0]),
        ),
    ensures
        merged(table, left + right) == merged(table, left) + merged(table, right),
{
    let last = bytes_of(vocab, left.last());
    let first = bytes_of(vocab, right[0]);
    assert(last.subrange(0, last.len() as int) =~= last);
    assert(first.subrange(0, first.len() as int) =~= first);
    lemma_independent(
        table,
        vocab,
        left,
        right,
        text_of(vocab, left),
        last,
        text_of(vocab, right),
        first,
    );
}

/// The key of a pair in the index.
spec fn key_of(left: u32, right: u32) -> u64 {
    (left * 0x1_0000_0000 + right) as u64
}

/// The key of a pair of tokens: the left in the high half, the right in the low.
pub fn ranked_merge_key(left: u32, right: u32) -> (key: u64)
    ensures
        key == left * 0x1_0000_0000 + right,
{
    left as u64 * 0x1_0000_0000 + right as u64
}

/// A table of merges.
#[derive(Debug)]
pub struct MergeTable {
    entries: Vec<Merge>,
    index: HashMap<u64, usize>,
}

impl MergeTable {
    /// The index finds every merge, and nothing else.
    pub closed spec fn well_formed(&self) -> bool {
        &&& forall|i: int|
            0 <= i < self.entries@.len() ==> {
                let m = #[trigger] self.entries@[i];
                &&& self.index@.contains_key(key_of(m.left, m.right))
                &&& self.index@[key_of(m.left, m.right)] == i
            }
        &&& forall|k: u64| #[trigger]
            self.index@.contains_key(k) ==> {
                &&& self.index@[k] < self.entries@.len()
                &&& key_of(
                    self.entries@[self.index@[k] as int].left,
                    self.entries@[self.index@[k] as int].right,
                ) == k
            }
    }

    /// The merges, in the order in which they were added.
    pub closed spec fn merges(&self) -> Seq<Merge> {
        self.entries@
    }

    spec fn find(&self, pair: (u32, u32)) -> Option<Merge> {
        if self.index@.contains_key(key_of(pair.0, pair.1)) {
            Some(self.entries@[self.index@[key_of(pair.0, pair.1)] as int])
        } else {
            None
        }
    }

    /// Every merge of the table is among its merges.
    pub proof fn lemma_listed(&self)
        requires
            self.well_formed(),
        ensures
            listed_in(self@, self.merges()),
    {
        assert forall|pair: (u32, u32)| #[trigger] self@.contains_key(pair) implies exists|i: int|
            0 <= i < self.merges().len() && is_merge(#[trigger] self.merges()[i], pair, self@) by {
            let i = self.index@[key_of(pair.0, pair.1)] as int;
            assert(is_merge(self.merges()[i], pair, self@));
        }
    }

    /// An empty table.
    pub fn new() -> (table: Self)
        ensures
            table.well_formed(),
            table@ == Map::<(u32, u32), (u32, u32)>::empty(),
            table.merges().len() == 0,
    {
        let table = MergeTable { entries: Vec::new(), index: HashMap::new() };
        assert(table@ =~= Map::<(u32, u32), (u32, u32)>::empty());
        table
    }

    /// How many merges there are.
    pub fn len(&self) -> (n: usize)
        ensures
            n == self.merges().len(),
    {
        self.entries.len()
    }

    /// The merge at index `i`.
    pub fn entry(&self, i: usize) -> (m: Merge)
        requires
            self.well_formed(),
            i < self.merges().len(),
        ensures
            m == self.merges()[i as int],
            self@.contains_key((m.left, m.right)),
            self@[(m.left, m.right)] == (m.merged, m.rank),
    {
        self.entries[i]
    }

    /// The merged token and the rank of a pair.
    pub fn get(&self, left: u32, right: u32) -> (res: Option<(u32, u32)>)
        requires
            self.well_formed(),
        ensures
            res == (if self@.contains_key((left, right)) {
                Some(self@[(left, right)])
            } else {
                None
            }),
    {
        match self.index.get(&ranked_merge_key(left, right)) {
            Some(i) => {
                let m = self.entries[*i];
                Some((m.merged, m.rank))
            },
            None => None,
        }
    }

    /// Adds a merge, unless the table already has one of the same pair.
    pub fn insert_first(&mut self, m: Merge)
        requires
            old(self).well_formed(),
        ensures
            final(self).well_formed(),
            final(self)@ == (if old(self)@.contains_key((m.left, m.right)) {
                old(self)@
            } else {
                old(self)@.insert((m.left, m.right), (m.merged, m.rank))
            }),
            final(self).merges() == (if old(self)@.contains_key((m.left, m.right)) {
                old(self).merges()
            } else {
                old(self).merges().push(m)
            }),
    {
        let ghost before = *self;
        let key: u64 = ranked_merge_key(m.left, m.right);
        if self.index.contains_key(&key) {
            return;
        }
        let n: usize = self.entries.len();
        self.entries.push(m);
        self.index.insert(key, n);
        proof {
            assert forall|pair: (u32, u32)| #[trigger] self.find(pair) == (if pair == (
                m.left,
                m.right,
            ) {
                Some(m)
            } else {
                before.find(pair)
            }) by {
                assert(key_of(pair.0, pair.1) == key ==> pair == (m.left, m.right));
            }
            assert(self@ =~= before@.insert((m.left, m.right), (m.merged, m.rank)));
        }
    }

    /// The table of the merges whose rank is below a bound.
    pub fn restricted(&self, bound: u32) -> (table: MergeTable)
        requires
            self.well_formed(),
        ensures
            table.well_formed(),
            table@ == below(self@, bound as int),
    {
        let mut table = MergeTable::new();
        let mut i: usize = 0;
        while i < self.entries.len()
            invariant
                self.well_formed(),
                table.well_formed(),
                i <= self.entries@.len(),
                forall|pair: (u32, u32)| #[trigger]
                    table@.contains_key(pair) <==> self@.contains_key(pair) && self@[pair].1
                        < bound && self.index@[key_of(pair.0, pair.1)] < i,
                forall|pair: (u32, u32)| #[trigger]
                    table@.contains_key(pair) ==> table@[pair] == self@[pair],
            decreases self.entries@.len() - i,
        {
            let m = self.entries[i];
            let ghost before = table@;
            proof {
                assert(self.find((m.left, m.right)) == Some(m));
                assert(self@[(m.left, m.right)] == (m.merged, m.rank));
                assert(!table@.contains_key((m.left, m.right)));
            }
            if m.rank < bound {
                table.insert_first(m);
            }
            proof {
                assert forall|pair: (u32, u32)| #[trigger]
                    table@.contains_key(pair) <==> self@.contains_key(pair) && self@[pair].1
                        < bound && self.index@[key_of(pair.0, pair.1)] < i + 1 by {
                    assert(before.contains_key(pair) || !before.contains_key(pair));
                    if self@.contains_key(pair) && self.index@[key_of(pair.0, pair.1)] == i {
                        assert(key_of(pair.0, pair.1) == key_of(m.left, m.right));
                        assert(pair == (m.left, m.right));
                    }
                }
            }
            i += 1;
        }
        assert(table@ =~= below(self@, bound as int));
        table
    }

    /// Merges a sequence in place.
    pub fn merge(&self, s: &mut Vec<u32>)
        requires
            self.well_formed(),
        ensures
            final(s)@ == merged(self@, old(s)@),
    {
        let ghost all = merged(self@, s@);
        loop
            invariant
                self.well_formed(),
                merged(self@, s@) == all,
            ensures
                s@ == all,
            decreases s@.len(),
        {
            let mut best: Option<(usize, u32, u32)> = None;
            let n: usize = if s.len() < 2 {
                0
            } else {
                s.len() - 1
            };
            let mut i: usize = 0;
            while i < n
                invariant
                    self.well_formed(),
                    i <= n,
                    n == pairs(s@),
                    best_pair(self@, s@, i as nat) == (match best {
                        None => None,
                        Some((k, _, _)) => Some(k as int),
                    }),
                    best matches Some((k, token, rank)) ==> {
                        &&& k < i
                        &&& self@.contains_key(pair_at(s@, k as int))
                        &&& self@[pair_at(s@, k as int)] == (token, rank)
                    },
                decreases n - i,
            {
                match self.get(s[i], s[i + 1]) {
                    None => {},
                    Some((token, rank)) => match best {
                        None => {
                            best = Some((i, token, rank));
                        },
                        Some((_, _, least)) => if rank < least {
                            best = Some((i, token, rank));
                        },
                    },
                }
                i += 1;
            }
            match best {
                None => {
                    break;
                },
                Some((k, token, _)) => {
                    let ghost before = s@;
                    s.set(k, token);
                    s.remove(k + 1);
                    assert(s@ =~= replaced(before, k as int, token));
                },
            }
        }
    }
}

impl View for MergeTable {
    type V = Table;

    closed spec fn view(&self) -> Table {
        Map::new(
            |pair: (u32, u32)| self.find(pair) is Some,
            |pair: (u32, u32)| (self.find(pair)->0.merged, self.find(pair)->0.rank),
        )
    }
}

} // verus!
