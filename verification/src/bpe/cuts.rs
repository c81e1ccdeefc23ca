//! Boundaries that no merge can cross.
//!
//! Consider the first merge to span a boundary between two level-1 tokens. Its
//! left part was built from tokens left of the boundary and ends with the token
//! immediately left of it; its right part starts with the token immediately
//! right of it. Two sets of tokens decide whether there is such a merge: those
//! with which some left part ends, and those with which some right part starts.
//! Where the two tokens at a boundary are not both in their set, the two sides
//! can be merged separately.

use super::merge;
use super::merge::{Merge, MergeTable, Table};
use super::superword;
use crate::byte_map::ByteMap;
use vstd::prelude::*;
use vstd::slice::slice_subrange;

verus! {

/// Whether a bit is set.
pub open spec fn bit_set(words: Seq<u64>, bit: int) -> bool {
    (words[bit / 64] >> ((bit % 64) as u64)) & 1 != 0
}

proof fn lemma_or_bit(word: u64, k: u64, j: u64)
    by (bit_vector)
    requires
        k < 64,
        j < 64,
    ensures
        ((word | (1u64 << k)) >> j) & 1 != 0 <==> j == k || (word >> j) & 1 != 0,
        (0u64 >> j) & 1 == 0,
{
}

/// Sets a bit; one beyond the words is passed over.
fn set_bit(words: &mut Vec<u64>, bit: u32)
    ensures
        final(words)@.len() == old(words)@.len(),
        forall|b: int|
            0 <= b < 64 * old(words)@.len() ==> (#[trigger] bit_set(final(words)@, b) <==> b == bit
                || bit_set(old(words)@, b)),
{
    let w: usize = (bit / 64) as usize;
    if w < words.len() {
        let ghost before = words@;
        let word: u64 = words[w];
        let shift: u64 = (bit % 64) as u64;
        words.set(w, word | (1u64 << shift));
        assert forall|b: int| 0 <= b < 64 * before.len() implies (#[trigger] bit_set(words@, b)
            <==> b == bit || bit_set(before, b)) by {
            lemma_or_bit(word, shift, (b % 64) as u64);
        }
    }
}

/// Is a bit set? One beyond the words counts as set.
fn get_bit(words: &Vec<u64>, bit: u32) -> (res: bool)
    ensures
        bit < 64 * words@.len() ==> res == bit_set(words@, bit as int),
        bit >= 64 * words@.len() ==> res,
{
    let w: usize = (bit / 64) as usize;
    if w < words.len() {
        (words[w] >> ((bit % 64) as u64)) & 1 != 0
    } else {
        true
    }
}

/// The longest of the first `n` entries of a vocabulary.
pub open spec fn longest(vocab: Seq<Seq<u8>>, n: nat) -> nat
    decreases n,
{
    if n == 0 || n > vocab.len() {
        0
    } else {
        let before = longest(vocab, (n - 1) as nat);
        if vocab[n - 1].len() > before {
            vocab[n - 1].len()
        } else {
            before
        }
    }
}

/// The longest entry below the threshold.
pub open spec fn longest_below(vocab: Seq<Seq<u8>>, threshold: u32) -> nat {
    longest(
        vocab,
        if threshold < vocab.len() {
            threshold as nat
        } else {
            vocab.len()
        },
    )
}

/// Whether a merge may fire at a boundary between level-1 tokens: any but those
/// below the threshold whose junction is between characters.
pub open spec fn candidate(vocab: Seq<Seq<u8>>, m: Merge, threshold: u32) -> bool {
    &&& m.left < vocab.len()
    &&& m.right < vocab.len()
    &&& !(m.merged < threshold && superword::junction(
        vocab[m.left as int],
        vocab[m.right as int],
    ) is Some)
}

/// The last `k` bytes.
pub open spec fn ending(a: Seq<u8>, k: int) -> Seq<u8> {
    a.subrange(a.len() - k, a.len() as int)
}

/// The first `k` bytes.
pub open spec fn beginning(b: Seq<u8>, k: int) -> Seq<u8> {
    b.subrange(0, k)
}

/// Whether the token for some ending of `a`, of at most `cap` bytes, is `id`.
pub open spec fn ends_with_token(inv: Map<Seq<u8>, u32>, a: Seq<u8>, cap: int, id: u32) -> bool {
    exists|k: int|
        1 <= k <= a.len() && k <= cap && inv.contains_key(#[trigger] ending(a, k)) && inv[ending(
            a,
            k,
        )] == id
}

/// Whether the token for some beginning of `b`, of at most `cap` bytes, is `id`.
pub open spec fn starts_with_token(inv: Map<Seq<u8>, u32>, b: Seq<u8>, cap: int, id: u32) -> bool {
    exists|k: int|
        1 <= k <= b.len() && k <= cap && inv.contains_key(#[trigger] beginning(b, k))
            && inv[beginning(b, k)] == id
}

/// Whether some candidate among the first `n` merges has a left part that ends
/// with the token `id`.
pub open spec fn left_marked(
    vocab: Seq<Seq<u8>>,
    inv: Map<Seq<u8>, u32>,
    merges: Seq<Merge>,
    threshold: u32,
    n: int,
    id: u32,
) -> bool {
    exists|i: int|
        0 <= i < n && candidate(vocab, #[trigger] merges[i], threshold) && ends_with_token(
            inv,
            vocab[merges[i].left as int],
            longest_below(vocab, threshold) as int,
            id,
        )
}

/// Whether some candidate among the first `n` merges has a right part that
/// starts with the token `id`.
pub open spec fn right_marked(
    vocab: Seq<Seq<u8>>,
    inv: Map<Seq<u8>, u32>,
    merges: Seq<Merge>,
    threshold: u32,
    n: int,
    id: u32,
) -> bool {
    exists|i: int|
        0 <= i < n && candidate(vocab, #[trigger] merges[i], threshold) && starts_with_token(
            inv,
            vocab[merges[i].right as int],
            longest_below(vocab, threshold) as int,
            id,
        )
}

/// Whether a merge may end its left part with token `id`. Tokens at or above
/// the threshold, and numbers outside the vocabulary, count as if one may.
pub open spec fn may_be_left(
    vocab: Seq<Seq<u8>>,
    inv: Map<Seq<u8>, u32>,
    merges: Seq<Merge>,
    threshold: u32,
    id: u32,
) -> bool {
    ||| id >= vocab.len()
    ||| id >= threshold
    ||| left_marked(vocab, inv, merges, threshold, merges.len() as int, id)
}

/// Whether a merge may start its right part with token `id`.
pub open spec fn may_be_right(
    vocab: Seq<Seq<u8>>,
    inv: Map<Seq<u8>, u32>,
    merges: Seq<Merge>,
    threshold: u32,
    id: u32,
) -> bool {
    ||| id >= vocab.len()
    ||| id >= threshold
    ||| right_marked(vocab, inv, merges, threshold, merges.len() as int, id)
}

/// Which tokens a merge across a boundary may have at it.
#[derive(Debug)]
pub struct SuperwordCuts {
    len: usize,
    suffix_left: Vec<u64>,
    prefix_right: Vec<u64>,
}

proof fn lemma_longest(vocab: Seq<Seq<u8>>, n: nat, id: int)
    requires
        0 <= id < n <= vocab.len(),
    ensures
        vocab[id].len() <= longest(vocab, n),
    decreases n,
{
    if id < n - 1 {
        lemma_longest(vocab, (n - 1) as nat, id);
    }
}

/// Whether the inverse vocabulary finds every entry below the threshold.
pub open spec fn inverts(vocab: Seq<Seq<u8>>, inv: Map<Seq<u8>, u32>, threshold: u32) -> bool {
    forall|id: u32|
        id < threshold && id < vocab.len() && (#[trigger] vocab[id as int]).len() > 0
            ==> inv.contains_key(vocab[id as int]) && inv[vocab[id as int]] == id
}

/// A cut is safe: where the merges below the threshold are exhausted and the two
/// tokens at a boundary are not both in their set, the two sides merge
/// independently.
pub proof fn law_cut_is_safe(
    cuts: SuperwordCuts,
    table: Table,
    vocab: Seq<Seq<u8>>,
    inv: Map<Seq<u8>, u32>,
    merges: Seq<Merge>,
    threshold: u32,
    left: Seq<u32>,
    right: Seq<u32>,
)
    requires
        cuts.describes(vocab, inv, merges, threshold),
        merge::listed_in(table, merges),
        merge::consistent(table, vocab),
        merge::causal(table),
        inverts(vocab, inv, threshold),
        left.len() > 0,
        right.len() > 0,
        merge::bytes_of(vocab, left.last()).len() > 0,
        merge::bytes_of(vocab, right[0]).len() > 0,
        merge::settled(merge::below(table, threshold as int), left + right),
        !cuts.crossing(left.last(), right[0]),
    ensures
        merge::merged(table, left + right) == merge::merged(table, left) + merge::merged(
            table,
            right,
        ),
{
    let low = merge::below(table, threshold as int);
    let high = merge::not_below(table, threshold as int);
    let s = left + right;
    assert forall|j: int| 0 <= j < merge::pairs(left) implies !low.contains_key(
        #[trigger] merge::pair_at(left, j),
    ) by {
        assert(merge::pair_at(s, j) == merge::pair_at(left, j));
    }
    assert forall|j: int| 0 <= j < merge::pairs(right) implies !low.contains_key(
        #[trigger] merge::pair_at(right, j),
    ) by {
        assert(merge::pair_at(s, left.len() + j) == merge::pair_at(right, j));
    }
    merge::law_settled_stays(table, threshold as int, s);
    merge::law_settled_stays(table, threshold as int, left);
    merge::law_settled_stays(table, threshold as int, right);
    let l = left.last();
    let r = right[0];
    let lb = merge::bytes_of(vocab, l);
    let rb = merge::bytes_of(vocab, r);
    let cap = longest_below(vocab, threshold);
    cuts.lemma_crossing(vocab, inv, merges, threshold, l, r);
    assert forall|pair: (u32, u32)| #[trigger] high.contains_key(pair) implies merge::bytes_of(
        vocab,
        high[pair].0,
    ) == merge::bytes_of(vocab, pair.0) + merge::bytes_of(vocab, pair.1) by {
        assert(table.contains_key(pair));
    }
    assert forall|pair: (u32, u32)| #[trigger] high.contains_key(pair) implies !(merge::may_end(
        merge::bytes_of(vocab, pair.0),
        merge::text_of(vocab, left),
        lb,
    ) && merge::may_start(
        merge::bytes_of(vocab, pair.1),
        merge::text_of(vocab, right),
        rb,
    )) by {
        assert(table.contains_key(pair));
        let i = choose|i: int|
            0 <= i < merges.len() && merge::is_merge(#[trigger] merges[i], pair, table);
        let a = merge::bytes_of(vocab, pair.0);
        let b = merge::bytes_of(vocab, pair.1);
        if lb.is_suffix_of(a) && rb.is_prefix_of(b) {
            assert(pair.0 < vocab.len());
            assert(pair.1 < vocab.len());
            assert(candidate(vocab, merges[i], threshold));
            assert(ending(a, lb.len() as int) =~= lb);
            assert(beginning(b, rb.len() as int) =~= rb);
            let n = if threshold < vocab.len() {
                threshold as nat
            } else {
                vocab.len()
            };
            if l < threshold {
                lemma_longest(vocab, n, l as int);
                assert(vocab[l as int] == lb);
                assert(ends_with_token(inv, a, cap as int, l));
            }
            if r < threshold {
                lemma_longest(vocab, n, r as int);
                assert(vocab[r as int] == rb);
                assert(starts_with_token(inv, b, cap as int, r));
            }
        }
    }
    merge::law_independent(high, vocab, left, right);
}

/// Marks the tokens with which a left part may end.
fn mark_left(words: &mut Vec<u64>, inv: &ByteMap, a: &Vec<u8>, cap: usize)
    requires
        inv.well_formed(),
    ensures
        final(words)@.len() == old(words)@.len(),
        forall|b: u32|
            b < 64 * old(words)@.len() ==> (#[trigger] bit_set(final(words)@, b as int)
                <==> ends_with_token(inv@, a@, cap as int, b) || bit_set(old(words)@, b as int)),
{
    let ghost before = words@;
    let top: usize = if a.len() < cap {
        a.len()
    } else {
        cap
    };
    let mut k: usize = 0;
    while k < top
        invariant
            inv.well_formed(),
            k <= top <= a@.len(),
            words@.len() == before.len(),
            forall|b: u32|
                b < 64 * before.len() ==> (#[trigger] bit_set(words@, b as int) <==> bit_set(
                    before,
                    b as int,
                ) || exists|j: int|
                    1 <= j <= k && inv@.contains_key(#[trigger] ending(a@, j)) && inv@[ending(
                        a@,
                        j,
                    )] == b),
        decreases top - k,
    {
        let tail = slice_subrange(a, a.len() - k - 1, a.len());
        assert(tail@ == ending(a@, k + 1));
        let ghost prior = words@;
        match inv.get(tail) {
            Some(id) => set_bit(words, id),
            None => {},
        }
        proof {
            assert forall|b: u32| b < 64 * before.len() implies (#[trigger] bit_set(
                words@,
                b as int,
            ) <==> bit_set(before, b as int) || exists|j: int|
                1 <= j <= k + 1 && inv@.contains_key(#[trigger] ending(a@, j)) && inv@[ending(
                    a@,
                    j,
                )] == b) by {
                assert(bit_set(prior, b as int) || !bit_set(prior, b as int));
                if inv@.contains_key(ending(a@, k + 1)) && inv@[ending(a@, k + 1)] == b {
                    assert(1 <= k + 1);
                }
            }
        }
        k += 1;
    }
    proof {
        assert forall|b: u32| b < 64 * before.len() implies (#[trigger] bit_set(words@, b as int)
            <==> ends_with_token(inv@, a@, cap as int, b) || bit_set(before, b as int)) by {
            if ends_with_token(inv@, a@, cap as int, b) {
                let j = choose|j: int|
                    1 <= j <= a@.len() && j <= cap && inv@.contains_key(#[trigger] ending(a@, j))
                        && inv@[ending(a@, j)] == b;
                assert(1 <= j <= k && inv@.contains_key(ending(a@, j)));
            }
        }
    }
}

/// Marks the tokens with which a right part may start.
fn mark_right(words: &mut Vec<u64>, inv: &ByteMap, a: &Vec<u8>, cap: usize)
    requires
        inv.well_formed(),
    ensures
        final(words)@.len() == old(words)@.len(),
        forall|b: u32|
            b < 64 * old(words)@.len() ==> (#[trigger] bit_set(final(words)@, b as int)
                <==> starts_with_token(inv@, a@, cap as int, b) || bit_set(old(words)@, b as int)),
{
    let ghost before = words@;
    let top: usize = if a.len() < cap {
        a.len()
    } else {
        cap
    };
    let mut k: usize = 0;
    while k < top
        invariant
            inv.well_formed(),
            k <= top <= a@.len(),
            words@.len() == before.len(),
            forall|b: u32|
                b < 64 * before.len() ==> (#[trigger] bit_set(words@, b as int) <==> bit_set(
                    before,
                    b as int,
                ) || exists|j: int|
                    1 <= j <= k && inv@.contains_key(#[trigger] beginning(a@, j)) && inv@[beginning(
                        a@,
                        j,
                    )] == b),
        decreases top - k,
    {
        let head = slice_subrange(a, 0, k + 1);
        assert(head@ == beginning(a@, k + 1));
        let ghost prior = words@;
        match inv.get(head) {
            Some(id) => set_bit(words, id),
            None => {},
        }
        proof {
            assert forall|b: u32| b < 64 * before.len() implies (#[trigger] bit_set(
                words@,
                b as int,
            ) <==> bit_set(before, b as int) || exists|j: int|
                1 <= j <= k + 1 && inv@.contains_key(#[trigger] beginning(a@, j)) && inv@[beginning(
                    a@,
                    j,
                )] == b) by {
                assert(bit_set(prior, b as int) || !bit_set(prior, b as int));
                if inv@.contains_key(beginning(a@, k + 1)) && inv@[beginning(a@, k + 1)] == b {
                    assert(1 <= k + 1);
                }
            }
        }
        k += 1;
    }
    proof {
        assert forall|b: u32| b < 64 * before.len() implies (#[trigger] bit_set(words@, b as int)
            <==> starts_with_token(inv@, a@, cap as int, b) || bit_set(before, b as int)) by {
            if starts_with_token(inv@, a@, cap as int, b) {
                let j = choose|j: int|
                    1 <= j <= a@.len() && j <= cap && inv@.contains_key(
                        #[trigger] beginning(a@, j),
                    ) && inv@[beginning(a@, j)] == b;
                assert(1 <= j <= k && inv@.contains_key(beginning(a@, j)));
            }
        }
    }
}

/// The longest entry below the threshold.
fn longest_entry(vocab: &Vec<Vec<u8>>, threshold: u32) -> (res: usize)
    ensures
        res == longest_below(superword::views(vocab@), threshold),
{
    let n: usize = if (threshold as usize) < vocab.len() {
        threshold as usize
    } else {
        vocab.len()
    };
    let mut res: usize = 0;
    let mut i: usize = 0;
    while i < n
        invariant
            i <= n <= vocab@.len(),
            res == longest(superword::views(vocab@), i as nat),
        decreases n - i,
    {
        if vocab[i].len() > res {
            res = vocab[i].len();
        }
        i += 1;
    }
    res
}

impl SuperwordCuts {
    /// The sets are those of a vocabulary and its merges.
    pub closed spec fn describes(
        &self,
        vocab: Seq<Seq<u8>>,
        inv: Map<Seq<u8>, u32>,
        merges: Seq<Merge>,
        threshold: u32,
    ) -> bool {
        &&& self.len == vocab.len()
        &&& self.len <= 64 * self.suffix_left@.len()
        &&& self.len <= 64 * self.prefix_right@.len()
        &&& forall|id: u32|
            id < self.len ==> #[trigger] bit_set(self.suffix_left@, id as int) == may_be_left(
                vocab,
                inv,
                merges,
                threshold,
                id,
            )
        &&& forall|id: u32|
            id < self.len ==> #[trigger] bit_set(self.prefix_right@, id as int) == may_be_right(
                vocab,
                inv,
                merges,
                threshold,
                id,
            )
    }

    /// What the two sets say of a boundary between two tokens.
    pub closed spec fn crossing(&self, left: u32, right: u32) -> bool {
        &&& left >= self.len || bit_set(self.suffix_left@, left as int)
        &&& right >= self.len || bit_set(self.prefix_right@, right as int)
    }

    /// Whatever they hold, the sets can be asked.
    pub closed spec fn well_formed(&self) -> bool {
        &&& self.len <= 64 * self.suffix_left@.len()
        &&& self.len <= 64 * self.prefix_right@.len()
    }

    /// What sets that describe a vocabulary and its merges say of a boundary.
    pub proof fn lemma_crossing(
        &self,
        vocab: Seq<Seq<u8>>,
        inv: Map<Seq<u8>, u32>,
        merges: Seq<Merge>,
        threshold: u32,
        left: u32,
        right: u32,
    )
        requires
            self.describes(vocab, inv, merges, threshold),
        ensures
            self.well_formed(),
            self.crossing(left, right) == (may_be_left(vocab, inv, merges, threshold, left)
                && may_be_right(vocab, inv, merges, threshold, right)),
    {
    }

    /// Builds the sets of a vocabulary and its merges.
    pub fn build(
        vocab: &Vec<Vec<u8>>,
        vocab_inv: &ByteMap,
        merges: &MergeTable,
        threshold: u32,
    ) -> (cuts: SuperwordCuts)
        requires
            vocab_inv.well_formed(),
            merges.well_formed(),
        ensures
            cuts.describes(superword::views(vocab@), vocab_inv@, merges.merges(), threshold),
    {
        let len: usize = vocab.len();
        let ghost views = superword::views(vocab@);
        let ghost ms = merges.merges();
        let words: usize = len / 64 + 1;
        let mut suffix_left: Vec<u64> = Vec::new();
        let mut prefix_right: Vec<u64> = Vec::new();
        let mut w: usize = 0;
        while w < words
            invariant
                w <= words,
                suffix_left@.len() == w,
                prefix_right@.len() == w,
                forall|k: int| 0 <= k < w ==> suffix_left@[k] == 0,
                forall|k: int| 0 <= k < w ==> prefix_right@[k] == 0,
            decreases words - w,
        {
            suffix_left.push(0);
            prefix_right.push(0);
            w += 1;
        }
        proof {
            assert forall|id: u32| id < 64 * words implies !(#[trigger] bit_set(
                suffix_left@,
                id as int,
            )) by {
                lemma_or_bit(0, 0, (id % 64) as u64);
            }
            assert forall|id: u32| id < 64 * words implies !(#[trigger] bit_set(
                prefix_right@,
                id as int,
            )) by {
                lemma_or_bit(0, 0, (id % 64) as u64);
            }
        }
        let cap: usize = longest_entry(vocab, threshold);
        let mut i: usize = 0;
        while i < merges.len()
            invariant
                vocab_inv.well_formed(),
                merges.well_formed(),
                ms == merges.merges(),
                views == superword::views(vocab@),
                cap == longest_below(views, threshold),
                i <= ms.len(),
                suffix_left@.len() == words,
                prefix_right@.len() == words,
                forall|id: u32|
                    id < 64 * words ==> #[trigger] bit_set(suffix_left@, id as int)
                        == left_marked(views, vocab_inv@, ms, threshold, i as int, id),
                forall|id: u32|
                    id < 64 * words ==> #[trigger] bit_set(prefix_right@, id as int)
                        == right_marked(views, vocab_inv@, ms, threshold, i as int, id),
            decreases ms.len() - i,
        {
            let m = merges.entry(i);
            let ghost before_left = suffix_left@;
            let ghost before_right = prefix_right@;
            if (m.left as usize) < vocab.len() && (m.right as usize) < vocab.len() {
                let a = &vocab[m.left as usize];
                let b = &vocab[m.right as usize];
                if !(m.merged < threshold && superword::junction_chars(a, b).is_some()) {
                    mark_left(&mut suffix_left, vocab_inv, a, cap);
                    mark_right(&mut prefix_right, vocab_inv, b, cap);
                }
            }
            proof {
                assert forall|id: u32| id < 64 * words implies #[trigger] bit_set(
                    suffix_left@,
                    id as int,
                ) == left_marked(views, vocab_inv@, ms, threshold, i + 1, id) by {
                    assert(bit_set(before_left, id as int) == left_marked(
                        views,
                        vocab_inv@,
                        ms,
                        threshold,
                        i as int,
                        id,
                    ));
                    if candidate(views, m, threshold) && ends_with_token(
                        vocab_inv@,
                        views[m.left as int],
                        cap as int,
                        id,
                    ) {
                        assert(candidate(views, ms[i as int], threshold));
                    }
                }
                assert forall|id: u32| id < 64 * words implies #[trigger] bit_set(
                    prefix_right@,
                    id as int,
                ) == right_marked(views, vocab_inv@, ms, threshold, i + 1, id) by {
                    assert(bit_set(before_right, id as int) == right_marked(
                        views,
                        vocab_inv@,
                        ms,
                        threshold,
                        i as int,
                        id,
                    ));
                    if candidate(views, m, threshold) && starts_with_token(
                        vocab_inv@,
                        views[m.right as int],
                        cap as int,
                        id,
                    ) {
                        assert(candidate(views, ms[i as int], threshold));
                    }
                }
            }
            i += 1;
        }
        let mut id: usize = threshold as usize;
        while id < len && id <= 0xFFFF_FFFF
            invariant
                threshold <= id,
                len <= 64 * words,
                suffix_left@.len() == words,
                prefix_right@.len() == words,
                forall|b: u32|
                    b < 64 * words ==> #[trigger] bit_set(suffix_left@, b as int) == (left_marked(
                        views,
                        vocab_inv@,
                        ms,
                        threshold,
                        ms.len() as int,
                        b,
                    ) || threshold <= b < id),
                forall|b: u32|
                    b < 64 * words ==> #[trigger] bit_set(prefix_right@, b as int) == (
                    right_marked(views, vocab_inv@, ms, threshold, ms.len() as int, b) || threshold
                        <= b < id),
            decreases len - id,
        {
            let ghost before_left = suffix_left@;
            let ghost before_right = prefix_right@;
            set_bit(&mut suffix_left, id as u32);
            set_bit(&mut prefix_right, id as u32);
            proof {
                assert forall|b: u32| b < 64 * words implies #[trigger] bit_set(
                    suffix_left@,
                    b as int,
                ) == (left_marked(views, vocab_inv@, ms, threshold, ms.len() as int, b)
                    || threshold <= b < id + 1) by {
                    assert(bit_set(before_left, b as int) || !bit_set(before_left, b as int));
                }
                assert forall|b: u32| b < 64 * words implies #[trigger] bit_set(
                    prefix_right@,
                    b as int,
                ) == (right_marked(views, vocab_inv@, ms, threshold, ms.len() as int, b)
                    || threshold <= b < id + 1) by {
                    assert(bit_set(before_right, b as int) || !bit_set(before_right, b as int));
                }
            }
            id += 1;
        }
        SuperwordCuts { len, suffix_left, prefix_right }
    }

    /// Can a merge span the boundary between two adjacent tokens? Where not, the
    /// boundary is a legal cut.
    pub fn crossable(&self, left: u32, right: u32) -> (res: bool)
        requires
            self.well_formed(),
        ensures
            res == self.crossing(left, right),
    {
        (left as usize >= self.len || get_bit(&self.suffix_left, left)) && (right as usize
            >= self.len || get_bit(&self.prefix_right, right))
    }

    /// The first boundary after index `i` that no merge can span, or the end.
    pub open spec fn cut_after(&self, s: Seq<u32>, i: int) -> int
        decreases s.len() - i,
    {
        if i + 1 >= s.len() {
            s.len() as int
        } else if !self.crossing(s[i], s[i + 1]) {
            i + 1
        } else {
            self.cut_after(s, i + 1)
        }
    }

    /// The end of the run that starts at `start`.
    pub fn run_end(&self, symbols: &Vec<u32>, start: usize) -> (end: usize)
        requires
            self.well_formed(),
            start < symbols@.len(),
        ensures
            end == self.cut_after(symbols@, start as int),
            start < end <= symbols@.len(),
    {
        let n: usize = symbols.len();
        let mut i: usize = start + 1;
        while i < n
            invariant
                self.well_formed(),
                n == symbols@.len(),
                start < i <= n,
                self.cut_after(symbols@, start as int) == self.cut_after(symbols@, i - 1),
            decreases n - i,
        {
            if !self.crossable(symbols[i - 1], symbols[i]) {
                return i;
            }
            i += 1;
        }
        n
    }
}

} // verus!
