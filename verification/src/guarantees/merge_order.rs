//! Merging goes by the list of merges: the earlier a merge is listed, the sooner
//! it is made.

use crate::bpe::byte_remapping;
use crate::bpe::merge;
use crate::bpe::merge::{Merge, Table};
use crate::bpe::tiktoken::{Model, Tokenizer};
use crate::load_tokenizer::hf;
use crate::load_tokenizer::schema;
use crate::load_tokenizer::schema::TokenizerJson;
use crate::load_tokenizer::vocab;
use vstd::prelude::*;

verus! {

/// Of two merges of one pair, the one that is listed first counts.
pub proof fn law_first_listed(merges: Seq<Merge>, i: int)
    requires
        0 <= i < merges.len(),
        forall|k: int|
            0 <= k < i ==> (#[trigger] merges[k]).left != merges[i].left || merges[k].right
                != merges[i].right,
    ensures
        ({
            let table = merge::table_of(merges, merges.len());
            let pair = (merges[i].left, merges[i].right);
            table.contains_key(pair) && table[pair] == (merges[i].merged, merges[i].rank)
        }),
{
    lemma_first_listed(merges, i, merges.len());
}

proof fn lemma_first_listed(merges: Seq<Merge>, i: int, n: nat)
    requires
        0 <= i < merges.len(),
        n <= merges.len(),
        forall|k: int|
            0 <= k < i ==> (#[trigger] merges[k]).left != merges[i].left || merges[k].right
                != merges[i].right,
    ensures
        ({
            let table = merge::table_of(merges, n);
            let pair = (merges[i].left, merges[i].right);
            &&& table.contains_key(pair) <==> i < n
            &&& i < n ==> table[pair] == (merges[i].merged, merges[i].rank)
        }),
    decreases n,
{
    if n > 0 {
        lemma_first_listed(merges, i, (n - 1) as nat);
        if n - 1 < i {
            assert(merges[n - 1].left != merges[i].left || merges[n - 1].right != merges[i].right);
        }
    }
}

/// A table holds only the pairs that are listed, with what is listed of them.
pub proof fn law_only_listed(merges: Seq<Merge>, pair: (u32, u32))
    requires
        merge::table_of(merges, merges.len()).contains_key(pair),
    ensures
        exists|i: int|
            0 <= i < merges.len() && (#[trigger] merges[i]).left == pair.0 && merges[i].right
                == pair.1 && merge::table_of(merges, merges.len())[pair] == (
                merges[i].merged,
                merges[i].rank,
            ),
{
    lemma_only_listed(merges, pair, merges.len());
}

proof fn lemma_only_listed(merges: Seq<Merge>, pair: (u32, u32), n: nat)
    requires
        n <= merges.len(),
        merge::table_of(merges, n).contains_key(pair),
    ensures
        exists|i: int|
            0 <= i < n && (#[trigger] merges[i]).left == pair.0 && merges[i].right == pair.1
                && merge::table_of(merges, n)[pair] == (merges[i].merged, merges[i].rank),
    decreases n,
{
    if n > 0 {
        let m = merges[n - 1];
        if merge::table_of(merges, (n - 1) as nat).contains_key(pair) {
            lemma_only_listed(merges, pair, (n - 1) as nat);
        } else {
            assert(m.left == pair.0 && m.right == pair.1);
        }
    }
}

/// The pair that is merged next is one that is listed no later than any other in
/// the sequence, the leftmost where several are: what comes of a sequence is what
/// comes of it with this pair replaced.
pub proof fn law_urgent_pair_first(table: Table, s: Seq<u32>, i: int)
    requires
        0 <= i,
        i + 1 < s.len(),
        table.contains_key((s[i], s[i + 1])),
        forall|k: int|
            0 <= k && k + 1 < s.len() && table.contains_key((#[trigger] s[k], s[k + 1])) ==> table[(
                s[i],
                s[i + 1],
            )].1 < table[(s[k], s[k + 1])].1 || (table[(s[i], s[i + 1])].1 == table[(
                s[k],
                s[k + 1],
            )].1 && i <= k),
    ensures
        merge::merged(table, s) == merge::merged(
            table,
            s.take(i) + seq![table[(s[i], s[i + 1])].0] + s.skip(i + 2),
        ),
{
    let n = merge::pairs(s);
    assert forall|j: int| 0 <= j < n && table.contains_key(
        #[trigger] merge::pair_at(s, j),
    ) implies table[merge::pair_at(s, i)].1 <= table[merge::pair_at(s, j)].1 by {
        assert(table.contains_key((s[j], s[j + 1])));
    }
    assert forall|j: int| 0 <= j < i && table.contains_key(
        #[trigger] merge::pair_at(s, j),
    ) implies table[merge::pair_at(s, i)].1 < table[merge::pair_at(s, j)].1 by {
        assert(table.contains_key((s[j], s[j + 1])));
    }
    merge::lemma_best_is(table, s, n, i);
    assert(merge::replaced(s, i, table[(s[i], s[i + 1])].0) =~= s.take(i) + seq![table[(
        s[i],
        s[i + 1],
    )].0] + s.skip(i + 2));
}

/// Merging ends where no two tokens side by side can be merged, and not before:
/// such a sequence is left as it is, and every result is one.
pub proof fn law_merging_ends(table: Table, s: Seq<u32>)
    ensures
        (forall|k: int|
            0 <= k && k + 1 < s.len() ==> !table.contains_key((#[trigger] s[k], s[k + 1])))
            ==> merge::merged(table, s) == s,
        forall|k: int|
            0 <= k && k + 1 < merge::merged(table, s).len() ==> !table.contains_key(
                (#[trigger] merge::merged(table, s)[k], merge::merged(table, s)[k + 1]),
            ),
{
    let r = merge::merged(table, s);
    merge::lemma_merged_settled(table, s);
    assert forall|k: int| 0 <= k && k + 1 < r.len() implies !table.contains_key(
        (#[trigger] r[k], r[k + 1]),
    ) by {
        assert(!table.contains_key(merge::pair_at(r, k)));
    }
    if forall|k: int|
        0 <= k && k + 1 < s.len() ==> !table.contains_key((#[trigger] s[k], s[k + 1])) {
        assert forall|j: int| 0 <= j < merge::pairs(s) implies !table.contains_key(
            #[trigger] merge::pair_at(s, j),
        ) by {
            assert(!table.contains_key((s[j], s[j + 1])));
        }
        merge::lemma_no_best(table, s, merge::pairs(s));
    }
}

/// Every byte of a text starts out as its token, in order.
pub proof fn law_bytes_in_order(ids: Seq<Option<u32>>, text: Seq<u8>)
    requires
        forall|i: int| 0 <= i < text.len() ==> ids[(#[trigger] text[i]) as int] is Some,
    ensures
        byte_remapping::byte_tokens(ids, text).len() == text.len(),
        forall|i: int|
            0 <= i < text.len() ==> Some(#[trigger] byte_remapping::byte_tokens(ids, text)[i])
                == ids[text[i] as int],
    decreases text.len(),
{
    if text.len() > 0 {
        let head = text.drop_last();
        assert forall|i: int| 0 <= i < head.len() implies ids[(#[trigger] head[i]) as int]
            is Some by {
            assert(text[i] == head[i]);
        }
        law_bytes_in_order(ids, head);
        assert(ids[text[text.len() - 1] as int] is Some);
    }
}

/// A pretoken of a byte-level tokenizer starts out as the tokens of its bytes,
/// which are then merged; one that is an entry as a whole is that entry where
/// entries go before merges.
pub proof fn law_pretoken_is_merged(t: Tokenizer, pretoken: Seq<u8>)
    ensures
        t.model matches Model::Bpe { merges, bytes, .. } ==> {
            &&& t.ignore_merges && t.vocab_inv@.contains_key(pretoken) ==> t.pretoken_tokens(
                pretoken,
            ) == seq![t.vocab_inv@[pretoken]]
            &&& !(t.ignore_merges && t.vocab_inv@.contains_key(pretoken)) ==> t.pretoken_tokens(
                pretoken,
            ) == merge::merged(merges@, byte_remapping::byte_tokens(bytes.ids(), pretoken))
        },
{
}

/// The bytes of entry `k` of the vocabulary of a file.
pub open spec fn entry_bytes(tj: TokenizerJson, k: int) -> Seq<u8> {
    vocab::byte_level(tj.model.vocab@[k].0@)
}

/// Whether entry `k` is the last with its bytes, which is the one that counts.
pub open spec fn last(tj: TokenizerJson, k: int) -> bool {
    forall|p: int|
        k < p < tj.model.vocab@.len() ==> #[trigger] entry_bytes(tj, p) != entry_bytes(tj, k)
}

/// Whether entries `a`, `b` and `c` are the two sides of merge `i` of a file and
/// the two put together, of entries with the same bytes the last.
pub open spec fn sides(tj: TokenizerJson, i: int, a: int, b: int, c: int) -> bool {
    let (left, right) = tj.model.merges@[i];
    &&& 0 <= a < tj.model.vocab@.len()
    &&& 0 <= b < tj.model.vocab@.len()
    &&& 0 <= c < tj.model.vocab@.len()
    &&& entry_bytes(tj, a) == vocab::byte_level(left@)
    &&& entry_bytes(tj, b) == vocab::byte_level(right@)
    &&& entry_bytes(tj, c) == vocab::byte_level(left@) + vocab::byte_level(right@)
    &&& last(tj, a)
    &&& last(tj, b)
    &&& last(tj, c)
}

/// The number of entry `k` of the vocabulary of a file.
pub open spec fn number(tj: TokenizerJson, k: int) -> u32 {
    tj.model.vocab@[k].1.0
}

/// Entries are found by their bytes, of equal ones the last.
pub proof fn law_entries_are_found(pieces: Seq<(Seq<u8>, u32)>, k: int)
    requires
        0 <= k < pieces.len(),
        forall|p: int| k < p < pieces.len() ==> (#[trigger] pieces[p]).0 != pieces[k].0,
    ensures
        vocab::numbers_by_bytes(pieces, pieces.len()).contains_key(pieces[k].0),
        vocab::numbers_by_bytes(pieces, pieces.len())[pieces[k].0] == pieces[k].1,
{
    lemma_entry_found(pieces, k, pieces.len());
}

proof fn lemma_entry_found(pieces: Seq<(Seq<u8>, u32)>, k: int, n: nat)
    requires
        0 <= k < n <= pieces.len(),
        forall|p: int| k < p < pieces.len() ==> (#[trigger] pieces[p]).0 != pieces[k].0,
    ensures
        vocab::numbers_by_bytes(pieces, n).contains_key(pieces[k].0),
        vocab::numbers_by_bytes(pieces, n)[pieces[k].0] == pieces[k].1,
    decreases n,
{
    if n - 1 > k {
        lemma_entry_found(pieces, k, (n - 1) as nat);
    }
}

/// Nothing is found by bytes that no entry has.
pub proof fn law_nothing_else_is_found(pieces: Seq<(Seq<u8>, u32)>, bytes: Seq<u8>)
    requires
        forall|p: int| 0 <= p < pieces.len() ==> (#[trigger] pieces[p]).0 != bytes,
    ensures
        !vocab::numbers_by_bytes(pieces, pieces.len()).contains_key(bytes),
{
    lemma_nothing_found(pieces, bytes, pieces.len());
}

proof fn lemma_nothing_found(pieces: Seq<(Seq<u8>, u32)>, bytes: Seq<u8>, n: nat)
    requires
        n <= pieces.len(),
        forall|p: int| 0 <= p < pieces.len() ==> (#[trigger] pieces[p]).0 != bytes,
    ensures
        !vocab::numbers_by_bytes(pieces, n).contains_key(bytes),
    decreases n,
{
    if n > 0 {
        lemma_nothing_found(pieces, bytes, (n - 1) as nat);
        assert(pieces[n - 1].0 != bytes);
    }
}

/// Of two listed pairs with different merged tokens, the one that is listed first
/// has the smaller rank, and is merged first.
pub proof fn law_listed_sooner_ranks_lower(pairs: Seq<(u32, u32, u32)>, i: int, j: int)
    requires
        0 <= i < j < pairs.len() <= u32::MAX,
        forall|k: int|
            0 <= k < i ==> (#[trigger] pairs[k]).0 != pairs[i].0 || pairs[k].1 != pairs[i].1,
        forall|k: int|
            0 <= k < j ==> (#[trigger] pairs[k]).0 != pairs[j].0 || pairs[k].1 != pairs[j].1,
        pairs[i].2 != pairs[j].2,
    ensures
        ({
            let table = merge::table_of(hf::ranked(pairs), pairs.len());
            let first = (pairs[i].0, pairs[i].1);
            let second = (pairs[j].0, pairs[j].1);
            &&& table.contains_key(first) && table[first].0 == pairs[i].2
            &&& table.contains_key(second) && table[second].0 == pairs[j].2
            &&& table[first].1 < table[second].1
        }),
{
    let merges = hf::ranked(pairs);
    assert forall|k: int| 0 <= k < i implies (#[trigger] merges[k]).left != merges[i].left
        || merges[k].right != merges[i].right by {
        assert(pairs[k].0 != pairs[i].0 || pairs[k].1 != pairs[i].1);
    }
    assert forall|k: int| 0 <= k < j implies (#[trigger] merges[k]).left != merges[j].left
        || merges[k].right != merges[j].right by {
        assert(pairs[k].0 != pairs[j].0 || pairs[k].1 != pairs[j].1);
    }
    law_first_listed(merges, i);
    law_first_listed(merges, j);
}

/// Where merged tokens are listed in the order of their numbers, a merge ranks by
/// the number of its merged token.
pub proof fn law_in_order_ranks_are_numbers(pairs: Seq<(u32, u32, u32)>, i: int)
    requires
        0 <= i < pairs.len(),
        forall|p: int, q: int|
            0 <= p < q < pairs.len() ==> (#[trigger] pairs[p]).2 <= (#[trigger] pairs[q]).2,
        forall|k: int|
            0 <= k < i ==> (#[trigger] pairs[k]).0 != pairs[i].0 || pairs[k].1 != pairs[i].1,
    ensures
        merge::table_of(hf::ranked(pairs), pairs.len())[(pairs[i].0, pairs[i].1)] == (
            pairs[i].2,
            pairs[i].2,
        ),
{
    let merges = hf::ranked(pairs);
    assert forall|k: int| 0 <= k < i implies (#[trigger] merges[k]).left != merges[i].left
        || merges[k].right != merges[i].right by {
        assert(pairs[k].0 != pairs[i].0 || pairs[k].1 != pairs[i].1);
    }
    law_first_listed(merges, i);
}

/// What is found by the bytes of entry `k`, where it is the last with them.
proof fn lemma_entry_number(tj: TokenizerJson, k: int)
    requires
        last(tj, k),
        0 <= k < tj.model.vocab@.len(),
    ensures
        ({
            let pieces = hf::bpe_pieces(schema::entry_views(tj.model.vocab@));
            let inv = vocab::numbers_by_bytes(pieces, pieces.len());
            inv.contains_key(entry_bytes(tj, k)) && inv[entry_bytes(tj, k)] == number(tj, k)
        }),
{
    let pieces = hf::bpe_pieces(schema::entry_views(tj.model.vocab@));
    assert(pieces[k].0 == entry_bytes(tj, k));
    assert forall|p: int| k < p < pieces.len() implies (#[trigger] pieces[p]).0
        != pieces[k].0 by {
        assert(pieces[p].0 == entry_bytes(tj, p));
    }
    law_entries_are_found(pieces, k);
}

/// How many merges of a file that count come before merge `i`.
spec fn place(tj: TokenizerJson, i: int) -> int {
    let pieces = hf::bpe_pieces(schema::entry_views(tj.model.vocab@));
    hf::bpe_pairs(
        tj.model.merges@,
        vocab::numbers_by_bytes(pieces, pieces.len()),
        i as nat,
    ).len() as int
}

/// The merges that count keep their order, and stand for what is listed.
proof fn lemma_places(tj: TokenizerJson, i: int, n: int)
    requires
        0 <= i < n <= tj.model.merges@.len(),
    ensures
        ({
            let pieces = hf::bpe_pieces(schema::entry_views(tj.model.vocab@));
            let inv = vocab::numbers_by_bytes(pieces, pieces.len());
            let list = tj.model.merges@;
            let pair = hf::bpe_pair(inv, list[i].0@, list[i].1@);
            &&& place(tj, i) <= place(tj, i + 1) <= place(tj, n) <= n
            &&& pair is Some ==> place(tj, i) < place(tj, n) && Some(
                hf::bpe_pairs(list, inv, n as nat)[place(tj, i)],
            ) == pair
        }),
    decreases n,
{
    let pieces = hf::bpe_pieces(schema::entry_views(tj.model.vocab@));
    let inv = vocab::numbers_by_bytes(pieces, pieces.len());
    let list = tj.model.merges@;
    if n - 1 > i {
        lemma_places(tj, i, n - 1);
    } else {
        lemma_place_bound(tj, i);
    }
}

proof fn lemma_place_bound(tj: TokenizerJson, i: int)
    requires
        0 <= i <= tj.model.merges@.len(),
    ensures
        0 <= place(tj, i) <= i,
    decreases i,
{
    if i > 0 {
        lemma_place_bound(tj, i - 1);
    }
}

/// Which listed merge a merge that counts comes from.
proof fn lemma_listed(tj: TokenizerJson, k: int, n: int) -> (i: int)
    requires
        0 <= n <= tj.model.merges@.len(),
        0 <= k < place(tj, n),
    ensures
        0 <= i < n,
        place(tj, i) == k,
        ({
            let pieces = hf::bpe_pieces(schema::entry_views(tj.model.vocab@));
            let inv = vocab::numbers_by_bytes(pieces, pieces.len());
            let list = tj.model.merges@;
            Some(hf::bpe_pairs(list, inv, n as nat)[k]) == hf::bpe_pair(
                inv,
                list[i].0@,
                list[i].1@,
            )
        }),
    decreases n,
{
    if k < place(tj, n - 1) {
        lemma_listed(tj, k, n - 1)
    } else {
        n - 1
    }
}

/// Whether no merge before merge `i` of a file has sides with two given numbers.
pub open spec fn listed_first(tj: TokenizerJson, i: int, pair: (u32, u32)) -> bool {
    forall|k: int, a: int, b: int, c: int|
        0 <= k < i && #[trigger] sides(tj, k, a, b, c) ==> (number(tj, a), number(tj, b)) != pair
}

/// What is found by its bytes is the last entry with them.
proof fn lemma_found_is_entry(tj: TokenizerJson, bytes: Seq<u8>) -> (k: int)
    requires
        ({
            let pieces = hf::bpe_pieces(schema::entry_views(tj.model.vocab@));
            vocab::numbers_by_bytes(pieces, pieces.len()).contains_key(bytes)
        }),
    ensures
        0 <= k < tj.model.vocab@.len(),
        entry_bytes(tj, k) == bytes,
        last(tj, k),
        ({
            let pieces = hf::bpe_pieces(schema::entry_views(tj.model.vocab@));
            number(tj, k) == vocab::numbers_by_bytes(pieces, pieces.len())[bytes]
        }),
{
    let pieces = hf::bpe_pieces(schema::entry_views(tj.model.vocab@));
    if forall|p: int| 0 <= p < pieces.len() ==> (#[trigger] pieces[p]).0 != bytes {
        law_nothing_else_is_found(pieces, bytes);
    }
    let p = choose|p: int| 0 <= p < pieces.len() && (#[trigger] pieces[p]).0 == bytes;
    assert(entry_bytes(tj, p) == bytes);
    let k = lemma_last_of(tj, p, p + 1);
    lemma_entry_number(tj, k);
    k
}

/// The last entry with the bytes of entry `p`, of which none up to `n` is later.
proof fn lemma_last_of(tj: TokenizerJson, p: int, n: int) -> (k: int)
    requires
        0 <= p < n <= tj.model.vocab@.len(),
        forall|q: int| p < q < n ==> #[trigger] entry_bytes(tj, q) != entry_bytes(tj, p),
    ensures
        p <= k < tj.model.vocab@.len(),
        entry_bytes(tj, k) == entry_bytes(tj, p),
        last(tj, k),
    decreases tj.model.vocab@.len() - n,
{
    if n == tj.model.vocab@.len() {
        p
    } else if entry_bytes(tj, n) == entry_bytes(tj, p) {
        lemma_last_of(tj, n, n + 1)
    } else {
        lemma_last_of(tj, p, n + 1)
    }
}

/// The sides of a merge that counts.
proof fn lemma_sides(tj: TokenizerJson, i: int) -> (abc: (int, int, int))
    requires
        0 <= i < tj.model.merges@.len(),
        ({
            let pieces = hf::bpe_pieces(schema::entry_views(tj.model.vocab@));
            let inv = vocab::numbers_by_bytes(pieces, pieces.len());
            let list = tj.model.merges@;
            hf::bpe_pair(inv, list[i].0@, list[i].1@) is Some
        }),
    ensures
        sides(tj, i, abc.0, abc.1, abc.2),
        ({
            let pieces = hf::bpe_pieces(schema::entry_views(tj.model.vocab@));
            let inv = vocab::numbers_by_bytes(pieces, pieces.len());
            let list = tj.model.merges@;
            hf::bpe_pair(inv, list[i].0@, list[i].1@) == Some(
                (number(tj, abc.0), number(tj, abc.1), number(tj, abc.2)),
            )
        }),
{
    let list = tj.model.merges@;
    let left = vocab::byte_level(list[i].0@);
    let right = vocab::byte_level(list[i].1@);
    let a = lemma_found_is_entry(tj, left);
    let b = lemma_found_is_entry(tj, right);
    let c = lemma_found_is_entry(tj, left + right);
    (a, b, c)
}

/// The merge that counts first for two tokens is the one that is listed first.
proof fn lemma_counts_first(tj: TokenizerJson, i: int, a: int, b: int, c: int)
    requires
        0 <= i < tj.model.merges@.len(),
        sides(tj, i, a, b, c),
        listed_first(tj, i, (number(tj, a), number(tj, b))),
    ensures
        ({
            let pairs = hf::bpe_list(tj);
            let at = place(tj, i);
            &&& 0 <= at < pairs.len() <= tj.model.merges@.len()
            &&& pairs[at] == (number(tj, a), number(tj, b), number(tj, c))
            &&& forall|k: int|
                0 <= k < at ==> (#[trigger] pairs[k]).0 != pairs[at].0 || pairs[k].1 != pairs[at].1
        }),
{
    let list = tj.model.merges@;
    let pairs = hf::bpe_list(tj);
    let at = place(tj, i);
    lemma_entry_number(tj, a);
    lemma_entry_number(tj, b);
    lemma_entry_number(tj, c);
    lemma_places(tj, i, list.len() as int);
    lemma_place_bound(tj, list.len() as int);
    assert forall|k: int| 0 <= k < at implies (#[trigger] pairs[k]).0 != pairs[at].0
        || pairs[k].1 != pairs[at].1 by {
        let p = lemma_listed(tj, k, list.len() as int);
        if p >= i {
            if p > i {
                lemma_places(tj, i, p);
            }
            assert(false);
        }
        let abc = lemma_sides(tj, p);
        assert(sides(tj, p, abc.0, abc.1, abc.2));
    }
}

/// A merge of a byte-level file whose sides and whose result are entries of its
/// vocabulary is a merge of the tokenizer: the numbers of the two sides become the
/// number of the two put together. Of merges of the same two tokens the first
/// counts.
pub proof fn law_file_merge_counts(
    tj: TokenizerJson,
    t: Tokenizer,
    i: int,
    a: int,
    b: int,
    c: int,
)
    requires
        hf::bpe_describes(tj, t),
        0 <= i < tj.model.merges@.len(),
        sides(tj, i, a, b, c),
        listed_first(tj, i, (number(tj, a), number(tj, b))),
    ensures
        t.model matches Model::Bpe { merges, .. } && merges@.contains_key(
            (number(tj, a), number(tj, b)),
        ) && merges@[(number(tj, a), number(tj, b))].0 == number(tj, c),
{
    lemma_counts_first(tj, i, a, b, c);
    let pairs = hf::bpe_list(tj);
    let merges = hf::ranked(pairs);
    let at = place(tj, i);
    assert forall|k: int| 0 <= k < at implies (#[trigger] merges[k]).left != merges[at].left
        || merges[k].right != merges[at].right by {
        assert(pairs[k].0 != pairs[at].0 || pairs[k].1 != pairs[at].1);
    }
    law_first_listed(merges, at);
}

/// Of two merges of a byte-level file with different results, the one that its
/// list gives first has the smaller rank in the tokenizer.
pub proof fn law_file_merge_order(
    tj: TokenizerJson,
    t: Tokenizer,
    i: int,
    first: (int, int, int),
    j: int,
    second: (int, int, int),
)
    requires
        hf::bpe_describes(tj, t),
        0 <= i < j < tj.model.merges@.len() <= u32::MAX,
        sides(tj, i, first.0, first.1, first.2),
        sides(tj, j, second.0, second.1, second.2),
        listed_first(tj, i, (number(tj, first.0), number(tj, first.1))),
        listed_first(tj, j, (number(tj, second.0), number(tj, second.1))),
        number(tj, first.2) != number(tj, second.2),
    ensures
        t.model matches Model::Bpe { merges, .. } && merges@[(
            number(tj, first.0),
            number(tj, first.1),
        )].1 < merges@[(number(tj, second.0), number(tj, second.1))].1,
{
    lemma_counts_first(tj, i, first.0, first.1, first.2);
    lemma_counts_first(tj, j, second.0, second.1, second.2);
    lemma_places(tj, i, j);
    lemma_entry_number(tj, first.0);
    lemma_entry_number(tj, first.1);
    lemma_entry_number(tj, first.2);
    law_listed_sooner_ranks_lower(hf::bpe_list(tj), place(tj, i), place(tj, j));
}

/// A tokenizer merges only what its file lists: the two tokens of a pair are the
/// two sides of a listed merge, and what they become is the two put together.
pub proof fn law_file_merges_only(tj: TokenizerJson, t: Tokenizer, pair: (u32, u32))
    requires
        hf::bpe_describes(tj, t),
        t.model matches Model::Bpe { merges, .. } && merges@.contains_key(pair),
    ensures
        t.model matches Model::Bpe { merges, .. } && exists|i: int, a: int, b: int, c: int|
            0 <= i < tj.model.merges@.len() && #[trigger] sides(tj, i, a, b, c) && pair == (
                number(tj, a),
                number(tj, b),
            ) && merges@[pair].0 == number(tj, c),
{
    let merges = hf::ranked(hf::bpe_list(tj));
    law_only_listed(merges, pair);
    let k = choose|k: int|
        0 <= k < merges.len() && (#[trigger] merges[k]).left == pair.0 && merges[k].right == pair.1
            && merge::table_of(merges, merges.len())[pair] == (merges[k].merged, merges[k].rank);
    let i = lemma_listed(tj, k, tj.model.merges@.len() as int);
    let abc = lemma_sides(tj, i);
    assert(sides(tj, i, abc.0, abc.1, abc.2));
}

/// Texts start out as the tokens of their bytes, one text after the other; a byte
/// without a token gives none.
pub proof fn law_byte_by_byte(ids: Seq<Option<u32>>, a: Seq<u8>, b: Seq<u8>, byte: u8)
    ensures
        byte_remapping::byte_tokens(ids, a + b) == byte_remapping::byte_tokens(ids, a)
            + byte_remapping::byte_tokens(ids, b),
        ids[byte as int] matches Some(id) ==> byte_remapping::byte_tokens(ids, seq![byte])
            == seq![id],
        ids[byte as int] is None ==> byte_remapping::byte_tokens(ids, seq![byte]) == Seq::<
            u32,
        >::empty(),
    decreases b.len(),
{
    reveal_with_fuel(byte_remapping::byte_tokens, 2);
    let one = seq![byte];
    assert(one.drop_last() =~= Seq::<u8>::empty());
    assert(byte_remapping::byte_tokens(ids, Seq::<u8>::empty()) =~= Seq::<u32>::empty());
    if let Some(id) = ids[byte as int] {
        assert(byte_remapping::byte_tokens(ids, one) =~= seq![id]);
    }
    if b.len() == 0 {
        assert(a + b =~= a);
        assert(byte_remapping::byte_tokens(ids, a) + byte_remapping::byte_tokens(ids, b)
            =~= byte_remapping::byte_tokens(ids, a));
    } else {
        assert((a + b).drop_last() =~= a + b.drop_last());
        law_byte_by_byte(ids, a, b.drop_last(), byte);
        assert(byte_remapping::byte_tokens(ids, a + b) =~= byte_remapping::byte_tokens(ids, a)
            + byte_remapping::byte_tokens(ids, b));
    }
}

} // verus!
