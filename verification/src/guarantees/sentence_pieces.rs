//! SentencePiece-style files: the steps of their normalizer, their marks for
//! spaces, their byte tokens and the order of their merges.

use super::merge_order;
use super::vocabulary;
use crate::bpe::merge;
use crate::bpe::superword;
use crate::load_tokenizer::schema;
use crate::load_tokenizer::schema::{AddedToken, NormalizerJson, PreTokenizerJson, TokenizerJson};
use crate::load_tokenizer::sentencepiece;
use crate::load_tokenizer::sentencepiece::{Metaspace, PrependScheme, SentencePieceBPE, Step};
use crate::load_tokenizer::vocab;
use vstd::prelude::*;
use vstd::utf8::*;

verus! {

/// A `Prepend` block puts its text in front, and needs one.
pub proof fn law_prepend_block(n: NormalizerJson)
    requires
        n.kind@ == "Prepend"@,
    ensures
        n.prepend matches Some(p) ==> sentencepiece::sp_steps(n) == Ok::<Seq<Step>, Seq<char>>(
            seq![Step::Prepend(p@)],
        ),
        n.prepend is None ==> sentencepiece::sp_steps(n) is Err,
{
    reveal_strlit("Prepend");
    reveal_strlit("Sequence");
    assert("Prepend"@.len() == 7 && "Sequence"@.len() == 8);
}

/// A `Replace` block replaces a literal by its content; of expressions only the
/// one for two or more spaces is known, which collapses them.
pub proof fn law_replace_block(n: NormalizerJson)
    requires
        n.kind@ == "Replace"@,
    ensures
        match (n.content, n.pattern) {
            (Some(content), Some(p)) => match (p.literal, p.regex) {
                (Some(literal), _) => sentencepiece::sp_steps(n) == Ok::<Seq<Step>, Seq<char>>(
                    seq![Step::Replace { pattern: literal@, content: content@ }],
                ),
                (None, Some(re)) => if re@ == seq![' ', '{', '2', ',', '}'] {
                    sentencepiece::sp_steps(n) == Ok::<Seq<Step>, Seq<char>>(
                        seq![Step::CollapseSpaces { content: content@ }],
                    )
                } else {
                    sentencepiece::sp_steps(n) is Err
                },
                (None, None) => sentencepiece::sp_steps(n) is Err,
            },
            _ => sentencepiece::sp_steps(n) is Err,
        },
{
    reveal_strlit("Prepend");
    reveal_strlit("Sequence");
    reveal_strlit("Replace");
    reveal_strlit(" {2,}");
    assert(" {2,}"@ =~= seq![' ', '{', '2', ',', '}']);
    assert("Replace"@.len() == 7 && "Sequence"@.len() == 8);
    assert("Prepend"@[0] == 'P' && "Replace"@[0] == 'R');
}

/// A `Strip` block strips on both sides unless it is told not to.
pub proof fn law_strip_block(n: NormalizerJson)
    requires
        n.kind@ == "Strip"@,
    ensures
        sentencepiece::sp_steps(n) == Ok::<Seq<Step>, Seq<char>>(
            seq![
                Step::Strip {
                    left: n.strip_left != Some(false),
                    right: n.strip_right != Some(false),
                },
            ],
        ),
{
    reveal_strlit("Prepend");
    reveal_strlit("Sequence");
    reveal_strlit("Replace");
    reveal_strlit("Strip");
    assert("Strip"@.len() == 5 && "Replace"@.len() == 7 && "Sequence"@.len() == 8
        && "Prepend"@.len() == 7);
}

/// A block of a kind that is not known is refused.
pub proof fn law_unknown_block(n: NormalizerJson)
    requires
        n.kind@ != "Prepend"@,
        n.kind@ != "Replace"@,
        n.kind@ != "Strip"@,
        n.kind@ != "Precompiled"@,
        n.kind@ != "Sequence"@,
    ensures
        sentencepiece::sp_steps(n) is Err,
{
}

/// The steps of a sequence are those of its blocks, one after the other.
pub proof fn law_steps_in_order(n: NormalizerJson, parts: Seq<Seq<Step>>)
    requires
        n.kind@ == "Sequence"@,
        parts.len() == n.normalizers@.len(),
        forall|i: int|
            0 <= i < parts.len() ==> sentencepiece::sp_steps(#[trigger] n.normalizers@[i]) == Ok::<
                Seq<Step>,
                Seq<char>,
            >(parts[i]),
    ensures
        sentencepiece::sp_steps(n) == Ok::<Seq<Step>, Seq<char>>(parts.flatten()),
{
    lemma_steps_from(n.normalizers@, parts, 0);
    assert(parts.skip(0) =~= parts);
}

proof fn lemma_steps_from(list: Seq<NormalizerJson>, parts: Seq<Seq<Step>>, i: int)
    requires
        0 <= i <= list.len(),
        parts.len() == list.len(),
        forall|k: int|
            0 <= k < parts.len() ==> sentencepiece::sp_steps(#[trigger] list[k]) == Ok::<
                Seq<Step>,
                Seq<char>,
            >(parts[k]),
    ensures
        sentencepiece::sp_steps_from(list, i) == Ok::<Seq<Step>, Seq<char>>(
            parts.skip(i).flatten(),
        ),
    decreases list.len() - i,
{
    let rest = parts.skip(i);
    if i < list.len() {
        lemma_steps_from(list, parts, i + 1);
        assert(sentencepiece::sp_steps(list[i]) == Ok::<Seq<Step>, Seq<char>>(parts[i]));
        assert(rest.first() == parts[i]);
        assert(rest.drop_first() =~= parts.skip(i + 1));
    } else {
        assert(rest.flatten() =~= Seq::<Step>::empty());
    }
}

/// A block of a sequence that is refused has the sequence refused.
pub proof fn law_refused_in_sequence(n: NormalizerJson, k: int)
    requires
        n.kind@ == "Sequence"@,
        0 <= k < n.normalizers@.len(),
        sentencepiece::sp_steps(n.normalizers@[k]) is Err,
    ensures
        sentencepiece::sp_steps(n) is Err,
{
    lemma_refused_from(n.normalizers@, k, 0);
}

proof fn lemma_refused_from(list: Seq<NormalizerJson>, k: int, i: int)
    requires
        0 <= i <= k < list.len(),
        sentencepiece::sp_steps(list[k]) is Err,
    ensures
        sentencepiece::sp_steps_from(list, i) is Err,
    decreases k - i,
{
    if i < k {
        lemma_refused_from(list, k, i + 1);
    }
}

/// A `Metaspace` block marks spaces by U+2581 and by nothing else. The mark goes in
/// front always, first or never, as the block says; an older block says so by
/// whether a space is to be added, and always is the default.
pub proof fn law_metaspace_block(pt: PreTokenizerJson, steps: Seq<Step>)
    requires
        pt.kind@ == "Metaspace"@,
    ensures
        ({
            let marked = pt.replacement is None || pt.replacement->0@ == seq!['\u{2581}'];
            let split = pt.split != Some(false);
            let res = sentencepiece::metaspace_setting(Some(pt), steps);
            &&& !marked ==> res is Err
            &&& marked ==> match pt.prepend_scheme {
                Some(s) => {
                    &&& s@ == "never"@ ==> res == Ok::<Option<Metaspace>, Seq<char>>(
                        Some(Metaspace { prepend: PrependScheme::Never, split }),
                    )
                    &&& s@ == "always"@ ==> res == Ok::<Option<Metaspace>, Seq<char>>(
                        Some(Metaspace { prepend: PrependScheme::Always, split }),
                    )
                    &&& s@ == "first"@ ==> res == Ok::<Option<Metaspace>, Seq<char>>(
                        Some(Metaspace { prepend: PrependScheme::First, split }),
                    )
                    &&& s@ != "never"@ && s@ != "always"@ && s@ != "first"@ ==> res is Err
                },
                None => res == Ok::<Option<Metaspace>, Seq<char>>(
                    Some(
                        Metaspace {
                            prepend: if pt.add_prefix_space == Some(false) {
                                PrependScheme::Never
                            } else {
                                PrependScheme::Always
                            },
                            split,
                        },
                    ),
                ),
            }
        }),
{
    reveal_strlit("never");
    reveal_strlit("always");
    reveal_strlit("first");
    reveal_strlit("\u{2581}");
    assert("\u{2581}"@ =~= seq!['\u{2581}']);
    assert("never"@[0] == 'n' && "always"@[0] == 'a' && "first"@[0] == 'f');
}

/// A sequence of one `Metaspace` block is that block; no pre-tokenizer leaves
/// spaces unmarked.
pub proof fn law_metaspace_in_sequence(pt: PreTokenizerJson, steps: Seq<Step>)
    ensures
        sentencepiece::metaspace_setting(None, steps) == Ok::<Option<Metaspace>, Seq<char>>(None),
        pt.kind@ == "Sequence"@ && pt.pretokenizers@.len() == 1 && pt.pretokenizers@[0].kind@
            == "Metaspace"@ ==> sentencepiece::metaspace_setting(Some(pt), steps)
            == sentencepiece::metaspace_setting(Some(pt.pretokenizers@[0]), steps),
{
    reveal_strlit("Metaspace");
    reveal_strlit("Sequence");
    assert("Metaspace"@.len() == 9 && "Sequence"@.len() == 8);
}

/// The capital hexadecimal digit of a value.
pub open spec fn capital_digit(byte: u8, value: int) -> bool {
    ||| 0 <= value < 10 && byte == 0x30 + value
    ||| 10 <= value < 16 && byte == 0x41 + value - 10
}

/// The token of a byte is the last entry that is named by the byte in capital
/// hexadecimal digits.
pub proof fn law_byte_ids(
    entries: Seq<(Seq<char>, u32)>,
    b: u8,
    high: u8,
    low: u8,
    k: int,
)
    requires
        capital_digit(high, b as int / 16),
        capital_digit(low, b as int % 16),
        0 <= k < entries.len(),
        encode_utf8(entries[k].0) == seq![0x3C, 0x30, 0x78, high, low, 0x3E],
        forall|j: int| k < j < entries.len() ==> encode_utf8((#[trigger] entries[j]).0)
            != encode_utf8(entries[k].0),
    ensures
        sentencepiece::fallback_id(entries, b) == Some(entries[k].1),
{
    assert(sentencepiece::byte_name(b) =~= seq![0x3C, 0x30, 0x78, high, low, 0x3E]);
    lemma_named(entries, sentencepiece::byte_name(b), k, entries.len());
}

proof fn lemma_named(entries: Seq<(Seq<char>, u32)>, name: Seq<u8>, k: int, n: nat)
    requires
        0 <= k < n <= entries.len(),
        encode_utf8(entries[k].0) == name,
        forall|j: int| k < j < entries.len() ==> encode_utf8((#[trigger] entries[j]).0) != name,
    ensures
        sentencepiece::id_named(entries, name, n) == Some(entries[k].1),
    decreases n,
{
    if n - 1 > k {
        assert(encode_utf8(entries[n - 1].0) != name);
        lemma_named(entries, name, k, (n - 1) as nat);
    }
}

/// A byte without an entry of its name has no token.
pub proof fn law_no_byte_id(entries: Seq<(Seq<char>, u32)>, b: u8, high: u8, low: u8)
    requires
        capital_digit(high, b as int / 16),
        capital_digit(low, b as int % 16),
        forall|j: int| 0 <= j < entries.len() ==> encode_utf8((#[trigger] entries[j]).0)
            != seq![0x3Cu8, 0x30, 0x78, high, low, 0x3E],
    ensures
        sentencepiece::fallback_id(entries, b) is None,
{
    assert(sentencepiece::byte_name(b) =~= seq![0x3C, 0x30, 0x78, high, low, 0x3E]);
    lemma_not_named(entries, sentencepiece::byte_name(b), entries.len());
}

proof fn lemma_not_named(entries: Seq<(Seq<char>, u32)>, name: Seq<u8>, n: nat)
    requires
        n <= entries.len(),
        forall|j: int| 0 <= j < entries.len() ==> encode_utf8((#[trigger] entries[j]).0) != name,
    ensures
        sentencepiece::id_named(entries, name, n) is None,
    decreases n,
{
    if n > 0 {
        assert(encode_utf8(entries[n - 1].0) != name);
        lemma_not_named(entries, name, (n - 1) as nat);
    }
}

/// Whether the two sides of a merge, and the two put together, are entries.
pub open spec fn known(inv: Map<Seq<u8>, u32>, a: Seq<char>, b: Seq<char>) -> bool {
    &&& inv.contains_key(vocab::token_bytes(a))
    &&& inv.contains_key(vocab::token_bytes(b))
    &&& inv.contains_key(vocab::token_bytes(a + b))
}

/// The numbers of the two sides of a merge.
pub open spec fn pair(inv: Map<Seq<u8>, u32>, a: Seq<char>, b: Seq<char>) -> (u32, u32) {
    (inv[vocab::token_bytes(a)], inv[vocab::token_bytes(b)])
}

/// Whether merge `i` of a list is the first known one of its two sides.
pub open spec fn first_known(list: Seq<(String, String)>, inv: Map<Seq<u8>, u32>, i: int) -> bool {
    &&& known(inv, list[i].0@, list[i].1@)
    &&& forall|k: int|
        0 <= k < i && known(inv, (#[trigger] list[k]).0@, list[k].1@) ==> pair(
            inv,
            list[k].0@,
            list[k].1@,
        ) != pair(inv, list[i].0@, list[i].1@)
}

proof fn lemma_sp_place(list: Seq<(String, String)>, inv: Map<Seq<u8>, u32>, i: int, n: int)
    requires
        0 <= i < n <= list.len(),
        known(inv, list[i].0@, list[i].1@),
    ensures
        ({
            let at = sentencepiece::sp_merges(list, inv, i as nat).len() as int;
            let all = sentencepiece::sp_merges(list, inv, n as nat);
            &&& at < all.len()
            &&& all[at].left == pair(inv, list[i].0@, list[i].1@).0
            &&& all[at].right == pair(inv, list[i].0@, list[i].1@).1
            &&& all[at].merged == inv[vocab::token_bytes(list[i].0@ + list[i].1@)]
            &&& all[at].rank == i as u32
        }),
    decreases n,
{
    if n - 1 > i {
        lemma_sp_place(list, inv, i, n - 1);
    }
}

proof fn lemma_sp_origin(list: Seq<(String, String)>, inv: Map<Seq<u8>, u32>, k: int, n: int) -> (i: int)
    requires
        0 <= n <= list.len(),
        0 <= k < sentencepiece::sp_merges(list, inv, n as nat).len(),
    ensures
        0 <= i < n,
        known(inv, list[i].0@, list[i].1@),
        ({
            let m = sentencepiece::sp_merges(list, inv, n as nat)[k];
            (m.left, m.right) == pair(inv, list[i].0@, list[i].1@)
        }),
        sentencepiece::sp_merges(list, inv, i as nat).len() == k,
    decreases n,
{
    if k < sentencepiece::sp_merges(list, inv, (n - 1) as nat).len() {
        lemma_sp_origin(list, inv, k, n - 1)
    } else {
        n - 1
    }
}

proof fn lemma_sp_grows(list: Seq<(String, String)>, inv: Map<Seq<u8>, u32>, i: int, j: int)
    requires
        0 <= i <= j <= list.len(),
    ensures
        sentencepiece::sp_merges(list, inv, i as nat).len() <= sentencepiece::sp_merges(
            list,
            inv,
            j as nat,
        ).len(),
    decreases j,
{
    if i < j {
        lemma_sp_grows(list, inv, i, j - 1);
    }
}

/// A listed merge whose sides and whose result are entries makes the one out of
/// the others, and ranks by its place in the list.
pub proof fn law_merge_ranks_by_place(list: Seq<(String, String)>, inv: Map<Seq<u8>, u32>, i: int)
    requires
        0 <= i < list.len(),
        first_known(list, inv, i),
    ensures
        ({
            let merges = sentencepiece::sp_merges(list, inv, list.len());
            let table = merge::table_of(merges, merges.len());
            let sides = pair(inv, list[i].0@, list[i].1@);
            &&& table.contains_key(sides)
            &&& table[sides] == (inv[vocab::token_bytes(list[i].0@ + list[i].1@)], i as u32)
        }),
{
    let merges = sentencepiece::sp_merges(list, inv, list.len());
    let at = sentencepiece::sp_merges(list, inv, i as nat).len() as int;
    lemma_sp_place(list, inv, i, list.len() as int);
    assert forall|k: int| 0 <= k < at implies (#[trigger] merges[k]).left != merges[at].left
        || merges[k].right != merges[at].right by {
        let p = lemma_sp_origin(list, inv, k, list.len() as int);
        if p >= i {
            lemma_sp_grows(list, inv, i, p);
            assert(false);
        }
        assert(pair(inv, list[p].0@, list[p].1@) != pair(inv, list[i].0@, list[i].1@));
    }
    merge_order::law_first_listed(merges, at);
}

/// Of two listed merges the one that is listed first has the smaller rank.
pub proof fn law_listed_sooner_ranks_lower(
    list: Seq<(String, String)>,
    inv: Map<Seq<u8>, u32>,
    i: int,
    j: int,
)
    requires
        0 <= i < j < list.len() <= u32::MAX,
        first_known(list, inv, i),
        first_known(list, inv, j),
    ensures
        ({
            let merges = sentencepiece::sp_merges(list, inv, list.len());
            let table = merge::table_of(merges, merges.len());
            table[pair(inv, list[i].0@, list[i].1@)].1 < table[pair(
                inv,
                list[j].0@,
                list[j].1@,
            )].1
        }),
{
    law_merge_ranks_by_place(list, inv, i);
    law_merge_ranks_by_place(list, inv, j);
}

/// What is kept of an added token.
pub open spec fn kept(t: AddedToken) -> (Seq<char>, u32, bool, bool) {
    (t.content@, t.id, t.lstrip, t.rstrip)
}

/// Added tokens are matched in the text as given or in normalized text, as each
/// says, and keep their order.
pub proof fn law_added_by_text(added: Seq<AddedToken>, normalized: bool)
    ensures
        sentencepiece::added_that(added, normalized, added.len()) == added.filter(
            |t: AddedToken| t.normalized == normalized,
        ).map_values(|t: AddedToken| kept(t)),
{
    lemma_added(added, normalized, added.len());
    assert(added.take(added.len() as int) =~= added);
}

proof fn lemma_added(added: Seq<AddedToken>, normalized: bool, n: nat)
    requires
        n <= added.len(),
    ensures
        sentencepiece::added_that(added, normalized, n) == added.take(n as int).filter(
            |t: AddedToken| t.normalized == normalized,
        ).map_values(|t: AddedToken| kept(t)),
    decreases n,
{
    reveal(Seq::filter);
    let f = |t: AddedToken| t.normalized == normalized;
    let g = |t: AddedToken| kept(t);
    if n == 0 {
        assert(added.take(0).filter(f).map_values(g) =~= Seq::empty());
    } else {
        lemma_added(added, normalized, (n - 1) as nat);
        let head = added.take(n as int);
        assert(head.drop_last() =~= added.take(n - 1));
        let before = head.drop_last().filter(f);
        if added[n - 1].normalized == normalized {
            assert(before.push(added[n - 1]).map_values(g) =~= before.map_values(g).push(
                kept(added[n - 1]),
            ));
        }
    }
}

/// The pieces that are spelled out are found by their text, though a byte token
/// spells the same byte.
pub proof fn law_text_before_byte_tokens(entries: Seq<(Seq<char>, u32)>, k: int)
    requires
        0 <= k < entries.len(),
        vocab::fallback_byte(encode_utf8(entries[k].0)) is None,
        forall|j: int|
            k < j < entries.len() ==> vocab::token_bytes((#[trigger] entries[j]).0)
                != vocab::token_bytes(entries[k].0),
    ensures
        ({
            let pieces = sentencepiece::sp_pieces(entries);
            let inv = vocab::numbers_by_bytes(pieces, pieces.len());
            inv.contains_key(encode_utf8(entries[k].0)) && inv[encode_utf8(entries[k].0)]
                == entries[k].1
        }),
{
    let n = entries.len();
    let front = sentencepiece::pieces_that(entries, true, n);
    let back = sentencepiece::pieces_that(entries, false, n);
    let pieces = sentencepiece::sp_pieces(entries);
    lemma_piece_place(entries, k, n);
    let at = sentencepiece::pieces_that(entries, false, k as nat).len() as int;
    let q = front.len() + at;
    assert(pieces[q] == back[at]);
    assert forall|p: int| q < p < pieces.len() implies (#[trigger] pieces[p]).0 != pieces[q].0 by {
        assert(pieces[p] == back[p - front.len()]);
        let j = lemma_piece_origin(entries, p - front.len(), n);
        if j <= k {
            lemma_pieces_grow(entries, j, k);
            assert(false);
        }
    }
    merge_order::law_entries_are_found(pieces, q);
}

proof fn lemma_piece_place(entries: Seq<(Seq<char>, u32)>, k: int, n: nat)
    requires
        0 <= k < n <= entries.len(),
        vocab::fallback_byte(encode_utf8(entries[k].0)) is None,
    ensures
        ({
            let at = sentencepiece::pieces_that(entries, false, k as nat).len() as int;
            let all = sentencepiece::pieces_that(entries, false, n);
            at < all.len() && all[at] == (encode_utf8(entries[k].0), entries[k].1)
        }),
    decreases n,
{
    if n - 1 > k {
        lemma_piece_place(entries, k, (n - 1) as nat);
    }
}

proof fn lemma_piece_origin(entries: Seq<(Seq<char>, u32)>, p: int, n: nat) -> (j: int)
    requires
        n <= entries.len(),
        0 <= p < sentencepiece::pieces_that(entries, false, n).len(),
    ensures
        0 <= j < n,
        sentencepiece::pieces_that(entries, false, n)[p].0 == vocab::token_bytes(entries[j].0),
        sentencepiece::pieces_that(entries, false, j as nat).len() == p,
    decreases n,
{
    if p < sentencepiece::pieces_that(entries, false, (n - 1) as nat).len() {
        lemma_piece_origin(entries, p, (n - 1) as nat)
    } else {
        n - 1
    }
}

proof fn lemma_pieces_grow(entries: Seq<(Seq<char>, u32)>, i: int, j: int)
    requires
        0 <= i <= j <= entries.len(),
    ensures
        sentencepiece::pieces_that(entries, false, i as nat).len() <= sentencepiece::pieces_that(
            entries,
            false,
            j as nat,
        ).len(),
    decreases j,
{
    if i < j {
        lemma_pieces_grow(entries, i, j - 1);
    }
}

/// A serialized map is a size in four bytes, the lowest first, units of that size,
/// and a text; without room for the size it is none.
pub proof fn law_charsmap(a: u8, b: u8, c: u8, d: u8, units: Seq<u8>, text: Seq<u8>)
    requires
        units.len() == a + 0x100 * b + 0x1_0000 * c + 0x100_0000 * d,
        units.len() % 4 == 0,
    ensures
        sentencepiece::charsmap_valid(seq![a, b, c, d] + units + text) <==> valid_utf8(text),
        units.len() > 0 ==> !sentencepiece::charsmap_valid(
            seq![a, b, c, d] + units.drop_last(),
        ),
        !sentencepiece::charsmap_valid(seq![a, b, c]),
{
    let bytes = seq![a, b, c, d] + units + text;
    let n = 4 + units.len();
    assert(bytes[0] == a && bytes[1] == b && bytes[2] == c && bytes[3] == d);
    assert(4 * sentencepiece::trie_units(bytes) == units.len());
    assert(bytes.subrange(n as int, bytes.len() as int) =~= text);
    let short = seq![a, b, c, d] + units.drop_last();
    assert(short[0] == a && short[1] == b && short[2] == c && short[3] == d);
    assert(4 * sentencepiece::trie_units(short) == units.len());
}

/// A `Split` block at spaces that joins each to what precedes it splits nothing
/// where a step of the normalizer has replaced every space by a text without one;
/// else it is refused.
pub proof fn law_split_at_spaces(pt: PreTokenizerJson, steps: Seq<Step>)
    requires
        pt.kind@ == "Split"@,
    ensures
        ({
            let at_spaces = pt.pattern matches Some(p) && p.literal matches Some(l) && l@
                == seq![' '];
            let joined = pt.behavior matches Some(b) && b@ == "MergedWithPrevious"@;
            let replaced = exists|i: int|
                0 <= i < steps.len() && (#[trigger] steps[i] matches Step::Replace {
                    pattern,
                    content,
                } && pattern == seq![' '] && !content.contains(' '));
            let res = sentencepiece::metaspace_setting(Some(pt), steps);
            &&& at_spaces && joined && replaced ==> res == Ok::<Option<Metaspace>, Seq<char>>(None)
            &&& !(at_spaces && joined && replaced) ==> res is Err
        }),
{
    reveal_strlit("Metaspace");
    reveal_strlit("Sequence");
    reveal_strlit("Split");
    reveal_strlit(" ");
    assert(" "@ =~= seq![' ']);
    assert("Metaspace"@.len() == 9 && "Sequence"@.len() == 8 && "Split"@.len() == 5);
    assert forall|i: int| 0 <= i < steps.len() implies sentencepiece::removes_spaces(
        #[trigger] steps[i],
    ) == (steps[i] matches Step::Replace { pattern, content } && pattern == seq![' ']
        && !content.contains(' ')) by {}
}

/// The entries of a SentencePiece-style tokenizer are those of its file: each
/// stands at its number, as the byte that it falls back to or as its text.
pub proof fn law_entries_of_file(tj: TokenizerJson, m: SentencePieceBPE, k: int)
    requires
        sentencepiece::sp_describes(tj, m),
        0 <= k < tj.model.vocab@.len(),
        tj.model.vocab@[k].0@.len() > 0,
        forall|j: int|
            0 <= j < tj.model.vocab@.len() && j != k ==> (#[trigger] tj.model.vocab@[j]).1.0
                != tj.model.vocab@[k].1.0,
    ensures
        tj.model.vocab@[k].1.0 < m.vocab@.len(),
        m.vocab@[tj.model.vocab@[k].1.0 as int]@ == vocab::token_bytes(tj.model.vocab@[k].0@),
{
    let entries = schema::entry_views(tj.model.vocab@);
    let n = entries.len();
    let pieces = sentencepiece::sp_pieces(entries);
    let front = sentencepiece::pieces_that(entries, true, n);
    let back = sentencepiece::pieces_that(entries, false, n);
    let flag = vocab::fallback_byte(encode_utf8(entries[k].0)) is Some;
    let id = entries[k].1;
    lemma_piece_stands(entries, flag, k, n);
    let at = sentencepiece::pieces_that(entries, flag, k as nat).len() as int;
    let q = if flag {
        at
    } else {
        front.len() + at
    };
    assert(pieces[q] == (vocab::token_bytes(entries[k].0), id));
    assert forall|p: int| q < p < pieces.len() implies (#[trigger] pieces[p]).1 != pieces[q].1 by {
        if p < front.len() {
            lemma_piece_number(entries, true, p, n, k);
            assert(pieces[p] == front[p]);
            if flag {
                lemma_piece_once(entries, true, k, p, n);
            }
        } else {
            let r = p - front.len();
            assert(pieces[p] == back[r]);
            lemma_piece_number(entries, false, r, n, k);
            if !flag {
                lemma_piece_once(entries, false, k, r, n);
            }
        }
    }
    encode_utf8_first_scalar(entries[k].0);
    vocabulary::law_entries_at_numbers(pieces, q, 0);
    vocabulary::law_added_keep_entries(vocab::slots(pieces), tj.added_tokens@, id as int);
    assert(superword::views(m.vocab@)[id as int] == m.vocab@[id as int]@);
}

proof fn lemma_piece_stands(entries: Seq<(Seq<char>, u32)>, flag: bool, k: int, n: nat)
    requires
        0 <= k < n <= entries.len(),
        (vocab::fallback_byte(encode_utf8(entries[k].0)) is Some) == flag,
    ensures
        ({
            let at = sentencepiece::pieces_that(entries, flag, k as nat).len() as int;
            let all = sentencepiece::pieces_that(entries, flag, n);
            at < all.len() && all[at] == (vocab::token_bytes(entries[k].0), entries[k].1)
        }),
    decreases n,
{
    if n - 1 > k {
        lemma_piece_stands(entries, flag, k, (n - 1) as nat);
    }
}

/// A piece with the number of entry `k`, which no other entry has, is that entry.
proof fn lemma_piece_number(
    entries: Seq<(Seq<char>, u32)>,
    flag: bool,
    p: int,
    n: nat,
    k: int,
)
    requires
        n <= entries.len(),
        0 <= k < entries.len(),
        0 <= p < sentencepiece::pieces_that(entries, flag, n).len(),
        forall|j: int|
            0 <= j < entries.len() && j != k ==> (#[trigger] entries[j]).1 != entries[k].1,
    ensures
        sentencepiece::pieces_that(entries, flag, n)[p].1 == entries[k].1 ==> (
        vocab::fallback_byte(encode_utf8(entries[k].0)) is Some) == flag && k < n,
    decreases n,
{
    let before = sentencepiece::pieces_that(entries, flag, (n - 1) as nat);
    if p < before.len() {
        lemma_piece_number(entries, flag, p, (n - 1) as nat, k);
    } else if n - 1 != k {
        assert(entries[n - 1].1 != entries[k].1);
    }
}

proof fn lemma_piece_once(entries: Seq<(Seq<char>, u32)>, flag: bool, k: int, p: int, n: nat)
    requires
        0 <= k < n <= entries.len(),
        sentencepiece::pieces_that(entries, flag, k as nat).len() < p
            < sentencepiece::pieces_that(entries, flag, n).len(),
        (vocab::fallback_byte(encode_utf8(entries[k].0)) is Some) == flag,
        forall|j: int|
            0 <= j < entries.len() && j != k ==> (#[trigger] entries[j]).1 != entries[k].1,
    ensures
        sentencepiece::pieces_that(entries, flag, n)[p].1 != entries[k].1,
    decreases n,
{
    let before = sentencepiece::pieces_that(entries, flag, (n - 1) as nat);
    if n - 1 > k {
        if p < before.len() {
            lemma_piece_once(entries, flag, k, p, (n - 1) as nat);
        } else {
            assert(entries[n - 1].1 != entries[k].1);
        }
    }
}

/// A `Precompiled` block is the map that its base64 text holds, and is refused
/// where it holds none.
pub proof fn law_precompiled_block(n: NormalizerJson)
    requires
        n.kind@ == "Precompiled"@,
    ensures
        n.precompiled_charsmap is None ==> sentencepiece::sp_steps(n) is Err,
        n.precompiled_charsmap matches Some(b64) ==> match sentencepiece::base64_decoded(b64@) {
            Some(bytes) => if sentencepiece::charsmap_valid(bytes) {
                sentencepiece::sp_steps(n) == Ok::<Seq<Step>, Seq<char>>(
                    seq![Step::Precompiled(bytes)],
                )
            } else {
                sentencepiece::sp_steps(n) is Err
            },
            None => sentencepiece::sp_steps(n) is Err,
        },
{
    reveal_strlit("Prepend");
    reveal_strlit("Sequence");
    reveal_strlit("Replace");
    reveal_strlit("Strip");
    reveal_strlit("Precompiled");
    assert("Strip"@.len() == 5 && "Replace"@.len() == 7 && "Sequence"@.len() == 8
        && "Prepend"@.len() == 7 && "Precompiled"@.len() == 11);
}

/// A SentencePiece-style tokenizer has the merges, the byte tokens, the steps and
/// the added tokens of its file.
pub proof fn law_parts_of_file(tj: TokenizerJson, m: SentencePieceBPE, b: u8, i: int)
    requires
        sentencepiece::sp_describes(tj, m),
    ensures
        sentencepiece::opt_number(m.byte_fallback_ids@[b as int]) == sentencepiece::fallback_id(
            schema::entry_views(tj.model.vocab@),
            b,
        ),
        0 <= i < tj.model.merges@.len() && first_known(tj.model.merges@, m.vocab_inv@, i) ==> {
            let (x, y) = (tj.model.merges@[i].0@, tj.model.merges@[i].1@);
            &&& m.merges@.contains_key(pair(m.vocab_inv@, x, y))
            &&& m.merges@[pair(m.vocab_inv@, x, y)] == (
                m.vocab_inv@[vocab::token_bytes(x + y)],
                i as u32,
            )
        },
        tj.normalizer is None ==> m.norm_ops@.len() == 0,
        tj.normalizer matches Some(n) ==> sentencepiece::sp_steps(n) == Ok::<Seq<Step>, Seq<char>>(
            sentencepiece::steps_of(m.norm_ops@),
        ),
        sentencepiece::metaspace_setting(
            tj.pre_tokenizer,
            sentencepiece::steps_of(m.norm_ops@),
        ) == Ok::<Option<Metaspace>, Seq<char>>(m.metaspace),
{
    if 0 <= i < tj.model.merges@.len() && first_known(tj.model.merges@, m.vocab_inv@, i) {
        law_merge_ranks_by_place(tj.model.merges@, m.vocab_inv@, i);
    }
    if tj.normalizer is None {
        assert(sentencepiece::steps_of(m.norm_ops@).len() == 0);
    }
}

} // verus!
