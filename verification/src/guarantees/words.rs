//! A word is cut into the longest pieces that fit, from left to right.

use crate::bpe::wordpiece;
use crate::TokenId;
use vstd::prelude::*;
use vstd::utf8::*;

verus! {

/// The pieces that may stand at `start`.
pub open spec fn pieces_at(
    head: Map<Seq<u8>, u32>,
    cont: Map<Seq<u8>, u32>,
    start: int,
) -> Map<Seq<u8>, u32> {
    if start == 0 {
        head
    } else {
        cont
    }
}

/// Whether the bytes from `start` to `end` are a piece and no longer stretch from
/// `start` on is.
pub open spec fn longest_fit(
    head: Map<Seq<u8>, u32>,
    cont: Map<Seq<u8>, u32>,
    bytes: Seq<u8>,
    start: int,
    end: int,
) -> bool {
    &&& start < end <= bytes.len()
    &&& pieces_at(head, cont, start).contains_key(bytes.subrange(start, end))
    &&& forall|e: int|
        end < e <= bytes.len() ==> !pieces_at(head, cont, start).contains_key(
            #[trigger] bytes.subrange(start, e),
        )
}

/// Whether no piece stands at `start`.
pub open spec fn nothing_fits(
    head: Map<Seq<u8>, u32>,
    cont: Map<Seq<u8>, u32>,
    bytes: Seq<u8>,
    start: int,
) -> bool {
    forall|e: int|
        start < e <= bytes.len() ==> !pieces_at(head, cont, start).contains_key(
            #[trigger] bytes.subrange(start, e),
        )
}

/// Whether the stretches between offsets are each the longest that fits, from the
/// start of the word on.
pub open spec fn longest_cuts(
    head: Map<Seq<u8>, u32>,
    cont: Map<Seq<u8>, u32>,
    bytes: Seq<u8>,
    cuts: Seq<int>,
) -> bool {
    &&& cuts.len() > 0
    &&& cuts[0] == 0
    &&& forall|i: int|
        0 <= i && i + 1 < cuts.len() ==> #[trigger] longest_fit(
            head,
            cont,
            bytes,
            cuts[i],
            cuts[i + 1],
        )
}

proof fn lemma_longest_is(
    pieces: Map<Seq<u8>, u32>,
    bytes: Seq<u8>,
    start: int,
    end: int,
    top: int,
)
    requires
        0 <= start < end <= top <= bytes.len(),
        pieces.contains_key(bytes.subrange(start, end)),
        forall|e: int|
            end < e <= bytes.len() ==> !pieces.contains_key(#[trigger] bytes.subrange(start, e)),
    ensures
        wordpiece::longest_piece(pieces, bytes, start, top) == Some(end),
    decreases top,
{
    if top > end {
        lemma_longest_is(pieces, bytes, start, end, top - 1);
    }
}

proof fn lemma_none_is(pieces: Map<Seq<u8>, u32>, bytes: Seq<u8>, start: int, top: int)
    requires
        0 <= start,
        top <= bytes.len(),
        forall|e: int|
            start < e <= bytes.len() ==> !pieces.contains_key(#[trigger] bytes.subrange(start, e)),
    ensures
        wordpiece::longest_piece(pieces, bytes, start, top) is None,
    decreases top,
{
    if top > start {
        lemma_none_is(pieces, bytes, start, top - 1);
    }
}

proof fn lemma_longest_holds(pieces: Map<Seq<u8>, u32>, bytes: Seq<u8>, start: int, top: int)
    requires
        0 <= start,
        top <= bytes.len(),
    ensures
        match wordpiece::longest_piece(pieces, bytes, start, top) {
            Some(end) => {
                &&& start < end <= top
                &&& pieces.contains_key(bytes.subrange(start, end))
                &&& forall|e: int|
                    end < e <= top ==> !pieces.contains_key(#[trigger] bytes.subrange(start, e))
            },
            None => forall|e: int|
                start < e <= top ==> !pieces.contains_key(#[trigger] bytes.subrange(start, e)),
        },
    decreases top - start,
{
    if top > start {
        lemma_longest_holds(pieces, bytes, start, top - 1);
    }
}

/// What cuts from offset `from` on say of the segmentation there.
proof fn lemma_cuts_segment(
    head: Map<Seq<u8>, u32>,
    cont: Map<Seq<u8>, u32>,
    bytes: Seq<u8>,
    cuts: Seq<int>,
    from: int,
)
    requires
        longest_cuts(head, cont, bytes, cuts),
        0 <= from < cuts.len(),
    ensures
        0 <= cuts[from] <= bytes.len(),
        cuts.last() == bytes.len() ==> wordpiece::segmentation(head, cont, bytes, cuts[from])
            == Some(
            Seq::new(
                (cuts.len() - 1 - from) as nat,
                |i: int|
                    pieces_at(head, cont, cuts[from + i])[bytes.subrange(
                        cuts[from + i],
                        cuts[from + i + 1],
                    )],
            ),
        ),
        cuts.last() < bytes.len() && nothing_fits(head, cont, bytes, cuts.last())
            ==> wordpiece::segmentation(head, cont, bytes, cuts[from]) is None,
    decreases cuts.len() - from,
{
    if from > 0 {
        assert(longest_fit(head, cont, bytes, cuts[from - 1], cuts[from - 1 + 1]));
        lemma_cut_at_least(head, cont, bytes, cuts, from);
    }
    let start = cuts[from];
    if from + 1 == cuts.len() {
        if start == bytes.len() {
            assert(Seq::new(
                0,
                |i: int|
                    pieces_at(head, cont, cuts[from + i])[bytes.subrange(
                        cuts[from + i],
                        cuts[from + i + 1],
                    )],
            ) =~= Seq::<u32>::empty());
        } else if nothing_fits(head, cont, bytes, start) {
            lemma_none_is(pieces_at(head, cont, start), bytes, start, bytes.len() as int);
        }
    } else {
        lemma_cuts_segment(head, cont, bytes, cuts, from + 1);
        assert(longest_fit(head, cont, bytes, cuts[from], cuts[from + 1]));
        lemma_longest_is(
            pieces_at(head, cont, start),
            bytes,
            start,
            cuts[from + 1],
            bytes.len() as int,
        );
        if cuts.last() == bytes.len() {
            let rest = Seq::new(
                (cuts.len() - 1 - (from + 1)) as nat,
                |i: int|
                    pieces_at(head, cont, cuts[from + 1 + i])[bytes.subrange(
                        cuts[from + 1 + i],
                        cuts[from + 1 + i + 1],
                    )],
            );
            let all = Seq::new(
                (cuts.len() - 1 - from) as nat,
                |i: int|
                    pieces_at(head, cont, cuts[from + i])[bytes.subrange(
                        cuts[from + i],
                        cuts[from + i + 1],
                    )],
            );
            let piece = pieces_at(head, cont, start)[bytes.subrange(start, cuts[from + 1])];
            assert(all.len() == rest.len() + 1);
            assert forall|i: int| 0 <= i < all.len() implies all[i] == (seq![piece] + rest)[i] by {
                if i > 0 {
                    assert(from + 1 + (i - 1) == from + i);
                }
            }
            assert(all =~= seq![piece] + rest);
        }
    }
}

proof fn lemma_cut_at_least(
    head: Map<Seq<u8>, u32>,
    cont: Map<Seq<u8>, u32>,
    bytes: Seq<u8>,
    cuts: Seq<int>,
    k: int,
)
    requires
        longest_cuts(head, cont, bytes, cuts),
        0 <= k < cuts.len(),
    ensures
        cuts[k] >= k,
    decreases k,
{
    if k > 0 {
        lemma_cut_at_least(head, cont, bytes, cuts, k - 1);
        assert(longest_fit(head, cont, bytes, cuts[k - 1], cuts[k - 1 + 1]));
    }
}

/// Longest match first decides the tokens of a word: where taking the longest
/// piece again and again reaches its end, its tokens are those pieces, and where
/// that gets stuck before, it is unknown as a whole.
pub proof fn law_longest_first(
    head: Map<Seq<u8>, u32>,
    cont: Map<Seq<u8>, u32>,
    unk: u32,
    max_chars: nat,
    word: Seq<u8>,
    cuts: Seq<int>,
)
    requires
        word.len() > 0,
        word.len() <= max_chars || (valid_utf8(word) && decode_utf8(word).len() <= max_chars),
        longest_cuts(head, cont, word, cuts),
    ensures
        cuts.last() == word.len() ==> wordpiece::word_tokens(head, cont, unk, max_chars, word)
            == Seq::new(
            (cuts.len() - 1) as nat,
            |i: int| pieces_at(head, cont, cuts[i])[word.subrange(cuts[i], cuts[i + 1])],
        ),
        cuts.last() < word.len() && nothing_fits(head, cont, word, cuts.last())
            ==> wordpiece::word_tokens(head, cont, unk, max_chars, word) == seq![unk],
{
    lemma_char_count(word);
    if valid_utf8(word) {
        wordpiece::law_char_count(word);
    }
    lemma_cuts_segment(head, cont, word, cuts, 0);
    if cuts.last() == word.len() {
        assert(wordpiece::word_tokens(head, cont, unk, max_chars, word) =~= Seq::new(
            (cuts.len() - 1) as nat,
            |i: int| pieces_at(head, cont, cuts[i])[word.subrange(cuts[i], cuts[i + 1])],
        ));
    }
}

proof fn lemma_char_count(bytes: Seq<u8>)
    ensures
        wordpiece::char_count(bytes) <= bytes.len(),
    decreases bytes.len(),
{
    if bytes.len() > 0 {
        lemma_char_count(bytes.drop_last());
    }
}

/// A word of more characters than the limit is unknown, and the empty word has no
/// tokens.
pub proof fn law_word_limits(
    head: Map<Seq<u8>, u32>,
    cont: Map<Seq<u8>, u32>,
    unk: u32,
    max_chars: nat,
    word: Seq<u8>,
)
    requires
        valid_utf8(word),
    ensures
        decode_utf8(word).len() > max_chars ==> wordpiece::word_tokens(
            head,
            cont,
            unk,
            max_chars,
            word,
        ) == seq![unk],
        word.len() == 0 ==> wordpiece::word_tokens(head, cont, unk, max_chars, word)
            == Seq::<u32>::empty(),
{
    wordpiece::law_char_count(word);
}

/// Every piece of a segmentation is the longest that fits where it stands.
pub proof fn law_pieces_are_longest(
    head: Map<Seq<u8>, u32>,
    cont: Map<Seq<u8>, u32>,
    word: Seq<u8>,
)
    ensures
        wordpiece::segmentation(head, cont, word, 0) matches Some(ids) ==> exists|cuts: Seq<int>|
            {
                &&& #[trigger] wordpiece::spells(head, cont, word, 0, ids, cuts)
                &&& forall|i: int, e: int|
                    0 <= i < ids.len() && cuts[i + 1] < e <= word.len() ==> !(if cuts[i] == 0 {
                        head
                    } else {
                        cont
                    }).contains_key(#[trigger] word.subrange(cuts[i], e))
            },
{
    if let Some(ids) = wordpiece::segmentation(head, cont, word, 0) {
        lemma_longest_spelling(head, cont, word, 0);
        let cuts = choose|cuts: Seq<int>|
            #[trigger] wordpiece::spells(head, cont, word, 0, ids, cuts) && longest_from(
                head,
                cont,
                word,
                cuts,
            );
        assert forall|i: int, e: int|
            0 <= i < ids.len() && cuts[i + 1] < e <= word.len() implies !(if cuts[i] == 0 {
            head
        } else {
            cont
        }).contains_key(#[trigger] word.subrange(cuts[i], e)) by {
            assert(longest_fit(head, cont, word, cuts[i], cuts[i + 1]));
        }
    }
}

spec fn longest_from(
    head: Map<Seq<u8>, u32>,
    cont: Map<Seq<u8>, u32>,
    bytes: Seq<u8>,
    cuts: Seq<int>,
) -> bool {
    forall|i: int|
        0 <= i && i + 1 < cuts.len() ==> #[trigger] longest_fit(
            head,
            cont,
            bytes,
            cuts[i],
            cuts[i + 1],
        )
}

proof fn lemma_longest_spelling(
    head: Map<Seq<u8>, u32>,
    cont: Map<Seq<u8>, u32>,
    bytes: Seq<u8>,
    start: int,
)
    requires
        0 <= start <= bytes.len(),
    ensures
        wordpiece::segmentation(head, cont, bytes, start) matches Some(ids) ==> exists|
            cuts: Seq<int>,
        |
            #[trigger] wordpiece::spells(head, cont, bytes, start, ids, cuts) && longest_from(
                head,
                cont,
                bytes,
                cuts,
            ),
    decreases bytes.len() - start,
{
    if let Some(ids) = wordpiece::segmentation(head, cont, bytes, start) {
        if start >= bytes.len() {
            assert(wordpiece::spells(head, cont, bytes, start, ids, seq![start]));
        } else {
            let pieces = pieces_at(head, cont, start);
            lemma_longest_holds(pieces, bytes, start, bytes.len() as int);
            let end = wordpiece::longest_piece(
                pieces,
                bytes,
                start,
                bytes.len() as int,
            ).unwrap();
            lemma_longest_spelling(head, cont, bytes, end);
            let rest = wordpiece::segmentation(head, cont, bytes, end).unwrap();
            let after = choose|cuts: Seq<int>|
                #[trigger] wordpiece::spells(head, cont, bytes, end, rest, cuts) && longest_from(
                    head,
                    cont,
                    bytes,
                    cuts,
                );
            let cuts = seq![start] + after;
            assert(ids == seq![pieces[bytes.subrange(start, end)]] + rest);
            assert forall|i: int| 0 <= i < ids.len() implies #[trigger] wordpiece::is_piece(
                head,
                cont,
                bytes,
                cuts[i],
                cuts[i + 1],
                ids[i],
            ) && longest_fit(head, cont, bytes, cuts[i], cuts[i + 1]) by {
                if i > 0 {
                    let k = i - 1;
                    assert(wordpiece::is_piece(
                        head,
                        cont,
                        bytes,
                        after[k],
                        after[k + 1],
                        rest[k],
                    ));
                    assert(longest_fit(head, cont, bytes, after[k], after[k + 1]));
                }
            }
            assert forall|i: int| 0 <= i && i + 1 < cuts.len() implies #[trigger] longest_fit(
                head,
                cont,
                bytes,
                cuts[i],
                cuts[i + 1],
            ) by {
                assert(wordpiece::is_piece(head, cont, bytes, cuts[i], cuts[i + 1], ids[i]));
            }
            assert(cuts.last() == after.last());
            assert(wordpiece::spells(head, cont, bytes, start, ids, cuts));
        }
    }
}

/// Whether no two pieces have one number.
pub open spec fn told_apart(pieces: Map<Seq<u8>, u32>) -> bool {
    forall|a: Seq<u8>, b: Seq<u8>| #[trigger]
        pieces.contains_key(a) && #[trigger] pieces.contains_key(b) && a != b ==> pieces[a]
            != pieces[b]
}

proof fn lemma_one_spelling(
    head: Map<Seq<u8>, u32>,
    cont: Map<Seq<u8>, u32>,
    bytes: Seq<u8>,
    ids: Seq<u32>,
    cuts: Seq<int>,
    other: Seq<int>,
    k: int,
)
    requires
        told_apart(head),
        told_apart(cont),
        wordpiece::spells(head, cont, bytes, 0, ids, cuts),
        wordpiece::spells(head, cont, bytes, 0, ids, other),
        0 <= k <= ids.len(),
    ensures
        cuts[k] == other[k],
        k <= cuts[k] <= bytes.len(),
    decreases k,
{
    lemma_cut_bounds(head, cont, bytes, ids, cuts, k);
    lemma_cut_bounds(head, cont, bytes, ids, other, k);
    if k > 0 {
        lemma_one_spelling(head, cont, bytes, ids, cuts, other, k - 1);
        assert(wordpiece::is_piece(head, cont, bytes, cuts[k - 1], cuts[k - 1 + 1], ids[k - 1]));
        assert(wordpiece::is_piece(head, cont, bytes, other[k - 1], other[k - 1 + 1], ids[k - 1]));
        let start = cuts[k - 1];
        assert(bytes.subrange(start, cuts[k]).len() == cuts[k] - start);
        assert(bytes.subrange(start, other[k]).len() == other[k] - start);
    }
}

proof fn lemma_cut_bounds(
    head: Map<Seq<u8>, u32>,
    cont: Map<Seq<u8>, u32>,
    bytes: Seq<u8>,
    ids: Seq<u32>,
    cuts: Seq<int>,
    k: int,
)
    requires
        wordpiece::spells(head, cont, bytes, 0, ids, cuts),
        0 <= k <= ids.len(),
    ensures
        k <= cuts[k] <= bytes.len(),
{
    lemma_cut_low(head, cont, bytes, ids, cuts, k);
    lemma_cut_high(head, cont, bytes, ids, cuts, k);
}

proof fn lemma_cut_low(
    head: Map<Seq<u8>, u32>,
    cont: Map<Seq<u8>, u32>,
    bytes: Seq<u8>,
    ids: Seq<u32>,
    cuts: Seq<int>,
    k: int,
)
    requires
        wordpiece::spells(head, cont, bytes, 0, ids, cuts),
        0 <= k <= ids.len(),
    ensures
        k <= cuts[k],
    decreases k,
{
    if k > 0 {
        lemma_cut_low(head, cont, bytes, ids, cuts, k - 1);
        assert(wordpiece::is_piece(head, cont, bytes, cuts[k - 1], cuts[k - 1 + 1], ids[k - 1]));
    }
}

proof fn lemma_cut_high(
    head: Map<Seq<u8>, u32>,
    cont: Map<Seq<u8>, u32>,
    bytes: Seq<u8>,
    ids: Seq<u32>,
    cuts: Seq<int>,
    k: int,
)
    requires
        wordpiece::spells(head, cont, bytes, 0, ids, cuts),
        0 <= k <= ids.len(),
    ensures
        cuts[k] <= bytes.len(),
    decreases ids.len() - k,
{
    if k < ids.len() {
        lemma_cut_high(head, cont, bytes, ids, cuts, k + 1);
        assert(wordpiece::is_piece(head, cont, bytes, cuts[k], cuts[k + 1], ids[k]));
    }
}

/// However the tokens of a word spell it, each is the longest piece that fits
/// where it stands, where no two pieces have one number.
pub proof fn law_no_longer_piece(
    head: Map<Seq<u8>, u32>,
    cont: Map<Seq<u8>, u32>,
    word: Seq<u8>,
    cuts: Seq<int>,
    i: int,
    e: int,
)
    requires
        told_apart(head),
        told_apart(cont),
        wordpiece::segmentation(head, cont, word, 0) is Some,
        wordpiece::spells(
            head,
            cont,
            word,
            0,
            wordpiece::segmentation(head, cont, word, 0).unwrap(),
            cuts,
        ),
        0 <= i && i + 1 < cuts.len(),
        cuts[i + 1] < e <= word.len(),
    ensures
        i == 0 ==> !head.contains_key(word.subrange(cuts[i], e)),
        i > 0 ==> !cont.contains_key(word.subrange(cuts[i], e)),
{
    let ids = wordpiece::segmentation(head, cont, word, 0).unwrap();
    law_pieces_are_longest(head, cont, word);
    let other = choose|other: Seq<int>|
        {
            &&& #[trigger] wordpiece::spells(head, cont, word, 0, ids, other)
            &&& forall|i: int, e: int|
                0 <= i < ids.len() && other[i + 1] < e <= word.len() ==> !(if other[i] == 0 {
                    head
                } else {
                    cont
                }).contains_key(#[trigger] word.subrange(other[i], e))
        };
    lemma_one_spelling(head, cont, word, ids, cuts, other, i);
    lemma_one_spelling(head, cont, word, ids, cuts, other, i + 1);
    assert(word.subrange(other[i], e) == word.subrange(cuts[i], e));
}

/// An entry without the continuing prefix may start a word and continues none;
/// of entries of one text the last counts.
pub proof fn law_head_entry(vocab: Seq<(String, TokenId)>, prefix: Seq<u8>, k: int)
    requires
        0 <= k < vocab.len(),
        forall|p: int| k < p < vocab.len() ==> encode_utf8((#[trigger] vocab[p]).0@)
            != encode_utf8(vocab[k].0@),
        prefix.len() == 0 || !prefix.is_prefix_of(encode_utf8(vocab[k].0@)),
    ensures
        wordpiece::head_pieces(vocab, prefix, vocab.len()).contains_key(encode_utf8(vocab[k].0@)),
        wordpiece::head_pieces(vocab, prefix, vocab.len())[encode_utf8(vocab[k].0@)]
            == vocab[k].1.0,
{
    lemma_head_entry(vocab, prefix, k, vocab.len());
}

proof fn lemma_head_entry(vocab: Seq<(String, TokenId)>, prefix: Seq<u8>, k: int, n: nat)
    requires
        0 <= k < n <= vocab.len(),
        forall|p: int| k < p < vocab.len() ==> encode_utf8((#[trigger] vocab[p]).0@)
            != encode_utf8(vocab[k].0@),
        prefix.len() == 0 || !prefix.is_prefix_of(encode_utf8(vocab[k].0@)),
    ensures
        wordpiece::head_pieces(vocab, prefix, n).contains_key(encode_utf8(vocab[k].0@)),
        wordpiece::head_pieces(vocab, prefix, n)[encode_utf8(vocab[k].0@)] == vocab[k].1.0,
    decreases n,
{
    if n - 1 > k {
        lemma_head_entry(vocab, prefix, k, (n - 1) as nat);
        assert(encode_utf8(vocab[n - 1].0@) != encode_utf8(vocab[k].0@));
    } else if wordpiece::has_prefix(encode_utf8(vocab[k].0@), prefix) {
        assert(prefix =~= encode_utf8(vocab[k].0@).subrange(0, prefix.len() as int));
    }
}

/// An entry with the continuing prefix continues words, as what follows the
/// prefix.
pub proof fn law_continuing_entry(
    vocab: Seq<(String, TokenId)>,
    prefix: Seq<u8>,
    rest: Seq<u8>,
    k: int,
)
    requires
        0 <= k < vocab.len(),
        forall|p: int| k < p < vocab.len() ==> encode_utf8((#[trigger] vocab[p]).0@)
            != encode_utf8(vocab[k].0@),
        encode_utf8(vocab[k].0@) == prefix + rest,
    ensures
        wordpiece::cont_pieces(vocab, prefix, vocab.len()).contains_key(rest),
        wordpiece::cont_pieces(vocab, prefix, vocab.len())[rest] == vocab[k].1.0,
{
    lemma_continuing_entry(vocab, prefix, rest, k, vocab.len());
}

proof fn lemma_continuing_entry(
    vocab: Seq<(String, TokenId)>,
    prefix: Seq<u8>,
    rest: Seq<u8>,
    k: int,
    n: nat,
)
    requires
        0 <= k < n <= vocab.len(),
        forall|p: int| k < p < vocab.len() ==> encode_utf8((#[trigger] vocab[p]).0@)
            != encode_utf8(vocab[k].0@),
        encode_utf8(vocab[k].0@) == prefix + rest,
    ensures
        wordpiece::cont_pieces(vocab, prefix, n).contains_key(rest),
        wordpiece::cont_pieces(vocab, prefix, n)[rest] == vocab[k].1.0,
    decreases n,
{
    let piece = encode_utf8(vocab[n - 1].0@);
    if n - 1 > k {
        lemma_continuing_entry(vocab, prefix, rest, k, (n - 1) as nat);
        if wordpiece::has_prefix(piece, prefix) && wordpiece::without(piece, prefix.len()) == rest {
            assert(piece =~= prefix + rest);
        }
    } else {
        assert(piece.subrange(0, prefix.len() as int) =~= prefix);
        assert(wordpiece::without(piece, prefix.len()) =~= rest);
    }
}

/// Every piece comes from an entry: what starts a word is an entry without the
/// continuing prefix, and what continues one is an entry with it.
pub proof fn law_pieces_are_entries(
    vocab: Seq<(String, TokenId)>,
    prefix: Seq<u8>,
    piece: Seq<u8>,
)
    ensures
        wordpiece::head_pieces(vocab, prefix, vocab.len()).contains_key(piece) ==> exists|k: int|
            0 <= k < vocab.len() && encode_utf8((#[trigger] vocab[k]).0@) == piece && (prefix.len()
                == 0 || !prefix.is_prefix_of(piece)),
        wordpiece::cont_pieces(vocab, prefix, vocab.len()).contains_key(piece) ==> exists|k: int|
            0 <= k < vocab.len() && encode_utf8((#[trigger] vocab[k]).0@) == prefix + piece,
{
    lemma_pieces_are_entries(vocab, prefix, piece, vocab.len());
}

proof fn lemma_pieces_are_entries(
    vocab: Seq<(String, TokenId)>,
    prefix: Seq<u8>,
    piece: Seq<u8>,
    n: nat,
)
    requires
        n <= vocab.len(),
    ensures
        wordpiece::head_pieces(vocab, prefix, n).contains_key(piece) ==> exists|k: int|
            0 <= k < n && encode_utf8((#[trigger] vocab[k]).0@) == piece && (prefix.len() == 0
                || !prefix.is_prefix_of(piece)),
        wordpiece::cont_pieces(vocab, prefix, n).contains_key(piece) ==> exists|k: int|
            0 <= k < n && encode_utf8((#[trigger] vocab[k]).0@) == prefix + piece,
    decreases n,
{
    if n > 0 {
        lemma_pieces_are_entries(vocab, prefix, piece, (n - 1) as nat);
        let last = encode_utf8(vocab[n - 1].0@);
        if wordpiece::has_prefix(last, prefix) {
            assert(last =~= prefix + wordpiece::without(last, prefix.len()));
        } else if prefix.is_prefix_of(last) {
            assert(last.subrange(0, prefix.len() as int) =~= prefix);
            assert(false);
        }
    }
}

/// The number of a token by its text is that of the last entry of that text.
pub proof fn law_number_by_text(vocab: Seq<(String, TokenId)>, k: int)
    requires
        0 <= k < vocab.len(),
        forall|p: int| k < p < vocab.len() ==> (#[trigger] vocab[p]).0@ != vocab[k].0@,
    ensures
        wordpiece::id_of(vocab, vocab[k].0@, vocab.len()) == Some(vocab[k].1.0),
{
    lemma_number_by_text(vocab, k, vocab.len());
}

proof fn lemma_number_by_text(vocab: Seq<(String, TokenId)>, k: int, n: nat)
    requires
        0 <= k < n <= vocab.len(),
        forall|p: int| k < p < vocab.len() ==> (#[trigger] vocab[p]).0@ != vocab[k].0@,
    ensures
        wordpiece::id_of(vocab, vocab[k].0@, n) == Some(vocab[k].1.0),
    decreases n,
{
    if n - 1 > k {
        lemma_number_by_text(vocab, k, (n - 1) as nat);
        assert(vocab[n - 1].0@ != vocab[k].0@);
    }
}

} // verus!
