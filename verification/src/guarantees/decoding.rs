//! WordPiece tokens as text: continuing pieces are spliced on, others are set off
//! by a space, and the space before punctuation and contractions goes.

use crate::bpe::decode;
use crate::bpe::superword;
use crate::bpe::tiktoken::Tokenizer;
use crate::bpe::wordpiece;
use crate::bpe::wordpiece::WordPieceDecoder;
use vstd::prelude::*;
use vstd::utf8::*;

verus! {

/// Whether a pattern stands in a text at `k`.
pub open spec fn found_at(s: Seq<u8>, pattern: Seq<u8>, k: int) -> bool {
    0 <= k && k + pattern.len() <= s.len() && s.subrange(k, k + pattern.len()) == pattern
}

proof fn lemma_found(s: Seq<u8>, pattern: Seq<u8>, k: int)
    requires
        0 <= k <= s.len(),
    ensures
        wordpiece::has_prefix(s.subrange(k, s.len() as int), pattern) == found_at(s, pattern, k),
{
    let rest = s.subrange(k, s.len() as int);
    if k + pattern.len() <= s.len() {
        assert(rest.subrange(0, pattern.len() as int) =~= s.subrange(k, k + pattern.len()));
    }
}

/// Replacing leaves a text alone from `pos` on where the pattern does not stand.
proof fn lemma_nothing_replaced(s: Seq<u8>, pattern: Seq<u8>, with: Seq<u8>, pos: int, to: int)
    requires
        0 <= pos <= to <= s.len(),
        forall|k: int| pos <= k < to ==> !found_at(s, pattern, k),
    ensures
        decode::replace_all(s, pattern, with, pos) == s.subrange(pos, to) + decode::replace_all(
            s,
            pattern,
            with,
            to,
        ),
    decreases to - pos,
{
    let rest = decode::replace_all(s, pattern, with, to);
    if pos == to {
        assert(s.subrange(pos, to) + rest =~= rest);
    } else {
        lemma_found(s, pattern, pos);
        assert(!found_at(s, pattern, pos));
        lemma_nothing_replaced(s, pattern, with, pos + 1, to);
        assert(seq![s[pos]] + (s.subrange(pos + 1, to) + rest) =~= s.subrange(pos, to) + rest);
    }
}

/// Replacing goes from left to right: the first place where a pattern stands is
/// replaced, and then what follows it; a text in which it does not stand is left
/// alone.
pub proof fn law_replacing(s: Seq<u8>, pattern: Seq<u8>, with: Seq<u8>, k: int)
    requires
        pattern.len() > 0,
    ensures
        (forall|j: int| 0 <= j < s.len() ==> !found_at(s, pattern, j)) ==> decode::replace_all(
            s,
            pattern,
            with,
            0,
        ) == s,
        found_at(s, pattern, k) && (forall|j: int| 0 <= j < k ==> !found_at(s, pattern, j))
            ==> decode::replace_all(s, pattern, with, 0) == s.take(k) + with
            + decode::replace_all(s.skip(k + pattern.len()), pattern, with, 0),
{
    if forall|j: int| 0 <= j < s.len() ==> !found_at(s, pattern, j) {
        lemma_nothing_replaced(s, pattern, with, 0, s.len() as int);
        assert(s.subrange(0, s.len() as int) + Seq::<u8>::empty() =~= s);
    }
    if found_at(s, pattern, k) && (forall|j: int| 0 <= j < k ==> !found_at(s, pattern, j)) {
        lemma_nothing_replaced(s, pattern, with, 0, k);
        lemma_found(s, pattern, k);
        let next = k + pattern.len();
        lemma_skipped(s, pattern, with, next, 0);
        assert(s.subrange(0, k) =~= s.take(k));
        assert(s.take(k) + (with + decode::replace_all(s, pattern, with, next)) =~= s.take(k) + with
            + decode::replace_all(s, pattern, with, next));
    }
}

proof fn lemma_skipped(s: Seq<u8>, pattern: Seq<u8>, with: Seq<u8>, from: int, k: int)
    requires
        pattern.len() > 0,
        0 <= from <= s.len(),
        0 <= k,
    ensures
        decode::replace_all(s, pattern, with, from + k) == decode::replace_all(
            s.skip(from),
            pattern,
            with,
            k,
        ),
    decreases s.len() - from - k,
{
    let rest = s.skip(from);
    if from + k < s.len() {
        assert(rest.subrange(k, rest.len() as int) =~= s.subrange(from + k, s.len() as int));
        assert(rest[k] == s[from + k]);
        lemma_skipped(s, pattern, with, from, k + 1);
        if k + pattern.len() <= rest.len() {
            lemma_skipped(s, pattern, with, from, k + pattern.len());
        }
    }
}

/// Whether a text holds no space.
pub open spec fn spaceless(s: Seq<u8>) -> bool {
    forall|i: int| 0 <= i < s.len() ==> s[i] != 0x20
}

/// One replacement of a space and a mark by the mark, in a text without spaces but
/// for one in front.
proof fn lemma_one_rule(piece: Seq<u8>, mark: Seq<u8>)
    requires
        spaceless(piece),
        mark.len() > 0,
        spaceless(mark),
    ensures
        decode::replace_all(piece, seq![0x20u8] + mark, mark, 0) == piece,
        decode::replace_all(seq![0x20u8] + piece, seq![0x20u8] + mark, mark, 0) == (
        if mark.is_prefix_of(piece) {
            piece
        } else {
            seq![0x20u8] + piece
        }),
{
    let pattern = seq![0x20u8] + mark;
    let s = seq![0x20u8] + piece;
    assert forall|k: int| 0 <= k < piece.len() implies !found_at(piece, pattern, k) by {
        if found_at(piece, pattern, k) {
            assert(piece.subrange(k, k + pattern.len())[0] == piece[k]);
            assert(pattern[0] == 0x20);
        }
    }
    law_replacing(piece, pattern, mark, 0);
    assert forall|k: int| 1 <= k < s.len() implies !found_at(s, pattern, k) by {
        if found_at(s, pattern, k) {
            assert(s.subrange(k, k + pattern.len())[0] == s[k]);
            assert(s[k] == piece[k - 1]);
            assert(pattern[0] == 0x20);
        }
    }
    if mark.is_prefix_of(piece) {
        let n = mark.len() as int;
        assert(s.subrange(0, n + 1) =~= seq![0x20u8] + piece.subrange(0, n));
        assert(found_at(s, pattern, 0));
        law_replacing(s, pattern, mark, 0);
        let rest = s.skip(n + 1);
        assert(rest =~= piece.skip(n));
        assert forall|k: int| 0 <= k < rest.len() implies !found_at(rest, pattern, k) by {
            if found_at(rest, pattern, k) {
                assert(rest.subrange(k, k + pattern.len())[0] == rest[k]);
                assert(rest[k] == piece[n + k]);
                assert(pattern[0] == 0x20);
            }
        }
        law_replacing(rest, pattern, mark, 0);
        assert(s.take(0) + mark + rest =~= piece);
    } else {
        if found_at(s, pattern, 0) {
            assert(piece.subrange(0, mark.len() as int) =~= mark) by {
                assert forall|i: int| 0 <= i < mark.len() implies piece[i] == mark[i] by {
                    assert(s.subrange(0, pattern.len() as int)[i + 1] == s[i + 1]);
                    assert(pattern[i + 1] == mark[i]);
                }
            }
            assert(false);
        }
        law_replacing(s, pattern, mark, 0);
    }
}

/// The marks before which a space goes: a full stop, a question mark, an
/// exclamation mark, a comma, and n't, 'm, 's, 've and 're.
pub open spec fn marked(piece: Seq<u8>) -> bool {
    ||| seq![0x2Eu8].is_prefix_of(piece)
    ||| seq![0x3Fu8].is_prefix_of(piece)
    ||| seq![0x21u8].is_prefix_of(piece)
    ||| seq![0x2Cu8].is_prefix_of(piece)
    ||| seq![0x6Eu8, 0x27, 0x74].is_prefix_of(piece)
    ||| seq![0x27u8, 0x6D].is_prefix_of(piece)
    ||| seq![0x27u8, 0x73].is_prefix_of(piece)
    ||| seq![0x27u8, 0x76, 0x65].is_prefix_of(piece)
    ||| seq![0x27u8, 0x72, 0x65].is_prefix_of(piece)
}

/// An ASCII character is its byte.
pub proof fn lemma_ascii_byte(c: char)
    requires
        (c as u32) < 0x80,
    ensures
        (c as u8) == c as u32,
{
}

/// ASCII text is encoded byte by byte.
pub proof fn lemma_ascii_bytes(s: Seq<char>, bytes: Seq<u8>)
    requires
        s.len() == bytes.len(),
        forall|i: int| 0 <= i < s.len() ==> (#[trigger] s[i]) as u32 == bytes[i] && bytes[i]
            < 0x80,
    ensures
        encode_utf8(s) == bytes,
    decreases s.len(),
{
    if s.len() > 0 {
        let rest = s.drop_first();
        assert forall|i: int| 0 <= i < rest.len() implies (#[trigger] rest[i]) as u32
            == bytes.drop_first()[i] && bytes.drop_first()[i] < 0x80 by {
            assert(s[i + 1] == rest[i]);
        }
        lemma_ascii_bytes(rest, bytes.drop_first());
        assert(s =~= seq![s[0]] + rest);
        crate::utf8::lemma_encode_concat(seq![s[0]], rest);
        assert(s[0] as u32 == bytes[0]);
        crate::utf8::lemma_encode_ascii(s[0]);
        lemma_ascii_byte(s[0]);
        assert(encode_utf8(s) =~= bytes);
    } else {
        assert(encode_utf8(s) =~= bytes);
    }
}

/// Tidying a piece without spaces leaves it alone; with a space in front, that
/// space goes before a full stop, a question mark, an exclamation mark, a comma or
/// a contraction, and stays before anything else.
pub proof fn law_tidied(piece: Seq<u8>)
    requires
        spaceless(piece),
    ensures
        decode::tidied(piece) == piece,
        decode::tidied(seq![0x20u8] + piece) == (if marked(piece) {
            piece
        } else {
            seq![0x20u8] + piece
        }),
{
    reveal_strlit(" .");
    reveal_strlit(".");
    reveal_strlit(" ?");
    reveal_strlit("?");
    reveal_strlit(" !");
    reveal_strlit("!");
    reveal_strlit(" ,");
    reveal_strlit(",");
    reveal_strlit(" n't");
    reveal_strlit("n't");
    reveal_strlit(" 'm");
    reveal_strlit("'m");
    reveal_strlit(" 's");
    reveal_strlit("'s");
    reveal_strlit(" 've");
    reveal_strlit("'ve");
    reveal_strlit(" 're");
    reveal_strlit("'re");
    lemma_rule(piece, " ."@, "."@, seq![0x2Eu8]);
    lemma_rule(piece, " ?"@, "?"@, seq![0x3Fu8]);
    lemma_rule(piece, " !"@, "!"@, seq![0x21u8]);
    lemma_rule(piece, " ,"@, ","@, seq![0x2Cu8]);
    lemma_rule(piece, " n't"@, "n't"@, seq![0x6Eu8, 0x27, 0x74]);
    lemma_rule(piece, " 'm"@, "'m"@, seq![0x27u8, 0x6D]);
    lemma_rule(piece, " 's"@, "'s"@, seq![0x27u8, 0x73]);
    lemma_rule(piece, " 've"@, "'ve"@, seq![0x27u8, 0x76, 0x65]);
    lemma_rule(piece, " 're"@, "'re"@, seq![0x27u8, 0x72, 0x65]);
}

proof fn lemma_rule(piece: Seq<u8>, pattern: Seq<char>, with: Seq<char>, mark: Seq<u8>)
    requires
        spaceless(piece),
        spaceless(mark),
        mark.len() > 0,
        with.len() == mark.len(),
        pattern.len() == mark.len() + 1,
        pattern[0] == ' ',
        forall|i: int| 0 <= i < with.len() ==> (#[trigger] with[i]) as u32 == mark[i] && mark[i]
            < 0x80,
        forall|i: int|
            1 <= i < pattern.len() ==> (#[trigger] pattern[i]) as u32 == mark[i - 1],
    ensures
        decode::replace_all(piece, encode_utf8(pattern), encode_utf8(with), 0) == piece,
        decode::replace_all(seq![0x20u8] + piece, encode_utf8(pattern), encode_utf8(with), 0) == (
        if mark.is_prefix_of(piece) {
            piece
        } else {
            seq![0x20u8] + piece
        }),
{
    lemma_rule_bytes(pattern, with, mark);
    lemma_one_rule(piece, mark);
}

/// What a decoder makes of pieces: the first stands as it is, a later one with the
/// continuing prefix is spliced on without it, and any other later one follows a
/// space.
pub proof fn law_joined(prefix: Seq<u8>, pieces: Seq<Seq<u8>>, piece: Seq<u8>, rest: Seq<u8>)
    requires
        pieces.len() > 0,
    ensures
        decode::pieces_text(Some(prefix), false, seq![piece], 1) == piece,
        piece == prefix + rest ==> decode::pieces_text(
            Some(prefix),
            false,
            pieces.push(piece),
            pieces.len() + 1,
        ) == decode::pieces_text(Some(prefix), false, pieces, pieces.len()) + rest,
        !prefix.is_prefix_of(piece) ==> decode::pieces_text(
            Some(prefix),
            false,
            pieces.push(piece),
            pieces.len() + 1,
        ) == decode::pieces_text(Some(prefix), false, pieces, pieces.len()) + seq![0x20u8] + piece,
{
    let more = pieces.push(piece);
    lemma_one_piece(Some(prefix), false, piece);
    decode::lemma_pieces_prefix(Some(prefix), false, pieces, more, pieces.len());
    let before = decode::pieces_text(Some(prefix), false, pieces, pieces.len());
    assert(more[pieces.len() as int] == piece);
    if piece == prefix + rest {
        assert(piece.subrange(0, prefix.len() as int) =~= prefix);
        assert(wordpiece::without(piece, prefix.len()) =~= rest);
    }
    if !prefix.is_prefix_of(piece) {
        if wordpiece::has_prefix(piece, prefix) {
            assert(prefix =~= piece.subrange(0, prefix.len() as int));
        }
        assert(before + (seq![0x20u8] + piece) =~= before + seq![0x20u8] + piece);
    }
}

proof fn lemma_one_piece(prefix: Option<Seq<u8>>, cleanup: bool, piece: Seq<u8>)
    ensures
        decode::pieces_text(prefix, cleanup, seq![piece], 1) == decode::piece_text(
            prefix,
            cleanup,
            piece,
            true,
        ),
{
    reveal_with_fuel(decode::pieces_text, 2);
    assert(decode::pieces_text(prefix, cleanup, seq![piece], 1) =~= decode::piece_text(
        prefix,
        cleanup,
        piece,
        true,
    ));
}

/// With tidying on, a later piece without spaces follows a space, unless it starts
/// with a mark before which the space goes; a spliced one is spliced on as it is.
pub proof fn law_joined_and_tidied(
    prefix: Seq<u8>,
    pieces: Seq<Seq<u8>>,
    piece: Seq<u8>,
    rest: Seq<u8>,
)
    requires
        pieces.len() > 0,
        spaceless(piece),
    ensures
        decode::pieces_text(Some(prefix), true, seq![piece], 1) == piece,
        piece == prefix + rest ==> decode::pieces_text(
            Some(prefix),
            true,
            pieces.push(piece),
            pieces.len() + 1,
        ) == decode::pieces_text(Some(prefix), true, pieces, pieces.len()) + rest,
        !prefix.is_prefix_of(piece) && marked(piece) ==> decode::pieces_text(
            Some(prefix),
            true,
            pieces.push(piece),
            pieces.len() + 1,
        ) == decode::pieces_text(Some(prefix), true, pieces, pieces.len()) + piece,
        !prefix.is_prefix_of(piece) && !marked(piece) ==> decode::pieces_text(
            Some(prefix),
            true,
            pieces.push(piece),
            pieces.len() + 1,
        ) == decode::pieces_text(Some(prefix), true, pieces, pieces.len()) + seq![0x20u8] + piece,
{
    let more = pieces.push(piece);
    law_tidied(piece);
    lemma_one_piece(Some(prefix), true, piece);
    decode::lemma_pieces_prefix(Some(prefix), true, pieces, more, pieces.len());
    let before = decode::pieces_text(Some(prefix), true, pieces, pieces.len());
    assert(more[pieces.len() as int] == piece);
    if piece == prefix + rest {
        assert(piece.subrange(0, prefix.len() as int) =~= prefix);
        assert(wordpiece::without(piece, prefix.len()) =~= rest);
        assert(spaceless(rest)) by {
            assert forall|i: int| 0 <= i < rest.len() implies rest[i] != 0x20 by {
                assert(piece[prefix.len() + i] == rest[i]);
            }
        }
        law_tidied(rest);
    }
    if !prefix.is_prefix_of(piece) {
        if wordpiece::has_prefix(piece, prefix) {
            assert(prefix =~= piece.subrange(0, prefix.len() as int));
        }
        assert(before + (seq![0x20u8] + piece) =~= before + seq![0x20u8] + piece);
    }
}

/// Without a decoder, pieces are joined by spaces and keep their prefix.
pub proof fn law_joined_by_spaces(pieces: Seq<Seq<u8>>, piece: Seq<u8>)
    requires
        pieces.len() > 0,
    ensures
        decode::pieces_text(None, false, seq![piece], 1) == piece,
        decode::pieces_text(None, false, pieces.push(piece), pieces.len() + 1)
            == decode::pieces_text(None, false, pieces, pieces.len()) + seq![0x20u8] + piece,
{
    let more = pieces.push(piece);
    lemma_one_piece(None, false, piece);
    decode::lemma_pieces_prefix(None, false, pieces, more, pieces.len());
    let before = decode::pieces_text(None, false, pieces, pieces.len());
    assert(more[pieces.len() as int] == piece);
    assert(before + (seq![0x20u8] + piece) =~= before + seq![0x20u8] + piece);
}

/// Tokens are decoded as their entries in order; a token without an entry is
/// passed over.
pub proof fn law_entries_in_order(t: Tokenizer, ids: Seq<u32>, id: u32)
    ensures
        (forall|i: int|
            0 <= i < ids.len() ==> (#[trigger] ids[i]) < t.vocab@.len()
                && t.vocab@[ids[i] as int]@.len() > 0) ==> t.pieces(ids) == Seq::new(
            ids.len(),
            |i: int| t.vocab@[ids[i] as int]@,
        ),
        id >= t.vocab@.len() || t.vocab@[id as int]@.len() == 0 ==> t.pieces(ids.push(id))
            == t.pieces(ids),
    decreases ids.len(),
{
    let more = ids.push(id);
    assert(more.drop_last() =~= ids);
    assert(more.last() == id);
    if id < t.vocab@.len() {
        assert(superword::views(t.vocab@)[id as int] == t.vocab@[id as int]@);
    }
    if forall|i: int|
        0 <= i < ids.len() ==> (#[trigger] ids[i]) < t.vocab@.len() && t.vocab@[ids[i] as int]@.len()
            > 0 {
        if ids.len() > 0 {
            let head = ids.drop_last();
            assert forall|i: int| 0 <= i < head.len() implies (#[trigger] head[i]) < t.vocab@.len()
                && t.vocab@[head[i] as int]@.len() > 0 by {
                assert(ids[i] == head[i]);
            }
            law_entries_in_order(t, head, 0);
            let last = ids[ids.len() - 1];
            assert(superword::views(t.vocab@)[last as int] == t.vocab@[last as int]@);
        }
        assert(t.pieces(ids) =~= Seq::new(ids.len(), |i: int| t.vocab@[ids[i] as int]@));
    }
}

/// A decoder splices by its prefix and tidies where it says so; without one
/// nothing is spliced or tidied.
pub proof fn law_decoder_settings(d: WordPieceDecoder)
    ensures
        decode::decoder_prefix(Some(d)) == Some(encode_utf8(d.prefix@)),
        decode::decoder_cleanup(Some(d)) == d.cleanup,
        decode::decoder_prefix(None) is None,
        !decode::decoder_cleanup(None),
{
}

/// A text with the space before every occurrence of a mark left out.
pub open spec fn closed_up(s: Seq<u8>, mark: Seq<u8>) -> Seq<u8> {
    decode::replace_all(s, seq![0x20u8] + mark, mark, 0)
}

/// Tidying closes up, one after the other, a full stop, a question mark, an
/// exclamation mark, a comma, and n't, 'm, 's, 've and 're.
pub proof fn law_tidying_in_order(s: Seq<u8>)
    ensures
        ({
            let a = closed_up(s, seq![0x2Eu8]);
            let b = closed_up(a, seq![0x3Fu8]);
            let c = closed_up(b, seq![0x21u8]);
            let d = closed_up(c, seq![0x2Cu8]);
            let e = closed_up(d, seq![0x6Eu8, 0x27, 0x74]);
            let f = closed_up(e, seq![0x27u8, 0x6D]);
            let g = closed_up(f, seq![0x27u8, 0x73]);
            let h = closed_up(g, seq![0x27u8, 0x76, 0x65]);
            decode::tidied(s) == closed_up(h, seq![0x27u8, 0x72, 0x65])
        }),
{
    reveal_strlit(" .");
    reveal_strlit(".");
    reveal_strlit(" ?");
    reveal_strlit("?");
    reveal_strlit(" !");
    reveal_strlit("!");
    reveal_strlit(" ,");
    reveal_strlit(",");
    reveal_strlit(" n't");
    reveal_strlit("n't");
    reveal_strlit(" 'm");
    reveal_strlit("'m");
    reveal_strlit(" 's");
    reveal_strlit("'s");
    reveal_strlit(" 've");
    reveal_strlit("'ve");
    reveal_strlit(" 're");
    reveal_strlit("'re");
    lemma_rule_bytes(" ."@, "."@, seq![0x2Eu8]);
    lemma_rule_bytes(" ?"@, "?"@, seq![0x3Fu8]);
    lemma_rule_bytes(" !"@, "!"@, seq![0x21u8]);
    lemma_rule_bytes(" ,"@, ","@, seq![0x2Cu8]);
    lemma_rule_bytes(" n't"@, "n't"@, seq![0x6Eu8, 0x27, 0x74]);
    lemma_rule_bytes(" 'm"@, "'m"@, seq![0x27u8, 0x6D]);
    lemma_rule_bytes(" 's"@, "'s"@, seq![0x27u8, 0x73]);
    lemma_rule_bytes(" 've"@, "'ve"@, seq![0x27u8, 0x76, 0x65]);
    lemma_rule_bytes(" 're"@, "'re"@, seq![0x27u8, 0x72, 0x65]);
}

/// The bytes of a space and a mark, and of the mark.
proof fn lemma_rule_bytes(pattern: Seq<char>, with: Seq<char>, mark: Seq<u8>)
    requires
        with.len() == mark.len(),
        pattern.len() == mark.len() + 1,
        pattern[0] == ' ',
        forall|i: int| 0 <= i < with.len() ==> (#[trigger] with[i]) as u32 == mark[i] && mark[i]
            < 0x80,
        forall|i: int|
            1 <= i < pattern.len() ==> (#[trigger] pattern[i]) as u32 == mark[i - 1],
    ensures
        encode_utf8(pattern) == seq![0x20u8] + mark,
        encode_utf8(with) == mark,
{
    lemma_ascii_bytes(with, mark);
    let full = seq![0x20u8] + mark;
    assert forall|i: int| 0 <= i < pattern.len() implies (#[trigger] pattern[i]) as u32 == full[i]
        && full[i] < 0x80 by {
        if i > 0 {
            let j = i - 1;
            let w = with[j];
            assert(w as u32 == mark[j]);
            assert(mark[j] < 0x80);
            assert(full[i] == mark[j]);
        }
    }
    lemma_ascii_bytes(pattern, full);
}

/// With tidying on, each piece is tidied as it is joined: the first as it is, a
/// continuing one without its prefix, and any other with the space before it.
pub proof fn law_tidied_as_joined(
    prefix: Seq<u8>,
    pieces: Seq<Seq<u8>>,
    piece: Seq<u8>,
    rest: Seq<u8>,
)
    requires
        pieces.len() > 0,
    ensures
        decode::pieces_text(Some(prefix), true, seq![piece], 1) == decode::tidied(piece),
        piece == prefix + rest ==> decode::pieces_text(
            Some(prefix),
            true,
            pieces.push(piece),
            pieces.len() + 1,
        ) == decode::pieces_text(Some(prefix), true, pieces, pieces.len()) + decode::tidied(rest),
        !prefix.is_prefix_of(piece) ==> decode::pieces_text(
            Some(prefix),
            true,
            pieces.push(piece),
            pieces.len() + 1,
        ) == decode::pieces_text(Some(prefix), true, pieces, pieces.len()) + decode::tidied(
            seq![0x20u8] + piece,
        ),
{
    let more = pieces.push(piece);
    lemma_one_piece(Some(prefix), true, piece);
    decode::lemma_pieces_prefix(Some(prefix), true, pieces, more, pieces.len());
    assert(more[pieces.len() as int] == piece);
    if piece == prefix + rest {
        assert(piece.subrange(0, prefix.len() as int) =~= prefix);
        assert(wordpiece::without(piece, prefix.len()) =~= rest);
    }
    if !prefix.is_prefix_of(piece) && wordpiece::has_prefix(piece, prefix) {
        assert(prefix =~= piece.subrange(0, prefix.len() as int));
    }
}

} // verus!
