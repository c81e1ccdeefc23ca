//! Turning WordPiece tokens back into text.

use super::wordpiece;
use super::wordpiece::WordPieceDecoder;
use vstd::prelude::*;
use vstd::slice::slice_subrange;
use vstd::utf8::*;

verus! {

/// Replaces every occurrence of a pattern from `pos` on, from left to right.
pub open spec fn replace_all(s: Seq<u8>, pattern: Seq<u8>, with: Seq<u8>, pos: int) -> Seq<u8>
    decreases s.len() - pos,
{
    if pos < 0 || pos >= s.len() {
        Seq::empty()
    } else if pattern.len() > 0 && wordpiece::has_prefix(
        s.subrange(pos, s.len() as int),
        pattern,
    ) {
        with + replace_all(s, pattern, with, pos + pattern.len())
    } else {
        seq![s[pos]] + replace_all(s, pattern, with, pos + 1)
    }
}

/// Replaces every occurrence of a pattern.
pub fn replace(s: &[u8], pattern: &[u8], with: &[u8]) -> (out: Vec<u8>)
    ensures
        out@ == replace_all(s@, pattern@, with@, 0),
{
    let mut out: Vec<u8> = Vec::new();
    let mut pos: usize = 0;
    assert(out@ + replace_all(s@, pattern@, with@, 0) =~= replace_all(s@, pattern@, with@, 0));
    while pos < s.len()
        invariant
            pos <= s@.len(),
            replace_all(s@, pattern@, with@, 0) == out@ + replace_all(
                s@,
                pattern@,
                with@,
                pos as int,
            ),
        decreases s@.len() - pos,
    {
        let ghost before = out@;
        if pattern.len() > 0 && wordpiece::starts_with(slice_subrange(s, pos, s.len()), pattern) {
            out.extend_from_slice(with);
            assert(out@ =~= before + with@);
            assert(before + (with@ + replace_all(s@, pattern@, with@, pos + pattern@.len())) =~= out@
                + replace_all(s@, pattern@, with@, pos + pattern@.len()));
            pos += pattern.len();
        } else {
            out.push(s[pos]);
            assert(before + (seq![s@[pos as int]] + replace_all(s@, pattern@, with@, pos + 1))
                =~= out@ + replace_all(s@, pattern@, with@, pos + 1));
            pos += 1;
        }
    }
    assert(out@ + Seq::<u8>::empty() =~= out@);
    out
}

/// Tidying a piece: the space before a full stop, a question mark, an
/// exclamation mark, a comma or a contraction goes.
pub open spec fn tidied(s: Seq<u8>) -> Seq<u8> {
    let s = replace_all(s, encode_utf8(" ."@), encode_utf8("."@), 0);
    let s = replace_all(s, encode_utf8(" ?"@), encode_utf8("?"@), 0);
    let s = replace_all(s, encode_utf8(" !"@), encode_utf8("!"@), 0);
    let s = replace_all(s, encode_utf8(" ,"@), encode_utf8(","@), 0);
    let s = replace_all(s, encode_utf8(" n't"@), encode_utf8("n't"@), 0);
    let s = replace_all(s, encode_utf8(" 'm"@), encode_utf8("'m"@), 0);
    let s = replace_all(s, encode_utf8(" 's"@), encode_utf8("'s"@), 0);
    let s = replace_all(s, encode_utf8(" 've"@), encode_utf8("'ve"@), 0);
    replace_all(s, encode_utf8(" 're"@), encode_utf8("'re"@), 0)
}

/// Tidies a piece.
pub fn cleanup(s: &[u8]) -> (out: Vec<u8>)
    ensures
        out@ == tidied(s@),
{
    let s = replace(s, " .".as_bytes(), ".".as_bytes());
    let s = replace(&s, " ?".as_bytes(), "?".as_bytes());
    let s = replace(&s, " !".as_bytes(), "!".as_bytes());
    let s = replace(&s, " ,".as_bytes(), ",".as_bytes());
    let s = replace(&s, " n't".as_bytes(), "n't".as_bytes());
    let s = replace(&s, " 'm".as_bytes(), "'m".as_bytes());
    let s = replace(&s, " 's".as_bytes(), "'s".as_bytes());
    let s = replace(&s, " 've".as_bytes(), "'ve".as_bytes());
    replace(&s, " 're".as_bytes(), "'re".as_bytes())
}

/// What one piece adds to the text. Without a decoder, a space and the piece;
/// with one, the piece without its prefix or a space and the piece, tidied
/// where the decoder says so. The first piece gets no space and keeps its
/// prefix.
pub open spec fn piece_text(
    prefix: Option<Seq<u8>>,
    cleanup: bool,
    piece: Seq<u8>,
    first: bool,
) -> Seq<u8> {
    match prefix {
        None => if first {
            piece
        } else {
            seq![0x20u8] + piece
        },
        Some(prefix) => {
            let joined = if first {
                piece
            } else if wordpiece::has_prefix(piece, prefix) {
                wordpiece::without(piece, prefix.len())
            } else {
                seq![0x20u8] + piece
            };
            if cleanup {
                tidied(joined)
            } else {
                joined
            }
        },
    }
}

/// The text of the first `n` pieces.
pub open spec fn pieces_text(
    prefix: Option<Seq<u8>>,
    cleanup: bool,
    pieces: Seq<Seq<u8>>,
    n: nat,
) -> Seq<u8>
    decreases n,
{
    if n == 0 || n > pieces.len() {
        Seq::empty()
    } else {
        pieces_text(prefix, cleanup, pieces, (n - 1) as nat) + piece_text(
            prefix,
            cleanup,
            pieces[n - 1],
            n == 1,
        )
    }
}

/// The text of the first pieces does not depend on later ones.
pub proof fn lemma_pieces_prefix(
    prefix: Option<Seq<u8>>,
    clean: bool,
    pieces: Seq<Seq<u8>>,
    longer: Seq<Seq<u8>>,
    n: nat,
)
    requires
        n <= pieces.len() <= longer.len(),
        forall|i: int| 0 <= i < n ==> pieces[i] == longer[i],
    ensures
        pieces_text(prefix, clean, pieces, n) == pieces_text(prefix, clean, longer, n),
    decreases n,
{
    if n > 0 {
        lemma_pieces_prefix(prefix, clean, pieces, longer, (n - 1) as nat);
    }
}

/// The prefix of a decoder.
pub open spec fn decoder_prefix(decoder: Option<WordPieceDecoder>) -> Option<Seq<u8>> {
    match decoder {
        Some(d) => Some(encode_utf8(d.prefix@)),
        None => None,
    }
}

/// Whether a decoder tidies.
pub open spec fn decoder_cleanup(decoder: Option<WordPieceDecoder>) -> bool {
    match decoder {
        Some(d) => d.cleanup,
        None => false,
    }
}

/// Appends what one piece adds to the text.
pub fn append_piece(
    decoder: &Option<WordPieceDecoder>,
    piece: &[u8],
    first: bool,
    out: &mut Vec<u8>,
)
    ensures
        final(out)@ == old(out)@ + piece_text(
            decoder_prefix(*decoder),
            decoder_cleanup(*decoder),
            piece@,
            first,
        ),
{
    let mut joined: Vec<u8> = Vec::new();
    let mut rest = piece;
    if !first {
        let mut spliced = false;
        match decoder {
            None => {},
            Some(d) => {
                let prefix = d.prefix.as_str().as_bytes();
                if wordpiece::starts_with(piece, prefix) {
                    rest = slice_subrange(piece, prefix.len(), piece.len());
                    spliced = true;
                }
            },
        }
        if !spliced {
            joined.push(0x20);
        }
    }
    joined.extend_from_slice(rest);
    assert(joined@ =~= if first {
        piece@
    } else {
        match decoder_prefix(*decoder) {
            Some(prefix) if wordpiece::has_prefix(piece@, prefix) => wordpiece::without(
                piece@,
                prefix.len(),
            ),
            _ => seq![0x20u8] + piece@,
        }
    });
    let tidy = match decoder {
        None => false,
        Some(d) => d.cleanup,
    };
    if tidy {
        let mut clean = cleanup(&joined);
        out.append(&mut clean);
    } else {
        out.append(&mut joined);
    }
}

} // verus!
