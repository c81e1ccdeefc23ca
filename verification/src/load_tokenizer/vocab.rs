//! Vocabulary strings and the bytes that they stand for.

use super::schema::AddedToken;
use crate::bpe::superword;
use crate::byte_map::ByteMap;
use crate::text;
use vstd::prelude::*;
use vstd::slice::slice_to_vec;
use vstd::utf8::*;

verus! {

/// The value of a hexadecimal digit.
pub open spec fn hex_value(b: u8) -> Option<u8> {
    if 48 <= b <= 57 {
        Some((b - 48) as u8)
    } else if 65 <= b <= 70 {
        Some((b - 55) as u8)
    } else if 97 <= b <= 102 {
        Some((b - 87) as u8)
    } else {
        None
    }
}

/// The value of two hexadecimal digits.
pub open spec fn hex_pair(a: u8, b: u8) -> Option<u8> {
    match (hex_value(a), hex_value(b)) {
        (Some(high), Some(low)) => Some((high * 16 + low) as u8),
        _ => None,
    }
}

/// The byte of a byte-fallback token, which is spelled `<0xHH>`.
pub open spec fn fallback_byte(token: Seq<u8>) -> Option<u8> {
    if token.len() == 6 && token[0] == 60 && token[1] == 48 && token[2] == 120 && token[5] == 62 {
        hex_pair(token[3], token[4])
    } else {
        None
    }
}

fn hex_digit(b: u8) -> (res: Option<u8>)
    ensures
        res == hex_value(b),
        res matches Some(v) ==> v < 16,
{
    if 48 <= b && b <= 57 {
        Some(b - 48)
    } else if 65 <= b && b <= 70 {
        Some(b - 55)
    } else if 97 <= b && b <= 102 {
        Some(b - 87)
    } else {
        None
    }
}

/// The byte of a byte-fallback token.
pub fn parse_byte_fallback(s: &str) -> (res: Option<u8>)
    ensures
        res == fallback_byte(encode_utf8(s@)),
{
    let b = s.as_bytes();
    if b.len() == 6 && b[0] == 60 && b[1] == 48 && b[2] == 120 && b[5] == 62 {
        match (hex_digit(b[3]), hex_digit(b[4])) {
            (Some(high), Some(low)) => Some(high * 16 + low),
            _ => None,
        }
    } else {
        None
    }
}

/// The bytes of a vocabulary string: the byte of a byte-fallback token, else the
/// text itself.
pub open spec fn token_bytes(s: Seq<char>) -> Seq<u8> {
    match fallback_byte(encode_utf8(s)) {
        Some(b) => seq![b],
        None => encode_utf8(s),
    }
}

/// The bytes of a vocabulary string.
pub fn token_str_to_bytes(s: &str) -> (out: Vec<u8>)
    ensures
        out@ == token_bytes(s@),
{
    match parse_byte_fallback(s) {
        Some(b) => {
            let mut out: Vec<u8> = Vec::new();
            out.push(b);
            assert(out@ =~= seq![b]);
            out
        },
        None => slice_to_vec(s.as_bytes()),
    }
}

/// Whether a byte stands for itself in byte-level text.
pub open spec fn stands_for_itself(b: int) -> bool {
    33 <= b <= 126 || 161 <= b <= 172 || 174 <= b <= 255
}

/// The character that a byte is written as in byte-level text: itself where that
/// can be printed, else the next one from U+0100 on.
pub open spec fn byte_cp(b: int) -> int {
    if stands_for_itself(b) {
        b
    } else if b <= 32 {
        256 + b
    } else if b <= 160 {
        289 + (b - 127)
    } else {
        323
    }
}

/// The byte that a character of byte-level text stands for.
pub open spec fn cp_byte(c: int) -> Option<u8> {
    if stands_for_itself(c) {
        Some(c as u8)
    } else if 256 <= c <= 288 {
        Some((c - 256) as u8)
    } else if 289 <= c <= 322 {
        Some((c - 289 + 127) as u8)
    } else if c == 323 {
        Some(173u8)
    } else {
        None
    }
}

/// Byte-level text writes bytes as characters one to one.
pub proof fn law_byte_chars(b: u8, c: int)
    ensures
        cp_byte(byte_cp(b as int)) == Some(b),
        cp_byte(c) == Some(b) ==> byte_cp(b as int) == c,
{
}

/// The bytes of byte-level text; text with any other character is taken as it
/// is.
pub open spec fn byte_level(s: Seq<char>) -> Seq<u8> {
    if forall|i: int| 0 <= i < s.len() ==> cp_byte((#[trigger] s[i]) as u32 as int) is Some {
        Seq::new(s.len(), |i: int| cp_byte(s[i] as u32 as int)->0)
    } else {
        encode_utf8(s)
    }
}

/// Bytes as byte-level text.
pub open spec fn written(bytes: Seq<u8>) -> Seq<char> {
    Seq::new(bytes.len(), |i: int| byte_cp(bytes[i] as int) as char)
}

/// Byte-level text gives back the bytes that were written.
pub proof fn law_byte_level_round_trip(bytes: Seq<u8>)
    ensures
        byte_level(written(bytes)) == bytes,
{
    let s = written(bytes);
    assert forall|i: int| 0 <= i < s.len() implies cp_byte((#[trigger] s[i]) as u32 as int) == Some(
        bytes[i],
    ) by {
        law_byte_chars(bytes[i], 0);
        assert(s[i] as u32 == byte_cp(bytes[i] as int));
    }
    assert(byte_level(s) =~= bytes);
}

/// The tables of byte-level text: the character of every byte, and the byte of
/// every character up to the last that is used.
pub fn build_byte_unicode_tables() -> (res: (Vec<char>, Vec<Option<u8>>))
    ensures
        res.0@.len() == 256,
        forall|b: int| 0 <= b < 256 ==> (#[trigger] res.0@[b]) as u32 == byte_cp(b),
        byte_table(res.1@),
{
    let mut b2u: Vec<char> = Vec::new();
    let mut u2b: Vec<Option<u8>> = Vec::new();
    let mut b: u32 = 0;
    let mut next: u32 = 256;
    while b < 256
        invariant
            b <= 256,
            b2u@.len() == b,
            u2b@.len() == b,
            next == (if b <= 32 {
                256 + b as int
            } else if b <= 127 {
                289
            } else if b <= 160 {
                289 + (b - 127) as int
            } else if b <= 173 {
                323
            } else {
                324
            }),
            forall|i: int| 0 <= i < b ==> (#[trigger] b2u@[i]) as u32 == byte_cp(i),
            forall|i: int|
                0 <= i < b ==> #[trigger] u2b@[i] == (if stands_for_itself(i) {
                    Some(i as u8)
                } else {
                    None
                }),
        decreases 256 - b,
    {
        let printed = (33 <= b && b <= 126) || (161 <= b && b <= 172) || 174 <= b;
        if printed {
            let c = b as u8 as char;
            assert(c as u32 == b);
            b2u.push(c);
            u2b.push(Some(b as u8));
        } else {
            let c = match char::from_u32(next) {
                Some(c) => c,
                None => '\0',
            };
            assert(is_scalar(next));
            b2u.push(c);
            u2b.push(None);
            next += 1;
        }
        b += 1;
    }
    let mut c: u32 = 0;
    while c < 256
        invariant
            c <= 256,
            256 <= u2b@.len() <= 324,
            u2b@.len() == (if c <= 32 {
                256 + c as int
            } else if c <= 127 {
                289
            } else if c <= 160 {
                289 + (c - 127) as int
            } else if c <= 173 {
                323
            } else {
                324
            }),
            forall|i: int| 0 <= i < u2b@.len() ==> #[trigger] u2b@[i] == cp_byte(i),
        decreases 256 - c,
    {
        let printed = (33 <= c && c <= 126) || (161 <= c && c <= 172) || 174 <= c;
        if !printed {
            u2b.push(Some(c as u8));
        }
        c += 1;
    }
    (b2u, u2b)
}

/// Whether a table holds the byte of every character of byte-level text.
pub open spec fn byte_table(u2b: Seq<Option<u8>>) -> bool {
    u2b.len() == 324 && forall|c: int| 0 <= c < 324 ==> #[trigger] u2b[c] == cp_byte(c)
}

/// The bytes of byte-level text.
pub fn unicode_to_bytes(s: &str, u2b: &Vec<Option<u8>>) -> (out: Vec<u8>)
    requires
        byte_table(u2b@),
    ensures
        out@ == byte_level(s@),
{
    let chars = text::chars_of(s);
    let mut out: Vec<u8> = Vec::new();
    let mut i: usize = 0;
    while i < chars.len()
        invariant
            byte_table(u2b@),
            chars@ == s@,
            i <= s@.len(),
            out@.len() == i,
            forall|m: int| 0 <= m < i ==> cp_byte((#[trigger] s@[m]) as u32 as int) == Some(out@[m]),
        decreases s@.len() - i,
    {
        let c: u32 = chars[i] as u32;
        let byte: Option<u8> = if c < 324 {
            u2b[c as usize]
        } else {
            None
        };
        match byte {
            Some(b) => {
                out.push(b);
            },
            None => {
                assert(cp_byte(s@[i as int] as u32 as int) is None);
                return slice_to_vec(s.as_bytes());
            },
        }
        i += 1;
    }
    assert(out@ =~= byte_level(s@));
    out
}

/// How many entries the first `n` numbers need; at least one.
pub open spec fn slot_count(ids: Seq<u32>, n: nat) -> nat
    decreases n,
{
    if n == 0 || n > ids.len() {
        1
    } else {
        let before = slot_count(ids, (n - 1) as nat);
        if before > ids[n - 1] {
            before
        } else {
            ids[n - 1] as nat + 1
        }
    }
}

/// The entry of a number among the first `n` pieces: the last piece of that
/// number, or nothing.
pub open spec fn slot(pieces: Seq<(Seq<u8>, u32)>, id: int, n: nat) -> Seq<u8>
    decreases n,
{
    if n == 0 || n > pieces.len() {
        Seq::empty()
    } else if pieces[n - 1].1 == id {
        pieces[n - 1].0
    } else {
        slot(pieces, id, (n - 1) as nat)
    }
}

/// The numbers of pieces.
pub open spec fn ids_of(pieces: Seq<(Seq<u8>, u32)>) -> Seq<u32> {
    Seq::new(pieces.len(), |i: int| pieces[i].1)
}

/// The entries of a vocabulary in the order of their numbers; there is always
/// one.
pub open spec fn slots(pieces: Seq<(Seq<u8>, u32)>) -> Seq<Seq<u8>> {
    Seq::new(
        slot_count(ids_of(pieces), pieces.len()),
        |id: int| slot(pieces, id, pieces.len()),
    )
}

/// The numbers of pieces by their bytes, of the first `n`; the last piece of
/// given bytes counts.
pub open spec fn numbers_by_bytes(pieces: Seq<(Seq<u8>, u32)>, n: nat) -> Map<Seq<u8>, u32>
    decreases n,
{
    if n == 0 || n > pieces.len() {
        Map::empty()
    } else {
        numbers_by_bytes(pieces, (n - 1) as nat).insert(pieces[n - 1].0, pieces[n - 1].1)
    }
}

/// Pieces as bytes and numbers.
pub open spec fn piece_views(pieces: Seq<(Vec<u8>, u32)>) -> Seq<(Seq<u8>, u32)> {
    Seq::new(pieces.len(), |i: int| (pieces[i].0@, pieces[i].1))
}

/// The entries of a vocabulary in the order of their numbers.
pub fn place(pieces: &Vec<(Vec<u8>, u32)>) -> (vocab: Vec<Vec<u8>>)
    ensures
        superword::views(vocab@) == slots(piece_views(pieces@)),
{
    let ghost views = piece_views(pieces@);
    let ghost ids = ids_of(views);
    let mut vocab: Vec<Vec<u8>> = Vec::new();
    vocab.push(Vec::new());
    let mut i: usize = 0;
    while i < pieces.len()
        invariant
            views == piece_views(pieces@),
            ids == ids_of(views),
            i <= pieces@.len(),
            vocab@.len() == slot_count(ids, i as nat),
            forall|id: int| 0 <= id < vocab@.len() ==> (#[trigger] vocab@[id])@ == slot(
                views,
                id,
                i as nat,
            ),
            forall|id: int| vocab@.len() <= id ==> #[trigger] slot(views, id, i as nat).len() == 0,
        decreases pieces@.len() - i,
    {
        let id: u32 = pieces[i].1;
        assert(views[i as int] == (pieces@[i as int].0@, id));
        assert(ids[i as int] == id);
        while vocab.len() <= id as usize
            invariant
                views == piece_views(pieces@),
                i < pieces@.len(),
                id == pieces@[i as int].1,
                vocab@.len() == slot_count(ids, i as nat) || slot_count(ids, i as nat)
                    <= vocab@.len() <= id + 1,
                slot_count(ids, i as nat) <= vocab@.len(),
                forall|m: int| 0 <= m < vocab@.len() ==> (#[trigger] vocab@[m])@ == slot(
                    views,
                    m,
                    i as nat,
                ),
                forall|m: int|
                    vocab@.len() <= m ==> #[trigger] slot(views, m, i as nat).len() == 0,
            decreases id + 1 - vocab@.len(),
        {
            let none: Vec<u8> = Vec::new();
            assert(none@ =~= slot(views, vocab@.len() as int, i as nat));
            vocab.push(none);
        }
        let entry = slice_to_vec(pieces[i].0.as_slice());
        vocab.set(id as usize, entry);
        i += 1;
        proof {
            assert forall|m: int| 0 <= m < vocab@.len() implies (#[trigger] vocab@[m])@ == slot(
                views,
                m,
                i as nat,
            ) by {
                if m != id {
                    assert(slot(views, m, i as nat) == slot(views, m, (i - 1) as nat));
                }
            }
            assert forall|m: int| vocab@.len() <= m implies #[trigger] slot(
                views,
                m,
                i as nat,
            ).len() == 0 by {
                assert(slot(views, m, (i - 1) as nat).len() == 0);
            }
        }
    }
    assert(superword::views(vocab@) =~= slots(views));
    vocab
}

/// The numbers of pieces by their bytes.
pub fn index(pieces: &Vec<(Vec<u8>, u32)>) -> (map: ByteMap)
    ensures
        map.well_formed(),
        map@ == numbers_by_bytes(piece_views(pieces@), pieces@.len()),
{
    let ghost views = piece_views(pieces@);
    let mut map = ByteMap::with_capacity(pieces.len());
    let mut i: usize = 0;
    while i < pieces.len()
        invariant
            views == piece_views(pieces@),
            i <= pieces@.len(),
            map.well_formed(),
            map@ == numbers_by_bytes(views, i as nat),
        decreases pieces@.len() - i,
    {
        assert(views[i as int] == (pieces@[i as int].0@, pieces@[i as int].1));
        map.insert(slice_to_vec(pieces[i].0.as_slice()), pieces[i].1);
        i += 1;
    }
    map
}

/// A vocabulary with the first `n` added tokens: each number beyond its end
/// extends it, and an empty entry becomes the content of the token.
pub open spec fn extended(vocab: Seq<Seq<u8>>, added: Seq<AddedToken>, n: nat) -> Seq<Seq<u8>>
    decreases n,
{
    if n == 0 || n > added.len() {
        vocab
    } else {
        let before = extended(vocab, added, (n - 1) as nat);
        let id = added[n - 1].id as int;
        let grown = if before.len() <= id {
            before + Seq::new((id + 1 - before.len()) as nat, |i: int| Seq::empty())
        } else {
            before
        };
        if grown[id].len() == 0 {
            grown.update(id, encode_utf8(added[n - 1].content@))
        } else {
            grown
        }
    }
}

/// Gives the added tokens that a vocabulary lacks an entry.
pub fn extend_vocab_with_added_tokens(vocab: &mut Vec<Vec<u8>>, added_tokens: &Vec<AddedToken>)
    ensures
        superword::views(final(vocab)@) == extended(
            superword::views(old(vocab)@),
            added_tokens@,
            added_tokens@.len(),
        ),
{
    let ghost start = superword::views(vocab@);
    let mut i: usize = 0;
    while i < added_tokens.len()
        invariant
            start == superword::views(old(vocab)@),
            i <= added_tokens@.len(),
            superword::views(vocab@) == extended(start, added_tokens@, i as nat),
        decreases added_tokens@.len() - i,
    {
        let id: usize = added_tokens[i].id as usize;
        let ghost before = superword::views(vocab@);
        while vocab.len() <= id
            invariant
                superword::views(vocab@).len() >= before.len(),
                superword::views(vocab@) == before + Seq::new(
                    (vocab@.len() - before.len()) as nat,
                    |m: int| Seq::<u8>::empty(),
                ),
                vocab@.len() <= id + 1 || vocab@.len() == before.len(),
            decreases id + 1 - vocab@.len(),
        {
            let ghost shorter = vocab@;
            vocab.push(Vec::new());
            assert(superword::views(vocab@) =~= superword::views(shorter).push(
                Seq::<u8>::empty(),
            ));
            assert(superword::views(vocab@) =~= before + Seq::new(
                (vocab@.len() - before.len()) as nat,
                |m: int| Seq::<u8>::empty(),
            ));
        }
        let ghost grown = superword::views(vocab@);
        assert(grown =~= (if before.len() <= id {
            before + Seq::new((id + 1 - before.len()) as nat, |m: int| Seq::<u8>::empty())
        } else {
            before
        }));
        assert(grown[id as int] == vocab@[id as int]@);
        if vocab[id].len() == 0 {
            let content = slice_to_vec(added_tokens[i].content.as_str().as_bytes());
            vocab.set(id, content);
            assert(superword::views(vocab@) =~= grown.update(
                id as int,
                encode_utf8(added_tokens@[i as int].content@),
            ));
        }
        i += 1;
    }
}

} // verus!
