//! Entries, their numbers and their bytes.

use crate::bpe::byte_remapping;
use crate::bpe::tiktoken;
use crate::load_tokenizer::hf;
use crate::load_tokenizer::schema::AddedToken;
use crate::load_tokenizer::vocab;
use vstd::prelude::*;
use vstd::utf8::*;

verus! {

/// Whether a byte can be seen by itself: ASCII and Latin-1 without controls, the
/// two spaces and the soft hyphen.
pub open spec fn visible(b: int) -> bool {
    0x21 <= b <= 0x7E || 0xA1 <= b <= 0xAC || 0xAE <= b <= 0xFF
}

/// How many bytes below `b` cannot be seen by themselves.
pub open spec fn hidden_below(b: int) -> int
    decreases b,
{
    if b <= 0 {
        0
    } else {
        hidden_below(b - 1) + (if visible(b - 1) {
            0int
        } else {
            1int
        })
    }
}

/// In byte-level text a byte that can be seen is written as itself, and the others
/// are written, in their order, as the characters from U+0100 on.
pub proof fn law_byte_characters(b: u8)
    ensures
        vocab::byte_cp(b as int) == (if visible(b as int) {
            b as int
        } else {
            0x100 + hidden_below(b as int)
        }),
{
    lemma_hidden(b as int);
}

proof fn lemma_hidden(b: int)
    requires
        0 <= b <= 256,
    ensures
        hidden_below(b) == (if b <= 0x21 {
            b
        } else if b <= 0x7F {
            0x21
        } else if b <= 0xA1 {
            0x21 + (b - 0x7F)
        } else if b <= 0xAD {
            0x43
        } else {
            0x44
        }),
    decreases b,
{
    if b > 0 {
        lemma_hidden(b - 1);
    }
}

/// Byte-level text is read character by character.
pub proof fn law_byte_level(s: Seq<char>, bytes: Seq<u8>)
    requires
        s.len() == bytes.len(),
        forall|i: int|
            0 <= i < s.len() ==> (#[trigger] s[i]) as u32 == (if visible(bytes[i] as int) {
                bytes[i] as int
            } else {
                0x100 + hidden_below(bytes[i] as int)
            }),
    ensures
        vocab::byte_level(s) == bytes,
{
    assert forall|i: int| 0 <= i < s.len() implies vocab::cp_byte((#[trigger] s[i]) as u32 as int)
        == Some(bytes[i]) by {
        law_byte_characters(bytes[i]);
        vocab::law_byte_chars(bytes[i], 0);
    }
    assert(vocab::byte_level(s) =~= bytes);
}

/// Text with a character that no byte is written as is taken as it is.
pub proof fn law_not_byte_level(s: Seq<char>, i: int)
    requires
        0 <= i < s.len(),
        !visible(s[i] as u32 as int),
        !(0x100 <= s[i] as u32 <= 0x143),
    ensures
        vocab::byte_level(s) == encode_utf8(s),
{
    assert(vocab::cp_byte(s[i] as u32 as int) is None);
}

/// Whether a byte is the hexadecimal digit of a value, in either case.
pub open spec fn digit_of(byte: u8, value: int) -> bool {
    ||| 0 <= value < 10 && byte == 0x30 + value
    ||| 10 <= value < 16 && (byte == 0x41 + value - 10 || byte == 0x61 + value - 10)
}

/// A byte-fallback entry is spelled by an opening bracket, a zero, a small x, two
/// hexadecimal digits and a closing bracket, and stands for the byte of these
/// digits.
pub proof fn law_byte_fallback(a: u8, b: u8, high: int, low: int)
    requires
        digit_of(a, high),
        digit_of(b, low),
    ensures
        vocab::fallback_byte(seq![0x3C, 0x30, 0x78, a, b, 0x3E]) == Some((16 * high + low) as u8),
{
    let token = seq![0x3Cu8, 0x30, 0x78, a, b, 0x3E];
    assert(token.len() == 6 && token[0] == 60 && token[1] == 48 && token[2] == 120 && token[3] == a
        && token[4] == b && token[5] == 62);
}

/// Nothing else stands for a byte.
pub proof fn law_only_byte_fallback(token: Seq<u8>)
    requires
        vocab::fallback_byte(token) is Some,
    ensures
        exists|high: int, low: int| {
            &&& token.len() == 6
            &&& token[0] == 0x3C && token[1] == 0x30 && token[2] == 0x78 && token[5] == 0x3E
            &&& #[trigger] digit_of(token[3], high)
            &&& #[trigger] digit_of(token[4], low)
        },
{
    let high = vocab::hex_value(token[3]).unwrap() as int;
    let low = vocab::hex_value(token[4]).unwrap() as int;
    assert(digit_of(token[3], high) && digit_of(token[4], low));
}

/// An entry that is no byte fallback stands for its own text.
pub proof fn law_token_text(s: Seq<char>)
    ensures
        vocab::fallback_byte(encode_utf8(s)) is None ==> vocab::token_bytes(s) == encode_utf8(s),
        vocab::fallback_byte(encode_utf8(s)) matches Some(b) ==> vocab::token_bytes(s) == seq![b],
{
}

/// Every entry stands at its number, of entries with one number the last; a number
/// that no entry has holds nothing, and there are no more than the largest number
/// asks for.
pub proof fn law_entries_at_numbers(pieces: Seq<(Seq<u8>, u32)>, k: int, id: int)
    requires
        0 <= k < pieces.len(),
        forall|j: int| k < j < pieces.len() ==> (#[trigger] pieces[j]).1 != pieces[k].1,
    ensures
        pieces[k].1 < vocab::slots(pieces).len(),
        vocab::slots(pieces)[pieces[k].1 as int] == pieces[k].0,
        0 <= id < vocab::slots(pieces).len() && (forall|j: int|
            0 <= j < pieces.len() ==> (#[trigger] pieces[j]).1 != id) ==> vocab::slots(pieces)[id]
            == Seq::<u8>::empty(),
        exists|j: int|
            0 <= j < pieces.len() && (#[trigger] pieces[j]).1 + 1 == vocab::slots(pieces).len(),
{
    let n = pieces.len();
    lemma_slot_count(pieces, n, k);
    lemma_slot(pieces, pieces[k].1 as int, n, k);
    if 0 <= id < vocab::slots(pieces).len() && (forall|j: int|
        0 <= j < pieces.len() ==> (#[trigger] pieces[j]).1 != id) {
        lemma_no_slot(pieces, id, n);
    }
}

proof fn lemma_slot_count(pieces: Seq<(Seq<u8>, u32)>, n: nat, k: int)
    requires
        0 <= k < n <= pieces.len(),
    ensures
        pieces[k].1 < vocab::slot_count(vocab::ids_of(pieces), n),
        exists|j: int|
            0 <= j < n && (#[trigger] pieces[j]).1 + 1 == vocab::slot_count(
                vocab::ids_of(pieces),
                n,
            ),
    decreases n,
{
    let ids = vocab::ids_of(pieces);
    assert(ids[n - 1] == pieces[n - 1].1);
    if n == 1 {
        assert(vocab::slot_count(ids, 0) == 1);
        assert(pieces[0].1 + 1 == vocab::slot_count(ids, n));
    } else {
        if k < n - 1 {
            lemma_slot_count(pieces, (n - 1) as nat, k);
        } else {
            lemma_slot_count(pieces, (n - 1) as nat, 0);
        }
        if vocab::slot_count(ids, (n - 1) as nat) <= ids[n - 1] {
            assert(pieces[n - 1].1 + 1 == vocab::slot_count(ids, n));
        }
    }
}

proof fn lemma_slot(pieces: Seq<(Seq<u8>, u32)>, id: int, n: nat, k: int)
    requires
        0 <= k < n <= pieces.len(),
        pieces[k].1 == id,
        forall|j: int| k < j < pieces.len() ==> (#[trigger] pieces[j]).1 != id,
    ensures
        vocab::slot(pieces, id, n) == pieces[k].0,
    decreases n,
{
    if n - 1 > k {
        assert(pieces[n - 1].1 != id);
        lemma_slot(pieces, id, (n - 1) as nat, k);
    }
}

proof fn lemma_no_slot(pieces: Seq<(Seq<u8>, u32)>, id: int, n: nat)
    requires
        n <= pieces.len(),
        forall|j: int| 0 <= j < pieces.len() ==> (#[trigger] pieces[j]).1 != id,
    ensures
        vocab::slot(pieces, id, n) == Seq::<u8>::empty(),
    decreases n,
{
    if n > 0 {
        assert(pieces[n - 1].1 != id);
        lemma_no_slot(pieces, id, (n - 1) as nat);
    }
}

/// Added tokens keep every entry that there is.
pub proof fn law_added_keep_entries(entries: Seq<Seq<u8>>, added: Seq<AddedToken>, id: int)
    requires
        0 <= id < entries.len(),
        entries[id].len() > 0,
    ensures
        id < vocab::extended(entries, added, added.len()).len(),
        vocab::extended(entries, added, added.len())[id] == entries[id],
{
    lemma_extended_keeps(entries, added, added.len(), id);
}

proof fn lemma_extended_keeps(entries: Seq<Seq<u8>>, added: Seq<AddedToken>, n: nat, id: int)
    requires
        0 <= id < entries.len(),
        entries[id].len() > 0,
        n <= added.len(),
    ensures
        entries.len() <= vocab::extended(entries, added, n).len(),
        vocab::extended(entries, added, n)[id] == entries[id],
    decreases n,
{
    if n > 0 {
        lemma_extended_keeps(entries, added, (n - 1) as nat, id);
    }
}

/// An added token whose number has no entry becomes the entry, of several with one
/// number the first.
pub proof fn law_added_become_entries(entries: Seq<Seq<u8>>, added: Seq<AddedToken>, k: int)
    requires
        0 <= k < added.len(),
        added[k].content@.len() > 0,
        added[k].id < entries.len() ==> entries[added[k].id as int].len() == 0,
        forall|j: int| 0 <= j < k ==> (#[trigger] added[j]).id != added[k].id,
    ensures
        added[k].id < vocab::extended(entries, added, added.len()).len(),
        vocab::extended(entries, added, added.len())[added[k].id as int] == encode_utf8(
            added[k].content@,
        ),
{
    lemma_extended(entries, added, added.len(), k);
}

proof fn lemma_extended(entries: Seq<Seq<u8>>, added: Seq<AddedToken>, n: nat, k: int)
    requires
        0 <= k < added.len(),
        n <= added.len(),
        added[k].content@.len() > 0,
        added[k].id < entries.len() ==> entries[added[k].id as int].len() == 0,
        forall|j: int| 0 <= j < k ==> (#[trigger] added[j]).id != added[k].id,
    ensures
        ({
            let id = added[k].id as int;
            let all = vocab::extended(entries, added, n);
            &&& n <= k && id < all.len() ==> all[id].len() == 0
            &&& n > k ==> id < all.len() && all[id] == encode_utf8(added[k].content@)
        }),
    decreases n,
{
    encode_utf8_first_scalar(added[k].content@);
    if n > 0 {
        lemma_extended(entries, added, (n - 1) as nat, k);
        if n - 1 < k {
            assert(added[n - 1].id != added[k].id);
        }
    }
}

/// A byte's token is the first entry that is this byte alone.
pub proof fn law_byte_token(entries: Seq<Seq<u8>>, b: u8, k: int)
    requires
        0 <= k < entries.len(),
        k <= u32::MAX,
        entries[k] == seq![b],
        forall|j: int| 0 <= j < k ==> #[trigger] entries[j] != seq![b],
    ensures
        byte_remapping::byte_token(entries, b) == Some(k as u32),
{
    lemma_byte_token(entries, b, k, 0);
}

proof fn lemma_byte_token(entries: Seq<Seq<u8>>, b: u8, k: int, i: int)
    requires
        0 <= i <= k < entries.len(),
        k <= u32::MAX,
        entries[k] == seq![b],
        forall|j: int| 0 <= j < k ==> #[trigger] entries[j] != seq![b],
    ensures
        byte_remapping::byte_token_from(entries, b, i) == Some(k as u32),
    decreases k - i,
{
    if i < k {
        assert(entries[i] != seq![b]);
        lemma_byte_token(entries, b, k, i + 1);
    }
}

/// A byte that no entry is has no token.
pub proof fn law_no_byte_token(entries: Seq<Seq<u8>>, b: u8)
    requires
        forall|j: int| 0 <= j < entries.len() ==> #[trigger] entries[j] != seq![b],
    ensures
        byte_remapping::byte_token(entries, b) is None,
{
    lemma_no_byte_token(entries, b, 0);
}

proof fn lemma_no_byte_token(entries: Seq<Seq<u8>>, b: u8, i: int)
    requires
        0 <= i,
        forall|j: int| 0 <= j < entries.len() ==> #[trigger] entries[j] != seq![b],
    ensures
        byte_remapping::byte_token_from(entries, b, i) is None,
    decreases entries.len() - i,
{
    if i < entries.len() {
        assert(entries[i] != seq![b]);
        lemma_no_byte_token(entries, b, i + 1);
    }
}

/// The bytes that text never holds, and that need no token: C0, C1 and F5 to FF.
pub proof fn law_bytes_of_text(b: u8)
    ensures
        byte_remapping::utf8_legal(b as int) <==> !(b == 0xC0 || b == 0xC1 || b >= 0xF5),
{
}

/// The first byte of text without a token is the one that is missed.
pub proof fn law_missed_byte(entries: Seq<Seq<u8>>, b: u8)
    requires
        !(b == 0xC0 || b == 0xC1 || b >= 0xF5),
        forall|j: int| 0 <= j < entries.len() ==> #[trigger] entries[j] != seq![b],
    ensures
        hf::missing_byte(entries, 0) matches Some(m) && m <= b && !(m == 0xC0 || m == 0xC1 || m
            >= 0xF5) && byte_remapping::byte_token(entries, m) is None,
{
    law_no_byte_token(entries, b);
    lemma_missed(entries, b, 0);
}

proof fn lemma_missed(entries: Seq<Seq<u8>>, b: u8, i: int)
    requires
        0 <= i <= b,
        byte_remapping::utf8_legal(b as int),
        byte_remapping::byte_token(entries, b) is None,
    ensures
        hf::missing_byte(entries, i) matches Some(m) && i <= m <= b && byte_remapping::utf8_legal(
            m as int,
        ) && byte_remapping::byte_token(entries, m) is None,
    decreases b - i,
{
    if i < b && !(byte_remapping::utf8_legal(i) && byte_remapping::byte_token(entries, i as u8)
        is None) {
        lemma_missed(entries, b, i + 1);
    }
}

/// An entry is found by its bytes, of equal entries the last; no empty entry is.
pub proof fn law_found_by_bytes(entries: Seq<Seq<u8>>, k: int)
    requires
        0 <= k < entries.len() <= u32::MAX,
        entries[k].len() > 0,
        forall|j: int| k < j < entries.len() ==> #[trigger] entries[j] != entries[k],
    ensures
        tiktoken::inverse(entries, entries.len()).contains_key(entries[k]),
        tiktoken::inverse(entries, entries.len())[entries[k]] == k,
        !tiktoken::inverse(entries, entries.len()).contains_key(Seq::empty()),
{
    lemma_inverse(entries, k, entries.len());
    lemma_inverse_not_empty(entries, entries.len());
}

proof fn lemma_inverse(entries: Seq<Seq<u8>>, k: int, n: nat)
    requires
        0 <= k < n <= entries.len() <= u32::MAX,
        entries[k].len() > 0,
        forall|j: int| k < j < entries.len() ==> #[trigger] entries[j] != entries[k],
    ensures
        tiktoken::inverse(entries, n).contains_key(entries[k]),
        tiktoken::inverse(entries, n)[entries[k]] == k,
    decreases n,
{
    if n - 1 > k {
        assert(entries[n - 1] != entries[k]);
        lemma_inverse(entries, k, (n - 1) as nat);
    }
}

proof fn lemma_inverse_not_empty(entries: Seq<Seq<u8>>, n: nat)
    requires
        n <= entries.len(),
    ensures
        !tiktoken::inverse(entries, n).contains_key(Seq::empty()),
    decreases n,
{
    if n > 0 {
        lemma_inverse_not_empty(entries, (n - 1) as nat);
    }
}

/// A vocabulary grows by added tokens only as far as the largest of their numbers
/// asks for.
pub proof fn law_growth(entries: Seq<Seq<u8>>, added: Seq<AddedToken>)
    ensures
        ({
            let len = vocab::extended(entries, added, added.len()).len();
            &&& len >= entries.len()
            &&& len == entries.len() || exists|j: int|
                0 <= j < added.len() && (#[trigger] added[j]).id + 1 == len
        }),
{
    lemma_growth(entries, added, added.len());
}

proof fn lemma_growth(entries: Seq<Seq<u8>>, added: Seq<AddedToken>, n: nat)
    requires
        n <= added.len(),
    ensures
        ({
            let len = vocab::extended(entries, added, n).len();
            &&& len >= entries.len()
            &&& len == entries.len() || exists|j: int|
                0 <= j < n && (#[trigger] added[j]).id + 1 == len
        }),
    decreases n,
{
    if n > 0 {
        lemma_growth(entries, added, (n - 1) as nat);
        let before = vocab::extended(entries, added, (n - 1) as nat).len();
        let id = added[n - 1].id;
        if before <= id {
            assert(added[n - 1].id + 1 == vocab::extended(entries, added, n).len());
        }
    }
}

} // verus!
