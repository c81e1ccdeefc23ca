//! Lossy, position-based UTF-8 decoding.
//!
//! The walkers of this crate trust their input to be UTF-8 without validating
//! it, yet have to stay in bounds on any byte string. Every offset of a byte
//! string therefore has a code point and a length: those of the scalar whose
//! well-formed encoding starts there, or U+FFFD and one byte where none does.

use vstd::prelude::*;
use vstd::utf8::*;

verus! {

/// The bytes from `pos` on.
pub open spec fn tail(bytes: Seq<u8>, pos: int) -> Seq<u8> {
    bytes.subrange(pos, bytes.len() as int)
}

/// The code point at byte offset `pos`.
#[verifier::opaque]
pub open spec fn cp_at(bytes: Seq<u8>, pos: int) -> u32 {
    if valid_first_scalar(tail(bytes, pos)) {
        decode_first_scalar(tail(bytes, pos))
    } else {
        0xFFFD
    }
}

/// The number of bytes the code point at `pos` occupies.
#[verifier::opaque]
pub open spec fn cp_len(bytes: Seq<u8>, pos: int) -> int {
    if valid_first_scalar(tail(bytes, pos)) {
        length_of_first_scalar(tail(bytes, pos))
    } else {
        1
    }
}

/// The offset just past the code point at `pos`.
pub open spec fn next_pos(bytes: Seq<u8>, pos: int) -> int {
    pos + cp_len(bytes, pos)
}

proof fn lemma_widths(b1: u8, b2: u8, b3: u8, b4: u8)
    by (bit_vector)
    ensures
        codepoint_width_2(b1, b2) <= 0x7FF,
        codepoint_width_3(b1, b2, b3) <= 0xFFFF,
        codepoint_width_1(b1) <= 0x7F,
        b1 < 0x80 ==> codepoint_width_1(b1) == b1,
{
}

/// What holds at every offset inside a byte string: the code point is a
/// scalar, it ends within the string, and it is ASCII exactly where the byte
/// is.
pub proof fn lemma_cp(bytes: Seq<u8>, pos: int)
    requires
        0 <= pos < bytes.len(),
    ensures
        1 <= cp_len(bytes, pos) <= 4,
        pos < next_pos(bytes, pos) <= bytes.len(),
        cp_at(bytes, pos) < 0x110000,
        is_scalar(cp_at(bytes, pos)),
        bytes[pos] < 0x80 ==> cp_at(bytes, pos) == bytes[pos] && cp_len(bytes, pos) == 1,
        bytes[pos] >= 0x80 ==> cp_at(bytes, pos) >= 0x80,
{
    reveal(cp_at);
    reveal(cp_len);
    let t = tail(bytes, pos);
    assert(t[0] == bytes[pos]);
    let b1 = t[0];
    let b2 = if t.len() > 1 { t[1] } else { 0 };
    let b3 = if t.len() > 2 { t[2] } else { 0 };
    let b4 = if t.len() > 3 { t[3] } else { 0 };
    lemma_widths(b1, b2, b3, b4);
}

/// Decodes the code point at `pos` and its length in bytes.
pub fn decode_cp(bytes: &[u8], pos: usize) -> (res: (u32, usize))
    requires
        pos < bytes@.len(),
    ensures
        res.0 == cp_at(bytes@, pos as int),
        res.1 == cp_len(bytes@, pos as int),
        res.0 < 0x110000,
        1 <= res.1 <= 4,
        pos + res.1 == next_pos(bytes@, pos as int) <= bytes@.len() <= usize::MAX,
{
    proof {
        lemma_cp(bytes@, pos as int);
        reveal(cp_at);
        reveal(cp_len);
    }
    let ghost t = tail(bytes@, pos as int);
    let b1: u8 = bytes[pos];
    assert(b1 == t[0]);
    let left: usize = bytes.len() - pos;
    assert(left == t.len());
    if b1 < 0x80 {
        proof {
            lemma_widths(b1, 0, 0, 0);
        }
        return (b1 as u32, 1);
    }
    if b1 < 0xC0 || b1 > 0xF7 || left < 2 {
        return (0xFFFD, 1);
    }
    let b2: u8 = bytes[pos + 1];
    assert(b2 == t[1]);
    if b2 < 0x80 || b2 > 0xBF {
        return (0xFFFD, 1);
    }
    if b1 < 0xE0 {
        let cp: u32 = ((b1 & 0x1F) as u32) << 6 | (b2 & 0x3F) as u32;
        assert(cp == codepoint_width_2(b1, b2));
        proof {
            lemma_widths(b1, b2, 0, 0);
        }
        return if cp < 0x80 {
            (0xFFFD, 1)
        } else {
            (cp, 2)
        };
    }
    if left < 3 {
        return (0xFFFD, 1);
    }
    let b3: u8 = bytes[pos + 2];
    assert(b3 == t[2]);
    if b3 < 0x80 || b3 > 0xBF {
        return (0xFFFD, 1);
    }
    if b1 < 0xF0 {
        let cp: u32 = ((b1 & 0x0F) as u32) << 12 | ((b2 & 0x3F) as u32) << 6 | (b3 & 0x3F) as u32;
        assert(cp == codepoint_width_3(b1, b2, b3));
        return if cp < 0x800 || (0xD800 <= cp && cp <= 0xDFFF) {
            (0xFFFD, 1)
        } else {
            (cp, 3)
        };
    }
    if left < 4 {
        return (0xFFFD, 1);
    }
    let b4: u8 = bytes[pos + 3];
    assert(b4 == t[3]);
    if b4 < 0x80 || b4 > 0xBF {
        return (0xFFFD, 1);
    }
    let cp: u32 = ((b1 & 0x07) as u32) << 18 | ((b2 & 0x3F) as u32) << 12 | ((b3 & 0x3F) as u32)
        << 6 | (b4 & 0x3F) as u32;
    assert(cp == codepoint_width_4(b1, b2, b3, b4));
    if cp < 0x10000 || cp > 0x10FFFF {
        (0xFFFD, 1)
    } else {
        (cp, 4)
    }
}

/// The character that starts a byte string, where a well-formed one does.
pub open spec fn first_char(s: Seq<u8>) -> Option<u32> {
    if valid_first_scalar(s) {
        Some(decode_first_scalar(s))
    } else {
        None
    }
}

/// Whether the last `k` bytes are one well-formed character.
pub open spec fn char_ends(s: Seq<u8>, k: int) -> bool {
    &&& k <= s.len()
    &&& valid_first_scalar(tail(s, s.len() - k))
    &&& length_of_first_scalar(tail(s, s.len() - k)) == k
}

/// The character that ends a byte string, where a well-formed one does.
pub open spec fn last_char(s: Seq<u8>) -> Option<u32> {
    if char_ends(s, 1) {
        Some(decode_first_scalar(tail(s, s.len() - 1)))
    } else if char_ends(s, 2) {
        Some(decode_first_scalar(tail(s, s.len() - 2)))
    } else if char_ends(s, 3) {
        Some(decode_first_scalar(tail(s, s.len() - 3)))
    } else if char_ends(s, 4) {
        Some(decode_first_scalar(tail(s, s.len() - 4)))
    } else {
        None
    }
}

/// An ASCII first byte is the first character.
pub proof fn lemma_first_ascii(s: Seq<u8>)
    requires
        s.len() > 0,
        s[0] < 0x80,
    ensures
        first_char(s) == Some(s[0] as u32),
{
    lemma_widths(s[0], 0, 0, 0);
}

/// An ASCII last byte is the last character.
pub proof fn lemma_last_ascii(s: Seq<u8>)
    requires
        s.len() > 0,
        s.last() < 0x80,
    ensures
        last_char(s) == Some(s.last() as u32),
{
    let t = tail(s, s.len() - 1);
    assert(t.len() == 1 && t[0] == s.last());
    lemma_widths(t[0], 0, 0, 0);
}

/// The character at `pos` and its length, or `None` where no well-formed one
/// starts.
pub fn decode_at(bytes: &[u8], pos: usize) -> (res: Option<(u32, usize)>)
    requires
        pos < bytes@.len(),
    ensures
        match res {
            Some((cp, len)) => {
                &&& valid_first_scalar(tail(bytes@, pos as int))
                &&& cp == decode_first_scalar(tail(bytes@, pos as int))
                &&& len == length_of_first_scalar(tail(bytes@, pos as int))
                &&& cp < 0x110000
                &&& pos + len <= bytes@.len() <= usize::MAX
                &&& 1 <= len <= 4
            },
            None => !valid_first_scalar(tail(bytes@, pos as int)),
        },
{
    let (cp, len) = decode_cp(bytes, pos);
    proof {
        reveal(cp_at);
        reveal(cp_len);
        let t = tail(bytes@, pos as int);
        let b1 = t[0];
        let b2 = if t.len() > 1 { t[1] } else { 0 };
        lemma_widths(b1, b2, 0, 0);
    }
    if cp == 0xFFFD && len == 1 {
        None
    } else {
        Some((cp, len))
    }
}

/// The code point of the first character of a byte string.
pub fn decode_first(s: &[u8]) -> (res: Option<u32>)
    ensures
        res == first_char(s@),
        res matches Some(cp) ==> cp < 0x110000,
{
    if s.len() == 0 {
        return None;
    }
    assert(tail(s@, 0) =~= s@);
    match decode_at(s, 0) {
        Some((cp, _)) => Some(cp),
        None => None,
    }
}

/// The length of the character that ends a byte string, or 0.
pub open spec fn last_len(s: Seq<u8>) -> int {
    if char_ends(s, 1) {
        1
    } else if char_ends(s, 2) {
        2
    } else if char_ends(s, 3) {
        3
    } else if char_ends(s, 4) {
        4
    } else {
        0
    }
}

/// The code point of the last character of a byte string.
pub fn decode_last(s: &[u8]) -> (res: Option<u32>)
    ensures
        res == last_char(s@),
        res matches Some(cp) ==> cp < 0x110000,
{
    match decode_last_len(s) {
        Some((cp, _)) => Some(cp),
        None => None,
    }
}

/// The code point and the length of the last character of a byte string.
pub fn decode_last_len(s: &[u8]) -> (res: Option<(u32, usize)>)
    ensures
        match res {
            Some((cp, len)) => {
                &&& last_char(s@) == Some(cp)
                &&& len == last_len(s@)
                &&& 1 <= len <= s@.len()
                &&& cp < 0x110000
            },
            None => last_char(s@) is None,
        },
{
    let n: usize = s.len();
    let mut k: usize = 1;
    while k <= 4 && k <= n
        invariant
            n == s@.len(),
            1 <= k <= 5,
            k <= n + 1,
            forall|j: int| 1 <= j < k ==> !char_ends(s@, j),
        decreases 5 - k,
    {
        match decode_at(s, n - k) {
            Some((cp, len)) => if len == k {
                return Some((cp, k));
            },
            None => {},
        }
        k += 1;
    }
    None
}

/// `std::str::from_utf8`: the string that well-formed bytes encode, and nothing
/// for others.
#[verifier::external_body]
pub(crate) fn str_of_utf8(bytes: &[u8]) -> (res: Option<&str>)
    ensures
        res is Some <==> valid_utf8(bytes@),
        res matches Some(s) ==> encode_utf8(s@) == bytes@,
{
    std::str::from_utf8(bytes).ok()
}

/// `char::from_u32`: the character with a given code point, which every scalar
/// value has and no other number.
pub assume_specification[ char::from_u32 ](i: u32) -> (res: Option<char>)
    ensures
        res is Some <==> is_scalar(i),
        res matches Some(c) ==> c as u32 == i,
;

/// Encoding is character by character.
pub proof fn lemma_encode_concat(a: Seq<char>, b: Seq<char>)
    ensures
        encode_utf8(a + b) == encode_utf8(a) + encode_utf8(b),
    decreases a.len(),
{
    if a.len() == 0 {
        assert(a + b =~= b);
        assert(encode_utf8(a) + encode_utf8(b) =~= encode_utf8(b));
    } else {
        assert((a + b).drop_first() =~= a.drop_first() + b);
        lemma_encode_concat(a.drop_first(), b);
        assert(encode_scalar(a[0] as u32) + (encode_utf8(a.drop_first()) + encode_utf8(b))
            =~= encode_utf8(a) + encode_utf8(b));
    }
}

/// A single character's encoding.
pub proof fn lemma_encode_one(c: char)
    ensures
        encode_utf8(seq![c]) == encode_scalar(c as u32),
{
    assert(seq![c].drop_first() =~= Seq::<char>::empty());
    assert(encode_utf8(Seq::<char>::empty()) =~= Seq::<u8>::empty());
    assert(encode_scalar(c as u32) + Seq::<u8>::empty() =~= encode_scalar(c as u32));
}

/// Appends the encoding of a character.
pub fn push_char(out: &mut Vec<u8>, c: char)
    ensures
        final(out)@ == old(out)@ + encode_utf8(seq![c]),
{
    proof {
        lemma_encode_one(c);
    }
    let ghost before = out@;
    let cp: u32 = c as u32;
    if cp <= 0x7F {
        out.push((cp & 0x7F) as u8);
        assert(out@ =~= before + encode_scalar(cp));
    } else if cp <= 0x7FF {
        out.push(0xC0 | ((cp >> 6) & 0x1F) as u8);
        out.push(0x80 | (cp & 0x3F) as u8);
        assert(out@ =~= before + encode_scalar(cp));
    } else if cp <= 0xFFFF {
        out.push(0xE0 | ((cp >> 12) & 0xF) as u8);
        out.push(0x80 | ((cp >> 6) & 0x3F) as u8);
        out.push(0x80 | (cp & 0x3F) as u8);
        assert(out@ =~= before + encode_scalar(cp));
    } else {
        out.push(0xF0 | ((cp >> 18) & 0x7) as u8);
        out.push(0x80 | ((cp >> 12) & 0x3F) as u8);
        out.push(0x80 | ((cp >> 6) & 0x3F) as u8);
        out.push(0x80 | (cp & 0x3F) as u8);
        assert(out@ =~= before + encode_scalar(cp));
    }
}

/// The first character of well-formed text, and what follows it.
pub proof fn lemma_decode_step(bytes: Seq<u8>, pos: int)
    requires
        0 <= pos < bytes.len(),
        valid_utf8(tail(bytes, pos)),
    ensures
        valid_first_scalar(tail(bytes, pos)),
        valid_utf8(tail(bytes, pos + length_of_first_scalar(tail(bytes, pos)))),
        decode_utf8(tail(bytes, pos)) == seq![decode_first_scalar(tail(bytes, pos)) as char]
            + decode_utf8(tail(bytes, pos + length_of_first_scalar(tail(bytes, pos)))),
{
    let t = tail(bytes, pos);
    assert(pop_first_scalar(t) =~= tail(bytes, pos + length_of_first_scalar(t)));
}

/// ASCII text is its own encoding.
pub proof fn lemma_ascii_text(bytes: Seq<u8>)
    requires
        forall|i: int| 0 <= i < bytes.len() ==> bytes[i] < 0x80,
    ensures
        valid_utf8(bytes),
        decode_utf8(bytes).len() == bytes.len(),
        forall|i: int| 0 <= i < bytes.len() ==> #[trigger] decode_utf8(bytes)[i] as u32 == bytes[i],
        is_ascii_chars(decode_utf8(bytes)),
    decreases bytes.len(),
{
    if bytes.len() > 0 {
        let rest = bytes.subrange(1, bytes.len() as int);
        lemma_widths(bytes[0], 0, 0, 0);
        assert(pop_first_scalar(bytes) =~= rest);
        lemma_ascii_text(rest);
        let chars = decode_utf8(bytes);
        assert(chars =~= seq![bytes[0] as char] + decode_utf8(rest));
        assert forall|i: int| 0 <= i < bytes.len() implies #[trigger] chars[i] as u32
            == bytes[i] by {
            if i > 0 {
                assert(chars[i] == decode_utf8(rest)[i - 1]);
            }
        }
    }
}

/// The first scalar of a text is a character.
pub proof fn lemma_scalar_char(t: Seq<u8>)
    requires
        valid_first_scalar(t),
    ensures
        is_scalar(decode_first_scalar(t)),
        (decode_first_scalar(t) as char) as u32 == decode_first_scalar(t),
{
    let b1 = t[0];
    let b2 = if t.len() > 1 { t[1] } else { 0 };
    let b3 = if t.len() > 2 { t[2] } else { 0 };
    let b4 = if t.len() > 3 { t[3] } else { 0 };
    lemma_widths(b1, b2, b3, b4);
}

/// An ASCII byte is a character of its own.
pub proof fn lemma_tail_ascii(bytes: Seq<u8>, pos: int)
    requires
        0 <= pos < bytes.len(),
        bytes[pos] < 0x80,
    ensures
        valid_first_scalar(tail(bytes, pos)),
        decode_first_scalar(tail(bytes, pos)) == bytes[pos],
        length_of_first_scalar(tail(bytes, pos)) == 1,
{
    let t = tail(bytes, pos);
    assert(t[0] == bytes[pos]);
    lemma_widths(t[0], 0, 0, 0);
}

/// An ASCII character is encoded by one byte.
pub proof fn lemma_encode_ascii(c: char)
    requires
        (c as u32) < 0x80,
    ensures
        encode_utf8(seq![c]) == seq![c as u8],
{
    lemma_encode_one(c);
    let s = c as u32;
    assert((s & 0x7F) as u8 == s as u8) by (bit_vector)
        requires
            s < 0x80,
    ;
}

/// Texts with the same encoding are the same.
pub proof fn lemma_encode_injective(a: Seq<char>, b: Seq<char>)
    requires
        encode_utf8(a) == encode_utf8(b),
    ensures
        a == b,
{
    encode_utf8_decode_utf8(a);
    encode_utf8_decode_utf8(b);
}

/// Whether walking code point by code point from `pos` comes by `at`.
pub open spec fn aligned(bytes: Seq<u8>, pos: int, at: int) -> bool
    decreases at - pos,
{
    pos == at || {
        &&& 0 <= pos < next_pos(bytes, pos) <= at <= bytes.len()
        &&& aligned(bytes, next_pos(bytes, pos), at)
    }
}

/// The code point that ends at `at`, as a walk from the start finds it.
pub open spec fn cp_before(bytes: Seq<u8>, at: int) -> u32 {
    match last_char(bytes.take(at)) {
        Some(cp) => cp,
        None => 0xFFFD,
    }
}

/// A code point covers continuation bytes only, after its first byte.
pub proof fn lemma_inside(bytes: Seq<u8>, pos: int, at: int)
    requires
        0 <= pos < at < next_pos(bytes, pos),
        pos < bytes.len(),
    ensures
        at < bytes.len(),
        is_continuation_byte(bytes[at]),
{
    reveal(cp_len);
    let t = tail(bytes, pos);
    assert(t[at - pos] == bytes[at]);
}

/// A walk comes by every byte that is no continuation byte.
pub proof fn lemma_aligned_split(bytes: Seq<u8>, pos: int, mid: int, at: int)
    requires
        aligned(bytes, pos, at),
        0 <= pos <= mid <= at <= bytes.len(),
        mid < at ==> !is_continuation_byte(bytes[mid]),
    ensures
        aligned(bytes, pos, mid),
        aligned(bytes, mid, at),
    decreases at - pos,
{
    if pos < mid && mid < at {
        if mid < next_pos(bytes, pos) {
            lemma_inside(bytes, pos, mid);
        }
        lemma_aligned_split(bytes, next_pos(bytes, pos), mid, at);
    }
}

pub proof fn lemma_aligned_join(bytes: Seq<u8>, pos: int, mid: int, at: int)
    requires
        aligned(bytes, pos, mid),
        aligned(bytes, mid, at),
        pos <= mid <= at,
    ensures
        aligned(bytes, pos, at),
    decreases mid - pos,
{
    if pos < mid {
        lemma_aligned_join(bytes, next_pos(bytes, pos), mid, at);
    }
}

/// The ending of a text decides whether a character ends it.
pub proof fn lemma_char_ends(s: Seq<u8>, whole: Seq<u8>, k: int)
    requires
        s.is_suffix_of(whole),
        1 <= k <= s.len(),
    ensures
        char_ends(s, k) == char_ends(whole, k),
        tail(s, s.len() - k) == tail(whole, whole.len() - k),
{
    assert forall|i: int| 0 <= i < s.len() implies s[i] == whole[whole.len() - s.len() + i] by {
        assert(whole.subrange(whole.len() - s.len(), whole.len() as int)[i] == s[i]);
    }
    assert(tail(s, s.len() - k) =~= tail(whole, whole.len() - k));
}

/// A character that ends the ending of a text ends the text.
pub proof fn lemma_last_char_suffix(s: Seq<u8>, whole: Seq<u8>)
    requires
        s.is_suffix_of(whole),
        last_char(s) is Some,
    ensures
        last_char(whole) == last_char(s),
        last_len(whole) == last_len(s),
        1 <= last_len(s) <= s.len(),
{
    assert forall|k: int| 1 <= k <= s.len() implies char_ends(s, k) == char_ends(whole, k) && tail(
        s,
        s.len() - k,
    ) == #[trigger] tail(whole, whole.len() - k) by {
        lemma_char_ends(s, whole, k);
    }
    let k = last_len(s);
    assert(1 <= k <= 4 && char_ends(s, k));
    assert(tail(whole, whole.len() - 1) == tail(s, s.len() - 1));
    if k >= 2 {
        assert(tail(whole, whole.len() - 2) == tail(s, s.len() - 2));
    }
    if k >= 3 {
        assert(tail(whole, whole.len() - 3) == tail(s, s.len() - 3));
    }
    if k >= 4 {
        assert(tail(whole, whole.len() - 4) == tail(s, s.len() - 4));
    }
}

/// A character that ends a text ends every ending of it that holds it.
pub proof fn lemma_last_char_of_suffix(s: Seq<u8>, whole: Seq<u8>)
    requires
        s.is_suffix_of(whole),
        last_char(whole) is Some,
        last_len(whole) <= s.len(),
    ensures
        last_char(s) == last_char(whole),
{
    let k = last_len(whole);
    assert(1 <= k <= 4 && char_ends(whole, k));
    assert forall|j: int| 1 <= j <= s.len() implies char_ends(s, j) == char_ends(whole, j) by {
        lemma_char_ends(s, whole, j);
    }
    lemma_char_ends(s, whole, k);
}

/// A character that starts the beginning of a text is the code point there.
pub proof fn lemma_first_char_prefix(s: Seq<u8>, bytes: Seq<u8>, pos: int)
    requires
        0 <= pos <= bytes.len(),
        s.is_prefix_of(tail(bytes, pos)),
        first_char(s) is Some,
    ensures
        pos < bytes.len(),
        first_char(s) == Some(cp_at(bytes, pos)),
        !is_continuation_byte(bytes[pos]),
        valid_first_scalar(tail(bytes, pos)),
{
    reveal(cp_at);
    let t = tail(bytes, pos);
    assert forall|i: int| 0 <= i < s.len() implies s[i] == t[i] by {
        assert(t.subrange(0, s.len() as int)[i] == s[i]);
    }
    assert(t[0] == bytes[pos]);
}

/// The beginning of a text starts with the character there, where it holds it.
pub proof fn lemma_first_char_within(bytes: Seq<u8>, pos: int, end: int)
    requires
        0 <= pos < next_pos(bytes, pos) <= end <= bytes.len(),
        valid_first_scalar(tail(bytes, pos)),
    ensures
        first_char(bytes.subrange(pos, end)) == Some(cp_at(bytes, pos)),
{
    reveal(cp_at);
    reveal(cp_len);
    let t = tail(bytes, pos);
    let s = bytes.subrange(pos, end);
    assert forall|i: int| 0 <= i < s.len() implies s[i] == t[i] by {}
}

/// The code point that a walk from the start ends at `at` with.
pub proof fn lemma_cp_before(bytes: Seq<u8>, pos: int)
    requires
        0 <= pos < bytes.len(),
        aligned(bytes, 0, pos),
    ensures
        aligned(bytes, 0, next_pos(bytes, pos)),
        cp_before(bytes, next_pos(bytes, pos)) == cp_at(bytes, pos),
        last_char(bytes.take(next_pos(bytes, pos))) is Some ==> last_len(
            bytes.take(next_pos(bytes, pos)),
        ) == cp_len(bytes, pos),
{
    lemma_cp(bytes, pos);
    let at = next_pos(bytes, pos);
    reveal_with_fuel(aligned, 2);
    lemma_aligned_join(bytes, 0, pos, at);
    let s = bytes.take(at);
    let t = tail(bytes, pos);
    assert forall|k: int| 1 <= k <= at implies #[trigger] tail(s, at - k) == bytes.subrange(
        at - k,
        at,
    ) by {
        assert(tail(s, at - k) =~= bytes.subrange(at - k, at));
    }
    if valid_first_scalar(t) {
        reveal(cp_at);
        reveal(cp_len);
        let k = at - pos;
        let e = tail(s, s.len() - k);
        assert(e == bytes.subrange(pos, at));
        assert forall|i: int| 0 <= i < k implies e[i] == t[i] by {}
        assert(char_ends(s, k));
        assert forall|j: int| 1 <= j < k implies !char_ends(s, j) by {
            assert(tail(s, s.len() - j)[0] == bytes[at - j]);
            lemma_inside(bytes, pos, at - j);
        }
    } else {
        reveal(cp_at);
        reveal(cp_len);
        assert(at == pos + 1);
        assert forall|k: int| 1 <= k <= 4 implies !char_ends(s, k) by {
            if char_ends(s, k) {
                let z = at - k;
                let e = tail(s, s.len() - k);
                let w = tail(bytes, z);
                assert forall|i: int| 0 <= i < k implies e[i] == w[i] by {}
                assert(e[0] == bytes[z]);
                assert(valid_first_scalar(w) && length_of_first_scalar(w) == k);
                assert(next_pos(bytes, z) == at);
                if z < pos {
                    lemma_aligned_split(bytes, 0, z, pos);
                } else {
                    assert(w == t);
                }
            }
        }
    }
}

/// An ASCII byte is the code point that ends with it.
pub proof fn lemma_cp_before_ascii(bytes: Seq<u8>, at: int)
    requires
        0 < at <= bytes.len(),
        bytes[at - 1] < 0x80,
    ensures
        cp_before(bytes, at) == bytes[at - 1],
{
    assert(bytes.take(at).last() == bytes[at - 1]);
    lemma_last_ascii(bytes.take(at));
}

/// Two texts that are alike up to a byte that is no continuation byte are read
/// alike up to it.
pub proof fn lemma_same_cp(s: Seq<u8>, p: int, t: Seq<u8>, q: int, n: int)
    requires
        1 <= n <= p < s.len(),
        n <= q < t.len(),
        forall|i: int| 0 <= i <= n ==> #[trigger] s[p - i] == t[q - i],
        !is_continuation_byte(s[p]),
    ensures
        cp_at(s, p - n) == cp_at(t, q - n),
        cp_len(s, p - n) == cp_len(t, q - n),
{
    reveal(cp_at);
    reveal(cp_len);
    let a = tail(s, p - n);
    let b = tail(t, q - n);
    assert forall|j: int| 0 <= j <= n implies a[j] == b[j] by {
        assert(s[p - (n - j)] == t[q - (n - j)]);
    }
    assert(a[n] == s[p]);
    assert(a.len() > n && b.len() > n);
    assert(a[0] == b[0] && a[1] == b[1]);
    if n >= 2 {
        assert(a[2] == b[2]);
    }
    if n >= 3 {
        assert(a[3] == b[3]);
    }
}

/// Drops the end of a text until what is left is well-formed.
pub fn trim_to_utf8(buf: &mut Vec<u8>)
    ensures
        exists|n: int|
            0 <= n <= old(buf)@.len() && final(buf)@ == old(buf)@.take(n) && valid_utf8(
                #[trigger] old(buf)@.take(n),
            ) && forall|m: int|
                n < m <= old(buf)@.len() ==> !valid_utf8(#[trigger] old(buf)@.take(m)),
{
    let ghost all = buf@;
    assert(all.take(all.len() as int) =~= all);
    loop
        invariant
            all == old(buf)@,
            buf@.len() <= all.len(),
            buf@ == all.take(buf@.len() as int),
            forall|m: int| buf@.len() < m <= all.len() ==> !valid_utf8(#[trigger] all.take(m)),
        decreases buf@.len(),
    {
        if buf.len() == 0 || str_of_utf8(buf).is_some() {
            assert(buf@.len() == 0 ==> valid_utf8(buf@));
            assert(all.take(buf@.len() as int) == buf@);
            return;
        }
        let ghost longer = buf@;
        buf.pop();
        assert(buf@ =~= all.take(buf@.len() as int));
    }
}

} // verus!
