//! Characters in bytes, and the kinds that the rules speak of, written out.

use crate::pretokenize::unicode::category;
use crate::pretokenize::unicode::classes;
use crate::pretokenize::unicode::classes::CharClass;
use crate::utf8;
use vstd::prelude::*;
use vstd::utf8::*;

verus! {

/// The characters with the `White_Space` property.
pub open spec fn white(cp: u32) -> bool {
    ||| cp == 0x09 || cp == 0x0A || cp == 0x0B || cp == 0x0C || cp == 0x0D || cp == 0x20
    ||| cp == 0x85 || cp == 0xA0 || cp == 0x1680
    ||| 0x2000 <= cp <= 0x200A
    ||| cp == 0x2028 || cp == 0x2029 || cp == 0x202F || cp == 0x205F || cp == 0x3000
}

/// The bytes of one character.
pub open spec fn bytes_of(c: char) -> Seq<u8> {
    encode_utf8(seq![c])
}

/// White space is read as such, and nothing else is.
pub proof fn law_white(cp: u32)
    ensures
        classes::char_class(cp) == CharClass::Whitespace <==> white(cp),
        category::is_white_space(cp) == white(cp),
{
}

/// A character whose bytes stand at `pos` is the one read there.
pub proof fn law_char_read(bytes: Seq<u8>, pos: int, c: char)
    requires
        0 <= pos,
        pos + bytes_of(c).len() <= bytes.len(),
        bytes.subrange(pos, pos + bytes_of(c).len()) == bytes_of(c),
    ensures
        utf8::cp_at(bytes, pos) == c as u32,
        utf8::next_pos(bytes, pos) == pos + bytes_of(c).len(),
        1 <= bytes_of(c).len() <= 4,
{
    let one = bytes_of(c);
    let t = utf8::tail(bytes, pos);
    encode_utf8_first_scalar(seq![c]);
    utf8::lemma_encode_one(c);
    assert(t.subrange(0, one.len() as int) =~= bytes.subrange(pos, pos + one.len()));
    utf8::lemma_first_char_prefix(one, bytes, pos);
    reveal(utf8::cp_len);
    assert forall|i: int| 0 <= i < one.len() implies one[i] == t[i] by {
        assert(t.subrange(0, one.len() as int)[i] == one[i]);
    }
}

/// What is read at `pos`, other than a replacement character, stands there.
pub proof fn law_char_stands(bytes: Seq<u8>, pos: int)
    requires
        0 <= pos < bytes.len(),
        utf8::cp_at(bytes, pos) != 0xFFFD,
    ensures
        ({
            let c = utf8::cp_at(bytes, pos) as char;
            &&& c as u32 == utf8::cp_at(bytes, pos)
            &&& utf8::next_pos(bytes, pos) == pos + bytes_of(c).len() <= bytes.len()
            &&& bytes.subrange(pos, pos + bytes_of(c).len()) == bytes_of(c)
        }),
{
    reveal(utf8::cp_at);
    reveal(utf8::cp_len);
    let t = utf8::tail(bytes, pos);
    lemma_first_bytes(t);
    let c = decode_first_scalar(t) as char;
    assert(bytes.subrange(pos, pos + bytes_of(c).len()) =~= take_first_scalar(t));
}

/// The bytes of the first character.
pub proof fn lemma_first_bytes(t: Seq<u8>)
    requires
        valid_first_scalar(t),
    ensures
        ({
            let c = decode_first_scalar(t) as char;
            &&& c as u32 == decode_first_scalar(t)
            &&& bytes_of(c) == take_first_scalar(t)
            &&& bytes_of(c).len() == length_of_first_scalar(t)
        }),
{
    let c = decode_first_scalar(t) as char;
    let first = take_first_scalar(t);
    utf8::lemma_scalar_char(t);
    assert forall|i: int| 0 <= i < first.len() implies first[i] == t[i] by {}
    assert(valid_first_scalar(first));
    assert(length_of_first_scalar(first) == length_of_first_scalar(t));
    assert(decode_first_scalar(first) == decode_first_scalar(t));
    assert(pop_first_scalar(first) =~= Seq::<u8>::empty());
    assert(valid_utf8(pop_first_scalar(first)));
    assert(valid_utf8(first));
    decode_utf8_first_scalar(first);
    assert(take_first_scalar(first) =~= first);
    utf8::lemma_encode_one(c);
}

/// The character whose bytes end a text is its last.
pub proof fn law_last_char(text: Seq<u8>, c: char)
    ensures
        utf8::last_char(text + bytes_of(c)) == Some(c as u32),
        utf8::last_len(text + bytes_of(c)) == bytes_of(c).len(),
        1 <= bytes_of(c).len() <= 4,
{
    let one = bytes_of(c);
    let whole = text + one;
    encode_utf8_first_scalar(seq![c]);
    utf8::lemma_encode_one(c);
    assert(one.len() == length_of_first_scalar(one));
    let n = one.len() as int;
    assert(utf8::tail(one, 0) =~= one);
    assert(utf8::char_ends(one, n));
    assert forall|j: int| 1 <= j < n implies !utf8::char_ends(one, j) by {
        reveal(utf8::cp_len);
        assert(utf8::tail(one, 0) =~= one);
        utf8::lemma_inside(one, 0, n - j);
        assert(utf8::tail(one, n - j)[0] == one[n - j]);
    }
    assert(whole.subrange(whole.len() - one.len(), whole.len() as int) =~= one);
    assert(one.is_suffix_of(whole));
    assert(utf8::last_char(one) == Some(c as u32));
    utf8::lemma_last_char_suffix(one, whole);
}

/// The last character of a text, where it has one, ends it.
pub proof fn law_last_char_stands(text: Seq<u8>)
    requires
        utf8::last_char(text) is Some,
    ensures
        ({
            let c = utf8::last_char(text).unwrap() as char;
            let n = text.len() - utf8::last_len(text);
            &&& c as u32 == utf8::last_char(text).unwrap()
            &&& 0 <= n < text.len()
            &&& text == text.take(n) + bytes_of(c)
        }),
{
    let k = utf8::last_len(text);
    assert(utf8::char_ends(text, k));
    let t = utf8::tail(text, text.len() - k);
    lemma_first_bytes(t);
    assert(take_first_scalar(t) =~= t);
    assert(text =~= text.take(text.len() - k) + t);
}

} // verus!
