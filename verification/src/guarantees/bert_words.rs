//! The pretokens of the BERT scheme: words between white space, which goes, and
//! every punctuation character by itself.

use super::characters;
use super::kinds;
use super::newer_data;
use super::runs;
use super::stage1;
use crate::pretokenize::fast::bert as walk;
use crate::pretokenize::fast::dispatch;
use crate::pretokenize::options::PretokenizerType;
use crate::pretokenize::unicode::bert;
use crate::pretokenize::unicode::bert::BertCharClass;
use crate::utf8;
use vstd::prelude::*;
use vstd::utf8::*;

verus! {

/// The step of the walk at `pos`.
pub open spec fn step(bytes: Seq<u8>, pos: int) -> Option<(int, int)> {
    dispatch::type_step(PretokenizerType::Bert, bytes)(pos)
}

/// Punctuation: in ASCII every printable character but letters, digits and the
/// space; beyond it the punctuation categories, but for what older character data
/// has otherwise.
pub open spec fn is_punct(cp: u32) -> bool {
    !characters::white(cp) && (kinds::is_ascii_punct(cp) || (cp >= 0x80 && (cp == 0x166D || cp
        == 0x111C9 || (kinds::is_punct(cp) && !newer_data::newer_punctuation(cp)))))
}

/// What words are made of: neither white space nor punctuation.
pub open spec fn is_word(cp: u32) -> bool {
    !characters::white(cp) && !is_punct(cp)
}

proof fn lemma_class(cp: u32)
    ensures
        bert::bert_char_class(cp) == BertCharClass::Whitespace <==> characters::white(cp),
        bert::bert_char_class(cp) == BertCharClass::Punct <==> is_punct(cp),
        bert::bert_char_class(cp) == BertCharClass::Word <==> is_word(cp),
{
    kinds::law_bert_classes(cp);
}

proof fn lemma_class_run(
    class: BertCharClass,
    bytes: Seq<u8>,
    pos: int,
    chars: Seq<char>,
    after: Seq<u8>,
)
    requires
        runs::stands(bytes, pos, chars, after),
        forall|i: int|
            0 <= i < chars.len() ==> bert::bert_char_class((#[trigger] chars[i]) as u32) == class,
        after.len() == 0 || bert::bert_char_class(runs::first(after)) != class,
    ensures
        walk::class_run_end(class, bytes, pos) == pos + encode_utf8(chars).len(),
        runs::stands(bytes, pos + encode_utf8(chars).len(), Seq::empty(), after),
    decreases chars.len(),
{
    if chars.len() == 0 {
        assert(encode_utf8(chars) =~= Seq::<u8>::empty());
        assert(chars =~= Seq::<char>::empty());
        runs::lemma_behind(bytes, pos, after);
    } else {
        runs::lemma_first(bytes, pos, chars, after);
        let rest = chars.drop_first();
        assert forall|i: int| 0 <= i < rest.len() implies bert::bert_char_class(
            (#[trigger] rest[i]) as u32,
        ) == class by {
            assert(chars[i + 1] == rest[i]);
        }
        assert(bert::bert_char_class(chars[0] as u32) == class);
        lemma_class_run(class, bytes, utf8::next_pos(bytes, pos), rest, after);
    }
}

proof fn lemma_skips(bytes: Seq<u8>, pos: int, spaces: Seq<char>, after: Seq<u8>)
    requires
        runs::stands(bytes, pos, spaces, after),
        stage1::all(spaces, |cp: u32| characters::white(cp)),
        after.len() == 0 || !characters::white(runs::first(after)),
    ensures
        walk::class_run_end(BertCharClass::Whitespace, bytes, pos) == pos + encode_utf8(
            spaces,
        ).len(),
        runs::stands(bytes, pos + encode_utf8(spaces).len(), Seq::empty(), after),
{
    assert forall|i: int| 0 <= i < spaces.len() implies bert::bert_char_class(
        (#[trigger] spaces[i]) as u32,
    ) == BertCharClass::Whitespace by {
        lemma_class(spaces[i] as u32);
    }
    lemma_class(runs::first(after));
    lemma_class_run(BertCharClass::Whitespace, bytes, pos, spaces, after);
}

/// A word is the longest run of characters that are neither white space nor
/// punctuation; white space before it is passed over.
pub proof fn law_words(
    bytes: Seq<u8>,
    pos: int,
    spaces: Seq<char>,
    word: Seq<char>,
    after: Seq<u8>,
)
    requires
        runs::stands(bytes, pos, spaces + word, after),
        stage1::all(spaces, |cp: u32| characters::white(cp)),
        word.len() > 0,
        stage1::all(word, |cp: u32| is_word(cp)),
        after.len() == 0 || !is_word(runs::first(after)),
    ensures
        step(bytes, pos) == Some(
            (
                pos + encode_utf8(spaces).len(),
                pos + encode_utf8(spaces).len() + encode_utf8(word).len(),
            ),
        ),
{
    let start = pos + encode_utf8(spaces).len();
    runs::lemma_parts(bytes, pos, spaces, word, after);
    runs::lemma_first(bytes, start, word, after);
    assert(is_word(word[0] as u32));
    lemma_skips(bytes, pos, spaces, encode_utf8(word) + after);
    assert forall|i: int| 0 <= i < word.len() implies bert::bert_char_class(
        (#[trigger] word[i]) as u32,
    ) == BertCharClass::Word by {
        lemma_class(word[i] as u32);
    }
    lemma_class(runs::first(after));
    lemma_class(word[0] as u32);
    lemma_class_run(BertCharClass::Word, bytes, start, word, after);
}

/// Every punctuation character is a pretoken by itself.
pub proof fn law_punctuation(
    bytes: Seq<u8>,
    pos: int,
    spaces: Seq<char>,
    punct: char,
    after: Seq<u8>,
)
    requires
        runs::stands(bytes, pos, spaces + seq![punct], after),
        stage1::all(spaces, |cp: u32| characters::white(cp)),
        is_punct(punct as u32),
    ensures
        step(bytes, pos) == Some(
            (
                pos + encode_utf8(spaces).len(),
                pos + encode_utf8(spaces).len() + characters::bytes_of(punct).len(),
            ),
        ),
{
    let start = pos + encode_utf8(spaces).len();
    runs::lemma_parts(bytes, pos, spaces, seq![punct], after);
    runs::lemma_first(bytes, start, seq![punct], after);
    lemma_skips(bytes, pos, spaces, encode_utf8(seq![punct]) + after);
    lemma_class(punct as u32);
}

/// White space at the end of a text has no pretokens.
pub proof fn law_trailing_white(bytes: Seq<u8>, pos: int, spaces: Seq<char>)
    requires
        runs::stands(bytes, pos, spaces, Seq::empty()),
        stage1::all(spaces, |cp: u32| characters::white(cp)),
    ensures
        step(bytes, pos) is None,
{
    lemma_skips(bytes, pos, spaces, Seq::empty());
    runs::lemma_behind(bytes, pos + encode_utf8(spaces).len(), Seq::empty());
}

} // verus!
