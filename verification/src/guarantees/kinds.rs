//! The kinds of characters, by the ASCII ranges and by the numbers that ICU gives
//! to general categories.

use super::characters;
use super::newer_data;
use crate::pretokenize::pattern;
use crate::pretokenize::pattern::CharSet;
use crate::pretokenize::unicode::bert;
use crate::pretokenize::unicode::bert::BertCharClass;
use crate::pretokenize::unicode::category;
use crate::pretokenize::unicode::category::GeneralCategory;
use crate::pretokenize::unicode::classes;
use crate::pretokenize::unicode::classes::{CharClass, DsCharClass, KimiCharClass, O200kCharClass};
use vstd::prelude::*;

verus! {

/// Whether a character beyond ASCII has a category between two of ICU's numbers:
/// 1 to 5 are Lu, Ll, Lt, Lm and Lo, 6 to 8 Mn, Me and Mc, 9 to 11 Nd, Nl and No,
/// 12 to 14 Zs, Zl and Zp, 15 to 18 Cc, Cf, Co and Cs, 19 to 23 Pd, Ps, Pe, Pc and
/// Po, 24 to 27 Sm, Sc, Sk and So, 28 and 29 Pi and Pf. The replacement character
/// is left out, as what malformed text is read as.
pub open spec fn coded(cp: u32, low: u8, high: u8) -> bool {
    cp >= 0x80 && cp != 0xFFFD && low <= category::general_category_code(cp) <= high
}

/// A capital: A to Z, Lu or Lt.
pub open spec fn is_upper(cp: u32) -> bool {
    !characters::white(cp) && (0x41 <= cp <= 0x5A || coded(cp, 1, 1) || coded(cp, 3, 3))
}

/// A small letter: a to z, or Ll.
pub open spec fn is_lower(cp: u32) -> bool {
    !characters::white(cp) && (0x61 <= cp <= 0x7A || coded(cp, 2, 2))
}

/// A letter without case: Lm or Lo.
pub open spec fn is_caseless(cp: u32) -> bool {
    !characters::white(cp) && coded(cp, 4, 5)
}

/// A letter.
pub open spec fn is_letter(cp: u32) -> bool {
    is_upper(cp) || is_lower(cp) || is_caseless(cp)
}

/// A mark: Mn, Me or Mc.
pub open spec fn is_mark(cp: u32) -> bool {
    !characters::white(cp) && coded(cp, 6, 8)
}

/// A number: 0 to 9, Nd, Nl or No.
pub open spec fn is_number(cp: u32) -> bool {
    !characters::white(cp) && (0x30 <= cp <= 0x39 || coded(cp, 9, 11))
}

/// What is neither a letter nor a number nor white space.
pub open spec fn is_other(cp: u32) -> bool {
    !is_letter(cp) && !is_number(cp) && !characters::white(cp)
}

/// The kinds of which runs are made.
pub enum Kind {
    Letter,
    Number,
    Other,
}

/// Whether a character is of a kind.
pub open spec fn is(kind: Kind, cp: u32) -> bool {
    match kind {
        Kind::Letter => is_letter(cp),
        Kind::Number => is_number(cp),
        Kind::Other => is_other(cp),
    }
}

/// ASCII punctuation: every printable character but letters, digits and the space.
pub open spec fn is_ascii_punct(cp: u32) -> bool {
    0x21 <= cp <= 0x2F || 0x3A <= cp <= 0x40 || 0x5B <= cp <= 0x60 || 0x7B <= cp <= 0x7E
}

/// Punctuation: in ASCII every printable character but letters, digits and the
/// space; beyond it Pd, Ps, Pe, Pc, Po, Pi or Pf.
pub open spec fn is_punct(cp: u32) -> bool {
    is_ascii_punct(cp) || coded(cp, 19, 23) || coded(cp, 28, 29)
}

/// A symbol beyond ASCII: Sm, Sc, Sk or So. The replacement character is one.
pub open spec fn is_symbol(cp: u32) -> bool {
    coded(cp, 24, 27) || cp == 0xFFFD
}

/// The four classes of the patterns are letters, numbers, white space and the
/// rest.
pub proof fn law_classes(cp: u32)
    ensures
        classes::char_class(cp) == CharClass::Letter <==> is_letter(cp),
        classes::char_class(cp) == CharClass::Number <==> is_number(cp),
        classes::char_class(cp) == CharClass::Whitespace <==> characters::white(cp),
        classes::char_class(cp) == CharClass::Other <==> is_other(cp),
{
}

/// The classes that tell marks and punctuation from the rest.
pub proof fn law_ds_classes(cp: u32)
    ensures
        classes::ds_char_class(cp) == DsCharClass::Letter <==> is_letter(cp),
        classes::ds_char_class(cp) == DsCharClass::Number <==> is_number(cp),
        classes::ds_char_class(cp) == DsCharClass::Whitespace <==> characters::white(cp),
        classes::ds_char_class(cp) == DsCharClass::Mark <==> is_mark(cp),
        classes::ds_char_class(cp) == DsCharClass::PunctSym <==> !characters::white(cp) && (
        is_punct(cp) || is_symbol(cp)),
{
}

/// The classes that tell letters by case.
pub proof fn law_case_classes(cp: u32)
    ensures
        classes::o200k_char_class(cp) == O200kCharClass::Upper <==> is_upper(cp),
        classes::o200k_char_class(cp) == O200kCharClass::Lower <==> is_lower(cp),
        classes::o200k_char_class(cp) == O200kCharClass::Caseless <==> is_caseless(cp),
        classes::o200k_char_class(cp) == O200kCharClass::Mark <==> is_mark(cp),
        classes::o200k_char_class(cp) == O200kCharClass::Number <==> is_number(cp),
        classes::o200k_char_class(cp) == O200kCharClass::Whitespace <==> characters::white(cp),
        classes::o200k_char_class(cp) == O200kCharClass::Other <==> is_other(cp) && !is_mark(cp),
{
}

/// The classes that tell the Han script: its numbers, its letters, and its marks
/// and symbols apart, and outside it the classes by case.
pub proof fn law_han_classes(cp: u32)
    ensures
        category::script_is_han(cp) ==> classes::kimi_char_class(cp) == (if is_number(cp) {
            KimiCharClass::HanNumber
        } else if is_letter(cp) || characters::white(cp) {
            KimiCharClass::Han
        } else {
            KimiCharClass::HanOther
        }),
        !category::script_is_han(cp) ==> classes::kimi_char_class(cp) == (if is_upper(cp) {
            KimiCharClass::Upper
        } else if is_lower(cp) {
            KimiCharClass::Lower
        } else if is_caseless(cp) {
            KimiCharClass::Caseless
        } else if is_mark(cp) {
            KimiCharClass::Mark
        } else if is_number(cp) {
            KimiCharClass::Number
        } else if characters::white(cp) {
            KimiCharClass::Whitespace
        } else {
            KimiCharClass::Other
        }),
{
}

/// The sets that the patterns are made of, written out.
pub proof fn law_sets(cp: u32)
    ensures
        pattern::in_set(CharSet::ContractionSuffix, cp) <==> cp == 0x73 || cp == 0x64 || cp == 0x6D
            || cp == 0x74,
        pattern::in_set(CharSet::Letter, cp) <==> is_letter(cp),
        pattern::in_set(CharSet::Number, cp) <==> is_number(cp),
        pattern::in_set(CharSet::White, cp) <==> characters::white(cp),
        pattern::in_set(CharSet::Other, cp) <==> is_other(cp),
        pattern::in_set(CharSet::Newline, cp) <==> cp == 0x0D || cp == 0x0A,
        pattern::in_set(CharSet::NewlineOrSlash, cp) <==> cp == 0x0D || cp == 0x0A || cp == 0x2F,
        pattern::in_set(CharSet::NoNewlineLetterNumber, cp) <==> cp != 0x0D && cp != 0x0A
            && !is_letter(cp) && !is_number(cp),
        pattern::in_set(CharSet::UpperRun, cp) <==> is_upper(cp) || is_caseless(cp) || is_mark(cp),
        pattern::in_set(CharSet::LowerRun, cp) <==> is_lower(cp) || is_caseless(cp) || is_mark(cp),
{
}

/// The punctuation of the BERT pretokenizer, but for what its older character data
/// has otherwise: ASCII is never concerned by that.
pub proof fn law_bert_classes(cp: u32)
    ensures
        bert::bert_char_class(cp) == BertCharClass::Whitespace <==> characters::white(cp),
        cp < 0x80 ==> (bert::bert_char_class(cp) == BertCharClass::Punct <==> is_ascii_punct(cp)),
        cp >= 0x80 && !characters::white(cp) ==> (bert::bert_char_class(cp) == BertCharClass::Punct
            <==> cp == 0x166D || cp == 0x111C9 || (is_punct(cp) && !newer_data::newer_punctuation(
            cp,
        ))),
{
    let list = bert::BERT_STALE_EXTRA_PUNCT@;
    assert(list.len() == 2 && list[0] == 0x166D && list[1] == 0x111C9);
    newer_data::law_newer_punctuation(cp);
}

/// The category of a character other than the replacement character is the one
/// that ICU numbers so.
pub proof fn law_categories(cp: u32)
    requires
        cp != 0xFFFD,
    ensures
        ({
            let code = category::general_category_code(cp);
            let gc = category::general_category(cp);
            &&& code == 0 || code > 29 ==> gc == GeneralCategory::Unassigned
            &&& code == 1 ==> gc == GeneralCategory::UppercaseLetter
            &&& code == 2 ==> gc == GeneralCategory::LowercaseLetter
            &&& code == 3 ==> gc == GeneralCategory::TitlecaseLetter
            &&& code == 4 ==> gc == GeneralCategory::ModifierLetter
            &&& code == 5 ==> gc == GeneralCategory::OtherLetter
            &&& code == 6 ==> gc == GeneralCategory::NonspacingMark
            &&& code == 7 ==> gc == GeneralCategory::EnclosingMark
            &&& code == 8 ==> gc == GeneralCategory::SpacingMark
            &&& code == 9 ==> gc == GeneralCategory::DecimalNumber
            &&& code == 10 ==> gc == GeneralCategory::LetterNumber
            &&& code == 11 ==> gc == GeneralCategory::OtherNumber
            &&& code == 12 ==> gc == GeneralCategory::SpaceSeparator
            &&& code == 13 ==> gc == GeneralCategory::LineSeparator
            &&& code == 14 ==> gc == GeneralCategory::ParagraphSeparator
            &&& code == 15 ==> gc == GeneralCategory::Control
            &&& code == 16 ==> gc == GeneralCategory::Format
            &&& code == 17 ==> gc == GeneralCategory::PrivateUse
            &&& code == 18 ==> gc == GeneralCategory::Surrogate
            &&& code == 19 ==> gc == GeneralCategory::DashPunctuation
            &&& code == 20 ==> gc == GeneralCategory::OpenPunctuation
            &&& code == 21 ==> gc == GeneralCategory::ClosePunctuation
            &&& code == 22 ==> gc == GeneralCategory::ConnectorPunctuation
            &&& code == 23 ==> gc == GeneralCategory::OtherPunctuation
            &&& code == 24 ==> gc == GeneralCategory::MathSymbol
            &&& code == 25 ==> gc == GeneralCategory::CurrencySymbol
            &&& code == 26 ==> gc == GeneralCategory::ModifierSymbol
            &&& code == 27 ==> gc == GeneralCategory::OtherSymbol
            &&& code == 28 ==> gc == GeneralCategory::InitialPunctuation
            &&& code == 29 ==> gc == GeneralCategory::FinalPunctuation
        }),
{
}

/// Beyond ASCII letters, numbers, marks, punctuation, symbols and separators are
/// told by their category alone.
pub proof fn law_category_groups(cp: u32)
    requires
        cp >= 0x80,
    ensures
        category::gc_letter(category::general_category(cp)) <==> coded(cp, 1, 5),
        category::gc_mark(category::general_category(cp)) <==> coded(cp, 6, 8),
        category::gc_number(category::general_category(cp)) <==> coded(cp, 9, 11),
        category::gc_separator(category::general_category(cp)) <==> coded(cp, 12, 14),
        category::gc_punctuation(category::general_category(cp)) <==> coded(cp, 19, 23) || coded(
            cp,
            28,
            29,
        ),
        category::gc_symbol(category::general_category(cp)) <==> is_symbol(cp),
{
}

/// What is neither letter nor number nor white space, where the vertical tab
/// counts as such in ASCII.
pub proof fn law_other_complete(cp: u32)
    ensures
        cp < 0x80 ==> (category::other_complete(cp) <==> is_other(cp) || cp == 0x0B),
        cp >= 0x80 ==> (category::other_complete(cp) <==> is_other(cp)),
{
}

/// Marks count as letters where they join letters, and every other character as
/// before.
pub proof fn law_marks_joined(cp: u32)
    ensures
        classes::marks_join(classes::ds_char_class(cp)) == CharClass::Letter <==> is_letter(cp)
            || is_mark(cp),
        classes::marks_join(classes::ds_char_class(cp)) == CharClass::Number <==> is_number(cp),
        classes::marks_join(classes::ds_char_class(cp)) == CharClass::Whitespace
            <==> characters::white(cp),
        classes::marks_join(classes::ds_char_class(cp)) == CharClass::Other <==> is_other(cp)
            && !is_mark(cp),
{
}

/// The codes of bytes in the BERT walk: 1 for white space, 2 for punctuation, 3
/// beyond ASCII, and 0 for the rest.
pub proof fn law_byte_codes(b: u8)
    ensures
        bert::BERT_BYTE_CLASS@[b as int] == (if b >= 0x80 {
            3u8
        } else if characters::white(b as u32) {
            1u8
        } else if is_ascii_punct(b as u32) {
            2u8
        } else {
            0u8
        }),
{
    bert::law_byte_class(b);
    law_bert_classes(b as u32);
}

/// The ideographs and kana that are isolated: U+4E00 to U+9FA5, hiragana and
/// katakana.
pub proof fn law_isolated_cjk(cp: u32)
    ensures
        classes::deepseek_cjk(cp) <==> 0x4E00 <= cp <= 0x9FA5 || 0x3040 <= cp <= 0x309F || 0x30A0
            <= cp <= 0x30FF,
{
}

/// The ideographs that are set off by spaces.
pub proof fn law_padded_cjk(cp: u32)
    ensures
        bert::bert_cjk(cp) <==> 0x3400 <= cp <= 0x4DBF || 0x4E00 <= cp <= 0x9FFF || 0xF900 <= cp
            <= 0xFAFF || 0x20000 <= cp <= 0x2A6DF || 0x2A700 <= cp <= 0x2B81F || 0x2B920 <= cp
            <= 0x2CEAF || 0x2F800 <= cp <= 0x2FA1F,
{
}

/// What a Han class behaves as outside Han runs: its number as a number, its
/// letter as one without case, and the rest as other.
pub proof fn law_han_behaviour(class: KimiCharClass)
    ensures
        class == KimiCharClass::Han ==> class.base_class() == O200kCharClass::Caseless,
        class == KimiCharClass::HanNumber ==> class.base_class() == O200kCharClass::Number,
        class == KimiCharClass::HanOther ==> class.base_class() == O200kCharClass::Other,
        class.han() <==> class == KimiCharClass::Han || class == KimiCharClass::HanNumber || class
            == KimiCharClass::HanOther,
        class == KimiCharClass::Upper ==> class.base_class() == O200kCharClass::Upper,
        class == KimiCharClass::Lower ==> class.base_class() == O200kCharClass::Lower,
        class == KimiCharClass::Caseless ==> class.base_class() == O200kCharClass::Caseless,
        class == KimiCharClass::Mark ==> class.base_class() == O200kCharClass::Mark,
        class == KimiCharClass::Number ==> class.base_class() == O200kCharClass::Number,
        class == KimiCharClass::Whitespace ==> class.base_class() == O200kCharClass::Whitespace,
        class == KimiCharClass::Other ==> class.base_class() == O200kCharClass::Other,
{
}

} // verus!
