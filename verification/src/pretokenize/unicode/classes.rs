//! Character classes of the regex-derived pretokenizers.
//!
//! Each class is stated with the ASCII range written out, so that a scan over
//! ASCII needs no property lookup; every classifying function here looks the
//! properties up and thereby shows that the two agree.

use super::category;
use super::category::GeneralCategory;
use vstd::prelude::*;

verus! {

/// `\p{L}`.
pub open spec fn letter(cp: u32) -> bool {
    if cp < 0x80 {
        category::is_ascii_letter(cp)
    } else {
        category::gc_letter(category::general_category(cp))
    }
}

/// `\p{N}`.
pub open spec fn number(cp: u32) -> bool {
    if cp < 0x80 {
        category::is_ascii_digit(cp)
    } else {
        category::gc_number(category::general_category(cp))
    }
}

/// `\p{M}`.
pub open spec fn mark(cp: u32) -> bool {
    cp >= 0x80 && category::gc_mark(category::general_category(cp))
}

/// `[\p{P}\p{S}]`.
pub open spec fn punct_or_symbol(cp: u32) -> bool {
    if cp < 0x80 {
        category::is_ascii_punctuation(cp)
    } else {
        category::gc_punctuation(category::general_category(cp)) || category::gc_symbol(
            category::general_category(cp),
        )
    }
}

/// `[\p{Lu}\p{Lt}]`.
pub open spec fn upper(cp: u32) -> bool {
    if cp < 0x80 {
        0x41 <= cp <= 0x5A
    } else {
        category::general_category(cp) == GeneralCategory::UppercaseLetter
            || category::general_category(cp) == GeneralCategory::TitlecaseLetter
    }
}

/// `\p{Ll}`.
pub open spec fn lower(cp: u32) -> bool {
    if cp < 0x80 {
        0x61 <= cp <= 0x7A
    } else {
        category::general_category(cp) == GeneralCategory::LowercaseLetter
    }
}

/// `[\p{Lm}\p{Lo}]`.
pub open spec fn caseless(cp: u32) -> bool {
    cp >= 0x80 && (category::general_category(cp) == GeneralCategory::ModifierLetter
        || category::general_category(cp) == GeneralCategory::OtherLetter)
}

/// Character class as the pretokenization regexes use it: `\p{L}`, `\p{N}`,
/// `\s` and everything else.
#[derive(Clone, Copy, Debug, PartialEq, Eq, Structural)]
pub enum CharClass {
    Letter,
    Number,
    Whitespace,
    Other,
}

/// The class of a code point.
pub open spec fn char_class(cp: u32) -> CharClass {
    if category::is_white_space(cp) {
        CharClass::Whitespace
    } else if letter(cp) {
        CharClass::Letter
    } else if number(cp) {
        CharClass::Number
    } else {
        CharClass::Other
    }
}

/// The code of a class in a packed table.
pub open spec fn class_code(class: CharClass) -> u8 {
    match class {
        CharClass::Letter => 0,
        CharClass::Number => 1,
        CharClass::Whitespace => 2,
        CharClass::Other => 3,
    }
}

/// The class of a general category, white space aside.
pub open spec fn category_class(gc: GeneralCategory, white: bool) -> CharClass {
    if white {
        CharClass::Whitespace
    } else if category::gc_letter(gc) {
        CharClass::Letter
    } else if category::gc_number(gc) {
        CharClass::Number
    } else {
        CharClass::Other
    }
}

/// Classifies a general category; white space goes first.
pub fn class_in(gc: GeneralCategory, white: bool) -> (class: CharClass)
    ensures
        class == category_class(gc, white),
{
    if white {
        CharClass::Whitespace
    } else if category::is_gc_letter(gc) {
        CharClass::Letter
    } else if category::is_gc_number(gc) {
        CharClass::Number
    } else {
        CharClass::Other
    }
}

/// Classifies a code point. The class is also the one its general category
/// gives.
pub fn class_of(cp: u32) -> (class: CharClass)
    requires
        cp < category::CODE_POINTS,
    ensures
        class == char_class(cp),
        class == category_class(category::general_category(cp), category::is_white_space(cp)),
{
    class_in(category::category_of(cp), category::is_white_space_cp(cp))
}

/// Character class of the DeepSeek regex, which also tells marks and
/// punctuation or symbols from the other code points.
#[derive(Clone, Copy, Debug, PartialEq, Eq, Structural)]
pub enum DsCharClass {
    Letter,
    Number,
    Whitespace,
    Mark,
    PunctSym,
    Other,
}

/// The DeepSeek class of a code point.
pub open spec fn ds_char_class(cp: u32) -> DsCharClass {
    if category::is_white_space(cp) {
        DsCharClass::Whitespace
    } else if letter(cp) {
        DsCharClass::Letter
    } else if number(cp) {
        DsCharClass::Number
    } else if mark(cp) {
        DsCharClass::Mark
    } else if punct_or_symbol(cp) {
        DsCharClass::PunctSym
    } else {
        DsCharClass::Other
    }
}

/// The code of a DeepSeek class in a packed table.
pub open spec fn ds_class_code(class: DsCharClass) -> u8 {
    match class {
        DsCharClass::Letter => 0,
        DsCharClass::Number => 1,
        DsCharClass::Whitespace => 2,
        DsCharClass::Mark => 3,
        DsCharClass::PunctSym => 4,
        DsCharClass::Other => 5,
    }
}

/// The DeepSeek class of a general category, white space aside.
pub open spec fn category_ds_class(gc: GeneralCategory, white: bool) -> DsCharClass {
    if white {
        DsCharClass::Whitespace
    } else if category::gc_letter(gc) {
        DsCharClass::Letter
    } else if category::gc_number(gc) {
        DsCharClass::Number
    } else if category::gc_mark(gc) {
        DsCharClass::Mark
    } else if category::gc_punctuation(gc) || category::gc_symbol(gc) {
        DsCharClass::PunctSym
    } else {
        DsCharClass::Other
    }
}

/// Classifies a general category for the DeepSeek scheme; white space goes
/// first.
pub fn ds_class_in(gc: GeneralCategory, white: bool) -> (class: DsCharClass)
    ensures
        class == category_ds_class(gc, white),
{
    if white {
        DsCharClass::Whitespace
    } else if category::is_gc_letter(gc) {
        DsCharClass::Letter
    } else if category::is_gc_number(gc) {
        DsCharClass::Number
    } else if category::is_gc_mark(gc) {
        DsCharClass::Mark
    } else if category::is_gc_punctuation(gc) || category::is_gc_symbol(gc) {
        DsCharClass::PunctSym
    } else {
        DsCharClass::Other
    }
}

/// Classifies a code point for the DeepSeek scheme. The class is also the one
/// its general category gives.
pub fn ds_class_of(cp: u32) -> (class: DsCharClass)
    requires
        cp < category::CODE_POINTS,
    ensures
        class == ds_char_class(cp),
        class == category_ds_class(category::general_category(cp), category::is_white_space(cp)),
{
    ds_class_in(category::category_of(cp), category::is_white_space_cp(cp))
}

/// The four-class view in which marks join letter runs.
pub open spec fn marks_join(class: DsCharClass) -> CharClass {
    match class {
        DsCharClass::Letter | DsCharClass::Mark => CharClass::Letter,
        DsCharClass::Number => CharClass::Number,
        DsCharClass::Whitespace => CharClass::Whitespace,
        DsCharClass::PunctSym | DsCharClass::Other => CharClass::Other,
    }
}

/// Reduces a DeepSeek class to the four-way view.
pub fn join_marks(class: DsCharClass) -> (res: CharClass)
    ensures
        res == marks_join(class),
{
    match class {
        DsCharClass::Letter | DsCharClass::Mark => CharClass::Letter,
        DsCharClass::Number => CharClass::Number,
        DsCharClass::Whitespace => CharClass::Whitespace,
        DsCharClass::PunctSym | DsCharClass::Other => CharClass::Other,
    }
}

/// Four-class view for schemes whose regex joins `\p{M}` into letter runs and
/// excludes it from punctuation runs: marks classify as letters, everything
/// else as in [`class_of`].
pub fn class_of_marks_join(cp: u32) -> (class: CharClass)
    requires
        cp < category::CODE_POINTS,
    ensures
        class == marks_join(ds_char_class(cp)),
        class == (if mark(cp) && char_class(cp) == CharClass::Other {
            CharClass::Letter
        } else {
            char_class(cp)
        }),
{
    join_marks(ds_class_of(cp))
}

/// Joining marks changes the class of marks only: every other code point keeps
/// the class it has without them.
pub proof fn law_marks_join_refines(cp: u32)
    ensures
        marks_join(ds_char_class(cp)) == (if ds_char_class(cp) == DsCharClass::Mark {
            CharClass::Letter
        } else {
            char_class(cp)
        }),
        ds_char_class(cp) == DsCharClass::Mark || ds_char_class(cp) == DsCharClass::PunctSym
            || ds_char_class(cp) == DsCharClass::Other <==> char_class(cp) == CharClass::Other,
{
}

/// Character class of the o200k regex family, whose letter runs are
/// case-structured: `Upper` is `Lu` or `Lt`, `Lower` is `Ll` and `Caseless` is
/// `Lm` or `Lo`.
#[derive(Clone, Copy, Debug, PartialEq, Eq, Structural)]
pub enum O200kCharClass {
    Upper,
    Lower,
    Caseless,
    Mark,
    Number,
    Whitespace,
    Other,
}

/// The o200k class of a code point.
pub open spec fn o200k_char_class(cp: u32) -> O200kCharClass {
    if category::is_white_space(cp) {
        O200kCharClass::Whitespace
    } else if upper(cp) {
        O200kCharClass::Upper
    } else if lower(cp) {
        O200kCharClass::Lower
    } else if caseless(cp) {
        O200kCharClass::Caseless
    } else if mark(cp) {
        O200kCharClass::Mark
    } else if number(cp) {
        O200kCharClass::Number
    } else {
        O200kCharClass::Other
    }
}

/// The code of an o200k class in a packed table.
pub open spec fn o200k_class_code(class: O200kCharClass) -> u8 {
    match class {
        O200kCharClass::Upper => 0,
        O200kCharClass::Lower => 1,
        O200kCharClass::Caseless => 2,
        O200kCharClass::Mark => 3,
        O200kCharClass::Number => 4,
        O200kCharClass::Whitespace => 5,
        O200kCharClass::Other => 6,
    }
}

/// The o200k class of a general category, white space aside.
pub open spec fn category_o200k_class(gc: GeneralCategory, white: bool) -> O200kCharClass {
    if white {
        O200kCharClass::Whitespace
    } else if gc == GeneralCategory::UppercaseLetter || gc == GeneralCategory::TitlecaseLetter {
        O200kCharClass::Upper
    } else if gc == GeneralCategory::LowercaseLetter {
        O200kCharClass::Lower
    } else if gc == GeneralCategory::ModifierLetter || gc == GeneralCategory::OtherLetter {
        O200kCharClass::Caseless
    } else if category::gc_mark(gc) {
        O200kCharClass::Mark
    } else if category::gc_number(gc) {
        O200kCharClass::Number
    } else {
        O200kCharClass::Other
    }
}

/// Classifies a general category for the o200k scheme family; white space goes
/// first.
pub fn o200k_class_in(gc: GeneralCategory, white: bool) -> (class: O200kCharClass)
    ensures
        class == category_o200k_class(gc, white),
{
    if white {
        return O200kCharClass::Whitespace;
    }
    match gc {
        GeneralCategory::UppercaseLetter | GeneralCategory::TitlecaseLetter => {
            O200kCharClass::Upper
        },
        GeneralCategory::LowercaseLetter => O200kCharClass::Lower,
        GeneralCategory::ModifierLetter | GeneralCategory::OtherLetter => {
            O200kCharClass::Caseless
        },
        _ => if category::is_gc_mark(gc) {
            O200kCharClass::Mark
        } else if category::is_gc_number(gc) {
            O200kCharClass::Number
        } else {
            O200kCharClass::Other
        },
    }
}

/// Classifies a code point for the o200k scheme family. The class is also the
/// one its general category gives.
pub fn o200k_class_of(cp: u32) -> (class: O200kCharClass)
    requires
        cp < category::CODE_POINTS,
    ensures
        class == o200k_char_class(cp),
        class == category_o200k_class(
            category::general_category(cp),
            category::is_white_space(cp),
        ),
{
    o200k_class_in(category::category_of(cp), category::is_white_space_cp(cp))
}

/// Character class of the Kimi regex: the o200k classes with `\p{Han}` split
/// out. Each Han variant records which base class the code point behaves as
/// outside a Han run.
#[derive(Clone, Copy, Debug, PartialEq, Eq, Structural)]
pub enum KimiCharClass {
    Upper,
    Lower,
    Caseless,
    Mark,
    Number,
    Whitespace,
    Other,
    /// Han letters: never letter-run members.
    Han,
    /// Han numerals: numbers mid-number, Han-run members otherwise.
    HanNumber,
    /// Han symbols and marks: punctuation-run members mid-run, Han-run members
    /// at a token start.
    HanOther,
}

impl KimiCharClass {
    /// The o200k class the character behaves as outside a Han run.
    pub open spec fn base_class(self) -> O200kCharClass {
        match self {
            KimiCharClass::Upper => O200kCharClass::Upper,
            KimiCharClass::Lower => O200kCharClass::Lower,
            KimiCharClass::Caseless | KimiCharClass::Han => O200kCharClass::Caseless,
            KimiCharClass::Mark => O200kCharClass::Mark,
            KimiCharClass::Number | KimiCharClass::HanNumber => O200kCharClass::Number,
            KimiCharClass::Whitespace => O200kCharClass::Whitespace,
            KimiCharClass::Other | KimiCharClass::HanOther => O200kCharClass::Other,
        }
    }

    /// Is the class one of the Han classes?
    pub open spec fn han(self) -> bool {
        self == KimiCharClass::Han || self == KimiCharClass::HanNumber || self
            == KimiCharClass::HanOther
    }

    /// The o200k class the character behaves as outside a Han run.
    pub fn base(self) -> (res: O200kCharClass)
        ensures
            res == self.base_class(),
    {
        match self {
            KimiCharClass::Upper => O200kCharClass::Upper,
            KimiCharClass::Lower => O200kCharClass::Lower,
            KimiCharClass::Caseless | KimiCharClass::Han => O200kCharClass::Caseless,
            KimiCharClass::Mark => O200kCharClass::Mark,
            KimiCharClass::Number | KimiCharClass::HanNumber => O200kCharClass::Number,
            KimiCharClass::Whitespace => O200kCharClass::Whitespace,
            KimiCharClass::Other | KimiCharClass::HanOther => O200kCharClass::Other,
        }
    }

    /// Is the character in `\p{Han}`?
    pub fn is_han(self) -> (res: bool)
        ensures
            res == self.han(),
    {
        matches!(self, KimiCharClass::Han | KimiCharClass::HanNumber | KimiCharClass::HanOther)
    }
}

/// The Kimi class that an o200k class becomes for a character outside or
/// inside the Han script. Han marks go with the Han symbols: the letter
/// brackets exclude Han, which leaves marks their punctuation-run role only.
pub open spec fn split_han(class: O200kCharClass, han: bool) -> KimiCharClass {
    match class {
        O200kCharClass::Upper => if han {
            KimiCharClass::Han
        } else {
            KimiCharClass::Upper
        },
        O200kCharClass::Lower => if han {
            KimiCharClass::Han
        } else {
            KimiCharClass::Lower
        },
        O200kCharClass::Caseless => if han {
            KimiCharClass::Han
        } else {
            KimiCharClass::Caseless
        },
        O200kCharClass::Mark => if han {
            KimiCharClass::HanOther
        } else {
            KimiCharClass::Mark
        },
        O200kCharClass::Number => if han {
            KimiCharClass::HanNumber
        } else {
            KimiCharClass::Number
        },
        O200kCharClass::Whitespace => if han {
            KimiCharClass::Han
        } else {
            KimiCharClass::Whitespace
        },
        O200kCharClass::Other => if han {
            KimiCharClass::HanOther
        } else {
            KimiCharClass::Other
        },
    }
}

/// The Kimi class of a code point.
pub open spec fn kimi_char_class(cp: u32) -> KimiCharClass {
    split_han(o200k_char_class(cp), category::script_is_han(cp))
}

/// The code of a Kimi class in a packed table.
pub open spec fn kimi_class_code(class: KimiCharClass) -> u8 {
    match class {
        KimiCharClass::Upper => 0,
        KimiCharClass::Lower => 1,
        KimiCharClass::Caseless => 2,
        KimiCharClass::Mark => 3,
        KimiCharClass::Number => 4,
        KimiCharClass::Whitespace => 5,
        KimiCharClass::Other => 6,
        KimiCharClass::Han => 7,
        KimiCharClass::HanNumber => 8,
        KimiCharClass::HanOther => 9,
    }
}

/// Splits the Han script out of an o200k class.
pub fn han_split(class: O200kCharClass, han: bool) -> (res: KimiCharClass)
    ensures
        res == split_han(class, han),
{
    if han {
        match class {
            O200kCharClass::Number => KimiCharClass::HanNumber,
            O200kCharClass::Other | O200kCharClass::Mark => KimiCharClass::HanOther,
            _ => KimiCharClass::Han,
        }
    } else {
        match class {
            O200kCharClass::Upper => KimiCharClass::Upper,
            O200kCharClass::Lower => KimiCharClass::Lower,
            O200kCharClass::Caseless => KimiCharClass::Caseless,
            O200kCharClass::Mark => KimiCharClass::Mark,
            O200kCharClass::Number => KimiCharClass::Number,
            O200kCharClass::Whitespace => KimiCharClass::Whitespace,
            O200kCharClass::Other => KimiCharClass::Other,
        }
    }
}

/// Classifies a code point for the Kimi scheme. The class refines the o200k one:
/// it is a Han class exactly for the Han script, and its base is the o200k
/// class, except that a Han mark behaves as other.
pub fn kimi_class_of(cp: u32) -> (class: KimiCharClass)
    requires
        cp < category::CODE_POINTS,
    ensures
        class == kimi_char_class(cp),
        class.han() == category::script_is_han(cp),
        class.base_class() == (if category::script_is_han(cp) && o200k_char_class(cp)
            == O200kCharClass::Mark {
            O200kCharClass::Other
        } else {
            o200k_char_class(cp)
        }),
{
    let class = o200k_class_of(cp);
    let han = category::is_han_cp(cp);
    proof {
        law_kimi_refines_o200k(cp);
    }
    han_split(class, han)
}

/// The Kimi classes refine the o200k ones: a class is a Han class exactly for
/// the Han script, and its base is the o200k class, except that a Han mark
/// behaves as other. That the Han script holds neither white space nor letters
/// with case is a fact of the data, which [`kimi_class_of`] supplies.
pub proof fn law_kimi_refines_o200k(cp: u32)
    requires
        category::script_is_han(cp) ==> category::han_fits(cp),
    ensures
        kimi_char_class(cp).han() == category::script_is_han(cp),
        kimi_char_class(cp).base_class() == (if category::script_is_han(cp) && o200k_char_class(cp)
            == O200kCharClass::Mark {
            O200kCharClass::Other
        } else {
            o200k_char_class(cp)
        }),
{
}

/// The o200k classes refine the four-way ones: the three cases are the
/// letters, and marks are otherwise other.
pub proof fn law_o200k_refines_class(cp: u32)
    ensures
        char_class(cp) == (match o200k_char_class(cp) {
            O200kCharClass::Upper | O200kCharClass::Lower | O200kCharClass::Caseless => {
                CharClass::Letter
            },
            O200kCharClass::Number => CharClass::Number,
            O200kCharClass::Whitespace => CharClass::Whitespace,
            O200kCharClass::Mark | O200kCharClass::Other => CharClass::Other,
        }),
{
}

/// The CJK ranges that the DeepSeek pretokenizer isolates: unified ideographs,
/// hiragana and katakana.
pub open spec fn deepseek_cjk(cp: u32) -> bool {
    0x4E00 <= cp <= 0x9FA5 || 0x3040 <= cp <= 0x30FF
}

/// Is the code point in one of the CJK ranges of the DeepSeek pretokenizer?
pub fn is_deepseek_cjk(cp: u32) -> (res: bool)
    ensures
        res == deepseek_cjk(cp),
{
    (0x4E00 <= cp && cp <= 0x9FA5) || (0x3040 <= cp && cp <= 0x30FF)
}

} // verus!
