//! General categories, white space and the Han script, as ICU's compiled data
//! has them.

use vstd::prelude::*;

verus! {

/// One past the largest code point.
pub const CODE_POINTS: u32 = 0x110000;

/// The Unicode `General_Category` of a code point.
#[derive(Clone, Copy, Debug, PartialEq, Eq, Structural)]
pub enum GeneralCategory {
    Unassigned,
    UppercaseLetter,
    LowercaseLetter,
    TitlecaseLetter,
    ModifierLetter,
    OtherLetter,
    NonspacingMark,
    EnclosingMark,
    SpacingMark,
    DecimalNumber,
    LetterNumber,
    OtherNumber,
    SpaceSeparator,
    LineSeparator,
    ParagraphSeparator,
    Control,
    Format,
    PrivateUse,
    Surrogate,
    DashPunctuation,
    OpenPunctuation,
    ClosePunctuation,
    ConnectorPunctuation,
    OtherPunctuation,
    MathSymbol,
    CurrencySymbol,
    ModifierSymbol,
    OtherSymbol,
    InitialPunctuation,
    FinalPunctuation,
}

/// The category behind each of ICU's numeric codes, in the order of the codes.
pub open spec fn category_of_code(code: u8) -> GeneralCategory {
    if code == 1 {
        GeneralCategory::UppercaseLetter
    } else if code == 2 {
        GeneralCategory::LowercaseLetter
    } else if code == 3 {
        GeneralCategory::TitlecaseLetter
    } else if code == 4 {
        GeneralCategory::ModifierLetter
    } else if code == 5 {
        GeneralCategory::OtherLetter
    } else if code == 6 {
        GeneralCategory::NonspacingMark
    } else if code == 7 {
        GeneralCategory::EnclosingMark
    } else if code == 8 {
        GeneralCategory::SpacingMark
    } else if code == 9 {
        GeneralCategory::DecimalNumber
    } else if code == 10 {
        GeneralCategory::LetterNumber
    } else if code == 11 {
        GeneralCategory::OtherNumber
    } else if code == 12 {
        GeneralCategory::SpaceSeparator
    } else if code == 13 {
        GeneralCategory::LineSeparator
    } else if code == 14 {
        GeneralCategory::ParagraphSeparator
    } else if code == 15 {
        GeneralCategory::Control
    } else if code == 16 {
        GeneralCategory::Format
    } else if code == 17 {
        GeneralCategory::PrivateUse
    } else if code == 18 {
        GeneralCategory::Surrogate
    } else if code == 19 {
        GeneralCategory::DashPunctuation
    } else if code == 20 {
        GeneralCategory::OpenPunctuation
    } else if code == 21 {
        GeneralCategory::ClosePunctuation
    } else if code == 22 {
        GeneralCategory::ConnectorPunctuation
    } else if code == 23 {
        GeneralCategory::OtherPunctuation
    } else if code == 24 {
        GeneralCategory::MathSymbol
    } else if code == 25 {
        GeneralCategory::CurrencySymbol
    } else if code == 26 {
        GeneralCategory::ModifierSymbol
    } else if code == 27 {
        GeneralCategory::OtherSymbol
    } else if code == 28 {
        GeneralCategory::InitialPunctuation
    } else if code == 29 {
        GeneralCategory::FinalPunctuation
    } else {
        GeneralCategory::Unassigned
    }
}

/// ICU's numeric `General_Category` code of a code point.
pub uninterp spec fn general_category_code(cp: u32) -> u8;

/// Whether ICU's `Script` property of a code point is Han.
pub uninterp spec fn script_is_han(cp: u32) -> bool;

/// The general category of a code point. That of the replacement character is
/// written out, since malformed text is read as it.
pub open spec fn general_category(cp: u32) -> GeneralCategory {
    if cp == 0xFFFD {
        GeneralCategory::OtherSymbol
    } else {
        category_of_code(general_category_code(cp))
    }
}

/// The `White_Space` property.
pub open spec fn is_white_space(cp: u32) -> bool {
    ||| 0x09 <= cp <= 0x0D
    ||| cp == 0x20
    ||| cp == 0x85
    ||| cp == 0xA0
    ||| cp == 0x1680
    ||| 0x2000 <= cp <= 0x200A
    ||| cp == 0x2028
    ||| cp == 0x2029
    ||| cp == 0x202F
    ||| cp == 0x205F
    ||| cp == 0x3000
}

/// ASCII letters.
pub open spec fn is_ascii_letter(cp: u32) -> bool {
    0x41 <= cp <= 0x5A || 0x61 <= cp <= 0x7A
}

/// ASCII digits.
pub open spec fn is_ascii_digit(cp: u32) -> bool {
    0x30 <= cp <= 0x39
}

/// ASCII punctuation and symbols: every printable ASCII code point that is
/// neither alphanumeric nor the space.
pub open spec fn is_ascii_punctuation(cp: u32) -> bool {
    ||| 0x21 <= cp <= 0x2F
    ||| 0x3A <= cp <= 0x40
    ||| 0x5B <= cp <= 0x60
    ||| 0x7B <= cp <= 0x7E
}

/// What the category codes of the ASCII range are: letters by case, decimal
/// digits, the space a separator, punctuation and symbols within their codes,
/// and the rest controls.
pub open spec fn ascii_code_fits(cp: u32, code: u8) -> bool {
    &&& 0x41 <= cp <= 0x5A ==> code == 1
    &&& 0x61 <= cp <= 0x7A ==> code == 2
    &&& is_ascii_digit(cp) ==> code == 9
    &&& cp == 0x20 ==> code == 12
    &&& is_ascii_punctuation(cp) ==> 19 <= code <= 29
    &&& cp < 0x20 || cp == 0x7F ==> code == 15
}

/// `icu::properties::CodePointMapData::<GeneralCategory>::new().get32(cp)`, as
/// the number of its variant: a value below 30 that the code point alone
/// decides. Of the data behind it three facts are claimed: the codes of the
/// ASCII range, that a `White_Space` code point is a control or a separator, and
/// that U+FFFD is a symbol of the last kind.
#[verifier::external_body]
fn icu_general_category_code(cp: u32) -> (code: u8)
    requires
        cp < CODE_POINTS,
    ensures
        code == general_category_code(cp),
        code < 30,
        cp < 0x80 ==> ascii_code_fits(cp, code),
        is_white_space(cp) ==> 12 <= code <= 15,
        cp == 0xFFFD ==> code == 27,
{
    icu::properties::CodePointMapData::<icu::properties::props::GeneralCategory>::new().get32(cp) as u8
}

/// `icu::properties::CodePointSetData::new::<WhiteSpace>().contains32(cp)`: the
/// set's inversion list in ICU's data is the one written out in
/// [`is_white_space`].
#[verifier::external_body]
fn icu_is_white_space(cp: u32) -> (res: bool)
    ensures
        res == is_white_space(cp),
{
    icu::properties::CodePointSetData::new::<icu::properties::props::WhiteSpace>().contains32(cp)
}

/// What a code point of the Han script is not: white space or a letter with
/// case. None lies before the CJK radicals.
pub open spec fn han_fits(cp: u32) -> bool {
    &&& cp >= 0x2E80
    &&& !is_white_space(cp)
    &&& !(1 <= general_category_code(cp) <= 3)
}

/// `icu::properties::CodePointMapData::<Script>::new().get32(cp)` compared with
/// `Script::Han`: a truth value that the code point alone decides. Of the data
/// behind it one fact is claimed: the script holds no white space, no letters
/// with case and nothing before U+2E80.
#[verifier::external_body]
fn icu_script_is_han(cp: u32) -> (res: bool)
    requires
        cp < CODE_POINTS,
    ensures
        res == script_is_han(cp),
        res ==> han_fits(cp),
{
    icu::properties::CodePointMapData::<icu::properties::props::Script>::new().get32(cp)
        == icu::properties::props::Script::Han
}

/// The category with a given code.
fn category_with_code(code: u8) -> (res: GeneralCategory)
    ensures
        res == category_of_code(code),
{
    match code {
        1 => GeneralCategory::UppercaseLetter,
        2 => GeneralCategory::LowercaseLetter,
        3 => GeneralCategory::TitlecaseLetter,
        4 => GeneralCategory::ModifierLetter,
        5 => GeneralCategory::OtherLetter,
        6 => GeneralCategory::NonspacingMark,
        7 => GeneralCategory::EnclosingMark,
        8 => GeneralCategory::SpacingMark,
        9 => GeneralCategory::DecimalNumber,
        10 => GeneralCategory::LetterNumber,
        11 => GeneralCategory::OtherNumber,
        12 => GeneralCategory::SpaceSeparator,
        13 => GeneralCategory::LineSeparator,
        14 => GeneralCategory::ParagraphSeparator,
        15 => GeneralCategory::Control,
        16 => GeneralCategory::Format,
        17 => GeneralCategory::PrivateUse,
        18 => GeneralCategory::Surrogate,
        19 => GeneralCategory::DashPunctuation,
        20 => GeneralCategory::OpenPunctuation,
        21 => GeneralCategory::ClosePunctuation,
        22 => GeneralCategory::ConnectorPunctuation,
        23 => GeneralCategory::OtherPunctuation,
        24 => GeneralCategory::MathSymbol,
        25 => GeneralCategory::CurrencySymbol,
        26 => GeneralCategory::ModifierSymbol,
        27 => GeneralCategory::OtherSymbol,
        28 => GeneralCategory::InitialPunctuation,
        29 => GeneralCategory::FinalPunctuation,
        _ => GeneralCategory::Unassigned,
    }
}

/// What is known of a category without looking at the data: the categories of
/// the ASCII range, and those of white space.
pub open spec fn category_fits(cp: u32, gc: GeneralCategory) -> bool {
    &&& 0x41 <= cp <= 0x5A ==> gc == GeneralCategory::UppercaseLetter
    &&& 0x61 <= cp <= 0x7A ==> gc == GeneralCategory::LowercaseLetter
    &&& is_ascii_digit(cp) ==> gc == GeneralCategory::DecimalNumber
    &&& cp == 0x20 ==> gc == GeneralCategory::SpaceSeparator
    &&& is_ascii_punctuation(cp) ==> gc_punctuation(gc) || gc_symbol(gc)
    &&& cp < 0x20 || cp == 0x7F ==> gc == GeneralCategory::Control
    &&& is_white_space(cp) ==> gc == GeneralCategory::Control || gc_separator(gc)
}

/// The general category of a code point.
pub fn category_of(cp: u32) -> (res: GeneralCategory)
    requires
        cp < CODE_POINTS,
    ensures
        res == general_category(cp),
        category_fits(cp, general_category(cp)),
{
    category_with_code(icu_general_category_code(cp))
}

/// The general category of a character.
pub fn get_general_category(c: char) -> (res: GeneralCategory)
    ensures
        res == general_category(c as u32),
{
    category_of(c as u32)
}

/// `L`: Lu, Ll, Lt, Lm, Lo.
pub open spec fn gc_letter(gc: GeneralCategory) -> bool {
    ||| gc == GeneralCategory::UppercaseLetter
    ||| gc == GeneralCategory::LowercaseLetter
    ||| gc == GeneralCategory::TitlecaseLetter
    ||| gc == GeneralCategory::ModifierLetter
    ||| gc == GeneralCategory::OtherLetter
}

/// `N`: Nd, Nl, No.
pub open spec fn gc_number(gc: GeneralCategory) -> bool {
    ||| gc == GeneralCategory::DecimalNumber
    ||| gc == GeneralCategory::LetterNumber
    ||| gc == GeneralCategory::OtherNumber
}

/// `M`: Mn, Me, Mc.
pub open spec fn gc_mark(gc: GeneralCategory) -> bool {
    ||| gc == GeneralCategory::NonspacingMark
    ||| gc == GeneralCategory::EnclosingMark
    ||| gc == GeneralCategory::SpacingMark
}

/// `P`: Pd, Ps, Pe, Pc, Po, Pi, Pf.
pub open spec fn gc_punctuation(gc: GeneralCategory) -> bool {
    ||| gc == GeneralCategory::DashPunctuation
    ||| gc == GeneralCategory::OpenPunctuation
    ||| gc == GeneralCategory::ClosePunctuation
    ||| gc == GeneralCategory::ConnectorPunctuation
    ||| gc == GeneralCategory::OtherPunctuation
    ||| gc == GeneralCategory::InitialPunctuation
    ||| gc == GeneralCategory::FinalPunctuation
}

/// `S`: Sm, Sc, Sk, So.
pub open spec fn gc_symbol(gc: GeneralCategory) -> bool {
    ||| gc == GeneralCategory::MathSymbol
    ||| gc == GeneralCategory::CurrencySymbol
    ||| gc == GeneralCategory::ModifierSymbol
    ||| gc == GeneralCategory::OtherSymbol
}

/// `Z`: Zs, Zl, Zp.
pub open spec fn gc_separator(gc: GeneralCategory) -> bool {
    ||| gc == GeneralCategory::SpaceSeparator
    ||| gc == GeneralCategory::LineSeparator
    ||| gc == GeneralCategory::ParagraphSeparator
}

/// Is the category one of the letter categories?
pub fn is_gc_letter(gc: GeneralCategory) -> (res: bool)
    ensures
        res == gc_letter(gc),
{
    matches!(
        gc,
        GeneralCategory::UppercaseLetter
            | GeneralCategory::LowercaseLetter
            | GeneralCategory::TitlecaseLetter
            | GeneralCategory::ModifierLetter
            | GeneralCategory::OtherLetter
    )
}

/// Is the category one of the number categories?
pub fn is_gc_number(gc: GeneralCategory) -> (res: bool)
    ensures
        res == gc_number(gc),
{
    matches!(
        gc,
        GeneralCategory::DecimalNumber
            | GeneralCategory::LetterNumber
            | GeneralCategory::OtherNumber
    )
}

/// Is the category one of the mark categories?
pub fn is_gc_mark(gc: GeneralCategory) -> (res: bool)
    ensures
        res == gc_mark(gc),
{
    matches!(
        gc,
        GeneralCategory::NonspacingMark
            | GeneralCategory::EnclosingMark
            | GeneralCategory::SpacingMark
    )
}

/// Is the category one of the punctuation categories?
pub fn is_gc_punctuation(gc: GeneralCategory) -> (res: bool)
    ensures
        res == gc_punctuation(gc),
{
    matches!(
        gc,
        GeneralCategory::DashPunctuation
            | GeneralCategory::OpenPunctuation
            | GeneralCategory::ClosePunctuation
            | GeneralCategory::ConnectorPunctuation
            | GeneralCategory::OtherPunctuation
            | GeneralCategory::InitialPunctuation
            | GeneralCategory::FinalPunctuation
    )
}

/// Is the category one of the symbol categories?
pub fn is_gc_symbol(gc: GeneralCategory) -> (res: bool)
    ensures
        res == gc_symbol(gc),
{
    matches!(
        gc,
        GeneralCategory::MathSymbol
            | GeneralCategory::CurrencySymbol
            | GeneralCategory::ModifierSymbol
            | GeneralCategory::OtherSymbol
    )
}

/// Is the code point in `White_Space`?
pub fn is_white_space_cp(cp: u32) -> (res: bool)
    ensures
        res == is_white_space(cp),
{
    icu_is_white_space(cp)
}

/// Is the code point's script Han?
pub fn is_han_cp(cp: u32) -> (res: bool)
    requires
        cp < CODE_POINTS,
    ensures
        res == script_is_han(cp),
        res ==> han_fits(cp),
{
    icu_script_is_han(cp)
}

/// Unicode `White_Space`: what `\s` matches in a regex.
pub fn is_whitespace(c: char) -> (res: bool)
    ensures
        res == is_white_space(c as u32),
{
    icu_is_white_space(c as u32)
}

/// What `\p{L}` matches.
pub fn is_letter(c: char) -> (res: bool)
    ensures
        res == gc_letter(general_category(c as u32)),
{
    is_gc_letter(get_general_category(c))
}

/// What `\p{N}` matches.
pub fn is_number(c: char) -> (res: bool)
    ensures
        res == gc_number(general_category(c as u32)),
{
    is_gc_number(get_general_category(c))
}

/// The white space of ASCII as WHATWG has it: tab, line feed, form feed,
/// carriage return and space. The vertical tab is not in it.
pub open spec fn is_ascii_white_space(cp: u32) -> bool {
    cp == 0x09 || cp == 0x0A || cp == 0x0C || cp == 0x0D || cp == 0x20
}

/// What belongs to none of the letter, number and white space classes. In the
/// ASCII range the white space is [`is_ascii_white_space`], so the vertical tab
/// counts as other there; beyond it this is `[^\s\p{L}\p{N}]`.
pub open spec fn other_complete(cp: u32) -> bool {
    if cp < 0x80 {
        !is_ascii_letter(cp) && !is_ascii_digit(cp) && !is_ascii_white_space(cp)
    } else {
        !gc_letter(general_category(cp)) && !gc_number(general_category(cp)) && !is_white_space(cp)
    }
}

/// Is the character neither a letter nor a number nor white space?
pub fn is_other_complete(c: char) -> (res: bool)
    ensures
        res == other_complete(c as u32),
{
    let cp: u32 = c as u32;
    if cp < 0x80 {
        let alphanumeric = (0x30 <= cp && cp <= 0x39) || (0x41 <= cp && cp <= 0x5A) || (0x61 <= cp
            && cp <= 0x7A);
        let whitespace = cp == 0x09 || cp == 0x0A || cp == 0x0C || cp == 0x0D || cp == 0x20;
        return !alphanumeric && !whitespace;
    }
    let gc = category_of(cp);
    !is_gc_letter(gc) && !is_gc_number(gc) && !is_whitespace(c)
}

} // verus!
