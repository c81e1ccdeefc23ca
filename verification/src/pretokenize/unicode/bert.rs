//! Character classes of the BERT pretokenizer and normalizer.
//!
//! Both follow the behaviour of `tokenizers` 0.22.2, whose bundled character
//! data is several versions behind ICU's. The constants below are the measured
//! differences between the two, taken against ICU's own sets; a wrong one would
//! move a pretoken boundary or delete a character.

use super::category;
use super::category::GeneralCategory;
use vstd::prelude::*;

verus! {

/// Class of a code point for the BERT pretokenizer, which drops white space and
/// isolates punctuation.
#[derive(Clone, Copy, Debug, PartialEq, Eq, Structural)]
pub enum BertCharClass {
    Word,
    Whitespace,
    Punct,
}

/// Code points that are punctuation to ICU but not to `tokenizers`:
/// recategorised or assigned since its data.
pub const BERT_STALE_NOT_PUNCT: [u32; 141] = [
    0x061D, 0x09FD, 0x0A76, 0x0C77, 0x0C84, 0x1B4E, 0x1B4F, 0x1B7D, 0x1B7E, 0x1B7F,
    0x2E43, 0x2E44, 0x2E45, 0x2E46, 0x2E47, 0x2E48, 0x2E49, 0x2E4A, 0x2E4B, 0x2E4C,
    0x2E4D, 0x2E4E, 0x2E4F, 0x2E52, 0x2E53, 0x2E54, 0x2E55, 0x2E56, 0x2E57, 0x2E58,
    0x2E59, 0x2E5A, 0x2E5B, 0x2E5C, 0x2E5D, 0x10D6E, 0x10EAD, 0x10ED0, 0x10F55, 0x10F56,
    0x10F57, 0x10F58, 0x10F59, 0x10F86, 0x10F87, 0x10F88, 0x10F89, 0x113D4, 0x113D5, 0x113D7,
    0x113D8, 0x1144B, 0x1144C, 0x1144D, 0x1144E, 0x1144F, 0x1145A, 0x1145B, 0x1145D, 0x11660,
    0x11661, 0x11662, 0x11663, 0x11664, 0x11665, 0x11666, 0x11667, 0x11668, 0x11669, 0x1166A,
    0x1166B, 0x1166C, 0x116B9, 0x1183B, 0x11944, 0x11945, 0x11946, 0x119E2, 0x11A3F, 0x11A40,
    0x11A41, 0x11A42, 0x11A43, 0x11A44, 0x11A45, 0x11A46, 0x11A9A, 0x11A9B, 0x11A9C, 0x11A9E,
    0x11A9F, 0x11AA0, 0x11AA1, 0x11AA2, 0x11B00, 0x11B01, 0x11B02, 0x11B03, 0x11B04, 0x11B05,
    0x11B06, 0x11B07, 0x11B08, 0x11B09, 0x11BE1, 0x11C41, 0x11C42, 0x11C43, 0x11C44, 0x11C45,
    0x11C70, 0x11C71, 0x11EF7, 0x11EF8, 0x11F43, 0x11F44, 0x11F45, 0x11F46, 0x11F47, 0x11F48,
    0x11F49, 0x11F4A, 0x11F4B, 0x11F4C, 0x11F4D, 0x11F4E, 0x11F4F, 0x11FFF, 0x12FF1, 0x12FF2,
    0x16D6D, 0x16D6E, 0x16D6F, 0x16E97, 0x16E98, 0x16E99, 0x16E9A, 0x16FE2, 0x1E5FF, 0x1E95E,
    0x1E95F,
];

/// Code points that are punctuation to `tokenizers` but not to ICU: both were
/// recategorised since its data.
pub const BERT_STALE_EXTRA_PUNCT: [u32; 2] = [
    0x166D, 0x111C9,
];

/// Format characters that the data of `tokenizers` leaves unassigned, so that
/// cleaning keeps them.
pub const BERT_STALE_NOT_CONTROL: [u32; 20] = [
    0x0890, 0x0891, 0x08E2, 0x110CD, 0x13430, 0x13431, 0x13432, 0x13433, 0x13434, 0x13435,
    0x13436, 0x13437, 0x13438, 0x13439, 0x1343A, 0x1343B, 0x1343C, 0x1343D, 0x1343E, 0x1343F,
];

/// Nonspacing marks that `tokenizers` does not strip, as its data does not
/// classify them so.
pub const BERT_STALE_NOT_MARK: [u32; 494] = [
    0x07FD, 0x0897, 0x0898, 0x0899, 0x089A, 0x089B, 0x089C, 0x089D, 0x089E, 0x089F,
    0x08CA, 0x08CB, 0x08CC, 0x08CD, 0x08CE, 0x08CF, 0x08D0, 0x08D1, 0x08D2, 0x08D3,
    0x08D4, 0x08D5, 0x08D6, 0x08D7, 0x08D8, 0x08D9, 0x08DA, 0x08DB, 0x08DC, 0x08DD,
    0x08DE, 0x08DF, 0x08E0, 0x08E1, 0x09FE, 0x0AFA, 0x0AFB, 0x0AFC, 0x0AFD, 0x0AFE,
    0x0AFF, 0x0B55, 0x0C04, 0x0C3C, 0x0D00, 0x0D3B, 0x0D3C, 0x0D81, 0x0EBA, 0x0ECE,
    0x180F, 0x1885, 0x1886, 0x1ABF, 0x1AC0, 0x1AC1, 0x1AC2, 0x1AC3, 0x1AC4, 0x1AC5,
    0x1AC6, 0x1AC7, 0x1AC8, 0x1AC9, 0x1ACA, 0x1ACB, 0x1ACC, 0x1ACD, 0x1ACE, 0x1ACF,
    0x1AD0, 0x1AD1, 0x1AD2, 0x1AD3, 0x1AD4, 0x1AD5, 0x1AD6, 0x1AD7, 0x1AD8, 0x1AD9,
    0x1ADA, 0x1ADB, 0x1ADC, 0x1ADD, 0x1AE0, 0x1AE1, 0x1AE2, 0x1AE3, 0x1AE4, 0x1AE5,
    0x1AE6, 0x1AE7, 0x1AE8, 0x1AE9, 0x1AEA, 0x1AEB, 0x1DF6, 0x1DF7, 0x1DF8, 0x1DF9,
    0x1DFA, 0x1DFB, 0xA82C, 0xA8C5, 0xA8FF, 0xA9BD, 0x10D24, 0x10D25, 0x10D26, 0x10D27,
    0x10D69, 0x10D6A, 0x10D6B, 0x10D6C, 0x10D6D, 0x10EAB, 0x10EAC, 0x10EFA, 0x10EFB, 0x10EFC,
    0x10EFD, 0x10EFE, 0x10EFF, 0x10F46, 0x10F47, 0x10F48, 0x10F49, 0x10F4A, 0x10F4B, 0x10F4C,
    0x10F4D, 0x10F4E, 0x10F4F, 0x10F50, 0x10F82, 0x10F83, 0x10F84, 0x10F85, 0x11070, 0x11073,
    0x11074, 0x110C2, 0x111C9, 0x111CF, 0x1123E, 0x11241, 0x1133B, 0x113BB, 0x113BC, 0x113BD,
    0x113BE, 0x113BF, 0x113C0, 0x113CE, 0x113D0, 0x113D2, 0x113E1, 0x113E2, 0x11438, 0x11439,
    0x1143A, 0x1143B, 0x1143C, 0x1143D, 0x1143E, 0x1143F, 0x11442, 0x11443, 0x11444, 0x11446,
    0x1145E, 0x1182F, 0x11830, 0x11831, 0x11832, 0x11833, 0x11834, 0x11835, 0x11836, 0x11837,
    0x11839, 0x1183A, 0x1193B, 0x1193C, 0x1193E, 0x11943, 0x119D4, 0x119D5, 0x119D6, 0x119D7,
    0x119DA, 0x119DB, 0x119E0, 0x11A01, 0x11A02, 0x11A03, 0x11A04, 0x11A05, 0x11A06, 0x11A07,
    0x11A08, 0x11A09, 0x11A0A, 0x11A33, 0x11A34, 0x11A35, 0x11A36, 0x11A37, 0x11A38, 0x11A3B,
    0x11A3C, 0x11A3D, 0x11A3E, 0x11A47, 0x11A51, 0x11A52, 0x11A53, 0x11A54, 0x11A55, 0x11A56,
    0x11A59, 0x11A5A, 0x11A5B, 0x11A8A, 0x11A8B, 0x11A8C, 0x11A8D, 0x11A8E, 0x11A8F, 0x11A90,
    0x11A91, 0x11A92, 0x11A93, 0x11A94, 0x11A95, 0x11A96, 0x11A98, 0x11A99, 0x11B60, 0x11B62,
    0x11B63, 0x11B64, 0x11B66, 0x11C30, 0x11C31, 0x11C32, 0x11C33, 0x11C34, 0x11C35, 0x11C36,
    0x11C38, 0x11C39, 0x11C3A, 0x11C3B, 0x11C3C, 0x11C3D, 0x11C3F, 0x11C92, 0x11C93, 0x11C94,
    0x11C95, 0x11C96, 0x11C97, 0x11C98, 0x11C99, 0x11C9A, 0x11C9B, 0x11C9C, 0x11C9D, 0x11C9E,
    0x11C9F, 0x11CA0, 0x11CA1, 0x11CA2, 0x11CA3, 0x11CA4, 0x11CA5, 0x11CA6, 0x11CA7, 0x11CAA,
    0x11CAB, 0x11CAC, 0x11CAD, 0x11CAE, 0x11CAF, 0x11CB0, 0x11CB2, 0x11CB3, 0x11CB5, 0x11CB6,
    0x11D31, 0x11D32, 0x11D33, 0x11D34, 0x11D35, 0x11D36, 0x11D3A, 0x11D3C, 0x11D3D, 0x11D3F,
    0x11D40, 0x11D41, 0x11D42, 0x11D43, 0x11D44, 0x11D45, 0x11D47, 0x11D90, 0x11D91, 0x11D95,
    0x11D97, 0x11EF3, 0x11EF4, 0x11F00, 0x11F01, 0x11F36, 0x11F37, 0x11F38, 0x11F39, 0x11F3A,
    0x11F40, 0x11F42, 0x11F5A, 0x13440, 0x13447, 0x13448, 0x13449, 0x1344A, 0x1344B, 0x1344C,
    0x1344D, 0x1344E, 0x1344F, 0x13450, 0x13451, 0x13452, 0x13453, 0x13454, 0x13455, 0x1611E,
    0x1611F, 0x16120, 0x16121, 0x16122, 0x16123, 0x16124, 0x16125, 0x16126, 0x16127, 0x16128,
    0x16129, 0x1612D, 0x1612E, 0x1612F, 0x16F4F, 0x16FE4, 0x1CF00, 0x1CF01, 0x1CF02, 0x1CF03,
    0x1CF04, 0x1CF05, 0x1CF06, 0x1CF07, 0x1CF08, 0x1CF09, 0x1CF0A, 0x1CF0B, 0x1CF0C, 0x1CF0D,
    0x1CF0E, 0x1CF0F, 0x1CF10, 0x1CF11, 0x1CF12, 0x1CF13, 0x1CF14, 0x1CF15, 0x1CF16, 0x1CF17,
    0x1CF18, 0x1CF19, 0x1CF1A, 0x1CF1B, 0x1CF1C, 0x1CF1D, 0x1CF1E, 0x1CF1F, 0x1CF20, 0x1CF21,
    0x1CF22, 0x1CF23, 0x1CF24, 0x1CF25, 0x1CF26, 0x1CF27, 0x1CF28, 0x1CF29, 0x1CF2A, 0x1CF2B,
    0x1CF2C, 0x1CF2D, 0x1CF30, 0x1CF31, 0x1CF32, 0x1CF33, 0x1CF34, 0x1CF35, 0x1CF36, 0x1CF37,
    0x1CF38, 0x1CF39, 0x1CF3A, 0x1CF3B, 0x1CF3C, 0x1CF3D, 0x1CF3E, 0x1CF3F, 0x1CF40, 0x1CF41,
    0x1CF42, 0x1CF43, 0x1CF44, 0x1CF45, 0x1CF46, 0x1E000, 0x1E001, 0x1E002, 0x1E003, 0x1E004,
    0x1E005, 0x1E006, 0x1E008, 0x1E009, 0x1E00A, 0x1E00B, 0x1E00C, 0x1E00D, 0x1E00E, 0x1E00F,
    0x1E010, 0x1E011, 0x1E012, 0x1E013, 0x1E014, 0x1E015, 0x1E016, 0x1E017, 0x1E018, 0x1E01B,
    0x1E01C, 0x1E01D, 0x1E01E, 0x1E01F, 0x1E020, 0x1E021, 0x1E023, 0x1E024, 0x1E026, 0x1E027,
    0x1E028, 0x1E029, 0x1E02A, 0x1E08F, 0x1E130, 0x1E131, 0x1E132, 0x1E133, 0x1E134, 0x1E135,
    0x1E136, 0x1E2AE, 0x1E2EC, 0x1E2ED, 0x1E2EE, 0x1E2EF, 0x1E4EC, 0x1E4ED, 0x1E4EE, 0x1E4EF,
    0x1E5EE, 0x1E5EF, 0x1E6E3, 0x1E6E6, 0x1E6EE, 0x1E6EF, 0x1E6F5, 0x1E944, 0x1E945, 0x1E946,
    0x1E947, 0x1E948, 0x1E949, 0x1E94A,
];

/// Code points that `tokenizers` strips as marks and ICU does not classify so:
/// both became spacing marks since its data.
pub const BERT_STALE_EXTRA_MARK: [u32; 2] = [
    0x1734, 0x1171E,
];

/// Byte class of an ASCII word character.
pub const BERT_BYTE_WORD: u8 = 0;

/// Byte class of ASCII white space.
pub const BERT_BYTE_WS: u8 = 1;

/// Byte class of ASCII punctuation.
pub const BERT_BYTE_PUNCT: u8 = 2;

/// Byte class of every byte beyond ASCII.
pub const BERT_BYTE_NON_ASCII: u8 = 3;

/// The classes of all bytes: those of ASCII, and a sentinel for a lead or
/// continuation byte.
pub const BERT_BYTE_CLASS: [u8; 256] = [
    0, 0, 0, 0, 0, 0, 0, 0, 0, 1, 1, 1, 1, 1, 0, 0,
    0, 0, 0, 0, 0, 0, 0, 0, 0, 0, 0, 0, 0, 0, 0, 0,
    1, 2, 2, 2, 2, 2, 2, 2, 2, 2, 2, 2, 2, 2, 2, 2,
    0, 0, 0, 0, 0, 0, 0, 0, 0, 0, 2, 2, 2, 2, 2, 2,
    2, 0, 0, 0, 0, 0, 0, 0, 0, 0, 0, 0, 0, 0, 0, 0,
    0, 0, 0, 0, 0, 0, 0, 0, 0, 0, 0, 2, 2, 2, 2, 2,
    2, 0, 0, 0, 0, 0, 0, 0, 0, 0, 0, 0, 0, 0, 0, 0,
    0, 0, 0, 0, 0, 0, 0, 0, 0, 0, 0, 2, 2, 2, 2, 0,
    3, 3, 3, 3, 3, 3, 3, 3, 3, 3, 3, 3, 3, 3, 3, 3,
    3, 3, 3, 3, 3, 3, 3, 3, 3, 3, 3, 3, 3, 3, 3, 3,
    3, 3, 3, 3, 3, 3, 3, 3, 3, 3, 3, 3, 3, 3, 3, 3,
    3, 3, 3, 3, 3, 3, 3, 3, 3, 3, 3, 3, 3, 3, 3, 3,
    3, 3, 3, 3, 3, 3, 3, 3, 3, 3, 3, 3, 3, 3, 3, 3,
    3, 3, 3, 3, 3, 3, 3, 3, 3, 3, 3, 3, 3, 3, 3, 3,
    3, 3, 3, 3, 3, 3, 3, 3, 3, 3, 3, 3, 3, 3, 3, 3,
    3, 3, 3, 3, 3, 3, 3, 3, 3, 3, 3, 3, 3, 3, 3, 3,
];

/// Whether a code point stands in a list.
pub open spec fn listed(list: Seq<u32>, cp: u32) -> bool {
    list.contains(cp)
}

fn is_listed(list: &[u32], cp: u32) -> (res: bool)
    ensures
        res == listed(list@, cp),
{
    let mut i: usize = 0;
    while i < list.len()
        invariant
            i <= list@.len(),
            forall|k: int| 0 <= k < i ==> list@[k] != cp,
        decreases list@.len() - i,
    {
        if list[i] == cp {
            return true;
        }
        i += 1;
    }
    false
}

/// The BERT pretokenizer class of a code point of a given category: white space
/// first; then the punctuation of ASCII, or that of the category with the
/// measured differences; the rest are word characters.
pub open spec fn category_bert_class(cp: u32, gc: GeneralCategory) -> BertCharClass {
    if category::is_white_space(cp) {
        BertCharClass::Whitespace
    } else if cp < 0x80 {
        if category::is_ascii_punctuation(cp) {
            BertCharClass::Punct
        } else {
            BertCharClass::Word
        }
    } else if listed(BERT_STALE_EXTRA_PUNCT@, cp) {
        BertCharClass::Punct
    } else if category::gc_punctuation(gc) && !listed(BERT_STALE_NOT_PUNCT@, cp) {
        BertCharClass::Punct
    } else {
        BertCharClass::Word
    }
}

/// The BERT pretokenizer class of a code point.
pub open spec fn bert_char_class(cp: u32) -> BertCharClass {
    category_bert_class(cp, category::general_category(cp))
}

/// Classifies a code point of a given category for the BERT pretokenizer.
pub fn bert_class_in(cp: u32, gc: GeneralCategory) -> (class: BertCharClass)
    ensures
        class == category_bert_class(cp, gc),
{
    if category::is_white_space_cp(cp) {
        BertCharClass::Whitespace
    } else if cp < 0x80 {
        if is_ascii_punct(cp) {
            BertCharClass::Punct
        } else {
            BertCharClass::Word
        }
    } else if is_listed(&BERT_STALE_EXTRA_PUNCT, cp) {
        BertCharClass::Punct
    } else if category::is_gc_punctuation(gc) && !is_listed(&BERT_STALE_NOT_PUNCT, cp) {
        BertCharClass::Punct
    } else {
        BertCharClass::Word
    }
}

/// Classifies a code point for the BERT pretokenizer. In the ASCII range, where
/// no difference was measured, punctuation also takes in all that ICU has as
/// such.
pub fn bert_class_of(cp: u32) -> (class: BertCharClass)
    requires
        cp < category::CODE_POINTS,
    ensures
        class == bert_char_class(cp),
        cp < 0x80 && category::gc_punctuation(category::general_category(cp)) ==> class
            == BertCharClass::Punct,
{
    bert_class_in(cp, category::category_of(cp))
}

fn is_ascii_punct(cp: u32) -> (res: bool)
    ensures
        res == category::is_ascii_punctuation(cp),
{
    (0x21 <= cp && cp <= 0x2F) || (0x3A <= cp && cp <= 0x40) || (0x5B <= cp && cp <= 0x60) || (0x7B
        <= cp && cp <= 0x7E)
}

/// The code of a BERT class in the byte table and in a packed table.
pub open spec fn bert_class_code(class: BertCharClass) -> u8 {
    match class {
        BertCharClass::Word => BERT_BYTE_WORD,
        BertCharClass::Whitespace => BERT_BYTE_WS,
        BertCharClass::Punct => BERT_BYTE_PUNCT,
    }
}

/// The byte table holds the class of every ASCII code point, and the sentinel
/// for every other byte.
pub proof fn law_byte_class(b: u8)
    ensures
        b < 0x80 ==> BERT_BYTE_CLASS@[b as int] == bert_class_code(bert_char_class(b as u32)),
        b >= 0x80 ==> BERT_BYTE_CLASS@[b as int] == BERT_BYTE_NON_ASCII,
{
}

/// Reads the byte table.
pub fn bert_byte_class(b: u8) -> (code: u8)
    ensures
        code == BERT_BYTE_CLASS@[b as int],
{
    BERT_BYTE_CLASS[b as usize]
}

/// Role of a code point in the BERT normalizer: cleaning drops `Remove` and
/// turns `Whitespace` into a space, accent stripping drops `Mark`.
#[derive(Clone, Copy, Debug, PartialEq, Eq, Structural)]
pub enum BertNormClass {
    Keep,
    Whitespace,
    Remove,
    Mark,
}

/// The control categories of cleaning: Cc, Cf, Co and Cs. Unassigned code
/// points are not among them.
pub open spec fn bert_control(gc: GeneralCategory) -> bool {
    ||| gc == GeneralCategory::Control
    ||| gc == GeneralCategory::Format
    ||| gc == GeneralCategory::PrivateUse
    ||| gc == GeneralCategory::Surrogate
}

/// The BERT normalizer class of a code point of a given category. Of the
/// controls, tab, line feed and carriage return count as white space; U+FFFD is
/// removed by value. A control that is also white space is removed.
pub open spec fn category_norm_class(cp: u32, gc: GeneralCategory) -> BertNormClass {
    if cp < 0x80 {
        if cp == 0x09 || cp == 0x0A || cp == 0x0D || cp == 0x20 {
            BertNormClass::Whitespace
        } else if cp < 0x20 || cp == 0x7F {
            BertNormClass::Remove
        } else {
            BertNormClass::Keep
        }
    } else if listed(BERT_STALE_EXTRA_MARK@, cp) {
        BertNormClass::Mark
    } else if listed(BERT_STALE_NOT_MARK@, cp) {
        BertNormClass::Keep
    } else if gc == GeneralCategory::NonspacingMark {
        BertNormClass::Mark
    } else if cp == 0xFFFD {
        BertNormClass::Remove
    } else if listed(BERT_STALE_NOT_CONTROL@, cp) {
        BertNormClass::Keep
    } else if bert_control(gc) {
        BertNormClass::Remove
    } else if category::is_white_space(cp) {
        BertNormClass::Whitespace
    } else {
        BertNormClass::Keep
    }
}

/// The BERT normalizer class of a code point.
pub open spec fn bert_norm_class(cp: u32) -> BertNormClass {
    category_norm_class(cp, category::general_category(cp))
}

/// Classifies a code point of a given category for the BERT normalizer.
pub fn bert_norm_class_in(cp: u32, gc: GeneralCategory) -> (class: BertNormClass)
    ensures
        class == category_norm_class(cp, gc),
{
    if cp < 0x80 {
        if cp == 0x09 || cp == 0x0A || cp == 0x0D || cp == 0x20 {
            BertNormClass::Whitespace
        } else if cp < 0x20 || cp == 0x7F {
            BertNormClass::Remove
        } else {
            BertNormClass::Keep
        }
    } else if is_listed(&BERT_STALE_EXTRA_MARK, cp) {
        BertNormClass::Mark
    } else {
        let control = matches!(
            gc,
            GeneralCategory::Control
                | GeneralCategory::Format
                | GeneralCategory::PrivateUse
                | GeneralCategory::Surrogate
        );
        let mark = matches!(gc, GeneralCategory::NonspacingMark);
        let space = category::is_white_space_cp(cp);
        if !mark && !control && !space && cp != 0xFFFD {
            BertNormClass::Keep
        } else if is_listed(&BERT_STALE_NOT_MARK, cp) {
            BertNormClass::Keep
        } else if mark {
            BertNormClass::Mark
        } else if cp == 0xFFFD {
            BertNormClass::Remove
        } else if is_listed(&BERT_STALE_NOT_CONTROL, cp) {
            BertNormClass::Keep
        } else if control {
            BertNormClass::Remove
        } else {
            BertNormClass::Whitespace
        }
    }
}

/// Classifies a code point for the BERT normalizer. In the ASCII range the
/// class is also the one its general category gives.
pub fn bert_norm_class_of(cp: u32) -> (class: BertNormClass)
    requires
        cp < category::CODE_POINTS,
    ensures
        class == bert_norm_class(cp),
        cp < 0x80 ==> (class == BertNormClass::Remove <==> bert_control(
            category::general_category(cp),
        ) && cp != 0x09 && cp != 0x0A && cp != 0x0D),
        cp < 0x80 ==> (class == BertNormClass::Whitespace <==> category::is_white_space(cp) && cp
            != 0x0B && cp != 0x0C),
{
    bert_norm_class_in(cp, category::category_of(cp))
}

/// The code of a BERT normalizer class in a packed table.
pub open spec fn bert_norm_class_code(class: BertNormClass) -> u8 {
    match class {
        BertNormClass::Keep => 0,
        BertNormClass::Whitespace => 1,
        BertNormClass::Remove => 2,
        BertNormClass::Mark => 3,
    }
}

/// The CJK ranges that the BERT normalizer pads with spaces: BERT's own list,
/// with its hole from U+2B820 to U+2B91F and without kana.
pub open spec fn bert_cjk(cp: u32) -> bool {
    ||| 0x4E00 <= cp <= 0x9FFF
    ||| 0x3400 <= cp <= 0x4DBF
    ||| 0xF900 <= cp <= 0xFAFF
    ||| 0x20000 <= cp <= 0x2A6DF
    ||| 0x2A700 <= cp <= 0x2B81F
    ||| 0x2B920 <= cp <= 0x2CEAF
    ||| 0x2F800 <= cp <= 0x2FA1F
}

/// Is the code point in one of the CJK ranges that the BERT normalizer pads?
pub fn is_bert_cjk(cp: u32) -> (res: bool)
    ensures
        res == bert_cjk(cp),
{
    (0x4E00 <= cp && cp <= 0x9FFF) || (0x3400 <= cp && cp <= 0x4DBF) || (0xF900 <= cp && cp
        <= 0xFAFF) || (0x20000 <= cp && cp <= 0x2A6DF) || (0x2A700 <= cp && cp <= 0x2B81F) || (
    0x2B920 <= cp && cp <= 0x2CEAF) || (0x2F800 <= cp && cp <= 0x2FA1F)
}

} // verus!
