//! Character classes.

use gigatoken::pretokenize::unicode::bert::{
    bert_class_in, bert_class_of, bert_norm_class_in, bert_norm_class_of, is_bert_cjk, BertCharClass, BertNormClass, BERT_BYTE_CLASS,
    BERT_BYTE_NON_ASCII, BERT_BYTE_PUNCT, BERT_BYTE_WORD, BERT_BYTE_WS, BERT_STALE_EXTRA_MARK,
    BERT_STALE_EXTRA_PUNCT, BERT_STALE_NOT_CONTROL, BERT_STALE_NOT_MARK, BERT_STALE_NOT_PUNCT,
};
use gigatoken::pretokenize::unicode::category::{
    category_of, get_general_category, is_gc_letter, is_gc_mark, is_gc_number, is_gc_punctuation, is_gc_symbol,
    is_han_cp, is_letter, is_number, is_other_complete, is_white_space_cp, is_whitespace,
    GeneralCategory,
};
use gigatoken::pretokenize::unicode::classes::{
    class_in, class_of, class_of_marks_join, ds_class_in, ds_class_of, is_deepseek_cjk, kimi_class_of,
    o200k_class_in, o200k_class_of,
    CharClass, DsCharClass, O200kCharClass,
};
use gigatoken::pretokenize::unicode::tables::{
    BertClassTable, BertNormTable, ClassTable, DsClassTable, KimiClassTable, O200kClassTable,
};
use icu::properties::props::Script;
use icu::properties::CodePointMapData;

/// The packed table must agree with the ICU predicates for every scalar.
#[test]
fn class_table_matches_icu() {
    let table = ClassTable::get();
    for cp in 0..=char::MAX as u32 {
        let Some(c) = char::from_u32(cp) else { continue };
        let expected = if is_letter(c) {
            CharClass::Letter
        } else if is_number(c) {
            CharClass::Number
        } else if is_whitespace(c) {
            CharClass::Whitespace
        } else {
            CharClass::Other
        };
        assert_eq!(class_of(cp), expected, "mismatch at U+{cp:04X}");
        assert_eq!(table.class_of(cp), expected, "mismatch at U+{cp:04X}");
    }
}

/// The o200k table must agree with ICU for every scalar.
#[test]
fn o200k_class_table_matches_icu() {
    let table = O200kClassTable::get();
    for cp in 0..=char::MAX as u32 {
        let Some(c) = char::from_u32(cp) else { continue };
        let gc = get_general_category(c);
        let expected = if matches!(
            gc,
            GeneralCategory::UppercaseLetter | GeneralCategory::TitlecaseLetter
        ) {
            O200kCharClass::Upper
        } else if gc == GeneralCategory::LowercaseLetter {
            O200kCharClass::Lower
        } else if is_gc_letter(gc) {
            O200kCharClass::Caseless
        } else if is_gc_mark(gc) {
            O200kCharClass::Mark
        } else if is_gc_number(gc) {
            O200kCharClass::Number
        } else if is_whitespace(c) {
            O200kCharClass::Whitespace
        } else {
            O200kCharClass::Other
        };
        assert_eq!(o200k_class_of(cp), expected, "mismatch at U+{cp:04X}");
        assert_eq!(table.class_of(cp), expected, "mismatch at U+{cp:04X}");
    }
}

/// The Kimi table must refine the o200k table: identical off `\p{Han}`,
/// and on it a Han variant whose base is the o200k class.
#[test]
fn kimi_class_table_refines_o200k() {
    let table = KimiClassTable::get();
    let script = CodePointMapData::<Script>::new();
    for cp in 0..=char::MAX as u32 {
        let Some(c) = char::from_u32(cp) else { continue };
        let k = kimi_class_of(cp);
        assert_eq!(table.class_of(cp), k, "mismatch at U+{cp:04X}");
        // Han marks base as Other (evicted from the letter brackets, so
        // only their punct-run role remains); all else keeps its class.
        let expected_base = match o200k_class_of(cp) {
            O200kCharClass::Mark if k.is_han() => O200kCharClass::Other,
            c => c,
        };
        assert_eq!(k.base(), expected_base, "base mismatch at U+{cp:04X}");
        assert_eq!(
            k.is_han(),
            script.get(c) == Script::Han,
            "Han mismatch at U+{cp:04X}"
        );
    }
}

/// The DeepSeek table must agree with ICU for every scalar, and refine
/// `class_of` (identical on Letter/Number/Whitespace).
#[test]
fn ds_class_table_matches_icu() {
    let table = DsClassTable::get();
    for cp in 0..=char::MAX as u32 {
        let Some(c) = char::from_u32(cp) else { continue };
        let gc = get_general_category(c);
        let expected = if is_gc_letter(gc) {
            DsCharClass::Letter
        } else if is_gc_number(gc) {
            DsCharClass::Number
        } else if is_whitespace(c) {
            DsCharClass::Whitespace
        } else if is_gc_mark(gc) {
            DsCharClass::Mark
        } else if is_gc_punctuation(gc)
            || is_gc_symbol(gc)
        {
            DsCharClass::PunctSym
        } else {
            DsCharClass::Other
        };
        assert_eq!(ds_class_of(cp), expected, "mismatch at U+{cp:04X}");
        assert_eq!(table.ds_class_of(cp), expected, "mismatch at U+{cp:04X}");
    }
}

/// The BERT class table must be ICU's `\p{P}` ∪ ASCII punctuation ∪
/// White_Space, adjusted by exactly the two measured staleness deltas —
/// nothing else may differ.
#[test]
fn bert_class_table_matches_icu_plus_deltas() {
    let table = BertClassTable::get();
    for cp in 0..=char::MAX as u32 {
        let Some(c) = char::from_u32(cp) else { continue };
        let gc = get_general_category(c);
        let icu_punct = is_gc_punctuation(gc)
            || (c.is_ascii() && (c as u8).is_ascii_punctuation());
        let punct = if BERT_STALE_NOT_PUNCT.contains(&cp) {
            false
        } else if BERT_STALE_EXTRA_PUNCT.contains(&cp) {
            true
        } else {
            icu_punct
        };
        let expected = if is_whitespace(c) {
            BertCharClass::Whitespace
        } else if punct {
            BertCharClass::Punct
        } else {
            BertCharClass::Word
        };
        assert_eq!(bert_class_of(cp), expected, "mismatch at U+{cp:04X}");
        assert_eq!(table.class_of(cp), expected, "mismatch at U+{cp:04X}");
    }
}

/// The normalizer table must be the documented ICU fills adjusted by
/// exactly the two measured staleness deltas — nothing else may differ.
#[test]
fn bert_norm_table_matches_icu_plus_deltas() {
    let table = BertNormTable::get();
    for cp in 0..=char::MAX as u32 {
        let Some(c) = char::from_u32(cp) else { continue };
        let gc = get_general_category(c);
        let control = matches!(
            gc,
            GeneralCategory::Control
                | GeneralCategory::Format
                | GeneralCategory::PrivateUse
                | GeneralCategory::Surrogate
        ) && !BERT_STALE_NOT_CONTROL.contains(&cp);
        let mark = if BERT_STALE_NOT_MARK.contains(&cp) {
            false
        } else if BERT_STALE_EXTRA_MARK.contains(&cp) {
            true
        } else {
            gc == GeneralCategory::NonspacingMark
        };
        // Precedence, in HF's own order: `\t\n\r` are whitespace; NUL and
        // U+FFFD are removed by value; control beats White_Space; then
        // White_Space; then marks.
        let expected = if matches!(cp, 0x09 | 0x0A | 0x0D) {
            BertNormClass::Whitespace
        } else if matches!(cp, 0x00 | 0xFFFD) {
            BertNormClass::Remove
        } else if control {
            BertNormClass::Remove
        } else if is_whitespace(c) {
            BertNormClass::Whitespace
        } else if mark {
            BertNormClass::Mark
        } else {
            BertNormClass::Keep
        };
        assert_eq!(bert_norm_class_of(cp), expected, "mismatch at U+{cp:04X}");
        assert_eq!(table.class_of(cp), expected, "mismatch at U+{cp:04X}");
    }
}

/// Class populations, measured by sweeping every scalar through
/// `tokenizers` 0.22.2 (`BertPreTokenizer::pre_tokenize_str("a" + c + "a")`
/// and `BertNormalizer::normalize_str("a" + c + "b")`).
///
/// These are the guard rail on the staleness deltas: bumping `icu` to a
/// newer UCD shifts a count, which is the signal to re-measure the delta
/// lists against HF rather than to edit the expected number. Surrogates are
/// excluded because they cannot appear in a `str`, so HF never sees them.
#[test]
fn bert_class_populations_match_measured_hf() {
    let mut punct = 0usize;
    let mut ws = 0usize;
    let mut removed = 0usize;
    let mut to_space = 0usize;
    let mut marks = 0usize;
    for cp in 0..=char::MAX as u32 {
        if char::from_u32(cp).is_none() {
            continue;
        }
        match bert_class_of(cp) {
            BertCharClass::Punct => punct += 1,
            BertCharClass::Whitespace => ws += 1,
            BertCharClass::Word => {}
        }
        match bert_norm_class_of(cp) {
            BertNormClass::Remove => removed += 1,
            BertNormClass::Whitespace => to_space += 1,
            BertNormClass::Mark => marks += 1,
            BertNormClass::Keep => {}
        }
    }
    assert_eq!(punct, 726, "punctuation population drifted from HF's");
    assert_eq!(ws, 25, "White_Space population drifted from HF's");
    assert_eq!(removed, 137681, "clean_text removal set drifted from HF's");
    assert_eq!(to_space, 25 - 3, "whitespace-to-space set drifted (\\v\\f are removed)");
    // ICU calls 2059 codepoints Mn; HF strips 1567 of them.
    assert_eq!(marks, 1567, "strip_accents mark set drifted from HF's");
}

/// Individually measured codepoints whose classification is
/// counter-intuitive. Every expectation here came out of the oracle sweep.
#[test]
fn bert_class_pins() {
    // Unassigned (Cn) is NOT a control for HF — the trap ICU's
    // `GeneralCategoryGroup::Other` would walk straight into.
    assert_eq!(bert_norm_class_of(0x0378), BertNormClass::Keep);
    // Both whitespace and control: control wins, so these are removed
    // rather than turned into a space.
    for cp in [0x0085u32, 0x000B, 0x000C] {
        assert_eq!(bert_norm_class_of(cp), BertNormClass::Remove, "U+{cp:04X}");
        // ... yet the *pretokenizer* still treats them as whitespace.
        assert_eq!(bert_class_of(cp), BertCharClass::Whitespace, "U+{cp:04X}");
    }
    // Controls outside White_Space: removed by the normalizer, and word
    // chars to the pretokenizer (Rust's `is_whitespace` excludes 1C–1F).
    for cp in [0x001Fu32, 0x007F, 0x200B, 0x180E, 0xE000] {
        assert_eq!(bert_norm_class_of(cp), BertNormClass::Remove, "U+{cp:04X}");
        assert_eq!(bert_class_of(cp), BertCharClass::Word, "U+{cp:04X}");
    }
    // Removed by value, not by category (U+FFFD is So).
    assert_eq!(bert_norm_class_of(0xFFFD), BertNormClass::Remove);
    assert_eq!(bert_norm_class_of(0x0000), BertNormClass::Remove);
    // Separators become a space.
    for cp in [0x00A0u32, 0x2003, 0x3000, 0x2028, 0x2029] {
        assert_eq!(bert_norm_class_of(cp), BertNormClass::Whitespace, "U+{cp:04X}");
        assert_eq!(bert_class_of(cp), BertCharClass::Whitespace, "U+{cp:04X}");
    }
    // Non-ASCII symbols are NOT punctuation to HF, so they join word runs.
    for cp in [0x00D7u32, 0x00F7, 0x20AC, 0x2260, 0x2603, 0x00A6, 0x00B4, 0x02C8] {
        assert_eq!(bert_class_of(cp), BertCharClass::Word, "U+{cp:04X}");
    }
    // ... while non-ASCII `\p{P}` is.
    for cp in [0x00A1u32, 0x00AB, 0x2013, 0x2019, 0x3001, 0x00B7] {
        assert_eq!(bert_class_of(cp), BertCharClass::Punct, "U+{cp:04X}");
    }
    // Combining marks: word chars for the split, dropped by strip_accents.
    for cp in [0x0301u32, 0x0FBC, 0x0345] {
        assert_eq!(bert_class_of(cp), BertCharClass::Word, "U+{cp:04X}");
        assert_eq!(bert_norm_class_of(cp), BertNormClass::Mark, "U+{cp:04X}");
    }
    // ... but not every Mn is one to HF. U+111C9 is the sharpest case: `Mn`
    // to ICU and `Po` to HF, so it must be *punctuation* to the splitter and
    // *kept* by strip_accents. Treating it as a mark deleted it silently,
    // which is how this delta was found (a full-codepoint ID sweep against
    // `tokenizers`, not reasoning).
    assert_eq!(bert_class_of(0x111C9), BertCharClass::Punct);
    assert_eq!(bert_norm_class_of(0x111C9), BertNormClass::Keep);
    for cp in [0x07FDu32, 0x1AC0, 0x11F00, 0x1E944] {
        assert_eq!(bert_norm_class_of(cp), BertNormClass::Keep, "U+{cp:04X} is Mn to ICU only");
    }
    // The two that go the other way: Mc to ICU, stripped by HF anyway.
    for cp in [0x1734u32, 0x1171E] {
        assert_eq!(bert_norm_class_of(cp), BertNormClass::Mark, "U+{cp:04X}");
    }
    // The staleness deltas themselves.
    assert_eq!(bert_class_of(0x09FD), BertCharClass::Word, "Bengali abbreviation sign is Po but pre-dates HF's UCD");
    assert_eq!(bert_class_of(0x2E4F), BertCharClass::Word);
    assert_eq!(bert_class_of(0x166D), BertCharClass::Punct, "So, yet punctuation to HF");
    assert_eq!(bert_class_of(0x111C9), BertCharClass::Punct, "Mn, yet punctuation to HF");
    assert_eq!(bert_norm_class_of(0x0890), BertNormClass::Keep, "Cf, yet kept by HF");
    assert_eq!(bert_norm_class_of(0x13430), BertNormClass::Keep);
}

/// The compile-time byte table must agree with the ICU-built one over
/// ASCII, and flag everything else as needing a UTF-8 decode.
#[test]
fn bert_byte_table_matches_packed() {
    for b in 0u32..128 {
        let expected = match bert_class_of(b) {
            BertCharClass::Word => BERT_BYTE_WORD,
            BertCharClass::Whitespace => BERT_BYTE_WS,
            BertCharClass::Punct => BERT_BYTE_PUNCT,
        };
        assert_eq!(BERT_BYTE_CLASS[b as usize], expected, "U+{b:04X}");
    }
    for b in 128usize..256 {
        assert_eq!(BERT_BYTE_CLASS[b], BERT_BYTE_NON_ASCII, "0x{b:02X}");
    }
}

/// `handle_chinese_chars`'s ranges, including the measured U+2B820–2B91F
/// hole and the absence of kana.
#[test]
fn bert_cjk_ranges() {
    for cp in [0x4E00u32, 0x9FFF, 0x3400, 0x4DBF, 0xF900, 0xFAFF, 0x20000, 0x2A6DF, 0x2A700, 0x2B73F, 0x2B740, 0x2B81F, 0x2B920, 0x2CEAF, 0x2F800, 0x2FA1F] {
        assert!(is_bert_cjk(cp), "U+{cp:04X} should be CJK");
    }
    for cp in [0x33FFu32, 0x4DC0, 0xA000, 0xF8FF, 0xFB00, 0x1FFFF, 0x2A6E0, 0x2B820, 0x2B91F, 0x2CEB0, 0x2F7FF, 0x2FA20, 0x3040, 0x30FF] {
        assert!(!is_bert_cjk(cp), "U+{cp:04X} should not be CJK");
    }
    // Kana is CJK to DeepSeek but not to BERT — the reason the two
    // predicates cannot share an implementation.
    assert!(is_deepseek_cjk(0x3040) && !is_bert_cjk(0x3040));
    // U+9FA5 is the top of DeepSeek's range; BERT continues to U+9FFF.
    assert!(is_bert_cjk(0x9FB0) && !is_deepseek_cjk(0x9FB0));
}

/// Marks join letter runs and are nothing else.
#[test]
fn marks_join_letters() {
    let table = DsClassTable::get();
    for cp in 0..=char::MAX as u32 {
        let Some(c) = char::from_u32(cp) else { continue };
        let expected = if is_gc_mark(get_general_category(c)) {
            CharClass::Letter
        } else {
            class_of(cp)
        };
        assert_eq!(class_of_marks_join(cp), expected, "mismatch at U+{cp:04X}");
        assert_eq!(table.class_of_marks_join(cp), expected, "mismatch at U+{cp:04X}");
    }
}

#[test]
fn other_characters_are_none_of_the_rest() {
    for (c, other) in [
        ('!', true),
        ('a', false),
        ('1', false),
        (' ', false),
        ('\n', false),
        ('\u{b}', true),
        ('é', false),
        ('\u{a0}', false),
        ('\u{301}', true),
        ('€', true),
    ] {
        assert_eq!(is_other_complete(c), other, "{c:?}");
    }
}

#[test]
fn categories_decide_classes() {
    assert_eq!(class_in(GeneralCategory::OtherLetter, false), CharClass::Letter);
    assert_eq!(class_in(GeneralCategory::LetterNumber, false), CharClass::Number);
    assert_eq!(class_in(GeneralCategory::NonspacingMark, false), CharClass::Other);
    assert_eq!(class_in(GeneralCategory::Control, true), CharClass::Whitespace);
    assert_eq!(ds_class_in(GeneralCategory::EnclosingMark, false), DsCharClass::Mark);
    assert_eq!(ds_class_in(GeneralCategory::ModifierSymbol, false), DsCharClass::PunctSym);
    assert_eq!(ds_class_in(GeneralCategory::Control, false), DsCharClass::Other);
    assert_eq!(o200k_class_in(GeneralCategory::TitlecaseLetter, false), O200kCharClass::Upper);
    assert_eq!(o200k_class_in(GeneralCategory::ModifierLetter, false), O200kCharClass::Caseless);
    assert_eq!(bert_class_in('$' as u32, GeneralCategory::CurrencySymbol), BertCharClass::Punct);
    assert_eq!(bert_class_in('€' as u32, GeneralCategory::CurrencySymbol), BertCharClass::Word);
    assert_eq!(bert_norm_class_in(0x0B, GeneralCategory::Control), BertNormClass::Remove);
    assert_eq!(bert_norm_class_in(0x3000, GeneralCategory::SpaceSeparator), BertNormClass::Whitespace);
}

/// What ill-formed bytes are read as belongs to no run of letters or numbers.
#[test]
fn the_replacement_character_is_other() {
    assert_eq!(category_of(0xFFFD), GeneralCategory::OtherSymbol);
    assert_eq!(class_of(0xFFFD), CharClass::Other);
    assert_eq!(o200k_class_of(0xFFFD), O200kCharClass::Other);
}

/// The Han script holds no white space and no letters with case.
#[test]
fn han_has_no_case_and_no_white_space() {
    for cp in 0..0x110000u32 {
        if !is_han_cp(cp) {
            continue;
        }
        assert!(cp >= 0x2E80 && !is_white_space_cp(cp), "{cp:x}");
        assert!(
            !matches!(
                category_of(cp),
                GeneralCategory::UppercaseLetter
                    | GeneralCategory::LowercaseLetter
                    | GeneralCategory::TitlecaseLetter
            ),
            "{cp:x}"
        );
    }
}
