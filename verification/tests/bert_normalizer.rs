//! The BERT normalizer.

use gigatoken::bpe::bert_normalizer::{BertNormalizer, BertScratch};
use gigatoken::pretokenize::unicode::bert::{bert_norm_class_of, is_bert_cjk, BertNormClass};
use rand::rngs::StdRng;
use rand::seq::IndexedRandom;
use rand::{Rng, SeedableRng};

fn norm(n: &BertNormalizer, s: &str) -> String {
    let mut scratch = BertScratch::default();
    String::from_utf8(n.normalize(s.as_bytes(), &mut scratch).to_vec()).unwrap()
}

/// `bert-base-uncased`: clean_text, handle_chinese_chars,
/// strip_accents=null, lowercase=true.
fn uncased() -> BertNormalizer {
    BertNormalizer::new(true, true, None, true)
}

/// `bert-base-cased` / multilingual-cased: the same with lowercase=false,
/// which makes strip_accents=null resolve to false.
fn cased() -> BertNormalizer {
    BertNormalizer::new(true, true, None, false)
}

/// Every row measured against `tokenizers` 0.22.2 `normalize_str`.
#[test]
fn bert_normalizer_measured_cases() {
    let u = uncased();
    assert_eq!(norm(&u, "Café"), "cafe");
    assert_eq!(norm(&u, "\u{2126}"), "\u{3c9}"); // OHM SIGN → greek omega
    assert_eq!(norm(&u, "\u{130}"), "i"); // İ → NFD I + U+0307 → strip → lower
    assert_eq!(norm(&u, "\u{345}"), ""); // a mark-only string normalizes to empty
    assert_eq!(norm(&u, "中文x"), " 中  文 x");
    assert_eq!(norm(&u, "unaffable"), "unaffable");
    assert_eq!(norm(&u, "ＡＢ"), "ａｂ"); // lowercase is not ASCII-only
    assert_eq!(norm(&u, "ß"), "ß"); // to_lowercase leaves it alone
    assert_eq!(norm(&u, "İstanbul"), "istanbul");

    let c = cased();
    assert_eq!(norm(&c, "Café"), "Café");
    assert_eq!(norm(&c, "\u{2126}"), "\u{2126}"); // no NFD without strip
    assert_eq!(norm(&c, "\u{130}"), "\u{130}");
    assert_eq!(norm(&c, "中文x"), " 中  文 x");

    // strip_accents explicitly on with lowercase off: NFD runs, folding
    // does not. Measured: Ω stays uppercase, İ → I.
    let strip_only = BertNormalizer::new(true, true, Some(true), false);
    assert_eq!(norm(&strip_only, "Café"), "Cafe");
    assert_eq!(norm(&strip_only, "\u{2126}"), "\u{3a9}");
    assert_eq!(norm(&strip_only, "\u{130}"), "I");
    assert_eq!(norm(&strip_only, "\u{345}"), "");

    // lowercase on, strip explicitly off: İ expands to two chars.
    let lower_only = BertNormalizer::new(true, true, Some(false), true);
    assert_eq!(norm(&lower_only, "Café"), "café");
    assert_eq!(norm(&lower_only, "\u{130}"), "i\u{307}");
    assert_eq!(norm(&lower_only, "İstanbul"), "i\u{307}stanbul");
    assert_eq!(norm(&lower_only, "\u{345}"), "\u{345}");
}

/// The `clean_text` table: control wins over whitespace, `Cn` is kept, and
/// U+FFFD is removed even though it is a symbol.
#[test]
fn bert_normalizer_clean_text_table() {
    let n = BertNormalizer::new(true, false, Some(false), false);
    for (cp, want) in [
        (0x09u32, "a b"),
        (0x0A, "a b"),
        (0x0D, "a b"),
        (0x0B, "ab"),
        (0x0C, "ab"),
        (0x1F, "ab"),
        (0x7F, "ab"),
        (0x85, "ab"),
        (0xA0, "a b"),
        (0x2003, "a b"),
        (0x3000, "a b"),
        (0x2028, "a b"),
        (0x2029, "a b"),
        (0x200B, "ab"),
        (0x180E, "ab"),
        (0xE000, "ab"),
        (0xFFFD, "ab"),
        (0x00, "ab"),
        // The trap: U+0378 is unassigned (Cn), which HF's control
        // predicate excludes, so it survives.
        (0x0378, "a\u{378}b"),
        // Stale-UCD deltas: Cf to ICU, unknown to HF, therefore kept.
        (0x0890, "a\u{890}b"),
        (0x13430, "a\u{13430}b"),
    ] {
        let input = format!("a{}b", char::from_u32(cp).unwrap());
        assert_eq!(norm(&n, &input), want, "U+{cp:04X}");
    }
}

/// CJK padding covers the range list, including the measured U+2B820 hole
/// and the exclusion of kana.
#[test]
fn bert_normalizer_cjk_padding() {
    let n = BertNormalizer::new(false, true, Some(false), false);
    for cp in [0x4E00u32, 0x9FFF, 0x3400, 0xF900, 0x20000, 0x2B81F, 0x2B920, 0x2F800] {
        let c = char::from_u32(cp).unwrap();
        assert_eq!(norm(&n, &format!("a{c}b")), format!("a {c} b"), "U+{cp:04X}");
    }
    for cp in [0x2B820u32, 0x3040, 0x30FF, 0x2CEB0] {
        let c = char::from_u32(cp).unwrap();
        assert_eq!(norm(&n, &format!("a{c}b")), format!("a{c}b"), "U+{cp:04X}");
    }
}

/// The printable-ASCII fast path must agree with the general path, and must
/// borrow the input outright when even the lowercase step is a no-op.
#[test]
fn bert_normalizer_ascii_fast_path() {
    let u = uncased();
    let mut scratch = BertScratch::default();
    let seg = b"already lowercase, with punctuation!";
    let got = u.normalize(seg, &mut scratch);
    assert!(got.as_ptr() == seg.as_ptr(), "should borrow");
    assert_eq!(got, seg);

    // Uppercase stays on the fast path (it is a byte map, not a reason to
    // leave) — the regression this test exists for.
    assert_eq!(norm(&u, "Has Uppercase"), "has uppercase");
    assert_eq!(norm(&u, "MIXED Case 123!"), "mixed case 123!");
    // Without `lowercase` the same segment is borrowed unchanged.
    let mixed = b"Has Uppercase";
    let c = cased();
    let mut s2 = BertScratch::default();
    assert!(c.normalize(mixed, &mut s2).as_ptr() == mixed.as_ptr());

    // A control byte leaves the fast path even though the text is ASCII.
    assert_eq!(norm(&u, "a\u{b}b"), "ab");
    // And DEL, which clean_text deletes.
    assert_eq!(norm(&u, "a\u{7f}b"), "ab");
    // Tab is ASCII but not printable: clean_text maps it to a space, so it
    // must take the general path.
    assert_eq!(norm(&u, "a\tB"), "a b");
}

/// A long ASCII run exercises the 16-byte SIMD stride and its scalar tail
/// at every alignment.
#[test]
fn bert_normalizer_ascii_scan_all_lengths() {
    let u = uncased();
    for len in 0..80usize {
        let lower: String = std::iter::repeat_n('a', len).collect();
        assert_eq!(norm(&u, &lower), lower, "len {len}");
        // One uppercase at each position must be found by the scan.
        for pos in 0..len {
            let mut s: Vec<u8> = lower.clone().into_bytes();
            s[pos] = b'Q';
            let want = String::from_utf8(s.clone()).unwrap().to_lowercase();
            assert_eq!(norm(&u, std::str::from_utf8(&s).unwrap()), want, "len {len} pos {pos}");
        }
    }
}

#[test]
fn bert_normalizer_noop_and_invalid_utf8() {
    let n = BertNormalizer::new(false, false, Some(false), false);
    assert!(n.is_noop());
    assert_eq!(norm(&n, "Anything Ünchanged"), "Anything Ünchanged");

    // Invalid UTF-8 passes through rather than panicking.
    let u = uncased();
    let mut scratch = BertScratch::default();
    let garbage: &[u8] = b"\xff\xfe\x80A";
    assert_eq!(u.normalize(garbage, &mut scratch), garbage);
}

/// The run-based `normalize` must agree with the
/// straightforward four-pass reference on random text, for every flag
/// combination. This is what licenses the bulk ASCII copy and the early
/// return that skips NFD — both are arguments about where ASCII runs can be
/// treated as opaque, and arguments are what this test replaces.
#[test]
fn bert_normalizer_matches_reference_random() {
    let pools: &[&[char]] = &[
        // Weighted toward ASCII, like real text, so the bulk path dominates
        // and the boundaries between runs are where the cases land.
        &['a', 'e', 'i', 'z', ' ', 'T', 'Q', '.', ',', '!', '-', '0', '9', '\'', '"'],
        &['\n', '\t', '\r', '\u{b}', '\u{c}', '\u{85}', '\u{7f}', '\u{0}', '\u{1f}'],
        &['é', 'ï', 'Ω', 'İ', 'ß', 'ﬁ', 'Ǆ', 'ǅ', 'ﬀ'],
        &['\u{301}', '\u{345}', '\u{5bf}', '\u{93b}', '\u{111c9}', '\u{7fd}', '\u{1734}'],
        &['中', '文', '\u{3400}', '\u{2b820}', '\u{f900}', 'テ', 'ス'],
        &['\u{a0}', '\u{2003}', '\u{2028}', '\u{3000}', '\u{200b}', '\u{feff}', '\u{378}'],
        &['\u{fffd}', '\u{e000}', '\u{2260}', '\u{20ac}', '\u{166d}'],
    ];
    let mut rng = StdRng::seed_from_u64(0xB3E7_0000);
    let mut scratch = BertScratch::default();
    for (lower, strip) in [
        (true, None),
        (false, None),
        (true, Some(true)),
        (true, Some(false)),
        (false, Some(true)),
        (false, Some(false)),
    ] {
        for clean in [true, false] {
            for cjk in [true, false] {
                let n = BertNormalizer::new(clean, cjk, strip, lower);
                for round in 0..400 {
                    // Long enough to cross the 16-byte SIMD stride several
                    // times, with runs of ASCII between the odd characters.
                    let len = rng.random_range(1..90);
                    let s: String = (0..len)
                        .map(|_| {
                            // 70% plain ASCII: produces multi-byte runs.
                            let pool = if rng.random_bool(0.7) {
                                pools[0]
                            } else {
                                *pools.choose(&mut rng).unwrap()
                            };
                            *pool.choose(&mut rng).unwrap()
                        })
                        .collect();
                    let got = n.normalize(s.as_bytes(), &mut scratch).to_vec();
                    let want = normalize_reference(
                        s.as_bytes(),
                        clean,
                        cjk,
                        strip.unwrap_or(lower),
                        lower,
                    );
                    assert_eq!(
                        String::from_utf8_lossy(&got),
                        String::from_utf8_lossy(&want),
                        "round {round}, clean={clean} cjk={cjk} lower={lower} strip={strip:?}, input {s:?}"
                    );
                }
            }
        }
    }
}

/// Scratch reuse across calls must not leak state between segments.
#[test]
fn bert_normalizer_scratch_reuse() {
    let u = uncased();
    let mut scratch = BertScratch::default();
    for _ in 0..3 {
        let a = u.normalize("Café".as_bytes(), &mut scratch).to_vec();
        assert_eq!(a, b"cafe");
        let b = u.normalize("中文".as_bytes(), &mut scratch).to_vec();
        assert_eq!(String::from_utf8(b).unwrap(), " 中  文 ");
    }
}

/// What `normalize` computes, one pass per step.
fn normalize_reference(
    seg: &[u8],
    clean_text: bool,
    handle_chinese_chars: bool,
    strip_accents: bool,
    lowercase: bool,
) -> Vec<u8> {
    if !clean_text && !handle_chinese_chars && !strip_accents && !lowercase {
        return seg.to_vec();
    }
    let Ok(s) = std::str::from_utf8(seg) else {
        return seg.to_vec();
    };
    let mut out = String::new();
    if clean_text {
        for c in s.chars() {
            match bert_norm_class_of(c as u32) {
                BertNormClass::Remove => {}
                BertNormClass::Whitespace => out.push(' '),
                _ => out.push(c),
            }
        }
    } else {
        out.push_str(s);
    }
    if handle_chinese_chars {
        let mut padded = String::new();
        for c in out.chars() {
            if is_bert_cjk(c as u32) {
                padded.push(' ');
                padded.push(c);
                padded.push(' ');
            } else {
                padded.push(c);
            }
        }
        out = padded;
    }
    if strip_accents {
        let mut nfd = String::new();
        icu::normalizer::DecomposingNormalizer::new_nfd()
            .normalize_to(&out, &mut nfd)
            .expect("writing to a String cannot fail");
        out = nfd
            .chars()
            .filter(|c| bert_norm_class_of(*c as u32) != BertNormClass::Mark)
            .collect();
    }
    if lowercase {
        out = out.chars().flat_map(char::to_lowercase).collect();
    }
    out.into_bytes()
}

#[test]
fn passes_clean_and_fold_on_their_own() {
    let n = uncased();
    let mut out = vec![b'x'];
    n.clean_pass("a\u{0}\tB\u{4e2d}c".as_bytes(), &mut out);
    assert_eq!(out, "a B \u{4e2d} c".as_bytes());
    n.fold_pass("A\u{300}B\u{301}ÀC".as_bytes(), &mut out);
    assert_eq!(out, "abàc".as_bytes(), "marks that stand alone go");
}

/// Cleaned text holds nothing that cleaning removes, and ideographs stand
/// between spaces.
#[test]
fn cleaned_text_is_clean_and_padded() {
    let n = cased();
    let out = norm(&n, "a\u{0}\u{a0}b\u{200e}\t\u{4e2d}\u{6587}\u{fffd}c\u{3000}\u{20000}");
    assert_eq!(out, "a b  \u{4e2d}  \u{6587} c  \u{20000} ");
    let chars: Vec<char> = out.chars().collect();
    for (i, &c) in chars.iter().enumerate() {
        let class = bert_norm_class_of(c as u32);
        assert!(class != BertNormClass::Remove);
        assert!(class != BertNormClass::Whitespace || c == ' ');
        if is_bert_cjk(c as u32) {
            assert_eq!((chars[i - 1], chars[i + 1]), (' ', ' '));
        }
    }
}
