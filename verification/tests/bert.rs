//! The BERT pretokenizer.

use gigatoken::pretokenize::fast::bert::FastBertPretokenizer;
use gigatoken::pretokenize::unicode::bert::{bert_class_of, BertCharClass};
use gigatoken::pretokenize::walker::{SpanBatch, PRETOKEN_CHUNK};
use rand::rngs::StdRng;
use rand::seq::IndexedRandom;
use rand::{Rng, SeedableRng};

/// The pretokens that are left.
fn rest(mut walk: FastBertPretokenizer) -> Vec<String> {
    let mut out = Vec::new();
    while let Some(t) = walk.next() {
        out.push(String::from_utf8_lossy(t.0).into_owned());
    }
    out
}

/// The split, character by character.
fn reference_tokens(s: &str) -> Vec<String> {
    let mut out: Vec<String> = Vec::new();
    let mut cur = String::new();
    for c in s.chars() {
        match bert_class_of(c as u32) {
            BertCharClass::Whitespace => {
                if !cur.is_empty() {
                    out.push(std::mem::take(&mut cur));
                }
            }
            BertCharClass::Punct => {
                if !cur.is_empty() {
                    out.push(std::mem::take(&mut cur));
                }
                out.push(c.to_string());
            }
            BertCharClass::Word => cur.push(c),
        }
    }
    if !cur.is_empty() {
        out.push(cur);
    }
    out
}

fn fast_tokens(s: &str) -> Vec<String> {
    rest(FastBertPretokenizer::new(s.as_bytes()))
}

/// Measured against `tokenizers` 0.22.2 (`BertPreTokenizer`), not reasoned
/// about. Asserted against both the walker and the reference, so the
/// reference the random test leans on is itself pinned.
const GROUND_TRUTH: &[(&str, &[&str])] = &[
    ("hello world", &["hello", "world"]),
    ("hi!", &["hi", "!"]),
    ("don't", &["don", "'", "t"]),
    ("a  b", &["a", "b"]),
    ("  lead", &["lead"]),
    ("trail  ", &["trail"]),
    ("   ", &[]),
    ("", &[]),
    ("unaffable", &["unaffable"]),
    // Non-ASCII symbols are word chars to HF, so they fuse with letters.
    ("2×3", &["2×3"]),
    ("a€b", &["a€b"]),
    ("x≠y", &["x≠y"]),
    // Non-ASCII \p{P} is punctuation and isolates.
    ("¡hola!", &["¡", "hola", "!"]),
    ("«x»", &["«", "x", "»"]),
    ("a–b", &["a", "–", "b"]),
    ("中、文", &["中", "、", "文"]),
    // NBSP and U+2003 are whitespace; ZWSP is not (it is Cf, a word char
    // here — clean_text removes it earlier in the real pipeline).
    ("a\u{a0}b", &["a", "b"]),
    ("a\u{2003}b", &["a", "b"]),
    ("a\u{200b}b", &["a\u{200b}b"]),
    // U+001F is a control but NOT White_Space, so it joins the word run.
    ("a\u{1f}b", &["a\u{1f}b"]),
    // Combining marks are word chars.
    ("e\u{301}f", &["e\u{301}f"]),
    // The staleness deltas, in situ.
    ("a\u{9fd}b", &["a\u{9fd}b"]),
    ("a\u{166d}b", &["a", "\u{166d}", "b"]),
    ("a\u{111c9}b", &["a", "\u{111c9}", "b"]),
    // Runs of punctuation isolate one char at a time.
    ("a...b", &["a", ".", ".", ".", "b"]),
    ("!!!", &["!", "!", "!"]),
    // CJK is not special to the pretokenizer (the normalizer's
    // handle_chinese_chars is what separates it, by inserting spaces).
    ("中文x", &["中文x"]),
    (" 中  文 x", &["中", "文", "x"]),
];

#[test]
fn bert_matches_ground_truth() {
    for (input, want) in GROUND_TRUTH {
        assert_eq!(reference_tokens(input), *want, "reference disagrees on {input:?}");
        assert_eq!(fast_tokens(input), *want, "walker disagrees on {input:?}");
    }
}

/// Random codepoint soup over the classes that matter, including the
/// categories HF's punctuation predicate treats surprisingly (S, M, Cf)
/// and multi-byte lengths 1–4.
#[test]
fn bert_matches_reference_random() {
    let pools: &[&[char]] = &[
        &['a', 'z', 'A', 'Z', 'é', 'ß', 'ж', 'ا', '한', '日', '𐐀'], // letters, 1–4 bytes
        &['0', '9', '٢', '½', 'Ⅷ', '๕', '１'],                      // numbers
        &[' ', '\t', '\n', '\r', '\u{b}', '\u{c}', '\u{85}', '\u{a0}', '\u{2028}', '\u{2003}', '\u{3000}'], // White_Space
        &['\u{301}', '\u{5bf}', '\u{93b}', '\u{20dd}', '\u{111c9}'], // marks (one is HF-punct)
        &['.', ',', '!', '$', '\'', '+', '<', '`', '~', '¡', '«', '»', '–', '、', '·'], // punct
        &['×', '÷', '€', '≠', '☃', '¦', '´', 'ˈ', '\u{166d}'],       // symbols (one is HF-punct)
        &['\u{0}', '\u{7}', '\u{1f}', '\u{7f}', '\u{ad}', '\u{200b}', '\u{feff}', '\u{378}', '\u{e000}'], // C*
        &['中', '文', '\u{3400}', '\u{2b820}', '\u{f900}'],          // CJK incl. the range hole
        &['\u{9fd}', '\u{c77}', '\u{2e4f}', '\u{11660}'],            // stale-not-punct deltas
    ];
    let mut rng = StdRng::seed_from_u64(0xBE27_C1A5);
    for round in 0..4000 {
        let len = rng.random_range(1..40);
        let s: String = (0..len)
            .map(|_| {
                let pool = pools.choose(&mut rng).unwrap();
                *pool.choose(&mut rng).unwrap()
            })
            .collect();
        assert_eq!(
            fast_tokens(&s),
            reference_tokens(&s),
            "Mismatch on round {round}, case {s:?}"
        );
    }
}

/// Invalid UTF-8 must not panic or produce an out-of-bounds span. UTF-8 is
/// trusted by contract, but a walker still has to stay *safe* on garbage:
/// truncated sequences at the buffer end are the classic way an unchecked
/// decode walks off the slice.
#[test]
fn bert_safe_on_invalid_utf8() {
    let mut rng = StdRng::seed_from_u64(0x1BAD_5EED);
    for _ in 0..2000 {
        let len = rng.random_range(1..48);
        let bytes: Vec<u8> = (0..len).map(|_| rng.random::<u8>()).collect();
        let mut last_end = 0usize;
        let mut walk = FastBertPretokenizer::new(&bytes);
        while let Some(span) = walk.next() {
            let end = walk.pos();
            let start = end - span.0.len();
            assert!(!span.0.is_empty(), "empty span on {bytes:?}");
            assert!(end <= bytes.len(), "span past end on {bytes:?}");
            assert!(start >= last_end, "spans went backwards on {bytes:?}");
            last_end = end;
        }
    }
}

/// `with_pos` must resume exactly where iteration left off, which is what
/// the chunked batch path relies on.
#[test]
fn bert_with_pos_resumes() {
    let s = "Hello, wörld! 中文 x";
    let all = fast_tokens(s);
    let mut it = FastBertPretokenizer::new(s.as_bytes());
    let first = it.next().unwrap();
    let resumed = rest(FastBertPretokenizer::with_pos(s.as_bytes(), it.pos()));
    assert_eq!(String::from_utf8_lossy(first.0), all[0]);
    assert_eq!(resumed, all[1..]);
}

/// The chunked source gives what the iterator gives, over several fills.
#[test]
fn bert_fill_matches_iterator() {
    let s = "Hello, wörld! 中文 x. ".repeat(PRETOKEN_CHUNK / 4);
    let want = fast_tokens(&s);
    assert!(want.len() > PRETOKEN_CHUNK);
    let mut src = FastBertPretokenizer::new(s.as_bytes());
    let mut batch = SpanBatch::new();
    let mut got: Vec<String> = Vec::new();
    loop {
        let n = src.fill_spans(&mut batch);
        for i in 0..n {
            got.push(String::from_utf8_lossy(batch.span(i)).into_owned());
        }
        if n < PRETOKEN_CHUNK {
            break;
        }
    }
    assert_eq!(got, want);
}
