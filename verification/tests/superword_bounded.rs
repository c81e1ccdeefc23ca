//! The bounded superword pretokenizer.

use gigatoken::pretokenize::fast::superword_bounded::FastSuperwordBoundedPretokenizer;
use gigatoken::pretokenize::walker::{SpanBatch, PRETOKEN_CHUNK};
use rand::rngs::StdRng;
use rand::seq::IndexedRandom;
use rand::{Rng, SeedableRng};

/// The `Split` expression.
const SUPERWORD_BOUNDED_REF_REGEX: &str = r"\p{N}{1,3}| ?[^\s\p{L}\p{N}]{2,}[\r\n/]*| +(?!\S)";

fn compiled() -> fancy_regex::Regex {
    fancy_regex::Regex::new(SUPERWORD_BOUNDED_REF_REGEX).unwrap()
}

/// Pieces the reference regex produces under HF `Isolated` behavior.
fn regex_tokens(re: &fancy_regex::Regex, s: &str) -> Vec<String> {
    let mut out = Vec::new();
    let mut end = 0;
    for found in re.find_iter(s) {
        let m = found.unwrap();
        if m.start() > end {
            out.push(s[end..m.start()].to_owned());
        }
        out.push(m.as_str().to_owned());
        end = m.end();
    }
    if end < s.len() {
        out.push(s[end..].to_owned());
    }
    out
}

fn fast_tokens(s: &str) -> Vec<String> {
    let mut walk = FastSuperwordBoundedPretokenizer::new(s.as_bytes());
    let mut out = Vec::new();
    while let Some(t) = walk.next() {
        out.push(String::from_utf8_lossy(t.0).into_owned());
    }
    out
}

/// Measured against `tokenizers` 0.22.2.
/// Asserted against *both* the walker and the fancy-regex oracle, so the
/// oracle the random test relies on is itself pinned.
const GROUND_TRUTH: &[(&str, &[&str])] = &[
    ("hi! there", &["hi! there"]),
    ("The quick brown fox", &["The quick brown fox"]),
    ("camelCase McDonald", &["camelCase McDonald"]),
    ("a   b", &["a", "  ", " b"]),
    ("  !!", &[" ", " !!"]),
    ("ab!!cd", &["ab", "!!", "cd"]),
    ("12345", &["123", "45"]),
    ("१२३४", &["१२३", "४"]),
    ("x!'s", &["x", "!'", "s"]),
    ("a\u{301}\u{301}b", &["a", "\u{301}\u{301}", "b"]),
    ("é\u{301}", &["é\u{301}"]),
    ("a \t b", &["a", " ", "\t b"]),
    ("!!//x", &["!!//", "x"]),
    (" ...\n\n/x", &[" ...\n\n/", "x"]),
    ("end.  ", &["end.", "  "]),
];

#[test]
fn superword_bounded_matches_ground_truth() {
    let re = compiled();
    for (input, want) in GROUND_TRUTH {
        assert_eq!(regex_tokens(&re, input), *want, "oracle disagrees on {input:?}");
        assert_eq!(fast_tokens(input), *want, "walker disagrees on {input:?}");
    }
}

/// Random codepoint soup drawn from the classes the regex distinguishes,
/// including the `\p{M}` / non-ASCII-digit / NBSP / lone-`/` traps.
#[test]
fn superword_bounded_matches_regex_random() {
    let pools: &[&[char]] = &[
        &['a', 'z', 'é', 'ß', 'ж', 'ا', '한', '日'], // letters
        &['A', 'Z', 'É', 'Ж', 'Ǆ', 'ǅ'],             // upper/title
        &['1', '9', '٢', '½', 'Ⅷ', '๕', '１'],      // \p{N}
        &[' ', '\t', '\n', '\r', '\u{a0}', '\u{2028}', '\u{2003}'], // \s
        &['\u{301}', '\u{5bf}', '\u{93b}', '\u{20dd}'], // \p{M}
        &['.', ',', '!', '$', '\'', '«', '¡', '€', '☃', '/', '-', '+'], // punct/symbols
        &['\u{0}', '\u{7}', '\u{ad}', '\u{200b}', '\u{feff}', '\u{e0001}'], // other (C*)
    ];
    let re = compiled();
    let mut rng = StdRng::seed_from_u64(0x5C0F_BD11);
    for round in 0..3000 {
        let len = rng.random_range(1..40);
        let s: String = (0..len)
            .map(|_| {
                let pool = pools.choose(&mut rng).unwrap();
                *pool.choose(&mut rng).unwrap()
            })
            .collect();
        assert_eq!(
            fast_tokens(&s),
            regex_tokens(&re, &s),
            "Mismatch on round {round}, case {s:?}"
        );
    }
}

/// The chunked source gives what the iterator gives, over several fills and on
/// any bytes.
#[test]
fn bounded_fill_matches_iterator() {
    let mut bytes = "ab!!cd 12345  x!'s \u{301}\u{301}".repeat(PRETOKEN_CHUNK).into_bytes();
    bytes.extend_from_slice(b"\xff\xc3 \x80!!");
    let mut walk = FastSuperwordBoundedPretokenizer::new(&bytes);
    let mut want: Vec<&[u8]> = Vec::new();
    while let Some(t) = walk.next() {
        want.push(t.0);
    }
    assert_eq!(want.concat(), bytes);
    let mut src = FastSuperwordBoundedPretokenizer::with_pos(&bytes, 0);
    let mut batch = SpanBatch::new();
    let mut got: Vec<&[u8]> = Vec::new();
    loop {
        let n = src.fill_spans(&mut batch);
        for i in 0..n {
            got.push(batch.span(i));
        }
        if n < PRETOKEN_CHUNK {
            break;
        }
    }
    assert_eq!(src.pos(), bytes.len());
    assert_eq!(got, want);
}
