//! The first stage of SuperBPE, and GPT-2's scheme.

use gigatoken::pretokenize::fast::r50k::FastR50kPretokenizer;
use gigatoken::pretokenize::fast::superbpe_stage1::FastSuperBPEStage1Pretokenizer;
use gigatoken::pretokenize::options::GPT2_REGEX;
use rand::rngs::StdRng;
use rand::seq::IndexedRandom;
use rand::{Rng, SeedableRng};

/// The SuperBPE stage-1 pattern.
const STAGE1_REF_REGEX: &str = r"[^\r\n\p{L}\p{N}]?[\p{Lu}\p{Lt}\p{Lm}\p{Lo}\p{M}]*[\p{Ll}\p{Lm}\p{Lo}\p{M}]+|[^\r\n\p{L}\p{N}]?[\p{Lu}\p{Lt}\p{Lm}\p{Lo}\p{M}]+[\p{Ll}\p{Lm}\p{Lo}\p{M}]*|\p{N}{1,3}| ?[^\s\p{L}\p{N}]+[\r\n/]*|\s*[\r\n]+|\s+(?!\S)|\s+";

fn compiled() -> fancy_regex::Regex {
    fancy_regex::Regex::new(STAGE1_REF_REGEX).unwrap()
}

fn regex_tokens(re: &fancy_regex::Regex, s: &str) -> Vec<String> {
    re.find_iter(s)
        .map(|m| m.unwrap().as_str().to_string())
        .collect()
}

fn fast_tokens(s: &str) -> Vec<String> {
    let mut walk = FastSuperBPEStage1Pretokenizer::new(s.as_bytes());
    let mut out = Vec::new();
    while let Some(t) = walk.next() {
        out.push(String::from_utf8_lossy(t.0).into_owned());
    }
    out
}

/// Random codepoint soup drawn from classes the scheme distinguishes,
/// compared against the reference regex.
#[test]
fn stage1_matches_regex_random() {
    let pools: &[&[char]] = &[
        &['a', 'z', 'é', 'ß', 'ж', 'ا', '한', '日'],      // lower/caseless
        &['A', 'Z', 'É', 'Ж', 'Ǆ', 'ǅ'],                  // upper/title
        &['1', '9', '٢', '½', 'Ⅷ', '๕'],                // numbers
        &[' ', '\t', '\n', '\r', '\u{a0}', '\u{2028}'],   // whitespace
        &['\u{301}', '\u{5bf}', '\u{93b}', '\u{20dd}'],   // marks
        &['.', ',', '!', '$', '\'', '«', '¡', '€', '☃', '/'], // punct/symbols
        &['\u{0}', '\u{ad}', '\u{200b}', '\u{e0001}'],    // other (C*)
    ];
    let re = compiled();
    let mut rng = StdRng::seed_from_u64(0x5B9E_1A57);
    for round in 0..3000 {
        let len = rng.random_range(1..40);
        let s: String = (0..len)
            .map(|_| {
                let pool = pools.choose(&mut rng).unwrap();
                *pool.choose(&mut rng).unwrap()
            })
            .collect();
        assert_eq!(
            fast_tokens(&s),
            regex_tokens(&re, &s),
            "Mismatch on round {round}, case {s:?}"
        );
    }
}

/// Devanagari combining marks stay inside their letter run here, but fall
/// out of r50k's ` ?\p{L}+` into the punctuation branch. `हिन्दी` is
/// ह(Lo) ि(Mc) न(Lo) ्(Mn) द(Lo) ी(Mc): one pretoken under stage 1, six
/// under GPT-2. This is the whole reason the trainers need a scheme
/// argument — see the `pretokenizer` parameter on `train_superbpe`.
#[test]
fn stage1_keeps_devanagari_whole() {
    let hindi = "हिन्दी";
    assert_eq!(fast_tokens(hindi), vec![hindi.to_string()]);
    assert_eq!(fast_tokens(hindi), regex_tokens(&compiled(), hindi));

    let mut walk = FastR50kPretokenizer::new(hindi.as_bytes());
    let mut r50k: Vec<String> = Vec::new();
    while let Some(t) = walk.next() {
        r50k.push(String::from_utf8_lossy(t.0).into_owned());
    }
    assert_eq!(r50k, vec!["ह", "ि", "न", "्", "द", "ी"]);
}

fn gpt2_tokens(s: &str) -> Vec<String> {
    let mut walk = FastR50kPretokenizer::new(s.as_bytes());
    let mut out = Vec::new();
    while let Some(t) = walk.next() {
        out.push(String::from_utf8_lossy(t.0).into_owned());
    }
    out
}

/// GPT-2's scheme against its expression.
#[test]
fn gpt2_matches_regex_random() {
    let chars = [
        'a', 'Z', 'é', 'ж', '日', '1', '½', '٢', ' ', ' ', '\t', '\n', '\u{a0}', '\u{301}', '.', '\'',
        's', 'l', 'r', 'e', '/', '€', '\u{200b}',
    ];
    let re = fancy_regex::Regex::new(GPT2_REGEX).unwrap();
    let mut rng = StdRng::seed_from_u64(0x6B7_0002);
    for round in 0..3000 {
        let len = rng.random_range(1..40);
        let s: String = (0..len).map(|_| *chars.choose(&mut rng).unwrap()).collect();
        assert_eq!(gpt2_tokens(&s), regex_tokens(&re, &s), "Mismatch on round {round}, case {s:?}");
    }
    assert_eq!(gpt2_tokens("we'll don't 12  x"), vec!["we", "'ll", " don", "'t", " 12", " ", " x"]);
}

/// Walks resume where they were left, and cover any bytes.
#[test]
fn stage1_covers_any_bytes() {
    let mut rng = StdRng::seed_from_u64(0x57A6_0001);
    for _ in 0..500 {
        let len = rng.random_range(0..60);
        let bytes: Vec<u8> = (0..len).map(|_| rng.random::<u8>()).collect();
        let mut pos = 0;
        while let Some(t) = FastSuperBPEStage1Pretokenizer::with_pos(&bytes, pos).next() {
            assert_eq!(t.0, &bytes[pos..pos + t.0.len()]);
            assert!(!t.0.is_empty());
            pos += t.0.len();
        }
        assert_eq!(pos, bytes.len());
    }
}
