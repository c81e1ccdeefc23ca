//! Merge tables, level 1 units, cuts and plans.

use gigatoken::bpe::byte_remapping::ByteRemapping;
use gigatoken::bpe::cuts::SuperwordCuts;
use gigatoken::bpe::merge::{ranked_merge_key, Merge, MergeTable};
use gigatoken::bpe::plan::{env_flag, env_l1_fill, L1Fill, SuperwordPlan};
use gigatoken::bpe::superword::{
    derive_threshold, junction_can_split, junction_chars, junction_may_part, may_start_number, splits_at,
};
use gigatoken::bpe::tiktoken::Tokenizer;
use gigatoken::byte_map::ByteMap;
use gigatoken::error::LoadError;
use gigatoken::pretokenize::fast::level1::{
    ends_with_whitespace, glue_filter, glues, starts_with_whitespace,
};
use gigatoken::pretokenize::options::PretokenizerType;

fn table(merges: &[(u32, u32, u32, u32)]) -> MergeTable {
    let mut t = MergeTable::new();
    for &(left, right, merged, rank) in merges {
        t.insert_first(Merge { left, right, merged, rank });
    }
    t
}

fn merged(t: &MergeTable, symbols: &[u32]) -> Vec<u32> {
    let mut s = symbols.to_vec();
    t.merge(&mut s);
    s
}

#[test]
fn merge_keys_hold_both_sides() {
    assert_eq!(ranked_merge_key(1, 2), 0x1_0000_0002);
    assert_eq!(ranked_merge_key(u32::MAX, u32::MAX), u64::MAX);
}

#[test]
fn the_most_urgent_pair_goes_first() {
    let t = table(&[(1, 1, 2, 5), (1, 3, 4, 1), (2, 4, 9, 7)]);
    assert_eq!(merged(&t, &[1, 1, 3]), vec![1, 4]);
    assert_eq!(merged(&t, &[1, 1, 1]), vec![2, 1], "the leftmost of equals");
    assert_eq!(merged(&t, &[1, 1, 1, 3]), vec![9]);
    assert_eq!(merged(&t, &[]), Vec::<u32>::new());
    assert_eq!(merged(&t, &[3, 3]), vec![3, 3]);
}

#[test]
fn the_first_merge_of_a_pair_stays() {
    let t = table(&[(1, 2, 3, 0), (1, 2, 4, 1)]);
    assert_eq!(t.len(), 1);
    assert_eq!(t.get(1, 2), Some((3, 0)));
    assert_eq!(t.get(2, 1), None);
    assert_eq!(t.entry(0), Merge { left: 1, right: 2, merged: 3, rank: 0 });
}

/// Merging by the urgent merges first changes nothing.
#[test]
fn phases_agree_with_one_pass() {
    let t = table(&[(1, 1, 2, 0), (2, 1, 3, 1), (3, 3, 4, 2), (1, 5, 6, 3)]);
    let low = t.restricted(2);
    assert_eq!(low.len(), 2);
    for symbols in [vec![1, 1, 1, 1, 1, 1], vec![1, 1, 5], vec![5, 1, 1, 1, 5, 1]] {
        let mut s = merged(&low, &symbols);
        t.merge(&mut s);
        assert_eq!(s, merged(&t, &symbols));
    }
}

#[test]
fn environment_values_are_read() {
    assert!(!env_flag(None));
    assert!(!env_flag(Some("0")));
    assert!(env_flag(Some("")) && env_flag(Some("00")) && env_flag(Some("1")));
    assert_eq!(env_l1_fill(None), L1Fill::TwoPhase);
    assert_eq!(env_l1_fill(Some("ITER")), L1Fill::Iter);
    assert_eq!(env_l1_fill(Some("Buf")), L1Fill::Buf);
    assert_eq!(env_l1_fill(Some("iter ")), L1Fill::TwoPhase);
}

#[test]
fn white_space_is_seen_at_both_ends() {
    assert!(ends_with_whitespace(b"a ") && ends_with_whitespace("a\u{3000}".as_bytes()));
    assert!(!ends_with_whitespace(b"a") && !ends_with_whitespace("é".as_bytes()));
    assert!(ends_with_whitespace(b"") && ends_with_whitespace(b"a\xe3\x80"), "no character counts");
    assert!(starts_with_whitespace(b"\n") && starts_with_whitespace("\u{a0}x".as_bytes()));
    assert!(!starts_with_whitespace("é".as_bytes()) && starts_with_whitespace(b""));
    assert!(starts_with_whitespace(b"\x80a"));
}

#[test]
fn pretokens_glue_at_digits_and_quotes() {
    assert!(glues(b"a ", b" b"));
    assert!(!glues(b"a", b" b"));
    assert!(glues(b"a'", b"b") && glues(b"'a", b"b") && !glues(b"b", b"'a"));
    assert!(glues(b"a", b"1b") && !glues(b"1", b"b"));
    assert!(glues("\u{627}".as_bytes(), "\u{60c}".as_bytes()), "neither is ASCII");
    assert!(!glues("\u{627}".as_bytes(), b",") && !glues(b"a", "\u{60c}".as_bytes()));
    let mut ends: Vec<u16> = vec![2, 4, 6];
    assert_eq!(glue_filter(b"ab12 c", 0, &mut ends), 2);
    assert_eq!(ends[..2], [4, 6]);
    let mut ends: Vec<u16> = vec![2, 4];
    assert_eq!(glue_filter(b"xab cde", 1, &mut ends), 1, "the last has none after it");
    assert_eq!(ends[0], 2);
}

#[test]
fn junctions_lie_between_characters() {
    assert_eq!(junction_chars(b"ab", "é".as_bytes()), Some(('b' as u32, 'é' as u32)));
    assert_eq!(junction_chars(b"\xc3", b"\xa9"), None);
    assert_eq!(junction_chars(b"", b"a"), None);
    assert!(junction_can_split(b"ab", b" c", PretokenizerType::GPT2));
    assert!(!junction_can_split(b"a", b"b", PretokenizerType::GPT2));
    assert!(splits_at(b"ab cd", 2, PretokenizerType::GPT2));
    assert!(!splits_at(b"ab cd", 1, PretokenizerType::GPT2));
}

/// All bytes, `ab`, ` c` and `ab c`, with the merges that lead there.
fn superwords() -> (Vec<Vec<u8>>, MergeTable) {
    let mut vocab: Vec<Vec<u8>> = (0..=255u8).map(|b| vec![b]).collect();
    vocab.push(b"ab".to_vec());
    vocab.push(b" c".to_vec());
    vocab.push(b"ab c".to_vec());
    (vocab, table(&[(97, 98, 256, 256), (32, 99, 257, 257), (256, 257, 258, 258)]))
}

fn index(vocab: &[Vec<u8>]) -> ByteMap {
    let mut inv = ByteMap::with_capacity(vocab.len());
    for (i, entry) in vocab.iter().enumerate() {
        inv.insert(entry.clone(), i as u32);
    }
    inv
}

#[test]
fn the_threshold_is_the_first_superword() {
    let (vocab, merges) = superwords();
    assert_eq!(derive_threshold(&vocab, &merges, PretokenizerType::GPT2), Some(258));
    assert_eq!(derive_threshold(&vocab, &merges, PretokenizerType::SuperBPEStage1), Some(258));
    assert_eq!(derive_threshold(&vocab, &merges.restricted(258), PretokenizerType::GPT2), None);
}

#[test]
fn cuts_are_where_no_superword_crosses() {
    let (vocab, merges) = superwords();
    let cuts = SuperwordCuts::build(&vocab, &index(&vocab), &merges, 258);
    assert!(cuts.crossable(256, 257));
    assert!(!cuts.crossable(257, 256));
    assert!(!cuts.crossable(97, 97));
    assert!(cuts.crossable(5000, 257), "an unknown token may be part of anything");
    let symbols = vec![256, 257, 256, 257, 100];
    assert_eq!(cuts.run_end(&symbols, 0), 2);
    assert_eq!(cuts.run_end(&symbols, 2), 4);
    assert_eq!(cuts.run_end(&symbols, 4), 5);
}

#[test]
fn both_levels_give_what_one_gives() {
    let (vocab, merges) = superwords();
    let bytes = ByteRemapping::from_byte_vocab(&vocab).unwrap();
    let text = b"ab cab c xab  c";
    let mut one = Vec::new();
    bytes.append(text, &mut one);
    merges.merge(&mut one);
    for fill in [L1Fill::Iter, L1Fill::Buf, L1Fill::TwoPhase] {
        for cutting in [false, true] {
            let plan = SuperwordPlan::build(&vocab, &index(&vocab), &merges, fill, cutting).unwrap();
            assert_eq!(plan.encode_level1(&bytes, b"ab c"), vec![256, 257]);
            assert_eq!(plan.encode(&merges, &bytes, text), one);
            assert_eq!(plan.fork_sized().encode(&merges, &bytes, text), one);
            let capped = SuperwordPlan::build_capped(&vocab, &index(&vocab), &merges, fill, cutting, 257);
            let capped = capped.unwrap();
            assert_eq!(capped.encode_level1(&bytes, b"ab c"), vec![256, 32, 99]);
            assert_eq!(capped.encode(&merges, &bytes, text), one);
        }
    }
    assert!(SuperwordPlan::build(&vocab, &index(&vocab), &merges.restricted(258), L1Fill::Iter, true).is_none());
}

/// All bytes and the given tokens, each the merge of two earlier ones.
fn grown(parts: &[(u32, u32)]) -> (Vec<Vec<u8>>, MergeTable) {
    let mut vocab: Vec<Vec<u8>> = (0..=255u8).map(|b| vec![b]).collect();
    let mut merges = Vec::new();
    for &(left, right) in parts {
        let merged = vocab.len() as u32;
        let mut entry = vocab[left as usize].clone();
        entry.extend_from_slice(&vocab[right as usize]);
        vocab.push(entry);
        merges.push((left, right, merged, merged));
    }
    (vocab, table(&merges))
}

/// The tokens of a text by one level and by two.
fn levels(parts: &[(u32, u32)], text: &[u8]) -> (Vec<u32>, Vec<u32>) {
    let (vocab, merges) = grown(parts);
    let bytes = ByteRemapping::from_byte_vocab(&vocab).unwrap();
    let plan = SuperwordPlan::build(&vocab, &index(&vocab), &merges, L1Fill::TwoPhase, true).unwrap();
    let mut one = Vec::new();
    bytes.append(text, &mut one);
    merges.merge(&mut one);
    (one, plan.encode(&merges, &bytes, text))
}

#[test]
fn gpt2_levels_agree_around_contractions_and_white_space() {
    // ` t`, `he`, ` the`, `'s`, `st`, `!'`, `!!`, ` a` and the superword `s a`.
    let parts: Vec<(u32, u32)> =
        vec![(32, 116), (104, 101), (256, 257), (39, 115), (115, 116), (33, 39), (33, 33), (32, 97), (115, 263)];
    for text in [
        "the 'st's the!'st  a\n\n a s a",
        "!'s a!!'s a x's a 's a''s a",
        "é's a…'s a\u{a0}'s a\u{3000} a",
        "s a1s a 12s a\ts a",
    ] {
        let (one, two) = levels(&parts, text.as_bytes());
        assert_eq!(one, two, "{text:?}");
    }
    let (one, two) = levels(&parts, b"\xc3's a\x80'st\xff s a");
    assert_eq!(one, two);
}

/// A merge of a part of a character can fire between units, here the end of `À`
/// with the `!` after it, and so belongs to level 2.
#[test]
fn fragments_of_characters_stay_out_of_level_1() {
    let parts = vec![(0x80, 33), (33, 63), (97, 32)];
    for text in ["À!?", "A!?"] {
        let (one, two) = levels(&parts, text.as_bytes());
        assert_eq!(one, two, "{text:?}");
    }
    assert_eq!(levels(&parts, "À!?".as_bytes()).1, vec![0xc3, 256, 63]);
}

/// A whole letter and the first byte of the next character are one token.
#[test]
fn torn_characters_keep_their_tokens() {
    // U+0627, it and the lead byte of U+060C, U+060C, `a `.
    let parts = vec![(0xd8, 0xa7), (256, 0xd8), (0xd8, 0x8c), (97, 32)];
    let (one, two) = levels(&parts, "\u{627}\u{60c}".as_bytes());
    assert_eq!(one, vec![257, 0x8c]);
    assert_eq!(one, two);
    for text in ["\u{60c}\u{627}\u{60c}a b", "a\u{627}\u{60c}!\u{60c} \u{627}", "\u{627}\u{627}\u{60c}"] {
        let (one, two) = levels(&parts, text.as_bytes());
        assert_eq!(one, two, "{text:?}");
    }
}

/// The stage-1 scheme cuts numbers after three digits, whatever digits they are.
#[test]
fn long_numbers_keep_their_tokens() {
    // U+0301 and `e` with it, which only GPT-2 splits; U+0660 and two of it; `a `.
    let parts = vec![(0xcc, 0x81), (101, 256), (0xd9, 0xa0), (258, 258), (97, 32)];
    let (one, two) = levels(&parts, "\u{660}\u{660}\u{660}\u{660}\u{660}".as_bytes());
    assert_eq!(one, vec![259, 259, 258]);
    assert_eq!(one, two);
    // The same with `1` and U+0660.
    let parts = vec![(0xcc, 0x81), (101, 256), (0xd9, 0xa0), (49, 258), (97, 32)];
    let (one, two) = levels(&parts, "111\u{660}".as_bytes());
    assert_eq!(one, vec![49, 49, 259]);
    assert_eq!(one, two);
}

/// The stage-1 scheme lets line ends and slashes follow a run of punctuation, and
/// starts anew with what comes then.
#[test]
fn slashes_after_line_ends_keep_their_tokens() {
    // U+0301, `e` and U+0301, `/!`, `!?`, `a `.
    let parts = vec![(0xcc, 0x81), (101, 256), (47, 33), (33, 63), (97, 32)];
    let (one, two) = levels(&parts, b"!\n/!?");
    assert_eq!(one, vec![33, 10, 258, 63]);
    assert_eq!(one, two);
    let (one, two) = levels(&parts, b"!/!?");
    assert_eq!(one, two);
}

/// The stage-1 scheme ends a run of punctuation after a mark.
#[test]
fn marks_after_punctuation_keep_their_tokens() {
    // U+0301, `!!`, U+0301 and `a`, `!!` and U+0301, `e` and U+0301, `a `.
    let parts = vec![(0xcc, 0x81), (101, 256), (33, 33), (256, 97), (258, 256), (97, 32)];
    let (one, two) = levels(&parts, "!!\u{301}a".as_bytes());
    assert_eq!(one, vec![258, 259]);
    assert_eq!(one, two);
    let (one, two) = levels(&parts, "!!a\u{301}".as_bytes());
    assert_eq!(one, two);
}

#[test]
fn junctions_part_where_a_text_can_part_them() {
    let part = |left: &[u8], right: &[u8], scheme| junction_may_part(left, right, scheme);
    let stage1 = PretokenizerType::SuperBPEStage1;
    let gpt2 = PretokenizerType::GPT2;
    // Inside words, numbers and contractions, and in white space, nothing does.
    for (left, right) in [(" t", "he"), ("s", "t"), ("'", "s"), (" ", "1"), ("000", "0"), (" ", " "), ("\n", "\n")] {
        assert!(!part(left.as_bytes(), right.as_bytes(), stage1), "{left:?} {right:?}");
        assert!(!junction_can_split(left.as_bytes(), right.as_bytes(), stage1), "{left:?} {right:?}");
        assert!(!junction_can_split(left.as_bytes(), right.as_bytes(), gpt2), "{left:?} {right:?}");
    }
    for (left, right) in [(" A", "B"), ("E", "e"), ("e", "\u{301}"), ("e\u{301}", "a"), ("x.", "y"), ("1.", "y"),
        (" ", "!"), ("!", "?"), ("!", "\n"), ("\t", "x"), ("/", "/"), ("x/", "!"), ("!", "\u{301}"), ("漢", "b")] {
        assert!(!part(left.as_bytes(), right.as_bytes(), stage1), "{left:?} {right:?}");
        assert!(!junction_can_split(left.as_bytes(), right.as_bytes(), stage1), "{left:?} {right:?}");
    }
    for (left, right) in [(" Mc", "C"), ("a", " "), ("a", "!"), ("1", "a"), ("\n", "a"), ("\t", "!"), ("!", "a"),
        (" !", "a"), ("!!", "a"), ("漢", "B"), (" ", "\u{660}"), ("!\n/", "!"), ("a", "\u{660}"), ("a\u{301}", "!")] {
        assert!(part(left.as_bytes(), right.as_bytes(), stage1), "{left:?} {right:?}");
        assert!(junction_can_split(left.as_bytes(), right.as_bytes(), stage1), "{left:?} {right:?}");
        assert!(!part(left.as_bytes(), right.as_bytes(), gpt2), "{left:?} {right:?}");
    }
    // No context shows these.
    for (left, right) in [("/", "!"), ("\u{301}", "a"), ("\u{301}!", "a"), ("1", "\u{660}"), ("\u{301}\n/", "!")] {
        assert!(part(left.as_bytes(), right.as_bytes(), stage1), "{left:?} {right:?}");
        assert!(!junction_can_split(left.as_bytes(), right.as_bytes(), stage1), "{left:?} {right:?}");
    }
    for scheme in [stage1, gpt2] {
        assert!(part(b"\x8a", b"\n", scheme) && part(b"a", b"\xd8", scheme) && part(b"\n", b"\xe2", scheme));
        assert!(!part(b"\x8a", b"1", scheme) && !part(b"\x8a", b"\xd8", scheme) && !part(b"'", b"\xd8", scheme));
        assert!(!part(b"\xd8", b"\xa7", scheme) && !part(b"\xd8\xa7", b"\xd8", scheme));
        assert!(!part(b"", b"a", scheme) && !part(b"a", b"", scheme));
        assert!(!part(b" ", b"\xd0", scheme), "nothing there is a number");
    }
    assert!(part(b" ", b"\xe2", stage1) && part(b" ", b"\xf0", stage1), "U+2070 or another number");
    assert!(!part(b" ", b"\xe2", gpt2));
    assert!(may_start_number(b"1", 0) && !may_start_number(b"a1", 3));
    assert!(may_start_number(b"\xd9", 1) && !may_start_number(b"\xd9", 0));
}

/// Whatever the merges and the text, malformed ones too, the levels agree.
#[test]
fn levels_agree_on_random_merges() {
    const CHARS: [&str; 24] = [
        "a", "b", "A", "B", "é", "É", "漢", "\u{301}", "1", "2", "\u{660}", " ", " ", "\n", "\r", "\t", "\u{a0}", "!",
        "/", "'", "s", "\u{60c}", "\u{627}", "…",
    ];
    let mut seed: u64 = 0x9E37_79B9_7F4A_7C15;
    let mut next = |n: usize| {
        seed ^= seed << 13;
        seed ^= seed >> 7;
        seed ^= seed << 17;
        (seed % n as u64) as usize
    };
    let mut plans = 0;
    for _ in 0..120 {
        // Merge what stands side by side in some text, as training would.
        let mut sample: Vec<u32> = Vec::new();
        for _ in 0..60 {
            sample.extend(CHARS[next(CHARS.len())].bytes().map(|b| b as u32));
        }
        let mut parts: Vec<(u32, u32)> = Vec::new();
        while parts.len() < 14 {
            let i = next(sample.len() - 1);
            let pair = (sample[i], sample[i + 1]);
            let merged = 256 + parts.len() as u32;
            parts.push(pair);
            let mut k = 0;
            while k + 1 < sample.len() {
                if (sample[k], sample[k + 1]) == pair {
                    sample.splice(k..k + 2, [merged]);
                }
                k += 1;
            }
        }
        let (vocab, merges) = grown(&parts);
        let bytes = ByteRemapping::from_byte_vocab(&vocab).unwrap();
        let plan = SuperwordPlan::build(&vocab, &index(&vocab), &merges, L1Fill::TwoPhase, true);
        let Some(plan) = plan else { continue };
        plans += 1;
        for _ in 0..30 {
            let mut text: Vec<u8> = Vec::new();
            for _ in 0..next(25) {
                text.extend(CHARS[next(CHARS.len())].bytes());
            }
            if next(4) == 0 && !text.is_empty() {
                let at = next(text.len());
                text.remove(at);
            }
            let mut one = Vec::new();
            bytes.append(&text, &mut one);
            merges.merge(&mut one);
            assert_eq!(plan.encode(&merges, &bytes, &text), one, "{parts:?} {text:?}");
        }
    }
    assert!(plans > 100);
}

#[test]
fn a_plan_changes_no_tokens() {
    let (vocab, merges) = superwords();
    let bytes = ByteRemapping::from_byte_vocab(&vocab).unwrap();
    let mut t = Tokenizer::new(merges, vocab, bytes, true);
    t.enable_superword_two_level(L1Fill::Iter, false);
    assert!(t.plan.is_none(), "words are split");
    t.scheme = PretokenizerType::Superword;
    let mut before = Vec::new();
    t.encode_with_added_tokens_flat(b"ab c", &mut before);
    t.enable_superword_two_level(L1Fill::Iter, false);
    assert!(t.plan.is_some());
    let mut after = Vec::new();
    t.encode_with_added_tokens_flat(b"ab c", &mut after);
    assert_eq!(before, after);
    assert_eq!(after, vec![258]);
}

#[test]
fn every_byte_of_text_needs_a_token() {
    let mut vocab: Vec<Vec<u8>> = (0..=255u8).map(|b| vec![b]).collect();
    vocab[0xc0] = Vec::new();
    vocab[0xff] = Vec::new();
    let bytes = ByteRemapping::from_byte_vocab(&vocab).unwrap();
    let mut out = vec![7];
    bytes.append(b"a\xff\xc3", &mut out);
    assert_eq!(out, vec![7, 97, 0xc3]);
    vocab[0x41] = Vec::new();
    let e = ByteRemapping::from_byte_vocab(&vocab).unwrap_err();
    assert!(matches!(e, LoadError::MissingByteToken { byte: 0x41 }));
    assert_eq!(e.message(), "no token for byte 65");
}

#[test]
fn byte_maps_keep_the_last_value() {
    let mut map = ByteMap::with_capacity(0);
    assert_eq!(map.get(b"a"), None);
    map.insert(b"a".to_vec(), 1);
    map.insert(b"".to_vec(), 2);
    map.insert(b"a".to_vec(), 3);
    assert_eq!((map.get(b"a"), map.get(b""), map.get(b"b")), (Some(3), Some(2), None));
}
