//! Loading `tokenizer.json` files.

use gigatoken::bpe::tiktoken::Tokenizer;
use gigatoken::load_tokenizer::hf::{
    build_bpe_or_wordpiece, load_hf_slice, parse_tokenizer_json, probe_model_family, HfTokenizer,
    ModelFamily,
};
use gigatoken::load_tokenizer::vocab::{build_byte_unicode_tables, token_str_to_bytes};
use gigatoken::pretokenize::options::PretokenizerType;
use gigatoken::TokenId;

#[test]
fn test_token_str_to_bytes() {
    assert_eq!(token_str_to_bytes("<0x00>"), vec![0x00]);
    assert_eq!(token_str_to_bytes("<0xFF>"), vec![0xFF]);
    assert_eq!(token_str_to_bytes("<0x0A>"), vec![0x0A]);
    assert_eq!(token_str_to_bytes("hello"), b"hello".to_vec());
    assert_eq!(token_str_to_bytes("▁the"), "▁the".as_bytes().to_vec());
    assert_eq!(token_str_to_bytes("▁"), "▁".as_bytes().to_vec());
    assert_eq!(token_str_to_bytes("<unk>"), b"<unk>".to_vec());
    assert_eq!(token_str_to_bytes("<s>"), b"<s>".to_vec());
}

#[test]
fn test_parse_legacy_model_without_type() {
    // Pre-tokenizers-0.9 files have no `model.type`; they must parse as BPE.
    let json = br#"{"model": {"vocab": {"a": 0}, "merges": []}}"#;
    let tj = parse_tokenizer_json(json).unwrap();
    assert_eq!(tj.model.model_type, "BPE");
}

/// WordPiece must be recognised both when typed and — as in
/// `bert-base-uncased`, whose `model` block has **no** `type` field — from
/// the `max_input_chars_per_word` marker alone. `continuing_subword_prefix`
/// must NOT be the discriminator: BPE serializes it too.
#[test]
fn test_wordpiece_family_is_detected() {
    // Three hashes: the JSON contains `"##`, which would close both a
    // `br#"` and a `br##"` raw string.
    let typed = br###"{"model": {"type": "WordPiece", "unk_token": "[UNK]",
        "continuing_subword_prefix": "##", "max_input_chars_per_word": 100,
        "vocab": {"[UNK]": 0, "hello": 1}}}"###;
    let untyped: &[u8] = b"{\"model\": {\"unk_token\": \"[UNK]\",
        \"continuing_subword_prefix\": \"##\", \"max_input_chars_per_word\": 100,
        \"vocab\": {\"[UNK]\": 0}}}";
    for json in [&typed[..], untyped] {
        assert_eq!(probe_model_family(json).unwrap(), ModelFamily::WordPiece);
    }
    // A BPE file that happens to carry `continuing_subword_prefix` (the
    // first gpt2 upload does) stays BPE.
    let gpt2ish = br#"{"model": {"vocab": {"a": 0}, "merges": [],
        "continuing_subword_prefix": ""}}"#;
    assert_eq!(probe_model_family(gpt2ish).unwrap(), ModelFamily::Bpe);
}

/// A minimal WordPiece file must load and encode through the whole
/// pipeline: BertNormalizer → bert pretokenizer → MaxMatch.
#[test]
fn test_build_wordpiece_end_to_end() {
    let json = br###"{
        "normalizer": {"type": "BertNormalizer", "clean_text": true,
            "handle_chinese_chars": true, "strip_accents": null, "lowercase": true},
        "pre_tokenizer": {"type": "BertPreTokenizer"},
        "model": {"type": "WordPiece", "unk_token": "[UNK]",
            "continuing_subword_prefix": "##", "max_input_chars_per_word": 100,
            "vocab": {"[UNK]": 0, "un": 1, "##aff": 2, "##able": 3, "cafe": 4,
                      "!": 5, "hello": 6}}
    }"###;
    let tok = build_bpe_or_wordpiece(json).expect("WordPiece must load");
    assert_eq!(tok.pretokenizer_type(), PretokenizerType::Bert);
    assert!(tok.wordpiece().is_some());

    let mut ids = Vec::new();
    // "Unaffable" lowercases; "Café" strips its accent; "!" isolates;
    // "zzz" is unknown and collapses to one [UNK].
    tok.encode_with_added_tokens_flat("Unaffable Café! zzz".as_bytes(), &mut ids);
    assert_eq!(ids, vec![1, 2, 3, 4, 5, 0]);

    // Decode is HF's, not a byte concatenation — and this file declares no
    // `decoder`, so HF joins with spaces and keeps the `##` markers. The
    // splice and the cleanup are the decoder's doing, not defaults.
    let tokens: Vec<TokenId> = ids.iter().map(|&i| TokenId(i)).collect();
    assert_eq!(
        tok.decode_wordpiece(&tokens).unwrap(),
        "un ##aff ##able cafe ! [UNK]"
    );
}

/// The `decoder` block drives both the ` ##` splice and the `cleanup` tidy;
/// each combination decodes differently. Every expectation measured against
/// `tokenizers` 0.22.2 (see `WordPieceDecoder`'s table).
#[test]
fn test_wordpiece_decoder_block_is_honored() {
    let with_decoder = |decoder: &str| {
        let json = format!(
            r###"{{
                "pre_tokenizer": {{"type": "BertPreTokenizer"}},
                {decoder}
                "model": {{"type": "WordPiece", "unk_token": "[UNK]",
                    "continuing_subword_prefix": "##", "max_input_chars_per_word": 100,
                    "vocab": {{"[UNK]": 0, "ab": 1, "##cd": 2, "hello": 3, ".": 4}}}}
            }}"###
        );
        let tok = build_bpe_or_wordpiece(json.as_bytes()).expect("must load");
        let ids: Vec<TokenId> = [1u32, 2, 3, 4].iter().map(|&i| TokenId(i)).collect();
        tok.decode_wordpiece(&ids).unwrap()
    };

    assert_eq!(with_decoder(""), "ab ##cd hello .", "no decoder: space join only");
    assert_eq!(
        with_decoder(r###""decoder": {"type": "WordPiece", "prefix": "##", "cleanup": true},"###),
        "abcd hello."
    );
    assert_eq!(
        with_decoder(r###""decoder": {"type": "WordPiece", "prefix": "##", "cleanup": false},"###),
        "abcd hello ."
    );
    // HF's own defaults when the fields are omitted from a present block.
    assert_eq!(
        with_decoder(r#""decoder": {"type": "WordPiece"},"#),
        "abcd hello."
    );
    // A decoder of another kind is not a WordPiece decoder.
    assert_eq!(
        with_decoder(r#""decoder": {"type": "ByteLevel"},"#),
        "ab ##cd hello ."
    );
    // ... but one nested in a Sequence is found.
    assert_eq!(
        with_decoder(
            r###""decoder": {"type": "Sequence", "decoders": [{"type": "ByteLevel"},
                {"type": "WordPiece", "prefix": "##", "cleanup": false}]},"###
        ),
        "abcd hello ."
    );
}

/// A WordPiece vocab has no single-byte tokens, so the byte-level remapping
/// must never be attempted — and the cache seed must agree with the miss
/// path, which is what a wrong seed would break silently.
#[test]
fn test_wordpiece_seed_matches_miss_path() {
    let json = br###"{
        "pre_tokenizer": {"type": "BertPreTokenizer"},
        "model": {"type": "WordPiece", "unk_token": "[UNK]",
            "continuing_subword_prefix": "##", "max_input_chars_per_word": 100,
            "vocab": {"[UNK]": 0, "ab": 1, "##cd": 2, "abcd": 3, "x": 4}}
    }"###;
    let tok = build_bpe_or_wordpiece(json).unwrap();
    // "abcd" is a whole vocab word AND decomposable as ab+##cd. MaxMatch is
    // longest-first, so it must be the single ID 3 — and that is exactly
    // what the vocab seed put in the cache, so the seeded hit and a cold
    // miss cannot disagree.
    let mut ids = Vec::new();
    tok.encode_with_added_tokens_flat(b"abcd", &mut ids);
    assert_eq!(ids, vec![3]);

    let fresh = build_bpe_or_wordpiece(json).unwrap();
    let mut ids2 = Vec::new();
    // A pretoken absent from the vocab takes the true miss path.
    fresh.encode_with_added_tokens_flat(b"abcdx", &mut ids2);
    assert_eq!(ids2, vec![0], "abcdx has no ##x, so the whole word is UNK");
}

/// Unsupported model families must be refused by name, not with the
/// deserializer's shape error for the BPE schema (Unigram's vocab is a
/// `[piece, score]` list, not a map).
#[test]
fn test_unsupported_model_type_named_in_error() {
    let unigram = br#"{"model": {"type": "Unigram", "unk_id": 0,
        "vocab": [["<unk>", 0.0], ["hello", -3.1]]}}"#;
    // Pre-0.9 tokenizers files omit model.type; the family is inferred
    // from its marker fields (the t5-small shape).
    let untyped_unigram = br#"{"model": {"unk_id": 0, "vocab": [["<unk>", 0.0]]}}"#;
    for (json, name) in [
        (&unigram[..], "Unigram"),
        (&untyped_unigram[..], "Unigram (untyped legacy file)"),
    ] {
        let err = match parse_tokenizer_json(json) {
            Ok(_) => panic!("expected {name} to be refused"),
            Err(e) => e.message(),
        };
        assert!(
            err.contains(&format!("Unsupported model type \"{name}\"")),
            "unhelpful {name} error: {err}"
        );
        assert!(!err.contains("missing field"), "shape error leaked: {err}");
    }
}

#[test]
fn test_parse_error_names_the_field() {
    // The first line of the error must carry the deserializer's detail,
    // not just a generic "failed to parse".
    let json = br#"{"model": {"type": "BPE", "merges": []}}"#;
    let err = match parse_tokenizer_json(json) {
        Ok(_) => panic!("expected a parse error"),
        Err(e) => e,
    };
    let first_line = err.message();
    assert!(first_line.contains("vocab"), "unhelpful error: {first_line}");
}

/// Build a minimal ByteLevel tokenizer.json: the 256 byte tokens (ID ==
/// byte value), plus `extra_vocab` entries and `merges` given as raw
/// text (converted to the GPT-2 unicode encoding here), plus raw
/// `added_tokens` JSON.
fn byte_level_json(
    extra_vocab: &[(&str, u32)],
    merges: &[(&str, &str)],
    added_tokens_json: &str,
) -> Vec<u8> {
    byte_level_json_with_pretok(extra_vocab, merges, added_tokens_json, r#"{"type": "ByteLevel"}"#)
}

fn byte_level_json_with_pretok(
    extra_vocab: &[(&str, u32)],
    merges: &[(&str, &str)],
    added_tokens_json: &str,
    pre_tokenizer_json: &str,
) -> Vec<u8> {
    let (b2u, _) = build_byte_unicode_tables();
    let esc = |s: String| -> String { s.replace('\\', "\\\\").replace('"', "\\\"") };
    let enc = |s: &str| -> String { esc(s.bytes().map(|b| b2u[b as usize]).collect()) };
    let mut vocab_entries: Vec<String> = (0u16..=255)
        .map(|b| format!("\"{}\": {}", esc(b2u[b as usize].to_string()), b))
        .collect();
    for (text, id) in extra_vocab {
        vocab_entries.push(format!("\"{}\": {}", enc(text), id));
    }
    let merges_entries: Vec<String> = merges
        .iter()
        .map(|(a, b)| format!("[\"{}\", \"{}\"]", enc(a), enc(b)))
        .collect();
    format!(
        "{{\"added_tokens\": [{}], \"pre_tokenizer\": {}, \
         \"model\": {{\"type\": \"BPE\", \"vocab\": {{{}}}, \"merges\": [{}]}}}}",
        added_tokens_json,
        pre_tokenizer_json,
        vocab_entries.join(", "),
        merges_entries.join(", ")
    )
    .into_bytes()
}

fn encode_bpe(tok: &Tokenizer, text: &str) -> Vec<u32> {
    let mut out = Vec::new();
    tok.encode_with_added_tokens_flat(text.as_bytes(), &mut out);
    out
}

/// Merge priority must follow the merge list's order even when the
/// merged token IDs do not (fairseq-heritage vocabs: RoBERTa/OPT).
#[test]
fn test_rank_mapped_merges_follow_list_order() {
    // Rank 0 produces ID 350, rank 1 produces ID 300: IDs are NOT in
    // rank order, so id-as-rank would apply "a"+"b" (300) before
    // "b"+"c" (350) and produce [300, 99] on "abc".
    let json = byte_level_json(
        &[("bc", 350), ("ab", 300)],
        &[("b", "c"), ("a", "b")],
        "",
    );
    let HfTokenizer::Bpe(tok) = load_hf_slice(&json).unwrap() else {
        panic!("expected ByteLevel BPE");
    };
    assert_eq!(encode_bpe(&tok, "abc"), vec![97, 350]);
    // Rank order also decides between two live candidates mid-word.
    assert_eq!(encode_bpe(&tok, "ab"), vec![300]);
    assert_eq!(encode_bpe(&tok, "bc"), vec![350]);

    // Same merges with IDs in rank order stay on the id-as-rank fast
    // path and agree.
    let json = byte_level_json(
        &[("bc", 300), ("ab", 350)],
        &[("b", "c"), ("a", "b")],
        "",
    );
    let HfTokenizer::Bpe(tok) = load_hf_slice(&json).unwrap() else {
        panic!("expected ByteLevel BPE");
    };
    assert_eq!(encode_bpe(&tok, "abc"), vec![97, 300]);
}

/// `lstrip`/`rstrip` added-token flags absorb the whitespace adjacent
/// to a match, like HF's AddedVocabulary.
#[test]
fn test_added_token_lstrip_rstrip() {
    let added = r#"{"id": 400, "content": "<m>", "lstrip": true, "special": true},
                 {"id": 401, "content": "<r>", "rstrip": true, "special": true}"#;
    let json = byte_level_json(&[], &[], added);
    let HfTokenizer::Bpe(tok) = load_hf_slice(&json).unwrap() else {
        panic!("expected ByteLevel BPE");
    };
    // lstrip: the whitespace before the match is absorbed, including
    // multi-char and non-ASCII whitespace; whitespace after it is not.
    assert_eq!(encode_bpe(&tok, "a <m> b"), vec![97, 400, 32, 98]);
    assert_eq!(encode_bpe(&tok, "a \t\n<m>"), vec![97, 400]);
    assert_eq!(
        encode_bpe(&tok, "a\u{a0}<m>"),
        vec![97, 400],
        "U+00A0 is `\\s` whitespace and must be absorbed"
    );
    // rstrip: the whitespace after the match is absorbed.
    assert_eq!(encode_bpe(&tok, "a <r> b"), vec![97, 32, 401, 98]);
    assert_eq!(encode_bpe(&tok, "<r>\n\n\nb"), vec![401, 98]);
    // Back-to-back: <r>'s rstrip consumes the gap before <m>.
    assert_eq!(encode_bpe(&tok, "<r> <m>"), vec![401, 400]);
    // No flags on plain text.
    assert_eq!(encode_bpe(&tok, "a b"), vec![97, 32, 98]);
}

/// `ByteLevel(add_prefix_space=true)` (RoBERTa-style exports): every
/// non-empty added-token-split segment gets a leading space; empty
/// segments (adjacent added tokens, leading added token) do not.
#[test]
fn test_byte_level_add_prefix_space() {
    let added = r#"{"id": 400, "content": "<m>", "lstrip": true, "special": true}"#;
    let json = byte_level_json_with_pretok(
        &[],
        &[],
        added,
        r#"{"type": "ByteLevel", "add_prefix_space": true}"#,
    );
    let HfTokenizer::Bpe(tok) = load_hf_slice(&json).unwrap() else {
        panic!("expected ByteLevel BPE");
    };
    // "ab" -> " ab" (one pretoken), already-spaced input unchanged.
    assert_eq!(encode_bpe(&tok, "ab"), vec![32, 97, 98]);
    assert_eq!(encode_bpe(&tok, " ab"), vec![32, 97, 98]);
    // Each segment around an added token gets its own prefix; the empty
    // segment between adjacent tokens gets none (HF parity, verified
    // against tokenizers on obi/deid_roberta_i2b2).
    assert_eq!(encode_bpe(&tok, "a<m>b"), vec![32, 97, 400, 32, 98]);
    assert_eq!(encode_bpe(&tok, "<m><m>"), vec![400, 400]);
    // lstrip trim happens before the prefix is applied.
    assert_eq!(encode_bpe(&tok, "x <m> y"), vec![32, 120, 400, 32, 121]);
}
