//! What files describe, and why they are refused.

use gigatoken::bpe::merge::MergeTable;
use gigatoken::bpe::tiktoken::{Model, Tokenizer};
use gigatoken::error::LoadError;
use gigatoken::load_tokenizer::detect::{
    detect_add_prefix_space, detect_nfc_normalizer, detect_pretokenizer_type,
    parse_bert_normalizer, parse_wordpiece_decoder,
};
use gigatoken::load_tokenizer::hf::{
    build_bpe_or_wordpiece, gpt2_mergeable_ranks, load_hf_sentencepiece, load_hf_slice,
    parse_tokenizer_json, probe_model_family, HfTokenizer, ModelFamily,
};
use gigatoken::load_tokenizer::json::{parse, Json};
use gigatoken::load_tokenizer::schema::TokenizerJson;
use gigatoken::load_tokenizer::sentencepiece::{
    charsmap_op, parse_sp_metaspace, parse_sp_normalizer, Metaspace, NormOp, PrependScheme,
    SentencePieceBPE,
};
use gigatoken::load_tokenizer::vocab::{
    build_byte_unicode_tables, parse_byte_fallback, token_str_to_bytes, unicode_to_bytes,
};
use gigatoken::pretokenize::options::{
    PretokenizerType, GPT2_REGEX, STAGE1_REGEX, SUPERWORD_BOUNDED_REGEX,
};
use gigatoken::TokenId;

/// A file with an empty BPE model and the given other blocks.
fn with_blocks(blocks: &str) -> TokenizerJson {
    let file = format!("{{{blocks} \"model\": {{\"vocab\": {{\"a\": 0}}}}}}");
    parse_tokenizer_json(file.as_bytes()).unwrap()
}

fn refusal(file: &str) -> String {
    match parse_tokenizer_json(file.as_bytes()) {
        Ok(_) => panic!("{file} was read"),
        Err(e) => e.message(),
    }
}

fn load_refusal(file: &str) -> String {
    match load_hf_slice(file.as_bytes()) {
        Ok(_) => panic!("{file} was loaded"),
        Err(e) => e.message(),
    }
}

/// The entries of all bytes, by their numbers.
fn byte_entries() -> Vec<String> {
    let (b2u, _) = build_byte_unicode_tables();
    (0..256)
        .map(|b| {
            let c = b2u[b].to_string().replace('\\', "\\\\").replace('"', "\\\"");
            format!("\"{c}\": {b}")
        })
        .collect()
}

fn byte_level(extra: &str, merges: &str, blocks: &str, model: &str) -> String {
    format!(
        "{{{blocks} \"model\": {{\"type\": \"BPE\", {model} \"vocab\": {{{}{extra}}}, \"merges\": [{merges}]}}}}",
        byte_entries().join(", ")
    )
}

fn loaded(file: &str) -> Tokenizer {
    match load_hf_slice(file.as_bytes()) {
        Ok(HfTokenizer::Bpe(t)) => t,
        Ok(HfTokenizer::SentencePiece(_)) => panic!("falls back on bytes"),
        Err(e) => panic!("{}", e.message()),
    }
}

fn tokens(t: &Tokenizer, text: &str) -> Vec<u32> {
    let mut out = Vec::new();
    t.encode_with_added_tokens_flat(text.as_bytes(), &mut out);
    out
}

#[test]
fn json_values_are_read_as_they_are() {
    let doc = parse(r#"{"a": [null, true, 7, -1, 1.5, "xé"], "b": {}, "a": 2}"#.as_bytes()).unwrap();
    let Json::Obj(members) = doc else { panic!("no object") };
    assert_eq!(members.len(), 3);
    assert_eq!((members[0].0.as_str(), members[1].0.as_str()), ("a", "b"));
    let Json::Arr(items) = &members[0].1 else { panic!("no array") };
    assert!(matches!(items[0], Json::Null));
    assert!(matches!(items[1], Json::Bool(true)));
    assert!(matches!(items[2], Json::Number(Some(7))));
    assert!(matches!(items[3], Json::Number(None)));
    assert!(matches!(items[4], Json::Number(None)));
    assert!(matches!(&items[5], Json::Str(s) if s == "xé"));
    assert!(matches!(&members[1].1, Json::Obj(m) if m.is_empty()));
    assert!(matches!(members[2].1, Json::Number(Some(2))));
    assert!(parse(b"{").is_err());
}

#[test]
fn nesting_is_bounded() {
    let nested = |n: usize| format!("{}{}", "[".repeat(n), "]".repeat(n));
    assert!(parse(nested(254).as_bytes()).is_ok());
    let too_deep = Err("JSON is nested too deeply".to_string());
    let text_of = |data: &[u8]| parse(data).map(|_| ());
    assert_eq!(text_of(nested(255).as_bytes()), too_deep);
    assert_eq!(text_of("[".repeat(300_000).as_bytes()), too_deep);
    assert_eq!(text_of("{\"a\":".repeat(300_000).as_bytes()), too_deep);
    let quoted = format!("[\"{}\\\"[\"]", "[{".repeat(1000));
    assert!(parse(quoted.as_bytes()).is_ok(), "brackets in strings do not nest");
    let wide = format!("[{}1]", "[],".repeat(1000));
    assert!(parse(wide.as_bytes()).is_ok());
}

/// The four bytes after `\u` belong to the string, a quote among them too.
#[test]
fn escaped_numbers_hide_no_brackets() {
    let text_of = |data: &[u8]| parse(data).map(|_| ());
    let too_deep = Err("JSON is nested too deeply".to_string());
    for start in [r#"["\u"aaa","#, r#"["\u""""","#, r#"["\u\\\\","#, r#"{"\u"aaa":"#] {
        assert_eq!(text_of(format!("{start}{}", "[".repeat(300_000)).as_bytes()), too_deep, "{start}");
    }
    let quoted = format!(r#"["\u0061{}\u0062"]"#, "[{".repeat(1000));
    assert!(parse(quoted.as_bytes()).is_ok());
    let Ok(Json::Arr(items)) = parse(br#"[1, "\u0061"]"#) else { panic!("no array") };
    assert!(matches!(items[0], Json::Number(Some(1))));
    assert!(matches!(&items[1], Json::Str(s) if s == "a"));
    assert!(matches!(parse(br#""\u"bcd""#), Ok(Json::Garbled)));
}

#[test]
fn text_must_be_well_formed() {
    assert_eq!(parse(b"\"\xff\"").err().unwrap(), "Invalid UTF-8 characters in JSON");
    assert!(parse(b"[1] 2").is_err());
    assert!(parse(b"").is_err());
    assert!(parse(b"[1, 2").is_err() && parse(b"[[1, 2}]").is_err());
    assert!(parse(br#"[{"a": tru}]"#).is_err());
}

/// An escape of half a character matters only where the string is read.
#[test]
fn half_characters_are_refused_where_they_are_read() {
    let Ok(Json::Arr(items)) = parse(br#"["\ud800", "\ud83d\ude00", {"\ud800": 1}, "a\n\"b"]"#) else {
        panic!("no array")
    };
    assert!(matches!(items[0], Json::Garbled) && matches!(items[2], Json::Garbled));
    assert!(matches!(&items[1], Json::Str(s) if s == "\u{1f600}"));
    assert!(matches!(&items[3], Json::Str(s) if s == "a\n\"b"));
    let file = |blocks: &str| format!("{{{blocks} \"model\": {{\"vocab\": {{\"a\": 0}}}}}}");
    assert!(parse_tokenizer_json(file(r#""version": "\ud800","#).as_bytes()).is_ok());
    assert!(refusal(&file(r#""normalizer": {"type": "\ud800"},"#)).contains("`type`"));
}

#[test]
fn only_numbers_that_are_read_must_fit() {
    let doc = parse(b"[1e999, 18446744073709551615, 18446744073709551616, -0, 1.0]").unwrap();
    let Json::Arr(items) = doc else { panic!("no array") };
    assert!(matches!(items[0], Json::Number(None)));
    assert!(matches!(items[1], Json::Number(Some(u64::MAX))));
    assert!(items[2..].iter().all(|i| matches!(i, Json::Number(None))));
    let tj = parse_tokenizer_json(br#"{"model": {"vocab": {"a": 0}, "dropout": 1e999}}"#).unwrap();
    assert_eq!(tj.model.vocab.len(), 1);
    assert!(refusal(r#"{"model": {"vocab": {"a": 1e999}}}"#).contains("parse tokenizer JSON"));
    assert!(refusal(r#"{"model": {"vocab": {"a": 0}, "byte_fallback": 1e999}}"#).contains("byte_fallback"));
}

#[test]
fn model_fields_are_read() {
    let tj = parse_tokenizer_json(
        br###"{"model": {"type": "WordPiece", "vocab": {"a": 3, "b": 1, "a": 2},
            "merges": [["x", "y"], "p q r"], "unk_token": "u", "continuing_subword_prefix": null,
            "max_input_chars_per_word": 9, "ignore_merges": true, "other": [1]},
            "added_tokens": [{"id": 4, "content": "<s>", "rstrip": true, "normalized": true}]}"###,
    )
    .unwrap();
    let names: Vec<(&str, u32)> = tj.model.vocab.iter().map(|e| (e.0.as_str(), e.1 .0)).collect();
    assert_eq!(names, vec![("b", 1), ("a", 2)]);
    let merges: Vec<(&str, &str)> =
        tj.model.merges.iter().map(|m| (m.0.as_str(), m.1.as_str())).collect();
    assert_eq!(merges, vec![("x", "y"), ("p", "q r")]);
    assert!(!tj.model.byte_fallback);
    assert_eq!(tj.model.unk_token.as_deref(), Some("u"));
    assert_eq!(tj.model.continuing_subword_prefix, None);
    assert_eq!(tj.model.max_input_chars_per_word, Some(9));
    assert!(tj.model.ignore_merges);
    let t = &tj.added_tokens[0];
    assert_eq!((t.id, t.content.as_str()), (4, "<s>"));
    assert!(!t.special && !t.lstrip && t.rstrip && t.normalized);
    assert!(tj.pre_tokenizer.is_none() && tj.normalizer.is_none() && tj.decoder.is_none());
}

#[test]
fn records_may_be_arrays() {
    let tj = parse_tokenizer_json(
        br#"[["BPE", {"a": 0}, ["a b"], false], [[7, "<s>", false, true]], null,
            ["Strip", [], null, null, null, false]]"#,
    )
    .unwrap();
    assert_eq!(tj.model.merges[0], ("a".to_string(), "b".to_string()));
    assert_eq!(tj.added_tokens[0].id, 7);
    assert!(tj.added_tokens[0].lstrip && !tj.added_tokens[0].rstrip);
    assert_eq!(tj.normalizer.unwrap().strip_left, Some(false));
    assert!(refusal(r#"[["BPE", {}], [], null, null, null, null]"#).contains("`tokenizer`"));
}

#[test]
fn malformed_files_say_what_is_wrong() {
    let start = "Failed to parse tokenizer JSON: ";
    for (file, detail) in [
        (r#"{}"#, "missing field `model`"),
        (r#"{"model": {}}"#, "missing field `vocab`"),
        (r#"{"model": {"vocab": []}}"#, "expected an object for `vocab`"),
        (r#"{"model": {"vocab": {"a": -1}}}"#, "expected a number for `a`"),
        (r#"{"model": {"vocab": {"a": 4294967296}}}"#, "expected a number for `a`"),
        (r#"{"model": {"vocab": {}, "vocab": {}}}"#, "duplicate field `vocab`"),
        (r#"{"model": {"vocab": {}, "byte_fallback": null}}"#, "expected a boolean for `byte_fallback`"),
        (r#"{"model": {"vocab": {}, "merges": null}}"#, "expected an array for `merges`"),
        (r#"{"model": {"vocab": {}, "merges": ["ab"]}}"#, "invalid merge entry: \"ab\""),
        (r#"{"model": {"vocab": {}, "merges": [["a"]]}}"#, "expected a pair or a string in `merges`"),
        (r#"{"model": {"vocab": {}}, "added_tokens": [{"id": 1}]}"#, "missing field `content`"),
        (r#"{"model": {"vocab": {}}, "normalizer": {}}"#, "missing field `type`"),
        (r#"{"model": {"vocab": {}}, "decoder": 5}"#, "expected a record for `decoder`"),
        (r#"{"model": {"vocab": {}}, "pre_tokenizer": {"type": "Split", "pattern": {"Regex": 1}}}"#,
            "expected a string for `Regex`"),
    ] {
        assert_eq!(refusal(file), format!("{start}{detail}"), "{file}");
    }
    assert!(refusal("{").starts_with(start));
}

#[test]
fn families_are_told_by_their_fields() {
    let family = |s: &str| probe_model_family(s.as_bytes()).map_err(|e| e.message());
    assert_eq!(family(r#"{"model": {"type": "BPE", "unk_id": 3}}"#), Ok(ModelFamily::Bpe));
    assert_eq!(family(r#"{"model": {"type": "WordPiece"}}"#), Ok(ModelFamily::WordPiece));
    assert_eq!(family(r#"{"model": {"max_input_chars_per_word": 5}}"#), Ok(ModelFamily::WordPiece));
    assert_eq!(family(r#"{"model": null}"#), Ok(ModelFamily::Bpe));
    assert_eq!(family(r#"{"model": {"type": 5}}"#), Ok(ModelFamily::Bpe));
    assert_eq!(family("not json"), Ok(ModelFamily::Bpe));
    assert_eq!(
        family(r#"{"model": {"type": "WordLevel"}}"#),
        Err("Unsupported model type \"WordLevel\": gigatoken supports BPE tokenizers \
             (byte-level, or SentencePiece-style with byte_fallback) and WordPiece"
            .to_string())
    );
}

#[test]
fn pre_tokenizers_choose_a_scheme() {
    let scheme = |block: &str| {
        let tj = with_blocks(&format!("\"pre_tokenizer\": {block},"));
        detect_pretokenizer_type(&tj.pre_tokenizer).map_err(|e| e.message())
    };
    let split = |regex: &str| {
        let escaped = regex.replace('\\', "\\\\");
        format!(
            "{{\"type\": \"Sequence\", \"pretokenizers\": [{{\"type\": \"Split\", \"pattern\": {{\"Regex\": \"{escaped}\"}}}}, {{\"type\": \"ByteLevel\", \"use_regex\": false}}]}}"
        )
    };
    assert_eq!(scheme("null"), Ok(PretokenizerType::GPT2));
    assert_eq!(scheme(r#"{"type": "ByteLevel"}"#), Ok(PretokenizerType::GPT2));
    assert_eq!(scheme(r#"{"type": "ByteLevel", "use_regex": true}"#), Ok(PretokenizerType::GPT2));
    assert_eq!(
        scheme(r#"{"type": "ByteLevel", "use_regex": false}"#),
        Ok(PretokenizerType::Superword)
    );
    assert_eq!(
        scheme(r#"{"type": "Sequence", "pretokenizers": [{"type": "BertPreTokenizer"}]}"#),
        Ok(PretokenizerType::Bert)
    );
    assert_eq!(scheme(&split(GPT2_REGEX)), Ok(PretokenizerType::GPT2));
    assert_eq!(scheme(&split(STAGE1_REGEX)), Ok(PretokenizerType::SuperBPEStage1));
    assert_eq!(scheme(&split(SUPERWORD_BOUNDED_REGEX)), Ok(PretokenizerType::SuperwordBounded));
    assert_eq!(
        scheme(&split("a+")),
        Err("Unknown pre_tokenizer Split regexes, no fast pretokenizer for: [\"a+\"]".to_string())
    );
    assert_eq!(
        scheme(r#"{"type": "Whitespace"}"#),
        Err("Unsupported pre_tokenizer type: Whitespace (no Split regex found)".to_string())
    );
}

#[test]
fn leading_spaces_are_asked_for_anywhere() {
    let asked = |block: &str| {
        detect_add_prefix_space(&with_blocks(&format!("\"pre_tokenizer\": {block},")).pre_tokenizer)
    };
    assert!(!asked("null"));
    assert!(!asked(r#"{"type": "ByteLevel"}"#));
    assert!(!asked(r#"{"type": "Metaspace", "add_prefix_space": true}"#));
    assert!(asked(r#"{"type": "ByteLevel", "add_prefix_space": true}"#));
    assert!(asked(
        r#"{"type": "Sequence", "pretokenizers": [{"type": "ByteLevel", "add_prefix_space": true}]}"#
    ));
}

#[test]
fn only_composition_is_accepted() {
    let nfc = |block: &str| {
        let tj = with_blocks(&format!("\"normalizer\": {block},"));
        detect_nfc_normalizer(&tj.normalizer).map_err(|e| e.message())
    };
    assert_eq!(nfc("null"), Ok(false));
    assert_eq!(nfc(r#"{"type": "NFC"}"#), Ok(true));
    assert_eq!(nfc(r#"{"type": "Sequence", "normalizers": []}"#), Ok(false));
    assert_eq!(nfc(r#"{"type": "Sequence", "normalizers": [{"type": "NFC"}]}"#), Ok(true));
    assert_eq!(
        nfc(r#"{"type": "Sequence", "normalizers": [{"type": "NFC"}, {"type": "NFKC"}]}"#),
        Err("Unsupported normalizer type: NFKC".to_string())
    );
}

#[test]
fn bert_normalizers_have_defaults() {
    let bert = |block: &str| {
        let tj = with_blocks(&format!("\"normalizer\": {block},"));
        parse_bert_normalizer(&tj.normalizer).map(|n| n.is_some()).map_err(|e| e.message())
    };
    assert_eq!(bert("null"), Ok(false));
    assert_eq!(bert(r#"{"type": "BertNormalizer"}"#), Ok(true));
    assert_eq!(bert(r#"{"type": "Sequence", "normalizers": [{"type": "BertNormalizer"}]}"#), Ok(true));
    assert_eq!(
        bert(r#"{"type": "BertNormalizer", "clean_text": false, "handle_chinese_chars": false, "lowercase": false}"#),
        Ok(false)
    );
    assert_eq!(
        bert(r#"{"type": "BertNormalizer", "clean_text": false, "handle_chinese_chars": false, "lowercase": false, "strip_accents": true}"#),
        Ok(true)
    );
    assert_eq!(
        bert(r#"{"type": "NFC"}"#),
        Err("Unsupported normalizer type for WordPiece tokenizers: NFC".to_string())
    );
    let after = r#"{"type": "Sequence", "normalizers": [{"type": "BertNormalizer", "lowercase": true}, {"type": "NFC"}]}"#;
    assert_eq!(
        bert(after),
        Err("Unsupported normalizer type for WordPiece tokenizers: NFC".to_string())
    );
    let nested = r#"{"type": "Sequence", "normalizers": [{"type": "Sequence", "normalizers": [{"type": "BertNormalizer"}]},
        {"type": "Sequence", "normalizers": [{"type": "Strip"}]}, {"type": "NFC"}]}"#;
    assert_eq!(
        bert(nested),
        Err("Unsupported normalizer type for WordPiece tokenizers: Strip".to_string())
    );
    let twice = r#"{"type": "Sequence", "normalizers": [{"type": "BertNormalizer", "clean_text": false,
        "handle_chinese_chars": false, "lowercase": false}, {"type": "BertNormalizer"}]}"#;
    assert_eq!(bert(twice), Ok(false), "the first block counts");
}

#[test]
fn decoders_are_searched_for() {
    let decoder = |block: &str| {
        let tj = with_blocks(&format!("\"decoder\": {block},"));
        parse_wordpiece_decoder(&tj.decoder).map(|d| (d.prefix, d.cleanup))
    };
    assert_eq!(decoder("null"), None);
    assert_eq!(decoder(r#"{"type": "ByteLevel"}"#), None);
    assert_eq!(decoder(r#"{"type": "WordPiece"}"#), Some(("##".to_string(), true)));
    assert_eq!(
        decoder(r#"{"type": "Sequence", "decoders": [{"type": "Fuse"}, {"type": "WordPiece", "prefix": "@@", "cleanup": false}]}"#),
        Some(("@@".to_string(), false))
    );
}

fn steps(block: &str) -> Result<Vec<NormOp>, String> {
    let tj = with_blocks(&format!("\"normalizer\": {block},"));
    let mut out = Vec::new();
    parse_sp_normalizer(&tj.normalizer.unwrap(), &mut out).map_err(|e| e.message())?;
    Ok(out)
}

/// A refused normalizer leaves the steps that were there.
#[test]
fn earlier_steps_stay_in_front() {
    let block = r#"{"type": "Sequence", "normalizers": [{"type": "Strip"}, {"type": "NFC"}]}"#;
    let tj = with_blocks(&format!("\"normalizer\": {block},"));
    let mut out = vec![NormOp::Prepend("x".to_string())];
    assert!(parse_sp_normalizer(&tj.normalizer.unwrap(), &mut out).is_err());
    assert!(matches!(&out[0], NormOp::Prepend(p) if p == "x"));
}

#[test]
fn sentencepiece_normalizers_become_steps() {
    let ops = steps(
        r#"{"type": "Sequence", "normalizers": [{"type": "Prepend", "prepend": "_"},
            {"type": "Replace", "pattern": {"String": " "}, "content": "_"},
            {"type": "Replace", "pattern": {"Regex": " {2,}"}, "content": " "},
            {"type": "Strip", "strip_left": false},
            {"type": "Precompiled", "precompiled_charsmap": "AAAAAA=="}]}"#,
    )
    .unwrap();
    assert_eq!(ops.len(), 5);
    assert!(matches!(&ops[0], NormOp::Prepend(p) if p == "_"));
    assert!(matches!(&ops[1], NormOp::Replace { pattern, content } if pattern == " " && content == "_"));
    assert!(matches!(&ops[2], NormOp::CollapseSpaces { content } if content == " "));
    assert!(matches!(ops[3], NormOp::Strip { left: false, right: true }));
    assert!(matches!(ops[4], NormOp::Precompiled(_)));
    for (block, reason) in [
        (r#"{"type": "Prepend"}"#, "Prepend normalizer without a `prepend` string"),
        (r#"{"type": "Replace"}"#, "Replace normalizer without a `content` string"),
        (r#"{"type": "Replace", "content": "x"}"#, "Replace normalizer without a pattern"),
        (r#"{"type": "Replace", "content": "x", "pattern": {}}"#, "Replace normalizer without a pattern"),
        (r#"{"type": "Replace", "content": "x", "pattern": {"Regex": "a"}}"#,
            "Unsupported Replace normalizer regex: \"a\" (only \" {2,}\" is supported)"),
        (r#"{"type": "Precompiled"}"#, "Precompiled normalizer without a `precompiled_charsmap`"),
        (r#"{"type": "Precompiled", "precompiled_charsmap": "!"}"#,
            "Failed to base64-decode precompiled_charsmap"),
        (r#"{"type": "Precompiled", "precompiled_charsmap": "AAAA"}"#,
            "Failed to parse precompiled_charsmap: Cannot parse precompiled_charsmap"),
        (r#"{"type": "NFKC"}"#, "Unsupported normalizer type for SentencePiece tokenizers: NFKC"),
    ] {
        assert_eq!(steps(block).err().as_deref(), Some(reason), "{block}");
    }
}

#[test]
fn serialized_maps_are_checked() {
    assert!(matches!(charsmap_op(Some(vec![0, 0, 0, 0])), Ok(NormOp::Precompiled(_))));
    assert!(matches!(charsmap_op(Some(vec![4, 0, 0, 0, 9, 9, 9, 9, b'x'])), Ok(NormOp::Precompiled(_))));
    let reason = "Failed to parse precompiled_charsmap: Cannot parse precompiled_charsmap";
    for bytes in [
        vec![0u8, 0, 0],
        vec![4, 0, 0, 0],
        vec![255, 255, 255, 255],
        vec![0, 0, 0, 0, 0xff],
    ] {
        assert_eq!(charsmap_op(Some(bytes)).err().map(|e| e.message()).as_deref(), Some(reason));
    }
    assert_eq!(
        charsmap_op(None).err().map(|e| e.message()).as_deref(),
        Some("Failed to base64-decode precompiled_charsmap")
    );
}

#[test]
fn metaspace_settings_are_read() {
    let metaspace = |block: &str, ops: &Vec<NormOp>| {
        let tj = with_blocks(&format!("\"pre_tokenizer\": {block},"));
        parse_sp_metaspace(&tj.pre_tokenizer, ops).map_err(|e| e.message())
    };
    let none: Vec<NormOp> = Vec::new();
    let setting = |prepend, split| Ok(Some(Metaspace { prepend, split }));
    assert_eq!(metaspace("null", &none), Ok(None));
    assert_eq!(metaspace(r#"{"type": "Metaspace"}"#, &none), setting(PrependScheme::Always, true));
    assert_eq!(
        metaspace(r#"{"type": "Metaspace", "add_prefix_space": false, "split": false}"#, &none),
        setting(PrependScheme::Never, false)
    );
    assert_eq!(
        metaspace(r#"{"type": "Sequence", "pretokenizers": [{"type": "Metaspace", "prepend_scheme": "first", "replacement": "▁"}]}"#, &none),
        setting(PrependScheme::First, true)
    );
    assert_eq!(
        metaspace(r#"{"type": "Metaspace", "prepend_scheme": "last"}"#, &none),
        Err("Unsupported Metaspace prepend_scheme: last".to_string())
    );
    assert_eq!(
        metaspace(r#"{"type": "Metaspace", "replacement": "_"}"#, &none),
        Err("Unsupported Metaspace replacement: Some(\"_\") (expected \"▁\")".to_string())
    );
    let split = r#"{"type": "Split", "pattern": {"String": " "}, "behavior": "MergedWithPrevious"}"#;
    let refused = Err("Unsupported pre_tokenizer type for SentencePiece tokenizers: Split".to_string());
    assert_eq!(metaspace(split, &none), refused);
    let replaces = vec![NormOp::Replace { pattern: " ".to_string(), content: "▁".to_string() }];
    assert_eq!(metaspace(split, &replaces), Ok(None));
    let keeps = vec![NormOp::Replace { pattern: " ".to_string(), content: "_ ".to_string() }];
    assert_eq!(metaspace(split, &keeps), refused);
}

#[test]
fn byte_fallback_tokens_are_recognised() {
    assert_eq!(parse_byte_fallback("<0x41>"), Some(0x41));
    assert_eq!(parse_byte_fallback("<0xfe>"), Some(0xfe));
    assert_eq!(parse_byte_fallback("<0x+5>"), None);
    assert_eq!(parse_byte_fallback("<0x+F>"), None);
    assert_eq!(parse_byte_fallback("<0x5+>"), None);
    assert_eq!(parse_byte_fallback("<0xG0>"), None);
    assert_eq!(parse_byte_fallback("<0x041>"), None);
    assert_eq!(parse_byte_fallback("<0xé>"), None);
    assert_eq!(token_str_to_bytes("<0xé>"), "<0xé>".as_bytes());
}

#[test]
fn byte_level_text_round_trips() {
    let (b2u, u2b) = build_byte_unicode_tables();
    assert_eq!(b2u.len(), 256);
    assert_eq!((b2u[b'!' as usize], b2u[0], b2u[32], b2u[127], b2u[160], b2u[173], b2u[255]),
        ('!', 'Ā', 'Ġ', 'ġ', 'ł', 'Ń', 'ÿ'));
    let all: Vec<u8> = (0..=255).collect();
    let text: String = all.iter().map(|&b| b2u[b as usize]).collect();
    assert_eq!(unicode_to_bytes(&text, &u2b), all);
    assert_eq!(unicode_to_bytes("a b", &u2b), b"a b");
    assert_eq!(unicode_to_bytes("Ġé", &u2b), vec![32, 0xe9]);
    assert_eq!(unicode_to_bytes("Ġ好", &u2b), "Ġ好".as_bytes());
}

fn sentencepiece() -> SentencePieceBPE {
    let file = r#"{"model": {"type": "BPE", "byte_fallback": true,
        "vocab": {"<unk>": 0, "A": 2, "<0x41>": 1, "B": 3, "AB": 4, "▁": 7},
        "merges": [["A", "?"], ["A", "B"], ["A", "B"]]},
        "normalizer": {"type": "Prepend", "prepend": "▁"},
        "added_tokens": [{"id": 9, "content": "<s>"}, {"id": 5, "content": "<n>", "normalized": true, "lstrip": true}]}"#;
    load_hf_sentencepiece(file.as_bytes()).unwrap()
}

#[test]
fn sentencepiece_files_are_built() {
    let m = sentencepiece();
    let entry = |id: usize| String::from_utf8(m.vocab[id].clone()).unwrap();
    assert_eq!(m.vocab.len(), 10);
    assert_eq!((entry(1), entry(2), entry(4), entry(5), entry(6), entry(7), entry(9)),
        ("A".into(), "A".into(), "AB".into(), "<n>".into(), "".into(), "▁".into(), "<s>".into()));
    assert_eq!(m.vocab_inv.get(b"A"), Some(2), "the character token counts");
    assert_eq!(m.vocab_inv.get(b"<n>"), None);
    assert_eq!(m.byte_fallback_ids[0x41], Some(TokenId(1)));
    assert_eq!(m.byte_fallback_ids[0x42], None);
    assert_eq!(m.merges.get(2, 3), Some((4, 1)), "ranked by the place in the list");
    assert_eq!(m.merges.len(), 1);
    assert_eq!(m.added_tokens.len(), 1);
    assert_eq!((m.added_tokens[0].content.as_str(), m.added_tokens[0].id), ("<s>", TokenId(9)));
    assert_eq!(m.norm_added_tokens.len(), 1);
    assert_eq!(m.norm_added_tokens[0].content, "<n>");
    assert!(m.norm_added_tokens[0].lstrip && !m.norm_added_tokens[0].rstrip);
    assert!(matches!(&m.norm_ops[..], [NormOp::Prepend(p)] if p == "▁"));
    assert_eq!(m.metaspace, None);
}

/// Both ways of loading give the same tables, and every string its number.
#[test]
fn sentencepiece_tokens_keep_their_numbers() {
    let file = r#"{"model": {"type": "BPE", "byte_fallback": true, "vocab":
        {"b": 7, "<0x41>": 2, "\u2581a": 4, "A": 3, "<0x+1>": 0}, "merges": []}}"#;
    let one = load_hf_sentencepiece(file.as_bytes()).unwrap();
    let Ok(HfTokenizer::SentencePiece(other)) = load_hf_slice(file.as_bytes()) else {
        panic!("no SentencePiece tokenizer")
    };
    assert_eq!(one.vocab, other.vocab);
    assert_eq!(one.byte_fallback_ids, other.byte_fallback_ids);
    assert_eq!(one.vocab[7], b"b");
    assert_eq!(one.vocab[2], b"A");
    assert_eq!(one.vocab[4], "\u{2581}a".as_bytes());
    assert_eq!(one.vocab[3], b"A");
    assert_eq!(one.vocab[0], b"<0x+1>");
    let plain = file.replace("true", "false");
    assert!(load_hf_sentencepiece(plain.as_bytes()).is_err());
    assert!(!matches!(load_hf_slice(plain.as_bytes()), Ok(HfTokenizer::SentencePiece(_))));
}

#[test]
fn sentencepiece_files_are_refused() {
    let reason = |file: &str| load_hf_sentencepiece(file.as_bytes()).err().unwrap().message();
    assert_eq!(
        reason(r#"{"model": {"type": "WordPiece", "vocab": {}}}"#),
        "Unsupported model type: WordPiece (expected BPE)"
    );
    assert_eq!(reason(r#"{"model": {"vocab": {}}}"#), "Only byte_fallback tokenizers are supported");
    assert_eq!(
        reason(r#"{"model": {"vocab": {"<0xfe>": 0}, "byte_fallback": true}}"#),
        "byte_fallback is set but the vocab has no <0xHH> byte tokens"
    );
}

#[test]
fn the_model_decides_what_is_loaded() {
    let file = r#"{"model": {"byte_fallback": true, "vocab": {"<0x41>": 0}}}"#;
    assert!(matches!(load_hf_slice(file.as_bytes()), Ok(HfTokenizer::SentencePiece(_))));
    assert_eq!(
        build_bpe_or_wordpiece(file.as_bytes()).err().unwrap().message(),
        "byte_fallback tokenizers should use load_hf_sentencepiece instead"
    );
    let word = r#"{"model": {"type": "WordPiece", "unk_token": "u", "vocab": {"u": 0}}}"#;
    let t = loaded(word);
    assert_eq!(t.wordpiece().unwrap().unk_id(), TokenId(0));
    assert_eq!(t.wordpiece().unwrap().prefix(), "##");
    assert!(loaded(&byte_level("", "", "", "")).wordpiece().is_none());
}

#[test]
fn byte_level_files_are_refused() {
    assert_eq!(load_refusal(r#"{"model": {"vocab": {"a": 0}}}"#), "no token for byte 0");
    assert_eq!(
        load_refusal(&byte_level("", "", "\"normalizer\": {\"type\": \"NFD\"},", "")),
        "Unsupported normalizer type: NFD"
    );
    assert_eq!(
        load_refusal(&byte_level("", "", "\"pre_tokenizer\": {\"type\": \"Digits\"},", "")),
        "Unsupported pre_tokenizer type: Digits (no Split regex found)"
    );
}

#[test]
fn wordpiece_files_are_refused() {
    assert_eq!(
        load_refusal(r#"{"model": {"type": "WordPiece", "vocab": {"a": 0}}}"#),
        "WordPiece model without an `unk_token`"
    );
    let missing = load_hf_slice(br#"{"model": {"type": "WordPiece", "unk_token": "u", "vocab": {"a": 0}}}"#);
    assert!(matches!(&missing, Err(LoadError::MissingUnkToken { unk_token }) if unk_token == "u"));
    assert_eq!(
        missing.err().unwrap().message(),
        "WordPiece vocab does not contain its unk_token \"u\""
    );
}

#[test]
fn composed_text_is_encoded() {
    let plain = loaded(&byte_level("", "", "", ""));
    assert_eq!(tokens(&plain, "e\u{301}"), vec![0x65, 0xcc, 0x81]);
    let nfc = loaded(&byte_level("", "", "\"normalizer\": {\"type\": \"NFC\"},", ""));
    assert_eq!(tokens(&nfc, "e\u{301}"), vec![0xc3, 0xa9]);
    let mut out = Vec::new();
    nfc.encode_normalized("e\u{301}".as_bytes(), &mut out);
    assert_eq!(out, vec![0x65, 0xcc, 0x81]);
}

#[test]
fn whole_entries_come_before_merges() {
    let merges = r#"["a", "b"]"#;
    let extra = r#", "ab": 256, "abc": 257"#;
    let by_merges = loaded(&byte_level(extra, merges, "", ""));
    assert_eq!(tokens(&by_merges, "abc"), vec![256, 99]);
    let by_entry = loaded(&byte_level(extra, merges, "", "\"ignore_merges\": true,"));
    assert_eq!(tokens(&by_entry, "abc"), vec![257]);
    assert_eq!(tokens(&by_entry, "abcd"), vec![256, 99, 100]);
}

#[test]
fn added_tokens_extend_the_vocabulary() {
    let t = loaded(&byte_level(
        "",
        "",
        r#""added_tokens": [{"id": 258, "content": "<a>"}, {"id": 97, "content": "<b>"}, {"id": 258, "content": "<c>"}],"#,
        "",
    ));
    assert_eq!(t.vocab.len(), 259);
    assert_eq!(t.vocab[256], b"");
    assert_eq!(t.vocab[258], b"<a>");
    assert_eq!(t.vocab[97], b"a");
}

#[test]
fn loaded_tokenizers_decode_what_they_encode() {
    let t = loaded(&byte_level(
        r#", "he": 256, "ll": 257, "Ġw": 258, "hell": 259, "<e>": 260"#,
        r#"["h", "e"], ["l", "l"], ["Ġ", "w"], ["he", "ll"]"#,
        r#""added_tokens": [{"id": 260, "content": "<e>"}],"#,
        "",
    ));
    for text in ["", "hello world", "<e>hell<e><e> 好 \u{301}\r\n", "<e", "a\u{0}b"] {
        let ids: Vec<TokenId> = tokens(&t, text).into_iter().map(TokenId).collect();
        assert_eq!(t.decode(&ids), text.as_bytes(), "{text:?}");
    }
    assert_eq!(tokens(&t, "hello w"), vec![259, 111, 258]);
}

#[test]
fn mergeable_ranks_are_dense() {
    let ranks = |file: &str| {
        gpt2_mergeable_ranks(&parse_tokenizer_json(file.as_bytes()).unwrap()).map_err(|e| e.message())
    };
    assert_eq!(
        ranks(r#"{"model": {"vocab": {"<e>": 2, "Ġ": 1, "b": 0}}, "added_tokens": [{"id": 2, "content": "<e>"}]}"#),
        Ok(vec![b"b".to_vec(), b" ".to_vec()])
    );
    assert_eq!(
        ranks(r#"{"model": {"vocab": {"b": 2, "a": 0}}}"#),
        Err("GPT-2 rank 2 at position 1: mergeable ranks must be dense".to_string())
    );
}

#[test]
fn superword_files_get_a_plan() {
    let extra = r#", "ab": 256, "Ġc": 257, "abĠc": 258"#;
    let merges = r#"["a", "b"], ["Ġ", "c"], ["ab", "Ġc"]"#;
    let whole = "\"pre_tokenizer\": {\"type\": \"ByteLevel\", \"use_regex\": false},";
    let t = loaded(&byte_level(extra, merges, whole, ""));
    assert_eq!(t.pretokenizer_type(), PretokenizerType::Superword);
    assert!(t.plan.is_some());
    for text in ["ab cab c", "ab c", "c ab  cc", "", "12 ab c!"] {
        assert_eq!(t.encode_two_level(text.as_bytes()), Some(tokens(&t, text)), "{text:?}");
    }
    assert_eq!(tokens(&t, "ab c"), vec![258]);
    // Split at spaces there are no superwords, and whole entries need no merges.
    assert!(loaded(&byte_level(extra, merges, "", "")).plan.is_none());
    assert!(loaded(&byte_level(extra, merges, whole, "\"ignore_merges\": true,")).plan.is_none());
    let reversed = r#"["ab", "Ġc"], ["a", "b"], ["Ġ", "c"]"#;
    assert!(loaded(&byte_level(extra, reversed, whole, "")).plan.is_none());
}

#[test]
fn the_first_merge_of_a_pair_counts() {
    let t = loaded(&byte_level(r#", "ab": 256"#, r#"["a", "b"], ["a", "b"], ["a", "zz"]"#, "", ""));
    let Model::Bpe { merges, id_ranked, .. } = &t.model else { panic!("no merges") };
    let table: &MergeTable = merges;
    assert_eq!(table.len(), 1);
    assert_eq!(table.get(97, 98), Some((256, 256)));
    assert!(*id_ranked);
}
