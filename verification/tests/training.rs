//! What training decides.

use gigatoken::pretokenize::options::PretokenizerType;
use gigatoken::train::{
    bpe_result_in_order, fetch_error, parse_tie_breaking, plan_train_bpe, plan_train_superbpe,
    require_default_pretokenizer, BPEResult, CallError, ErrorKind, FetchFailure, Input, Source,
    TieBreaking, TrainPlan,
};

fn failure(res: Result<TrainPlan, CallError>) -> (ErrorKind, String) {
    match res {
        Ok(plan) => panic!("{plan:?}"),
        Err(e) => (e.kind, e.message),
    }
}

fn path(extension: &str) -> Input {
    Input::Path { extension: Some(extension.to_string()) }
}

#[test]
fn tie_breaking_has_three_names() {
    assert_eq!(parse_tie_breaking("huggingface").unwrap(), TieBreaking::HuggingFace);
    assert_eq!(parse_tie_breaking("raw_token_ids").unwrap(), TieBreaking::RawTokenIds);
    assert_eq!(parse_tie_breaking("assembled_bytes").unwrap(), TieBreaking::AssembledBytes);
    let e = parse_tie_breaking("x\"").unwrap_err();
    assert_eq!(e.kind, ErrorKind::Value);
    assert_eq!(
        e.message,
        "tie_breaking must be 'huggingface', 'raw_token_ids', or 'assembled_bytes', got \"x\\\"\""
    );
}

#[test]
fn only_the_default_scheme_is_counted_in_files() {
    assert!(require_default_pretokenizer(PretokenizerType::GPT2, "x").is_ok());
    let e = require_default_pretokenizer(PretokenizerType::Bert, "FileSource").unwrap_err();
    assert_eq!(e.kind, ErrorKind::NotImplemented);
    assert_eq!(
        e.message,
        "pretokenizer must be 'gpt2' for FileSource; pass bytes or a single text file path to train with another scheme"
    );
}

#[test]
fn inputs_choose_a_source() {
    let plan = |input: &Input, scheme| plan_train_bpe(input, 300, "huggingface", Ok(scheme));
    let gpt2 = PretokenizerType::GPT2;
    let stage1 = PretokenizerType::SuperBPEStage1;
    assert!(matches!(plan(&Input::FileSource, gpt2).unwrap().source, Source::FileSource));
    assert!(matches!(plan(&Input::Bytes, stage1).unwrap().source, Source::Bytes));
    assert!(matches!(plan(&path("txt"), stage1).unwrap().source, Source::TextFile));
    assert!(matches!(plan(&Input::Path { extension: None }, gpt2).unwrap().source, Source::TextFile));
    assert!(matches!(plan(&path("parquet"), gpt2).unwrap().source, Source::Parquet { column } if column == "text"));
    assert_eq!(plan(&Input::Bytes, stage1).unwrap().scheme, stage1);
    assert_eq!(failure(plan(&Input::FileSource, stage1)).0, ErrorKind::NotImplemented);
    assert!(failure(plan(&path("parquet"), stage1)).1.contains("for parquet input;"));
    assert_eq!(
        failure(plan(&Input::Other, gpt2)),
        (ErrorKind::Type, "in_data must be bytes, a path, or a FileSource".to_string())
    );
}

#[test]
fn names_are_checked_before_the_input() {
    let unknown = || {
        Err(CallError { kind: ErrorKind::Value, message: "no such scheme".to_string() })
    };
    assert!(failure(plan_train_bpe(&Input::Other, 300, "x", unknown())).1.starts_with("tie_breaking"));
    assert_eq!(failure(plan_train_bpe(&Input::Other, 300, "huggingface", unknown())).1, "no such scheme");
    assert!(failure(plan_train_superbpe(&Input::Other, 300, 301, "x", unknown())).1.starts_with("transition"));
    assert!(failure(plan_train_superbpe(&Input::Other, 300, 300, "x", unknown())).1.starts_with("tie_breaking"));
    assert_eq!(
        failure(plan_train_superbpe(&Input::Other, 300, 300, "huggingface", unknown())).1,
        "no such scheme"
    );
}

#[test]
fn two_stages_read_a_text_twice() {
    let plan = |input: &Input, point| {
        plan_train_superbpe(input, 300, point, "raw_token_ids", Ok(PretokenizerType::GPT2))
    };
    let ok = plan(&Input::Bytes, 300).unwrap();
    assert_eq!(ok.tie_breaking, TieBreaking::RawTokenIds);
    assert!(matches!(ok.source, Source::Bytes));
    assert!(matches!(plan(&path("md"), 0).unwrap().source, Source::TextFile));
    assert_eq!(
        failure(plan(&Input::Bytes, 301)),
        (ErrorKind::Value, "transition_point (301) must be <= vocab_size (300)".to_string())
    );
    assert_eq!(
        failure(plan(&path("parquet"), 5)),
        (
            ErrorKind::NotImplemented,
            "train_superbpe does not support parquet input; pass bytes or a text file path".to_string()
        )
    );
    for input in [Input::FileSource, Input::Other] {
        assert_eq!(
            failure(plan(&input, 5)),
            (ErrorKind::Type, "train_superbpe in_data must be bytes or a text file path".to_string())
        );
    }
}

#[test]
fn entries_come_out_in_order() {
    let result = BPEResult {
        vocab: vec![(2, b"c".to_vec()), (0, b"a".to_vec()), (1, b"b".to_vec()), (0, b"z".to_vec())],
        merges: vec![(b"b".to_vec(), b"a".to_vec()), (b"a".to_vec(), b"a".to_vec())],
    };
    let res = bpe_result_in_order(result);
    assert_eq!(
        res.vocab,
        vec![(0, b"a".to_vec()), (0, b"z".to_vec()), (1, b"b".to_vec()), (2, b"c".to_vec())]
    );
    assert_eq!(res.merges[0].0, b"b");
}

#[test]
fn failed_fetches_are_reported_by_cause() {
    let e = fetch_error(FetchFailure::NotFound { message: "a".to_string() });
    assert_eq!((e.kind, e.message.as_str()), (ErrorKind::FileNotFound, "a"));
    let e = fetch_error(FetchFailure::Unauthorized { message: "b".to_string() });
    assert_eq!((e.kind, e.message.as_str()), (ErrorKind::Permission, "b"));
    let e = fetch_error(FetchFailure::Other { chain: "c: d".to_string() });
    assert_eq!((e.kind, e.message.as_str()), (ErrorKind::Runtime, "c: d"));
}
