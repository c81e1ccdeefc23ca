//! What the training entry points decide before and after training.

use crate::order;
use crate::pretokenize::options::PretokenizerType;
use crate::text;
use vstd::prelude::*;

verus! {

/// The kinds of errors that callers tell apart.
#[derive(Clone, Copy, Debug, PartialEq, Eq, Structural)]
pub enum ErrorKind {
    Value,
    NotImplemented,
    Type,
    FileNotFound,
    Permission,
    Runtime,
}

/// An error for the caller.
#[derive(Debug)]
pub struct CallError {
    pub kind: ErrorKind,
    pub message: String,
}

impl CallError {
    /// The error as a mathematical value.
    pub open spec fn view(&self) -> (ErrorKind, Seq<char>) {
        (self.kind, self.message@)
    }
}

/// How ties between equally frequent pairs are broken.
#[derive(Clone, Copy, Debug, PartialEq, Eq, Structural)]
pub enum TieBreaking {
    HuggingFace,
    RawTokenIds,
    AssembledBytes,
}

/// What the caller hands in to train on.
#[derive(Debug)]
pub enum Input {
    /// A source of several files.
    FileSource,
    /// A text in memory.
    Bytes,
    /// The path of a file, by its extension.
    Path { extension: Option<String> },
    /// Anything else.
    Other,
}

/// Where the text comes from.
#[derive(Debug)]
pub enum Source {
    FileSource,
    Parquet { column: String },
    Bytes,
    TextFile,
}

/// Where the text comes from, as a mathematical value.
pub enum Origin {
    FileSource,
    Parquet { column: Seq<char> },
    Bytes,
    TextFile,
}

impl Source {
    /// The source as a mathematical value.
    pub open spec fn view(&self) -> Origin {
        match self {
            Source::FileSource => Origin::FileSource,
            Source::Parquet { column } => Origin::Parquet { column: column@ },
            Source::Bytes => Origin::Bytes,
            Source::TextFile => Origin::TextFile,
        }
    }
}

/// What training is to do.
#[derive(Debug)]
pub struct TrainPlan {
    pub tie_breaking: TieBreaking,
    pub scheme: PretokenizerType,
    pub source: Source,
}

/// The way of breaking ties that has a name.
pub open spec fn tie_breaking_named(s: Seq<char>) -> Result<TieBreaking, (ErrorKind, Seq<char>)> {
    if s == "huggingface"@ {
        Ok(TieBreaking::HuggingFace)
    } else if s == "raw_token_ids"@ {
        Ok(TieBreaking::RawTokenIds)
    } else if s == "assembled_bytes"@ {
        Ok(TieBreaking::AssembledBytes)
    } else {
        Err(
            (
                ErrorKind::Value,
                "tie_breaking must be 'huggingface', 'raw_token_ids', or 'assembled_bytes', got "@
                    + text::debug_form(s),
            ),
        )
    }
}

/// The way of breaking ties that has a name.
pub fn parse_tie_breaking(s: &str) -> (res: Result<TieBreaking, CallError>)
    ensures
        match res {
            Ok(t) => tie_breaking_named(s@) == Ok::<TieBreaking, (ErrorKind, Seq<char>)>(t),
            Err(e) => tie_breaking_named(s@) == Err::<TieBreaking, (ErrorKind, Seq<char>)>(e@),
        },
{
    if text::same(s, "huggingface") {
        Ok(TieBreaking::HuggingFace)
    } else if text::same(s, "raw_token_ids") {
        Ok(TieBreaking::RawTokenIds)
    } else if text::same(s, "assembled_bytes") {
        Ok(TieBreaking::AssembledBytes)
    } else {
        let shown = text::quoted(s);
        Err(
            CallError {
                kind: ErrorKind::Value,
                message: text::join(
                    "tie_breaking must be 'huggingface', 'raw_token_ids', or 'assembled_bytes', got ",
                    shown.as_str(),
                ),
            },
        )
    }
}

/// The error on a scheme that an input cannot be pretokenized with.
pub open spec fn scheme_fault(scheme: PretokenizerType, what: Seq<char>) -> Option<
    (ErrorKind, Seq<char>),
> {
    if scheme == PretokenizerType::GPT2 {
        None
    } else {
        Some(
            (
                ErrorKind::NotImplemented,
                "pretokenizer must be 'gpt2' for "@ + what
                    + "; pass bytes or a single text file path to train with another scheme"@,
            ),
        )
    }
}

/// Refuses a scheme other than GPT-2's on an input that is always pretokenized
/// with it. To go on would train a tokenizer that disagrees with its own
/// pretokenizer.
pub fn require_default_pretokenizer(scheme: PretokenizerType, what: &str) -> (res: Result<
    (),
    CallError,
>)
    ensures
        match res {
            Ok(_) => scheme_fault(scheme, what@) is None,
            Err(e) => scheme_fault(scheme, what@) == Some(e@),
        },
{
    if scheme == PretokenizerType::GPT2 {
        return Ok(());
    }
    let named = text::join("pretokenizer must be 'gpt2' for ", what);
    Err(
        CallError {
            kind: ErrorKind::NotImplemented,
            message: text::join(
                named.as_str(),
                "; pass bytes or a single text file path to train with another scheme",
            ),
        },
    )
}

/// Whether a path is that of a parquet file.
pub open spec fn is_parquet(extension: Option<String>) -> bool {
    extension matches Some(e) && e@ == "parquet"@
}

fn parquet(extension: &Option<String>) -> (res: bool)
    ensures
        res == is_parquet(*extension),
{
    match extension {
        Some(e) => text::same(e.as_str(), "parquet"),
        None => false,
    }
}

/// Where the text of a training run comes from, or why the input is refused.
pub open spec fn bpe_origin(input: Input, scheme: PretokenizerType) -> Result<
    Origin,
    (ErrorKind, Seq<char>),
> {
    match input {
        Input::FileSource => match scheme_fault(scheme, "FileSource"@) {
            Some(e) => Err(e),
            None => Ok(Origin::FileSource),
        },
        Input::Bytes => Ok(Origin::Bytes),
        Input::Path { extension } => if is_parquet(extension) {
            match scheme_fault(scheme, "parquet input"@) {
                Some(e) => Err(e),
                None => Ok(Origin::Parquet { column: "text"@ }),
            }
        } else {
            Ok(Origin::TextFile)
        },
        Input::Other => Err(
            (ErrorKind::Type, "in_data must be bytes, a path, or a FileSource"@),
        ),
    }
}

/// Plans a training run, with the scheme that the caller's name for it gave. The
/// tie-breaking is checked first, then the scheme, then the input. A parquet file
/// is read by its column `text`.
pub fn plan_train_bpe(
    input: &Input,
    vocab_size: usize,
    tie_breaking: &str,
    scheme: Result<PretokenizerType, CallError>,
) -> (res: Result<TrainPlan, CallError>)
    requires
        vocab_size <= 0x1_0000_0000,
    ensures
        match (tie_breaking_named(tie_breaking@), scheme) {
            (Err(fault), _) => res matches Err(e) && e@ == fault,
            (Ok(_), Err(fault)) => res matches Err(e) && e@ == fault@,
            (Ok(ties), Ok(s)) => match bpe_origin(*input, s) {
                Err(fault) => res matches Err(e) && e@ == fault,
                Ok(origin) => {
                    &&& res matches Ok(plan)
                    &&& plan.tie_breaking == ties
                    &&& plan.scheme == s
                    &&& plan.source@ == origin
                },
            },
        },
{
    let tie_breaking = match parse_tie_breaking(tie_breaking) {
        Ok(t) => t,
        Err(e) => {
            return Err(e);
        },
    };
    let scheme = match scheme {
        Ok(s) => s,
        Err(e) => {
            return Err(e);
        },
    };
    let source = match input {
        Input::FileSource => {
            match require_default_pretokenizer(scheme, "FileSource") {
                Ok(_) => {},
                Err(e) => {
                    return Err(e);
                },
            }
            Source::FileSource
        },
        Input::Bytes => Source::Bytes,
        Input::Path { extension } => {
            if parquet(extension) {
                match require_default_pretokenizer(scheme, "parquet input") {
                    Ok(_) => {},
                    Err(e) => {
                        return Err(e);
                    },
                }
                Source::Parquet { column: "text".to_owned() }
            } else {
                Source::TextFile
            }
        },
        Input::Other => {
            return Err(
                CallError {
                    kind: ErrorKind::Type,
                    message: "in_data must be bytes, a path, or a FileSource".to_owned(),
                },
            );
        },
    };
    Ok(TrainPlan { tie_breaking, scheme, source })
}

/// The error on a first stage that is larger than the whole.
pub open spec fn transition_fault(transition_point: usize, vocab_size: usize) -> Option<
    (ErrorKind, Seq<char>),
> {
    if transition_point > vocab_size {
        Some(
            (
                ErrorKind::Value,
                "transition_point ("@ + text::decimal(transition_point as nat)
                    + ") must be <= vocab_size ("@ + text::decimal(vocab_size as nat) + ")"@,
            ),
        )
    } else {
        None
    }
}

/// Where the text of a two-stage training run comes from, or why the input is
/// refused: the text is read twice.
pub open spec fn superbpe_origin(input: Input) -> Result<Origin, (ErrorKind, Seq<char>)> {
    match input {
        Input::Bytes => Ok(Origin::Bytes),
        Input::Path { extension } => if is_parquet(extension) {
            Err(
                (
                    ErrorKind::NotImplemented,
                    "train_superbpe does not support parquet input; pass bytes or a text file path"@,
                ),
            )
        } else {
            Ok(Origin::TextFile)
        },
        Input::FileSource | Input::Other => Err(
            (ErrorKind::Type, "train_superbpe in_data must be bytes or a text file path"@),
        ),
    }
}

fn transition_error(transition_point: usize, vocab_size: usize) -> (e: CallError)
    requires
        transition_point > vocab_size,
    ensures
        transition_fault(transition_point, vocab_size) == Some(e@),
{
    let point = text::show_decimal(transition_point as u64);
    let size = text::show_decimal(vocab_size as u64);
    let head = text::join("transition_point (", point.as_str());
    let middle = text::join(head.as_str(), ") must be <= vocab_size (");
    let named = text::join(middle.as_str(), size.as_str());
    CallError { kind: ErrorKind::Value, message: text::join(named.as_str(), ")") }
}

/// Plans a two-stage training run. The transition point is checked first, then
/// the tie-breaking, the scheme of the first stage and the input.
pub fn plan_train_superbpe(
    input: &Input,
    vocab_size: usize,
    transition_point: usize,
    tie_breaking: &str,
    scheme: Result<PretokenizerType, CallError>,
) -> (res: Result<TrainPlan, CallError>)
    requires
        vocab_size <= 0x1_0000_0000,
    ensures
        match transition_fault(transition_point, vocab_size) {
            Some(fault) => res matches Err(e) && e@ == fault,
            None => match (tie_breaking_named(tie_breaking@), scheme) {
                (Err(fault), _) => res matches Err(e) && e@ == fault,
                (Ok(_), Err(fault)) => res matches Err(e) && e@ == fault@,
                (Ok(ties), Ok(s)) => match superbpe_origin(*input) {
                    Err(fault) => res matches Err(e) && e@ == fault,
                    Ok(origin) => {
                        &&& res matches Ok(plan)
                        &&& plan.tie_breaking == ties
                        &&& plan.scheme == s
                        &&& plan.source@ == origin
                    },
                },
            },
        },
{
    if transition_point > vocab_size {
        return Err(transition_error(transition_point, vocab_size));
    }
    let tie_breaking = match parse_tie_breaking(tie_breaking) {
        Ok(t) => t,
        Err(e) => {
            return Err(e);
        },
    };
    let scheme = match scheme {
        Ok(s) => s,
        Err(e) => {
            return Err(e);
        },
    };
    let source = match input {
        Input::Bytes => Source::Bytes,
        Input::Path { extension } => {
            if parquet(extension) {
                return Err(
                    CallError {
                        kind: ErrorKind::NotImplemented,
                        message:
                            "train_superbpe does not support parquet input; pass bytes or a text file path".to_owned(),
                    },
                );
            }
            Source::TextFile
        },
        Input::FileSource | Input::Other => {
            return Err(
                CallError {
                    kind: ErrorKind::Type,
                    message: "train_superbpe in_data must be bytes or a text file path".to_owned(),
                },
            );
        },
    };
    Ok(TrainPlan { tie_breaking, scheme, source })
}

/// The outcome of training: the entries, in whatever order, and the merges in
/// the order in which they were learned.
#[derive(Debug)]
pub struct BPEResult {
    pub vocab: Vec<(u32, Vec<u8>)>,
    pub merges: Vec<(Vec<u8>, Vec<u8>)>,
}

/// The outcome as it is handed out: the entries in the order of their numbers,
/// the merges as they are.
pub fn bpe_result_in_order(result: BPEResult) -> (res: BPEResult)
    ensures
        order::sorts(order::views(result.vocab@), order::views(res.vocab@)),
        res.merges == result.merges,
{
    BPEResult { vocab: order::sorted(result.vocab), merges: result.merges }
}

/// Why a file could not be fetched.
#[derive(Debug)]
pub enum FetchFailure {
    NotFound { message: String },
    Unauthorized { message: String },
    /// Any other reason, with the whole chain of its causes.
    Other { chain: String },
}

/// The error that a failed fetch is reported as: definite causes by their own
/// kind, any other with the whole chain of its causes.
pub fn fetch_error(failure: FetchFailure) -> (res: CallError)
    ensures
        res@ == (match failure {
            FetchFailure::NotFound { message } => (ErrorKind::FileNotFound, message@),
            FetchFailure::Unauthorized { message } => (ErrorKind::Permission, message@),
            FetchFailure::Other { chain } => (ErrorKind::Runtime, chain@),
        }),
{
    match failure {
        FetchFailure::NotFound { message } => CallError { kind: ErrorKind::FileNotFound, message },
        FetchFailure::Unauthorized { message } => CallError {
            kind: ErrorKind::Permission,
            message,
        },
        FetchFailure::Other { chain } => CallError { kind: ErrorKind::Runtime, message: chain },
    }
}

} // verus!
