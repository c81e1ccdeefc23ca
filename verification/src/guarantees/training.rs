//! What training accepts.

use crate::pretokenize::options::PretokenizerType;
use crate::text;
use crate::train;
use crate::train::{ErrorKind, Input, Origin, TieBreaking};
use vstd::prelude::*;

verus! {

/// Ties are broken in one of three ways, by name; any other name is a wrong value.
pub proof fn law_tie_breaking(s: Seq<char>)
    ensures
        s == "huggingface"@ ==> train::tie_breaking_named(s) == Ok::<
            TieBreaking,
            (ErrorKind, Seq<char>),
        >(TieBreaking::HuggingFace),
        s == "raw_token_ids"@ ==> train::tie_breaking_named(s) == Ok::<
            TieBreaking,
            (ErrorKind, Seq<char>),
        >(TieBreaking::RawTokenIds),
        s == "assembled_bytes"@ ==> train::tie_breaking_named(s) == Ok::<
            TieBreaking,
            (ErrorKind, Seq<char>),
        >(TieBreaking::AssembledBytes),
        s != "huggingface"@ && s != "raw_token_ids"@ && s != "assembled_bytes"@ ==> (
        train::tie_breaking_named(s) matches Err((kind, _)) && kind == ErrorKind::Value),
{
    reveal_strlit("huggingface");
    reveal_strlit("raw_token_ids");
    reveal_strlit("assembled_bytes");
    assert("huggingface"@.len() == 11 && "raw_token_ids"@.len() == 13 && "assembled_bytes"@.len()
        == 15);
}

/// Bytes and text files train under every scheme; file sources and parquet files,
/// whose column is `text`, only under GPT-2's; anything else is of the wrong type.
pub proof fn law_bpe_input(input: Input, scheme: PretokenizerType)
    ensures
        input is Bytes ==> train::bpe_origin(input, scheme) == Ok::<Origin, (ErrorKind, Seq<char>)>(
            Origin::Bytes,
        ),
        input is FileSource && scheme == PretokenizerType::GPT2 ==> train::bpe_origin(input, scheme)
            == Ok::<Origin, (ErrorKind, Seq<char>)>(Origin::FileSource),
        input is FileSource && scheme != PretokenizerType::GPT2 ==> (train::bpe_origin(
            input,
            scheme,
        ) matches Err((kind, _)) && kind == ErrorKind::NotImplemented),
        input matches Input::Path { extension: Some(e) } ==> e@ == "parquet"@ ==> if scheme
            == PretokenizerType::GPT2 {
            train::bpe_origin(input, scheme) matches Ok(Origin::Parquet { column }) && column
                == seq!['t', 'e', 'x', 't']
        } else {
            train::bpe_origin(input, scheme) matches Err((kind, _)) && kind
                == ErrorKind::NotImplemented
        },
        input matches Input::Path { extension: Some(e) } ==> e@ != "parquet"@ ==> train::bpe_origin(
            input,
            scheme,
        ) == Ok::<Origin, (ErrorKind, Seq<char>)>(Origin::TextFile),
        input matches Input::Path { extension: None } ==> train::bpe_origin(input, scheme) == Ok::<
            Origin,
            (ErrorKind, Seq<char>),
        >(Origin::TextFile),
        input is Other ==> (train::bpe_origin(input, scheme) matches Err((kind, _)) && kind
            == ErrorKind::Type),
{
    reveal_strlit("text");
    assert("text"@ =~= seq!['t', 'e', 'x', 't']);
}

/// The two-stage training takes bytes and text files, and no parquet.
pub proof fn law_superbpe_input(input: Input)
    ensures
        input is Bytes ==> train::superbpe_origin(input) == Ok::<Origin, (ErrorKind, Seq<char>)>(
            Origin::Bytes,
        ),
        input matches Input::Path { extension: Some(e) } ==> e@ == "parquet"@ ==> (
        train::superbpe_origin(input) matches Err((kind, _)) && kind == ErrorKind::NotImplemented),
        input matches Input::Path { extension: Some(e) } ==> e@ != "parquet"@
            ==> train::superbpe_origin(input) == Ok::<Origin, (ErrorKind, Seq<char>)>(
            Origin::TextFile,
        ),
        input matches Input::Path { extension: None } ==> train::superbpe_origin(input) == Ok::<
            Origin,
            (ErrorKind, Seq<char>),
        >(Origin::TextFile),
        input is FileSource || input is Other ==> (train::superbpe_origin(input) matches Err(
            (kind, _),
        ) && kind == ErrorKind::Type),
{
}

/// The second stage starts within the vocabulary: any point up to its size is
/// accepted, and a later one is a wrong value.
pub proof fn law_transition_point(point: usize, size: usize)
    ensures
        point <= size ==> train::transition_fault(point, size) is None,
        point > size ==> (train::transition_fault(point, size) matches Some((kind, _)) && kind
            == ErrorKind::Value),
{
}

/// The digit of a value below ten.
pub open spec fn digit(c: char, d: nat) -> bool {
    c as u32 == 0x30 + d
}

/// Decimal notation: one digit for a number below ten, and for any other the
/// notation of its tenth part and its last digit.
pub proof fn law_decimal(n: nat, d: nat)
    requires
        d < 10,
    ensures
        text::decimal(d).len() == 1 && digit(text::decimal(d)[0], d),
        n > 0 ==> text::decimal(10 * n + d) == text::decimal(n) + text::decimal(d),
{
    assert((10 * n + d) / 10 == n && (10 * n + d) % 10 == d) by (nonlinear_arith)
        requires
            d < 10,
    ;
    assert(d % 10 == d);
    let c = (48 + d) as u8 as char;
    assert(c as u32 == 48 + d);
}

} // verus!
