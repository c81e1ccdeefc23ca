//! Data is what it shows: nothing is renamed, swapped or left out between a value
//! and what is said of it.

use crate::bpe::superword;
use crate::bpe::wordpiece;
use crate::load_tokenizer::json::{Doc, Json};
use crate::load_tokenizer::schema;
use crate::load_tokenizer::sentencepiece;
use crate::load_tokenizer::sentencepiece::{AddedTokenSpec, NormOp, Step};
use crate::load_tokenizer::vocab;
use crate::order;
use crate::pretokenize::pattern;
use crate::pretokenize::pattern::Alternative;
use crate::text;
use crate::train::{CallError, Origin, Source};
use crate::TokenId;
use vstd::prelude::*;

verus! {

/// A step of normalization shows its own parts.
pub proof fn law_norm_ops(op: NormOp, ops: Seq<NormOp>, i: int)
    ensures
        op matches NormOp::Prepend(p) ==> op@ == Step::Prepend(p@),
        op matches NormOp::Replace { pattern, content } ==> op@ == (Step::Replace {
            pattern: pattern@,
            content: content@,
        }),
        op matches NormOp::CollapseSpaces { content } ==> op@ == (Step::CollapseSpaces {
            content: content@,
        }),
        op matches NormOp::Strip { left, right } ==> op@ == (Step::Strip { left, right }),
        op is Precompiled ==> op@ is Precompiled,
        sentencepiece::steps_of(ops).len() == ops.len(),
        0 <= i < ops.len() ==> sentencepiece::steps_of(ops)[i] == ops[i]@,
{
}

/// A list of added tokens shows each with its own parts.
pub proof fn law_added_specs(tokens: Seq<AddedTokenSpec>, i: int)
    requires
        0 <= i < tokens.len(),
    ensures
        sentencepiece::spec_views(tokens).len() == tokens.len(),
        sentencepiece::spec_views(tokens)[i] == (
            tokens[i].content@,
            tokens[i].id.0,
            tokens[i].lstrip,
            tokens[i].rstrip,
        ),
        sentencepiece::opt_number(Some(tokens[i].id)) == Some(tokens[i].id.0),
        sentencepiece::opt_number(None) is None,
{
}

/// Token numbers, entries and strings are shown one for one.
pub proof fn law_sequences(
    ids: Seq<TokenId>,
    entries: Seq<Vec<u8>>,
    strings: Seq<String>,
    pieces: Seq<(Vec<u8>, u32)>,
    names: Seq<(String, TokenId)>,
    sorted: Seq<(u32, Vec<u8>)>,
    i: int,
)
    ensures
        wordpiece::numbers(ids).len() == ids.len(),
        0 <= i < ids.len() ==> wordpiece::numbers(ids)[i] == ids[i].0,
        superword::views(entries).len() == entries.len(),
        0 <= i < entries.len() ==> superword::views(entries)[i] == entries[i]@,
        text::texts(strings).len() == strings.len(),
        0 <= i < strings.len() ==> text::texts(strings)[i] == strings[i]@,
        vocab::piece_views(pieces).len() == pieces.len(),
        0 <= i < pieces.len() ==> vocab::piece_views(pieces)[i] == (pieces[i].0@, pieces[i].1),
        schema::entry_views(names).len() == names.len(),
        0 <= i < names.len() ==> schema::entry_views(names)[i] == (names[i].0@, names[i].1.0),
        order::views(sorted).len() == sorted.len(),
        0 <= i < sorted.len() ==> order::views(sorted)[i] == (sorted[i].0, sorted[i].1@),
{
}

/// A document shows its own parts.
pub proof fn law_documents(j: Json, i: int)
    ensures
        j is Null ==> j@ == Doc::Null,
        j is Garbled ==> j@ == Doc::Garbled,
        j matches Json::Bool(b) ==> j@ == Doc::Bool(b),
        j matches Json::Number(n) ==> j@ == Doc::Number(n),
        j matches Json::Str(s) ==> j@ == Doc::Str(s@),
        j matches Json::Arr(v) ==> (j@ matches Doc::Arr(items) && items.len() == v@.len() && (0 <= i
            < v@.len() ==> items[i] == v@[i]@)),
        j matches Json::Obj(v) ==> (j@ matches Doc::Obj(fields) && fields.len() == v@.len() && (0
            <= i < v@.len() ==> fields[i] == (v@[i].0@, v@[i].1@))),
{
}

/// A source of training data shows which it is.
pub proof fn law_sources(s: Source, e: CallError)
    ensures
        s is FileSource ==> s@ == Origin::FileSource,
        s is Bytes ==> s@ == Origin::Bytes,
        s is TextFile ==> s@ == Origin::TextFile,
        s matches Source::Parquet { column } ==> s@ == (Origin::Parquet { column: column@ }),
        e@ == (e.kind, e.message@),
{
}

/// An alternative of a pattern shows its items.
pub proof fn law_alternatives(a: Alternative, all: Seq<Alternative>, i: int)
    ensures
        a@.items == a.items@,
        a@.lookahead == a.lookahead,
        pattern::alts(all).len() == all.len(),
        0 <= i < all.len() ==> pattern::alts(all)[i] == all[i]@,
{
}

} // verus!
