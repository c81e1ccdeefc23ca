//! What is read out of a document.

use crate::load_tokenizer::hf;
use crate::load_tokenizer::hf::ModelFamily;
use crate::load_tokenizer::json;
use crate::load_tokenizer::json::{Doc, Kind};
use crate::load_tokenizer::schema;
use crate::load_tokenizer::schema::{
    AddedToken, DecoderJson, Model, NormalizerJson, PreTokenizerJson, TokenizerJson,
};
use crate::text;
use vstd::prelude::*;

verus! {

/// Whether a document is an object with one member of a name, which is `v`.
pub open spec fn has(j: Doc, name: Seq<char>, v: Doc) -> bool {
    j matches Doc::Obj(fields) && exists|k: int|
        0 <= k < fields.len() && #[trigger] fields[k] == (name, v) && forall|i: int|
            0 <= i < fields.len() && i != k ==> (#[trigger] fields[i]).0 != name
}

/// Whether a document is an object without a member of a name.
pub open spec fn lacks(j: Doc, name: Seq<char>) -> bool {
    j matches Doc::Obj(fields) && forall|i: int|
        0 <= i < fields.len() ==> (#[trigger] fields[i]).0 != name
}

proof fn lemma_member(fields: Seq<(Seq<char>, Doc)>, name: Seq<char>, k: int, i: int)
    requires
        0 <= i <= k < fields.len(),
        fields[k].0 == name,
        forall|m: int| 0 <= m < k ==> (#[trigger] fields[m]).0 != name,
    ensures
        json::member(fields, name, i) == Some(fields[k].1),
    decreases k - i,
{
    if i < k {
        assert(fields[i].0 != name);
        lemma_member(fields, name, k, i + 1);
    }
}

proof fn lemma_no_member(fields: Seq<(Seq<char>, Doc)>, name: Seq<char>, i: int)
    requires
        0 <= i,
        forall|m: int| i <= m < fields.len() ==> (#[trigger] fields[m]).0 != name,
    ensures
        json::member(fields, name, i) is None,
    decreases fields.len() - i,
{
    if i < fields.len() {
        assert(fields[i].0 != name);
        lemma_no_member(fields, name, i + 1);
    }
}

proof fn lemma_times(fields: Seq<(Seq<char>, Doc)>, name: Seq<char>, k: int, n: nat)
    requires
        n <= fields.len(),
        forall|m: int| 0 <= m < fields.len() && m != k ==> (#[trigger] fields[m]).0 != name,
    ensures
        json::times(fields, name, n) <= 1,
        n <= k ==> json::times(fields, name, n) == 0,
    decreases n,
{
    if n > 0 {
        lemma_times(fields, name, k, (n - 1) as nat);
        if n - 1 != k {
            assert(fields[n - 1].0 != name);
        }
    }
}

proof fn lemma_times_twice(fields: Seq<(Seq<char>, Doc)>, name: Seq<char>, n: nat, a: int, b: int)
    requires
        0 <= a < b < fields.len(),
        n <= fields.len(),
        fields[a].0 == name,
        fields[b].0 == name,
    ensures
        a < n ==> json::times(fields, name, n) >= 1,
        b < n ==> json::times(fields, name, n) >= 2,
    decreases n,
{
    if n > 0 {
        lemma_times_twice(fields, name, (n - 1) as nat, a, b);
    }
}

/// The member of a name is the field of that name; one that is repeated is a
/// fault, and one that is missing is no field.
pub proof fn law_fields(j: Doc, name: Seq<char>, v: Doc, k: int)
    ensures
        has(j, name, v) ==> json::field(j, name, k) == Some(v) && json::field_fault(j, name) is None,
        lacks(j, name) ==> json::field(j, name, k) is None && json::field_fault(j, name) is None,
        j matches Doc::Obj(fields) ==> (forall|a: int, b: int|
            0 <= a < b < fields.len() && (#[trigger] fields[a]).0 == name && (
            #[trigger] fields[b]).0 == name ==> json::field_fault(j, name) is Some),
{
    if let Doc::Obj(fields) = j {
        if has(j, name, v) {
            let at = choose|at: int|
                0 <= at < fields.len() && #[trigger] fields[at] == (name, v) && forall|i: int|
                    0 <= i < fields.len() && i != at ==> (#[trigger] fields[i]).0 != name;
            lemma_member(fields, name, at, 0);
            lemma_times(fields, name, at, fields.len());
        }
        if lacks(j, name) {
            lemma_no_member(fields, name, 0);
            lemma_times(fields, name, -1, fields.len());
        }
        assert forall|a: int, b: int|
            0 <= a < b < fields.len() && (#[trigger] fields[a]).0 == name && (
            #[trigger] fields[b]).0 == name implies json::field_fault(j, name) is Some by {
            lemma_times_twice(fields, name, fields.len(), a, b);
        }
    }
}

/// A merge is written as two strings, or as one with a space between the sides;
/// the first space parts them. Anything else is refused.
pub proof fn law_merge_forms(a: Seq<char>, b: Seq<char>, j: Doc)
    ensures
        schema::merge_fault(Doc::Arr(seq![Doc::Str(a), Doc::Str(b)])) is None,
        schema::merge_sides(Doc::Arr(seq![Doc::Str(a), Doc::Str(b)])) == (a, b),
        !a.contains(' ') ==> schema::merge_fault(Doc::Str(a + seq![' '] + b)) is None
            && schema::merge_sides(Doc::Str(a + seq![' '] + b)) == (a, b),
        !a.contains(' ') ==> schema::merge_fault(Doc::Str(a)) is Some,
        j is Null || j is Bool || j is Number || j is Obj || j is Garbled ==> schema::merge_fault(j)
            is Some,
{
    if !a.contains(' ') {
        let s = a + seq![' '] + b;
        assert forall|i: int| 0 <= i < a.len() implies s[i] != ' ' by {
            assert(s[i] == a[i]);
            assert(a.contains(a[i]));
        }
        lemma_space(s, a.len() as int, 0);
        assert(s.take(a.len() as int) =~= a);
        assert(s.skip((a.len() + 1) as int) =~= b);
        assert forall|i: int| 0 <= i < a.len() implies a[i] != ' ' by {
            assert(a.contains(a[i]));
        }
        lemma_no_space(a, 0);
    }
}

proof fn lemma_space(s: Seq<char>, k: int, i: int)
    requires
        0 <= i <= k < s.len(),
        s[k] == ' ',
        forall|m: int| 0 <= m < k ==> s[m] != ' ',
    ensures
        text::space_from(s, i) == Some(k),
    decreases k - i,
{
    if i < k {
        lemma_space(s, k, i + 1);
    }
}

proof fn lemma_no_space(s: Seq<char>, i: int)
    requires
        0 <= i,
        forall|m: int| 0 <= m < s.len() ==> s[m] != ' ',
    ensures
        text::space_from(s, i) is None,
    decreases s.len() - i,
{
    if i < s.len() {
        lemma_no_space(s, i + 1);
    }
}

/// Every name of a vocabulary is an entry, with the last number that it is given,
/// and every entry is such a name.
pub proof fn law_vocabulary_entries(fields: Seq<(Seq<char>, Doc)>, k: int, e: int)
    ensures
        0 <= k < fields.len() && (forall|m: int|
            k < m < fields.len() ==> (#[trigger] fields[m]).0 != fields[k].0) && (fields[k].1
            matches Doc::Number(Some(_))) ==> schema::entries_from(fields, 0).contains(
            (fields[k].0, (fields[k].1->Number_0->0) as u32),
        ),
        0 <= e < schema::entries_from(fields, 0).len() ==> exists|i: int|
            0 <= i < fields.len() && (#[trigger] fields[i]).0 == schema::entries_from(fields, 0)[e].0
                && schema::entries_from(fields, 0)[e].1 == (fields[i].1->Number_0->0) as u32 && (
            forall|m: int| i < m < fields.len() ==> (#[trigger] fields[m]).0 != fields[i].0),
{
    if 0 <= k < fields.len() && (forall|m: int|
        k < m < fields.len() ==> (#[trigger] fields[m]).0 != fields[k].0) && (fields[k].1
        matches Doc::Number(Some(_))) {
        lemma_entry_kept(fields, k, 0);
    }
    if 0 <= e < schema::entries_from(fields, 0).len() {
        lemma_entry_origin(fields, 0, e);
    }
}

proof fn lemma_entry_kept(fields: Seq<(Seq<char>, Doc)>, k: int, i: int)
    requires
        0 <= i <= k < fields.len(),
        forall|m: int| k < m < fields.len() ==> (#[trigger] fields[m]).0 != fields[k].0,
    ensures
        schema::entries_from(fields, i).contains(
            (fields[k].0, (fields[k].1->Number_0->0) as u32),
        ),
    decreases k - i,
{
    let entry = (fields[k].0, (fields[k].1->Number_0->0) as u32);
    let rest = schema::entries_from(fields, i + 1);
    if i < k {
        lemma_entry_kept(fields, k, i + 1);
        let at = choose|at: int| 0 <= at < rest.len() && rest[at] == entry;
        if json::member(fields, fields[i].0, i + 1) is None {
            assert(schema::entries_from(fields, i)[at + 1] == entry);
        }
    } else {
        lemma_no_member(fields, fields[k].0, k + 1);
        assert(schema::entries_from(fields, i)[0] == entry);
    }
}

proof fn lemma_entry_origin(fields: Seq<(Seq<char>, Doc)>, i: int, e: int)
    requires
        0 <= i <= fields.len(),
        0 <= e < schema::entries_from(fields, i).len(),
    ensures
        exists|k: int|
            i <= k < fields.len() && (#[trigger] fields[k]).0 == schema::entries_from(fields, i)[e].0
                && schema::entries_from(fields, i)[e].1 == (fields[k].1->Number_0->0) as u32 && (
            forall|m: int| k < m < fields.len() ==> (#[trigger] fields[m]).0 != fields[k].0),
    decreases fields.len() - i,
{
    if i < fields.len() {
        let rest = schema::entries_from(fields, i + 1);
        if json::member(fields, fields[i].0, i + 1) is Some {
            lemma_entry_origin(fields, i + 1, e);
        } else if e > 0 {
            lemma_entry_origin(fields, i + 1, e - 1);
            assert(schema::entries_from(fields, i)[e] == rest[e - 1]);
        } else {
            assert(schema::entries_from(fields, i)[0].0 == fields[i].0);
            assert forall|m: int| i < m < fields.len() implies (#[trigger] fields[m]).0
                != fields[i].0 by {
                if fields[m].0 == fields[i].0 {
                    lemma_some_member(fields, fields[i].0, i + 1, m);
                }
            }
        }
    }
}

proof fn lemma_some_member(fields: Seq<(Seq<char>, Doc)>, name: Seq<char>, i: int, m: int)
    requires
        0 <= i <= m < fields.len(),
        fields[m].0 == name,
    ensures
        json::member(fields, name, i) is Some,
    decreases m - i,
{
    if i < m {
        lemma_some_member(fields, name, i + 1, m);
    }
}

/// What is said of a flag: on where it is true, off where it is false or missing.
pub open spec fn flag(j: Doc, name: Seq<char>, on: bool) -> bool {
    has(j, name, Doc::Bool(on)) || (lacks(j, name) && !on)
}

/// An added token is read by its members: `id`, `content`, and the flags `special`,
/// `lstrip`, `rstrip` and `normalized`, which are off where they are missing.
pub proof fn law_added_token(
    j: Doc,
    t: AddedToken,
    id: u64,
    content: Seq<char>,
    special: bool,
    lstrip: bool,
    rstrip: bool,
    normalized: bool,
)
    requires
        schema::reads_added(j, t),
        has(j, "id"@, Doc::Number(Some(id))),
        has(j, "content"@, Doc::Str(content)),
        flag(j, "special"@, special),
        flag(j, "lstrip"@, lstrip),
        flag(j, "rstrip"@, rstrip),
        flag(j, "normalized"@, normalized),
    ensures
        t.id == id,
        t.content@ == content,
        t.special == special,
        t.lstrip == lstrip,
        t.rstrip == rstrip,
        t.normalized == normalized,
{
    law_fields(j, "id"@, Doc::Number(Some(id)), 0);
    law_fields(j, "content"@, Doc::Str(content), 1);
    law_fields(j, "special"@, Doc::Bool(special), 2);
    law_fields(j, "lstrip"@, Doc::Bool(lstrip), 3);
    law_fields(j, "rstrip"@, Doc::Bool(rstrip), 4);
    law_fields(j, "normalized"@, Doc::Bool(normalized), 5);
}

/// What is said of an optional text: a string, or nothing where it is missing or
/// null.
pub open spec fn text_or_none(j: Doc, name: Seq<char>, s: Option<Seq<char>>) -> bool {
    match s {
        Some(s) => has(j, name, Doc::Str(s)),
        None => lacks(j, name) || has(j, name, Doc::Null),
    }
}

/// What is said of an optional flag.
pub open spec fn bool_or_none(j: Doc, name: Seq<char>, b: Option<bool>) -> bool {
    match b {
        Some(b) => has(j, name, Doc::Bool(b)),
        None => lacks(j, name) || has(j, name, Doc::Null),
    }
}

proof fn lemma_text(j: Doc, name: Seq<char>, s: Option<Seq<char>>, k: int)
    requires
        text_or_none(j, name, s),
    ensures
        json::text_at(j, name, k) == s,
{
    law_fields(j, name, Doc::Null, k);
    if let Some(s) = s {
        law_fields(j, name, Doc::Str(s), k);
    }
}

proof fn lemma_bool(j: Doc, name: Seq<char>, b: Option<bool>, k: int)
    requires
        bool_or_none(j, name, b),
    ensures
        json::bool_at(j, name, k) == b,
{
    law_fields(j, name, Doc::Null, k);
    if let Some(b) = b {
        law_fields(j, name, Doc::Bool(b), k);
    }
}

/// A normalizer is read by its members.
pub proof fn law_normalizer(
    j: Doc,
    n: NormalizerJson,
    kind: Seq<char>,
    prepend: Option<Seq<char>>,
    content: Option<Seq<char>>,
    charsmap: Option<Seq<char>>,
    strip: (Option<bool>, Option<bool>),
    steps: (Option<bool>, Option<bool>, Option<bool>, Option<bool>),
    inner: Seq<Doc>,
)
    requires
        schema::reads_normalizer(j, n),
        has(j, "type"@, Doc::Str(kind)),
        text_or_none(j, "prepend"@, prepend),
        text_or_none(j, "content"@, content),
        text_or_none(j, "precompiled_charsmap"@, charsmap),
        bool_or_none(j, "strip_left"@, strip.0),
        bool_or_none(j, "strip_right"@, strip.1),
        bool_or_none(j, "clean_text"@, steps.0),
        bool_or_none(j, "handle_chinese_chars"@, steps.1),
        bool_or_none(j, "strip_accents"@, steps.2),
        bool_or_none(j, "lowercase"@, steps.3),
        has(j, "normalizers"@, Doc::Arr(inner)) || (lacks(j, "normalizers"@) && inner.len() == 0),
    ensures
        n.kind@ == kind,
        json::opt_text(n.prepend) == prepend,
        json::opt_text(n.content) == content,
        json::opt_text(n.precompiled_charsmap) == charsmap,
        n.strip_left == strip.0,
        n.strip_right == strip.1,
        n.clean_text == steps.0,
        n.handle_chinese_chars == steps.1,
        n.strip_accents == steps.2,
        n.lowercase == steps.3,
        n.normalizers@.len() == inner.len(),
        forall|i: int|
            0 <= i < inner.len() ==> schema::reads_normalizer(
                inner[i],
                #[trigger] n.normalizers@[i],
            ),
{
    lemma_text(j, "type"@, Some(kind), 0);
    lemma_text(j, "prepend"@, prepend, 2);
    lemma_text(j, "content"@, content, 4);
    lemma_text(j, "precompiled_charsmap"@, charsmap, 7);
    lemma_bool(j, "strip_left"@, strip.0, 5);
    lemma_bool(j, "strip_right"@, strip.1, 6);
    lemma_bool(j, "clean_text"@, steps.0, 8);
    lemma_bool(j, "handle_chinese_chars"@, steps.1, 9);
    lemma_bool(j, "strip_accents"@, steps.2, 10);
    lemma_bool(j, "lowercase"@, steps.3, 11);
    law_fields(j, "normalizers"@, Doc::Arr(inner), 1);
}

/// A pre-tokenizer is read by its members.
pub proof fn law_pre_tokenizer(
    j: Doc,
    n: PreTokenizerJson,
    kind: Seq<char>,
    regex: Option<Seq<char>>,
    replacement: Option<Seq<char>>,
    prepend_scheme: Option<Seq<char>>,
    behavior: Option<Seq<char>>,
    add_prefix_space: Option<bool>,
    use_regex: Option<bool>,
    split: Option<bool>,
    inner: Seq<Doc>,
)
    requires
        schema::reads_pre_tokenizer(j, n),
        has(j, "type"@, Doc::Str(kind)),
        match regex {
            Some(re) => exists|p: Doc| #[trigger] has(j, "pattern"@, p) && has(
                p,
                "Regex"@,
                Doc::Str(re),
            ),
            None => lacks(j, "pattern"@),
        },
        text_or_none(j, "replacement"@, replacement),
        text_or_none(j, "prepend_scheme"@, prepend_scheme),
        text_or_none(j, "behavior"@, behavior),
        bool_or_none(j, "add_prefix_space"@, add_prefix_space),
        bool_or_none(j, "use_regex"@, use_regex),
        bool_or_none(j, "split"@, split),
        has(j, "pretokenizers"@, Doc::Arr(inner)) || (lacks(j, "pretokenizers"@) && inner.len()
            == 0),
    ensures
        n.kind@ == kind,
        match regex {
            Some(re) => n.pattern matches Some(p) && p.regex matches Some(r) && r@ == re,
            None => n.pattern is None,
        },
        json::opt_text(n.replacement) == replacement,
        json::opt_text(n.prepend_scheme) == prepend_scheme,
        json::opt_text(n.behavior) == behavior,
        n.add_prefix_space == add_prefix_space,
        n.use_regex == use_regex,
        n.split == split,
        n.pretokenizers@.len() == inner.len(),
        forall|i: int|
            0 <= i < inner.len() ==> schema::reads_pre_tokenizer(
                inner[i],
                #[trigger] n.pretokenizers@[i],
            ),
{
    lemma_text(j, "type"@, Some(kind), 0);
    lemma_text(j, "replacement"@, replacement, 3);
    lemma_text(j, "prepend_scheme"@, prepend_scheme, 4);
    lemma_text(j, "behavior"@, behavior, 8);
    lemma_bool(j, "add_prefix_space"@, add_prefix_space, 5);
    lemma_bool(j, "use_regex"@, use_regex, 6);
    lemma_bool(j, "split"@, split, 7);
    law_fields(j, "pretokenizers"@, Doc::Arr(inner), 1);
    law_fields(j, "pattern"@, Doc::Null, 2);
    if let Some(re) = regex {
        let p = choose|p: Doc| #[trigger] has(j, "pattern"@, p) && has(p, "Regex"@, Doc::Str(re));
        law_fields(j, "pattern"@, p, 2);
        law_fields(p, "Regex"@, Doc::Str(re), 0);
    }
}

/// A decoder is read by its members.
pub proof fn law_decoder(
    j: Doc,
    n: DecoderJson,
    kind: Seq<char>,
    prefix: Option<Seq<char>>,
    cleanup: Option<bool>,
    inner: Seq<Doc>,
)
    requires
        schema::reads_decoder(j, n),
        has(j, "type"@, Doc::Str(kind)),
        text_or_none(j, "prefix"@, prefix),
        bool_or_none(j, "cleanup"@, cleanup),
        has(j, "decoders"@, Doc::Arr(inner)) || (lacks(j, "decoders"@) && inner.len() == 0),
    ensures
        n.kind@ == kind,
        json::opt_text(n.prefix) == prefix,
        n.cleanup == cleanup,
        n.decoders@.len() == inner.len(),
        forall|i: int|
            0 <= i < inner.len() ==> schema::reads_decoder(inner[i], #[trigger] n.decoders@[i]),
{
    lemma_text(j, "type"@, Some(kind), 0);
    lemma_text(j, "prefix"@, prefix, 2);
    lemma_bool(j, "cleanup"@, cleanup, 3);
    law_fields(j, "decoders"@, Doc::Arr(inner), 1);
}

/// A model is read by its members; one without a type is a BPE model, and its
/// merges come in the order in which they are listed.
pub proof fn law_model(
    j: Doc,
    m: Model,
    kind: Option<Seq<char>>,
    names: Seq<(Seq<char>, Doc)>,
    merges: Seq<Doc>,
    byte_fallback: bool,
    ignore_merges: bool,
    unk_token: Option<Seq<char>>,
    prefix: Option<Seq<char>>,
    max: Option<u64>,
)
    requires
        schema::reads_model(j, m),
        match kind {
            Some(kind) => has(j, "type"@, Doc::Str(kind)),
            None => lacks(j, "type"@),
        },
        has(j, "vocab"@, Doc::Obj(names)),
        has(j, "merges"@, Doc::Arr(merges)) || (lacks(j, "merges"@) && merges.len() == 0),
        flag(j, "byte_fallback"@, byte_fallback),
        flag(j, "ignore_merges"@, ignore_merges),
        text_or_none(j, "unk_token"@, unk_token),
        text_or_none(j, "continuing_subword_prefix"@, prefix),
        match max {
            Some(n) => has(j, "max_input_chars_per_word"@, Doc::Number(Some(n))),
            None => lacks(j, "max_input_chars_per_word"@),
        },
    ensures
        kind matches Some(kind) ==> m.model_type@ == kind,
        kind is None ==> m.model_type@ == seq!['B', 'P', 'E'],
        schema::entry_views(m.vocab@) == schema::entries_from(names, 0),
        m.merges@.len() == merges.len(),
        forall|i: int|
            0 <= i < merges.len() ==> ((#[trigger] m.merges@[i]).0@, m.merges@[i].1@)
                == schema::merge_sides(merges[i]),
        m.byte_fallback == byte_fallback,
        m.ignore_merges == ignore_merges,
        json::opt_text(m.unk_token) == unk_token,
        json::opt_text(m.continuing_subword_prefix) == prefix,
        match max {
            Some(n) => m.max_input_chars_per_word matches Some(k) && k == n,
            None => m.max_input_chars_per_word is None,
        },
{
    reveal_strlit("BPE");
    assert("BPE"@ =~= seq!['B', 'P', 'E']);
    law_fields(j, "type"@, Doc::Null, 0);
    if let Some(kind) = kind {
        law_fields(j, "type"@, Doc::Str(kind), 0);
    }
    law_fields(j, "vocab"@, Doc::Obj(names), 1);
    law_fields(j, "merges"@, Doc::Arr(merges), 2);
    law_fields(j, "byte_fallback"@, Doc::Bool(byte_fallback), 3);
    law_fields(j, "ignore_merges"@, Doc::Bool(ignore_merges), 7);
    lemma_text(j, "unk_token"@, unk_token, 4);
    lemma_text(j, "continuing_subword_prefix"@, prefix, 5);
    law_fields(j, "max_input_chars_per_word"@, Doc::Number(max), 6);
}

/// A file is read by its members.
pub proof fn law_file(j: Doc, tj: TokenizerJson, model: Doc, block: Doc)
    requires
        schema::reads_tokenizer(j, tj),
    ensures
        has(j, "model"@, model) ==> schema::reads_model(model, tj.model),
        has(j, "added_tokens"@, block) && block is Arr ==> schema::reads_added_tokens(
            block->Arr_0,
            tj.added_tokens@,
        ),
        lacks(j, "added_tokens"@) ==> tj.added_tokens@.len() == 0,
        has(j, "pre_tokenizer"@, block) && !(block is Null) ==> (tj.pre_tokenizer matches Some(n)
            && schema::reads_pre_tokenizer(block, n)),
        has(j, "normalizer"@, block) && !(block is Null) ==> (tj.normalizer matches Some(n)
            && schema::reads_normalizer(block, n)),
        has(j, "decoder"@, block) && !(block is Null) ==> (tj.decoder matches Some(n)
            && schema::reads_decoder(block, n)),
        lacks(j, "pre_tokenizer"@) || has(j, "pre_tokenizer"@, Doc::Null) ==> tj.pre_tokenizer
            is None,
        lacks(j, "normalizer"@) || has(j, "normalizer"@, Doc::Null) ==> tj.normalizer is None,
        lacks(j, "decoder"@) || has(j, "decoder"@, Doc::Null) ==> tj.decoder is None,
{
    law_fields(j, "model"@, model, 0);
    law_fields(j, "added_tokens"@, block, 1);
    law_fields(j, "pre_tokenizer"@, block, 2);
    law_fields(j, "normalizer"@, block, 3);
    law_fields(j, "decoder"@, block, 4);
    law_fields(j, "pre_tokenizer"@, Doc::Null, 2);
    law_fields(j, "normalizer"@, Doc::Null, 3);
    law_fields(j, "decoder"@, Doc::Null, 4);
}

/// An added token with a number of 32 bits, a content and sound flags is accepted;
/// one without a number or a content is refused.
pub proof fn law_added_token_accepted(
    j: Doc,
    id: u64,
    content: Seq<char>,
    flags: (bool, bool, bool, bool),
)
    requires
        flag(j, "special"@, flags.0),
        flag(j, "lstrip"@, flags.1),
        flag(j, "rstrip"@, flags.2),
        flag(j, "normalized"@, flags.3),
    ensures
        has(j, "id"@, Doc::Number(Some(id))) && id <= 0xFFFF_FFFF && has(
            j,
            "content"@,
            Doc::Str(content),
        ) ==> schema::added_fault(j) is None,
        has(j, "id"@, Doc::Number(Some(id))) && id > 0xFFFF_FFFF ==> schema::added_fault(j) is Some,
        lacks(j, "id"@) || lacks(j, "content"@) ==> schema::added_fault(j) is Some,
{
    law_fields(j, "id"@, Doc::Number(Some(id)), 0);
    law_fields(j, "content"@, Doc::Str(content), 1);
    law_fields(j, "special"@, Doc::Bool(flags.0), 2);
    law_fields(j, "lstrip"@, Doc::Bool(flags.1), 3);
    law_fields(j, "rstrip"@, Doc::Bool(flags.2), 4);
    law_fields(j, "normalized"@, Doc::Bool(flags.3), 5);
}

/// A list of added tokens is accepted where each of them is.
pub proof fn law_added_tokens_accepted(items: Seq<Doc>, i: int)
    requires
        0 <= i,
    ensures
        schema::added_tokens_fault(items, i) is None <==> forall|k: int|
            i <= k < items.len() ==> schema::added_fault(#[trigger] items[k]) is None,
    decreases items.len() - i,
{
    if i < items.len() {
        law_added_tokens_accepted(items, i + 1);
    }
}

/// A list of merges is accepted where each of them is.
pub proof fn law_merges_accepted(items: Seq<Doc>, i: int)
    requires
        0 <= i,
    ensures
        schema::merges_fault(items, i) is None <==> forall|k: int|
            i <= k < items.len() ==> schema::merge_fault(#[trigger] items[k]) is None,
    decreases items.len() - i,
{
    if i < items.len() {
        law_merges_accepted(items, i + 1);
    }
}

/// A vocabulary is accepted where every name has a number of 32 bits.
pub proof fn law_vocabulary_accepted(names: Seq<(Seq<char>, Doc)>, i: int)
    requires
        0 <= i,
    ensures
        schema::entries_fault(names, i) is None <==> forall|k: int|
            i <= k < names.len() ==> ((#[trigger] names[k]).1 matches Doc::Number(Some(n)) && n
                <= 0xFFFF_FFFF),
    decreases names.len() - i,
{
    if i < names.len() {
        law_vocabulary_accepted(names, i + 1);
    }
}

/// A model with a sound vocabulary and sound merges is accepted.
pub proof fn law_model_accepted(
    j: Doc,
    kind: Option<Seq<char>>,
    names: Seq<(Seq<char>, Doc)>,
    merges: Seq<Doc>,
    byte_fallback: bool,
    ignore_merges: bool,
    unk_token: Option<Seq<char>>,
    prefix: Option<Seq<char>>,
    max: Option<u64>,
)
    requires
        match kind {
            Some(kind) => has(j, "type"@, Doc::Str(kind)),
            None => lacks(j, "type"@),
        },
        has(j, "vocab"@, Doc::Obj(names)),
        has(j, "merges"@, Doc::Arr(merges)) || (lacks(j, "merges"@) && merges.len() == 0),
        flag(j, "byte_fallback"@, byte_fallback),
        flag(j, "ignore_merges"@, ignore_merges),
        text_or_none(j, "unk_token"@, unk_token),
        text_or_none(j, "continuing_subword_prefix"@, prefix),
        match max {
            Some(n) => n <= usize::MAX && has(
                j,
                "max_input_chars_per_word"@,
                Doc::Number(Some(n)),
            ),
            None => lacks(j, "max_input_chars_per_word"@),
        },
    ensures
        schema::model_fault(j) is None <==> {
            &&& forall|k: int|
                0 <= k < names.len() ==> ((#[trigger] names[k]).1 matches Doc::Number(Some(n)) && n
                    <= 0xFFFF_FFFF)
            &&& forall|k: int|
                0 <= k < merges.len() ==> schema::merge_fault(#[trigger] merges[k]) is None
        },
{
    law_fields(j, "type"@, Doc::Null, 0);
    if let Some(kind) = kind {
        law_fields(j, "type"@, Doc::Str(kind), 0);
    }
    law_fields(j, "vocab"@, Doc::Obj(names), 1);
    law_fields(j, "merges"@, Doc::Arr(merges), 2);
    law_fields(j, "byte_fallback"@, Doc::Bool(byte_fallback), 3);
    law_fields(j, "ignore_merges"@, Doc::Bool(ignore_merges), 7);
    lemma_text_accepted(j, "unk_token"@, unk_token, 4);
    lemma_text_accepted(j, "continuing_subword_prefix"@, prefix, 5);
    law_fields(j, "max_input_chars_per_word"@, Doc::Number(max), 6);
    law_vocabulary_accepted(names, 0);
    law_merges_accepted(merges, 0);
    let listed = json::items_at(j, "merges"@, 2);
    assert(listed =~= merges);
}

proof fn lemma_text_accepted(j: Doc, name: Seq<char>, s: Option<Seq<char>>, k: int)
    requires
        text_or_none(j, name, s),
    ensures
        json::opt_text_fault(j, name, k) is None,
{
    lemma_text(j, name, s, k);
    law_fields(j, name, Doc::Null, k);
    if let Some(s) = s {
        law_fields(j, name, Doc::Str(s), k);
    }
}

proof fn lemma_bool_accepted(j: Doc, name: Seq<char>, b: Option<bool>, k: int)
    requires
        bool_or_none(j, name, b),
    ensures
        json::opt_bool_fault(j, name, k) is None,
{
    lemma_bool(j, name, b, k);
    law_fields(j, name, Doc::Null, k);
    if let Some(b) = b {
        law_fields(j, name, Doc::Bool(b), k);
    }
}

/// A normalizer with a kind and sound members is accepted where those inside it
/// are.
pub proof fn law_normalizer_accepted(
    j: Doc,
    kind: Seq<char>,
    prepend: Option<Seq<char>>,
    content: Option<Seq<char>>,
    charsmap: Option<Seq<char>>,
    strip: (Option<bool>, Option<bool>),
    steps: (Option<bool>, Option<bool>, Option<bool>, Option<bool>),
    inner: Seq<Doc>,
)
    requires
        has(j, "type"@, Doc::Str(kind)),
        text_or_none(j, "prepend"@, prepend),
        lacks(j, "pattern"@),
        text_or_none(j, "content"@, content),
        text_or_none(j, "precompiled_charsmap"@, charsmap),
        bool_or_none(j, "strip_left"@, strip.0),
        bool_or_none(j, "strip_right"@, strip.1),
        bool_or_none(j, "clean_text"@, steps.0),
        bool_or_none(j, "handle_chinese_chars"@, steps.1),
        bool_or_none(j, "strip_accents"@, steps.2),
        bool_or_none(j, "lowercase"@, steps.3),
        has(j, "normalizers"@, Doc::Arr(inner)) || (lacks(j, "normalizers"@) && inner.len() == 0),
    ensures
        schema::normalizer_fault(j) is None <==> forall|i: int|
            0 <= i < inner.len() ==> schema::normalizer_fault(#[trigger] inner[i]) is None,
{
    law_fields(j, "type"@, Doc::Str(kind), 0);
    law_fields(j, "pattern"@, Doc::Null, 3);
    lemma_text_accepted(j, "prepend"@, prepend, 2);
    lemma_text_accepted(j, "content"@, content, 4);
    lemma_text_accepted(j, "precompiled_charsmap"@, charsmap, 7);
    lemma_bool_accepted(j, "strip_left"@, strip.0, 5);
    lemma_bool_accepted(j, "strip_right"@, strip.1, 6);
    lemma_bool_accepted(j, "clean_text"@, steps.0, 8);
    lemma_bool_accepted(j, "handle_chinese_chars"@, steps.1, 9);
    lemma_bool_accepted(j, "strip_accents"@, steps.2, 10);
    lemma_bool_accepted(j, "lowercase"@, steps.3, 11);
    law_fields(j, "normalizers"@, Doc::Arr(inner), 1);
    lemma_normalizers_accepted(inner, 0);
    assert(schema::normalizer_own_fault(j) is None);
}

proof fn lemma_normalizers_accepted(items: Seq<Doc>, i: int)
    requires
        0 <= i,
    ensures
        schema::normalizers_fault(items, i) is None <==> forall|k: int|
            i <= k < items.len() ==> schema::normalizer_fault(#[trigger] items[k]) is None,
    decreases items.len() - i,
{
    if i < items.len() {
        lemma_normalizers_accepted(items, i + 1);
    }
}

/// A pre-tokenizer with a kind and sound members is accepted where those inside it
/// are.
pub proof fn law_pre_tokenizer_accepted(
    j: Doc,
    kind: Seq<char>,
    replacement: Option<Seq<char>>,
    prepend_scheme: Option<Seq<char>>,
    behavior: Option<Seq<char>>,
    add_prefix_space: Option<bool>,
    use_regex: Option<bool>,
    split: Option<bool>,
    inner: Seq<Doc>,
)
    requires
        has(j, "type"@, Doc::Str(kind)),
        lacks(j, "pattern"@),
        text_or_none(j, "replacement"@, replacement),
        text_or_none(j, "prepend_scheme"@, prepend_scheme),
        text_or_none(j, "behavior"@, behavior),
        bool_or_none(j, "add_prefix_space"@, add_prefix_space),
        bool_or_none(j, "use_regex"@, use_regex),
        bool_or_none(j, "split"@, split),
        has(j, "pretokenizers"@, Doc::Arr(inner)) || (lacks(j, "pretokenizers"@) && inner.len()
            == 0),
    ensures
        schema::pre_tokenizer_fault(j) is None <==> forall|i: int|
            0 <= i < inner.len() ==> schema::pre_tokenizer_fault(#[trigger] inner[i]) is None,
{
    law_fields(j, "type"@, Doc::Str(kind), 0);
    law_fields(j, "pattern"@, Doc::Null, 2);
    lemma_text_accepted(j, "replacement"@, replacement, 3);
    lemma_text_accepted(j, "prepend_scheme"@, prepend_scheme, 4);
    lemma_text_accepted(j, "behavior"@, behavior, 8);
    lemma_bool_accepted(j, "add_prefix_space"@, add_prefix_space, 5);
    lemma_bool_accepted(j, "use_regex"@, use_regex, 6);
    lemma_bool_accepted(j, "split"@, split, 7);
    law_fields(j, "pretokenizers"@, Doc::Arr(inner), 1);
    lemma_pretokenizers_accepted(inner, 0);
    assert(schema::pre_tokenizer_own_fault(j) is None);
}

proof fn lemma_pretokenizers_accepted(items: Seq<Doc>, i: int)
    requires
        0 <= i,
    ensures
        schema::pretokenizers_fault(items, i) is None <==> forall|k: int|
            i <= k < items.len() ==> schema::pre_tokenizer_fault(#[trigger] items[k]) is None,
    decreases items.len() - i,
{
    if i < items.len() {
        lemma_pretokenizers_accepted(items, i + 1);
    }
}

/// A file with a sound model and sound blocks is accepted.
pub proof fn law_file_accepted(j: Doc, model: Doc, added: Seq<Doc>)
    requires
        has(j, "model"@, model),
        has(j, "added_tokens"@, Doc::Arr(added)) || (lacks(j, "added_tokens"@) && added.len() == 0),
        lacks(j, "decoder"@),
    ensures
        ({
            let rest = schema::opt_pre_tokenizer_fault(j) is None && schema::opt_normalizer_fault(j)
                is None;
            schema::tokenizer_fault(j) is None <==> rest && schema::model_fault(model) is None && (
            forall|k: int|
                0 <= k < added.len() ==> schema::added_fault(#[trigger] added[k]) is None)
        }),
        lacks(j, "pre_tokenizer"@) ==> schema::opt_pre_tokenizer_fault(j) is None,
        lacks(j, "normalizer"@) ==> schema::opt_normalizer_fault(j) is None,
        forall|block: Doc| #[trigger]
            has(j, "pre_tokenizer"@, block) && !(block is Null)
                ==> schema::opt_pre_tokenizer_fault(j) == schema::pre_tokenizer_fault(block),
        forall|block: Doc| #[trigger]
            has(j, "normalizer"@, block) && !(block is Null) ==> schema::opt_normalizer_fault(j)
                == schema::normalizer_fault(block),
{
    law_fields(j, "model"@, model, 0);
    law_fields(j, "added_tokens"@, Doc::Arr(added), 1);
    law_fields(j, "decoder"@, Doc::Null, 4);
    law_fields(j, "pre_tokenizer"@, Doc::Null, 2);
    law_fields(j, "normalizer"@, Doc::Null, 3);
    law_added_tokens_accepted(added, 0);
    let listed = json::items_at(j, "added_tokens"@, 1);
    assert(listed =~= added);
    assert forall|block: Doc| #[trigger]
        has(j, "pre_tokenizer"@, block) && !(block is Null) implies schema::opt_pre_tokenizer_fault(
        j,
    ) == schema::pre_tokenizer_fault(block) by {
        law_fields(j, "pre_tokenizer"@, block, 2);
    }
    assert forall|block: Doc| #[trigger]
        has(j, "normalizer"@, block) && !(block is Null) implies schema::opt_normalizer_fault(j)
        == schema::normalizer_fault(block) by {
        law_fields(j, "normalizer"@, block, 3);
    }
}

/// The family of a model is told by its type: BPE and WordPiece are known, any
/// other is refused. Without a type, or with a null one, a number for the unknown token tells a
/// Unigram model, which is refused, and a longest word tells a WordPiece model;
/// any other is a BPE model.
pub proof fn law_family(
    j: Doc,
    m: Doc,
    kind: Option<Seq<char>>,
    unk_id: Option<u64>,
    max: Option<u64>,
)
    requires
        has(j, "model"@, m),
        match kind {
            Some(kind) => has(m, "type"@, Doc::Str(kind)),
            None => lacks(m, "type"@) || has(m, "type"@, Doc::Null),
        },
        match unk_id {
            Some(n) => has(m, "unk_id"@, Doc::Number(Some(n))),
            None => lacks(m, "unk_id"@) || has(m, "unk_id"@, Doc::Null),
        },
        match max {
            Some(n) => has(m, "max_input_chars_per_word"@, Doc::Number(Some(n))),
            None => lacks(m, "max_input_chars_per_word"@) || has(
                m,
                "max_input_chars_per_word"@,
                Doc::Null,
            ),
        },
    ensures
        kind == Some("BPE"@) ==> hf::family_in(j) == Ok::<ModelFamily, Seq<char>>(ModelFamily::Bpe),
        kind == Some("WordPiece"@) ==> hf::family_in(j) == Ok::<ModelFamily, Seq<char>>(
            ModelFamily::WordPiece,
        ),
        kind is Some && kind != Some("BPE"@) && kind != Some("WordPiece"@) ==> hf::family_in(j)
            is Err,
        kind is None && unk_id is Some ==> hf::family_in(j) is Err,
        kind is None && unk_id is None && max is Some ==> hf::family_in(j) == Ok::<
            ModelFamily,
            Seq<char>,
        >(ModelFamily::WordPiece),
        kind is None && unk_id is None && max is None ==> hf::family_in(j) == Ok::<
            ModelFamily,
            Seq<char>,
        >(ModelFamily::Bpe),
{
    reveal_strlit("BPE");
    reveal_strlit("WordPiece");
    assert("BPE"@.len() == 3 && "WordPiece"@.len() == 9);
    law_fields(j, "model"@, m, 0);
    law_fields(m, "type"@, Doc::Null, 0);
    if let Some(kind) = kind {
        law_fields(m, "type"@, Doc::Str(kind), 0);
    }
    law_fields(m, "unk_id"@, Doc::Number(unk_id), 1);
    law_fields(m, "unk_id"@, Doc::Null, 1);
    law_fields(m, "max_input_chars_per_word"@, Doc::Number(max), 2);
    law_fields(m, "max_input_chars_per_word"@, Doc::Null, 2);
}

/// An array stands for the documents of its items, and an object for those of its
/// members by their names, none left out.
pub proof fn law_levels(s: Seq<char>, items: Seq<Seq<char>>, members: Seq<(Seq<char>, Seq<char>)>)
    ensures
        json::outermost(s) == Ok::<Kind, Seq<char>>(Kind::Arr) && json::items_in(s) == Some(items)
            ==> (json::doc_of(s) matches Doc::Arr(docs) && docs.len() == items.len() && forall|
            i: int,
        |
            0 <= i < items.len() && items[i].len() < s.len() ==> #[trigger] docs[i]
                == json::doc_of(items[i])),
        json::outermost(s) == Ok::<Kind, Seq<char>>(Kind::Obj) && json::members_in(s) == Some(
            members,
        ) ==> (json::doc_of(s) matches Doc::Obj(fields) && fields.len() == members.len() && forall|
            i: int,
        |
            0 <= i < members.len() && members[i].1.len() < s.len() ==> #[trigger] fields[i] == (
                members[i].0,
                json::doc_of(members[i].1),
            )),
        json::outermost(s) == Ok::<Kind, Seq<char>>(Kind::Null) ==> json::doc_of(s) == Doc::Null,
        json::outermost(s) matches Ok(Kind::Bool(b)) ==> json::doc_of(s) == Doc::Bool(b),
        json::outermost(s) matches Ok(Kind::Number(n)) ==> json::doc_of(s) == Doc::Number(n),
{
}

/// How many brackets and braces open among the first `n` bytes, in strings or not.
pub open spec fn openings(data: Seq<u8>, n: nat) -> nat
    decreases n,
{
    if n == 0 || n > data.len() {
        0
    } else {
        openings(data, (n - 1) as nat) + (if data[n - 1] == 0x5B || data[n - 1] == 0x7B {
            1nat
        } else {
            0nat
        })
    }
}

/// A text with no more than 254 brackets and braces is not nested too deeply, and
/// one that starts with more of them is.
pub proof fn law_nesting(data: Seq<u8>, n: nat)
    ensures
        openings(data, data.len()) <= 254 ==> json::nested_within(data, json::MAX_NESTING as nat),
        254 < n <= data.len() && (forall|i: int|
            0 <= i < n ==> #[trigger] data[i] == 0x5B || data[i] == 0x7B) ==> !json::nested_within(
            data,
            json::MAX_NESTING as nat,
        ),
{
    if openings(data, data.len()) <= 254 {
        assert forall|k: nat| k <= data.len() implies #[trigger] json::open_after(data, k)
            <= json::MAX_NESTING as nat by {
            lemma_openings(data, k);
            lemma_openings_grow(data, k, data.len());
        }
    }
    if 254 < n <= data.len() && (forall|i: int|
        0 <= i < n ==> #[trigger] data[i] == 0x5B || data[i] == 0x7B) {
        lemma_all_open(data, n);
        assert(json::open_after(data, n) > json::MAX_NESTING as nat);
    }
}

proof fn lemma_openings(data: Seq<u8>, n: nat)
    requires
        n <= data.len(),
    ensures
        json::open_after(data, n) <= openings(data, n),
    decreases n,
{
    if n > 0 {
        lemma_openings(data, (n - 1) as nat);
    }
}

proof fn lemma_openings_grow(data: Seq<u8>, a: nat, b: nat)
    requires
        a <= b <= data.len(),
    ensures
        openings(data, a) <= openings(data, b),
    decreases b,
{
    if a < b {
        lemma_openings_grow(data, a, (b - 1) as nat);
    }
}

proof fn lemma_all_open(data: Seq<u8>, n: nat)
    requires
        n <= data.len(),
        forall|i: int| 0 <= i < n ==> #[trigger] data[i] == 0x5B || data[i] == 0x7B,
    ensures
        json::open_after(data, n) == n,
        json::place_after(data, n) == json::Place::Plain,
    decreases n,
{
    if n > 0 {
        lemma_all_open(data, (n - 1) as nat);
        assert(data[n - 1] == 0x5B || data[n - 1] == 0x7B);
    }
}

/// A file is refused where it is no JSON, where its family is not known or where a
/// block of it is not sound, in this order; any other is read.
pub proof fn law_file_refused(j: Doc, detail: Seq<char>)
    ensures
        hf::file_fault(Err(detail)) is Some,
        hf::family_in(j) matches Err(e) ==> hf::file_fault(Ok(j)) == Some(e),
        hf::family_in(j) is Ok ==> (hf::file_fault(Ok(j)) is None <==> schema::tokenizer_fault(j)
            is None),
{
}

/// A decoder with a kind and sound members is accepted where those inside it are.
pub proof fn law_decoder_accepted(
    j: Doc,
    kind: Seq<char>,
    prefix: Option<Seq<char>>,
    cleanup: Option<bool>,
    inner: Seq<Doc>,
)
    requires
        has(j, "type"@, Doc::Str(kind)),
        text_or_none(j, "prefix"@, prefix),
        bool_or_none(j, "cleanup"@, cleanup),
        has(j, "decoders"@, Doc::Arr(inner)) || (lacks(j, "decoders"@) && inner.len() == 0),
    ensures
        schema::decoder_fault(j) is None <==> forall|i: int|
            0 <= i < inner.len() ==> schema::decoder_fault(#[trigger] inner[i]) is None,
{
    law_fields(j, "type"@, Doc::Str(kind), 0);
    lemma_text_accepted(j, "prefix"@, prefix, 2);
    lemma_bool_accepted(j, "cleanup"@, cleanup, 3);
    law_fields(j, "decoders"@, Doc::Arr(inner), 1);
    lemma_decoders_accepted(inner, 0);
    assert(schema::decoder_own_fault(j) is None);
}

proof fn lemma_decoders_accepted(items: Seq<Doc>, i: int)
    requires
        0 <= i,
    ensures
        schema::decoders_fault(items, i) is None <==> forall|k: int|
            i <= k < items.len() ==> schema::decoder_fault(#[trigger] items[k]) is None,
    decreases items.len() - i,
{
    if i < items.len() {
        lemma_decoders_accepted(items, i + 1);
    }
}

/// A pattern is a literal or an expression, by the name of its member.
pub proof fn law_pattern(j: Doc, n: NormalizerJson, p: Doc, s: Seq<char>)
    requires
        schema::reads_normalizer(j, n),
        has(j, "pattern"@, p),
    ensures
        has(p, "String"@, Doc::Str(s)) ==> (n.pattern matches Some(q) && q.literal matches Some(l)
            && l@ == s),
        has(p, "Regex"@, Doc::Str(s)) ==> (n.pattern matches Some(q) && q.regex matches Some(r)
            && r@ == s),
        lacks(p, "String"@) ==> (n.pattern matches Some(q) && q.literal is None),
        lacks(p, "Regex"@) ==> (n.pattern matches Some(q) && q.regex is None),
{
    law_fields(j, "pattern"@, p, 3);
    law_fields(p, "String"@, Doc::Str(s), 1);
    law_fields(p, "Regex"@, Doc::Str(s), 0);
}

/// The entries of a vocabulary whose names differ are its members in order.
pub proof fn law_vocabulary_order(fields: Seq<(Seq<char>, Doc)>)
    requires
        forall|a: int, b: int|
            0 <= a < b < fields.len() ==> (#[trigger] fields[a]).0 != (#[trigger] fields[b]).0,
    ensures
        schema::entries_from(fields, 0) == Seq::new(
            fields.len(),
            |i: int| (fields[i].0, (fields[i].1->Number_0->0) as u32),
        ),
{
    lemma_entries_in_order(fields, 0);
}

proof fn lemma_entries_in_order(fields: Seq<(Seq<char>, Doc)>, i: int)
    requires
        0 <= i <= fields.len(),
        forall|a: int, b: int|
            0 <= a < b < fields.len() ==> (#[trigger] fields[a]).0 != (#[trigger] fields[b]).0,
    ensures
        schema::entries_from(fields, i) == Seq::new(
            (fields.len() - i) as nat,
            |k: int| (fields[i + k].0, (fields[i + k].1->Number_0->0) as u32),
        ),
    decreases fields.len() - i,
{
    let all = Seq::new(
        (fields.len() - i) as nat,
        |k: int| (fields[i + k].0, (fields[i + k].1->Number_0->0) as u32),
    );
    if i < fields.len() {
        lemma_entries_in_order(fields, i + 1);
        assert forall|m: int| i + 1 <= m < fields.len() implies (#[trigger] fields[m]).0
            != fields[i].0 by {
            assert(fields[i].0 != fields[m].0);
        }
        lemma_no_member(fields, fields[i].0, i + 1);
        let rest = schema::entries_from(fields, i + 1);
        assert forall|k: int| 0 <= k < all.len() implies all[k] == (seq![all[0]] + rest)[k] by {
            if k > 0 {
                assert(i + 1 + (k - 1) == i + k);
            }
        }
        assert(all =~= seq![all[0]] + rest);
    }
    assert(schema::entries_from(fields, i) =~= all);
}

/// What stands in a string does not nest: from one quotation mark to the next, with
/// no backslash between them, nothing opens and nothing closes.
pub proof fn law_strings_do_not_nest(data: Seq<u8>, from: nat, to: nat)
    requires
        from < to < data.len(),
        json::place_after(data, from) == json::Place::Plain,
        data[from as int] == 0x22,
        data[to as int] == 0x22,
        forall|i: int| from < i < to ==> #[trigger] data[i] != 0x22 && data[i] != 0x5C,
    ensures
        json::place_after(data, to + 1) == json::Place::Plain,
        json::open_after(data, to + 1) == json::open_after(data, from),
{
    lemma_in_string(data, from, to);
}

proof fn lemma_in_string(data: Seq<u8>, from: nat, n: nat)
    requires
        from < n < data.len(),
        json::place_after(data, from) == json::Place::Plain,
        data[from as int] == 0x22,
        forall|i: int| from < i < n ==> #[trigger] data[i] != 0x22 && data[i] != 0x5C,
    ensures
        json::place_after(data, n) == json::Place::Quoted,
        json::open_after(data, n) == json::open_after(data, from),
    decreases n,
{
    if n > from + 1 {
        lemma_in_string(data, from, (n - 1) as nat);
        assert(data[n - 1] != 0x22 && data[n - 1] != 0x5C);
    }
}

/// A quotation mark behind a backslash does not end a string, and neither does one
/// within the four bytes behind a backslash and a u.
pub proof fn law_escapes(data: Seq<u8>, n: nat)
    requires
        n < data.len(),
        json::place_after(data, n) == json::Place::Quoted,
        data[n as int] == 0x5C,
    ensures
        n + 1 < data.len() && data[(n + 1) as int] != 0x75 ==> json::place_after(data, n + 2)
            == json::Place::Quoted && json::open_after(data, n + 2) == json::open_after(data, n),
        n + 5 < data.len() && data[(n + 1) as int] == 0x75 ==> json::place_after(data, n + 6)
            == json::Place::Quoted && json::open_after(data, n + 6) == json::open_after(data, n),
{
    reveal_with_fuel(json::place_after, 7);
    reveal_with_fuel(json::open_after, 7);
}

/// Outside strings a bracket or a brace opens or closes one level.
pub proof fn law_levels_open_and_close(data: Seq<u8>, n: nat)
    requires
        n < data.len(),
        json::place_after(data, n) == json::Place::Plain,
    ensures
        data[n as int] == 0x5B || data[n as int] == 0x7B ==> json::open_after(data, n + 1)
            == json::open_after(data, n) + 1,
        (data[n as int] == 0x5D || data[n as int] == 0x7D) && json::open_after(data, n) > 0
            ==> json::open_after(data, n + 1) == json::open_after(data, n) - 1,
        data[n as int] != 0x22 ==> json::place_after(data, n + 1) == json::Place::Plain,
{
}

/// What cannot be parsed is left for the loading of a BPE file to refuse.
pub proof fn law_family_of_unparsed(detail: Seq<char>, j: Doc)
    ensures
        hf::family(Err(detail)) == Ok::<ModelFamily, Seq<char>>(ModelFamily::Bpe),
        hf::family(Ok(j)) == hf::family_in(j),
        lacks(j, "model"@) ==> hf::family_in(j) == Ok::<ModelFamily, Seq<char>>(ModelFamily::Bpe),
{
    law_fields(j, "model"@, Doc::Null, 0);
}

/// A record may be written as an array, its fields in their order: an added token
/// as its number, its content and its four flags.
pub proof fn law_added_token_as_array(items: Seq<Doc>, t: AddedToken)
    requires
        schema::reads_added(Doc::Arr(items), t),
        items.len() == 6,
    ensures
        items[0] matches Doc::Number(Some(id)) ==> t.id == id,
        items[1] matches Doc::Str(content) ==> t.content@ == content,
        t.special == (items[2] == Doc::Bool(true)),
        t.lstrip == (items[3] == Doc::Bool(true)),
        t.rstrip == (items[4] == Doc::Bool(true)),
        t.normalized == (items[5] == Doc::Bool(true)),
{
}

/// A model as an array: type, vocabulary, merges, byte fallback, unknown token,
/// continuing prefix, longest word, and whether entries go before merges.
pub proof fn law_model_as_array(items: Seq<Doc>, m: Model)
    requires
        schema::reads_model(Doc::Arr(items), m),
        items.len() == 8,
    ensures
        items[0] matches Doc::Str(kind) ==> m.model_type@ == kind,
        items[1] matches Doc::Obj(names) ==> schema::entry_views(m.vocab@) == schema::entries_from(
            names,
            0,
        ),
        items[2] matches Doc::Arr(merges) ==> schema::reads_merges(merges, m.merges@),
        m.byte_fallback == (items[3] == Doc::Bool(true)),
        items[4] matches Doc::Str(unk) ==> json::opt_text(m.unk_token) == Some(unk),
        items[5] matches Doc::Str(prefix) ==> json::opt_text(m.continuing_subword_prefix) == Some(
            prefix,
        ),
        items[6] matches Doc::Number(Some(n)) ==> (m.max_input_chars_per_word matches Some(k) && k
            == n),
        m.ignore_merges == (items[7] == Doc::Bool(true)),
{
}

/// A file as an array: model, added tokens, pre-tokenizer, normalizer, decoder.
pub proof fn law_file_as_array(items: Seq<Doc>, tj: TokenizerJson)
    requires
        schema::reads_tokenizer(Doc::Arr(items), tj),
        items.len() == 5,
    ensures
        schema::reads_model(items[0], tj.model),
        items[1] matches Doc::Arr(added) ==> schema::reads_added_tokens(added, tj.added_tokens@),
        items[2] is Null ==> tj.pre_tokenizer is None,
        !(items[2] is Null) ==> (tj.pre_tokenizer matches Some(n) && schema::reads_pre_tokenizer(
            items[2],
            n,
        )),
        items[3] is Null ==> tj.normalizer is None,
        !(items[3] is Null) ==> (tj.normalizer matches Some(n) && schema::reads_normalizer(
            items[3],
            n,
        )),
        items[4] is Null ==> tj.decoder is None,
        !(items[4] is Null) ==> (tj.decoder matches Some(n) && schema::reads_decoder(items[4], n)),
{
}

/// The blocks of a file as arrays, the fields in their order.
pub proof fn law_blocks_as_arrays(
    items: Seq<Doc>,
    n: NormalizerJson,
    pt: PreTokenizerJson,
    d: DecoderJson,
)
    ensures
        items.len() == 12 && schema::reads_normalizer(Doc::Arr(items), n) ==> {
            &&& items[0] == Doc::Str(n.kind@)
            &&& items[1] matches Doc::Arr(inner) ==> n.normalizers@.len() == inner.len()
            &&& items[2] matches Doc::Str(s) ==> json::opt_text(n.prepend) == Some(s)
            &&& items[4] matches Doc::Str(s) ==> json::opt_text(n.content) == Some(s)
            &&& items[5] matches Doc::Bool(b) ==> n.strip_left == Some(b)
            &&& items[6] matches Doc::Bool(b) ==> n.strip_right == Some(b)
            &&& items[7] matches Doc::Str(s) ==> json::opt_text(n.precompiled_charsmap) == Some(s)
            &&& items[8] matches Doc::Bool(b) ==> n.clean_text == Some(b)
            &&& items[9] matches Doc::Bool(b) ==> n.handle_chinese_chars == Some(b)
            &&& items[10] matches Doc::Bool(b) ==> n.strip_accents == Some(b)
            &&& items[11] matches Doc::Bool(b) ==> n.lowercase == Some(b)
        },
        items.len() == 9 && schema::reads_pre_tokenizer(Doc::Arr(items), pt) ==> {
            &&& items[0] == Doc::Str(pt.kind@)
            &&& items[1] matches Doc::Arr(inner) ==> pt.pretokenizers@.len() == inner.len()
            &&& items[3] matches Doc::Str(s) ==> json::opt_text(pt.replacement) == Some(s)
            &&& items[4] matches Doc::Str(s) ==> json::opt_text(pt.prepend_scheme) == Some(s)
            &&& items[5] matches Doc::Bool(b) ==> pt.add_prefix_space == Some(b)
            &&& items[6] matches Doc::Bool(b) ==> pt.use_regex == Some(b)
            &&& items[7] matches Doc::Bool(b) ==> pt.split == Some(b)
            &&& items[8] matches Doc::Str(s) ==> json::opt_text(pt.behavior) == Some(s)
        },
        items.len() == 4 && schema::reads_decoder(Doc::Arr(items), d) ==> {
            &&& items[0] == Doc::Str(d.kind@)
            &&& items[1] matches Doc::Arr(inner) ==> d.decoders@.len() == inner.len()
            &&& items[2] matches Doc::Str(s) ==> json::opt_text(d.prefix) == Some(s)
            &&& items[3] matches Doc::Bool(b) ==> d.cleanup == Some(b)
        },
{
}

/// An array with more items than a record has fields is refused, and so is what is
/// neither an object nor an array.
pub proof fn law_records_have_a_shape(items: Seq<Doc>, j: Doc)
    requires
        !(j is Obj),
        !(j is Arr),
    ensures
        items.len() > 6 ==> schema::added_fault(Doc::Arr(items)) is Some,
        items.len() > 8 ==> schema::model_fault(Doc::Arr(items)) is Some,
        items.len() > 5 ==> schema::tokenizer_fault(Doc::Arr(items)) is Some,
        items.len() > 12 ==> schema::normalizer_fault(Doc::Arr(items)) is Some,
        items.len() > 9 ==> schema::pre_tokenizer_fault(Doc::Arr(items)) is Some,
        items.len() > 4 ==> schema::decoder_fault(Doc::Arr(items)) is Some,
        schema::added_fault(j) is Some,
        schema::model_fault(j) is Some,
        schema::tokenizer_fault(j) is Some,
        schema::normalizer_fault(j) is Some,
        schema::pre_tokenizer_fault(j) is Some,
        schema::decoder_fault(j) is Some,
{
}

} // verus!
