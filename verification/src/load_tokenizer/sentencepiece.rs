//! SentencePiece-style files: BPE over characters, with byte tokens to fall back
//! on.

use super::detect;
use super::schema;
use super::schema::{AddedToken, NormalizerJson, PreTokenizerJson, TokenizerJson};
use super::vocab;
use crate::bpe::merge;
use crate::bpe::merge::{Merge, MergeTable};
use crate::bpe::superword;
use crate::byte_map::{same_bytes, ByteMap};
use crate::error::LoadError;
use crate::text;
use crate::TokenId;
use vstd::prelude::*;
use vstd::utf8::*;

verus! {

/// The normalizing map of `spm_precompiled`.
#[verifier::external_type_specification]
#[verifier::external_body]
pub struct ExPrecompiled(spm_precompiled::Precompiled);

/// The serialized form that a normalizing map was read from.
pub uninterp spec fn charsmap_of(map: spm_precompiled::Precompiled) -> Seq<u8>;

/// The number of units that the header of a serialized map promises.
pub open spec fn trie_units(bytes: Seq<u8>) -> int {
    (bytes[0] + bytes[1] * 0x100 + bytes[2] * 0x1_0000 + bytes[3] * 0x100_0000) / 4
}

/// Whether bytes are as long as their header promises; those that are too short
/// for a header promise nothing.
pub open spec fn header_fits(bytes: Seq<u8>) -> bool {
    bytes.len() >= 4 ==> 4 + 4 * trie_units(bytes) <= bytes.len()
}

/// Whether bytes are a serialized map: a size, that many units, and a text.
pub open spec fn charsmap_valid(bytes: Seq<u8>) -> bool {
    &&& bytes.len() >= 4
    &&& header_fits(bytes)
    &&& valid_utf8(bytes.subrange(4 + 4 * trie_units(bytes), bytes.len() as int))
}

/// `spm_precompiled::Precompiled::from`: the map where the bytes are a
/// serialized one, else an error whose text is always the same. It makes room
/// for what the header promises before it reads on.
#[verifier::external_body]
fn spm_precompiled_from(bytes: &[u8]) -> (res: Result<spm_precompiled::Precompiled, String>)
    requires
        header_fits(bytes@),
    ensures
        match res {
            Ok(map) => charsmap_valid(bytes@) && charsmap_of(map) == bytes@,
            Err(e) => !charsmap_valid(bytes@) && e@ == "Cannot parse precompiled_charsmap"@,
        },
{
    spm_precompiled::Precompiled::from(bytes).map_err(|e| e.to_string())
}

/// The bytes that a text in standard base64 stands for.
pub uninterp spec fn base64_decoded(text: Seq<char>) -> Option<Seq<u8>>;

/// `base64::engine::general_purpose::STANDARD.decode`: the text alone decides
/// the bytes, or that there are none. What is accepted is left unsaid.
#[verifier::external_body]
fn base64_decode(text: &str) -> (res: Option<Vec<u8>>)
    ensures
        match res {
            Some(bytes) => base64_decoded(text@) == Some(bytes@),
            None => base64_decoded(text@) is None,
        },
{
    base64::Engine::decode(&base64::engine::general_purpose::STANDARD, text).ok()
}

/// A step of normalization.
#[derive(Debug)]
pub enum NormOp {
    Prepend(String),
    Replace { pattern: String, content: String },
    /// Runs of two or more spaces become the content.
    CollapseSpaces { content: String },
    Strip { left: bool, right: bool },
    Precompiled(spm_precompiled::Precompiled),
}

/// A step of normalization as a mathematical value.
pub enum Step {
    Prepend(Seq<char>),
    Replace { pattern: Seq<char>, content: Seq<char> },
    CollapseSpaces { content: Seq<char> },
    Strip { left: bool, right: bool },
    Precompiled(Seq<u8>),
}

impl NormOp {
    /// The step as a mathematical value.
    pub open spec fn view(&self) -> Step {
        match self {
            NormOp::Prepend(prefix) => Step::Prepend(prefix@),
            NormOp::Replace { pattern, content } => Step::Replace {
                pattern: pattern@,
                content: content@,
            },
            NormOp::CollapseSpaces { content } => Step::CollapseSpaces { content: content@ },
            NormOp::Strip { left, right } => Step::Strip { left: *left, right: *right },
            NormOp::Precompiled(map) => Step::Precompiled(charsmap_of(*map)),
        }
    }
}

/// The views of steps.
pub open spec fn steps_of(ops: Seq<NormOp>) -> Seq<Step> {
    Seq::new(ops.len(), |i: int| ops[i]@)
}

/// The step of a precompiled map, given what base64 made of it.
pub open spec fn charsmap_step(decoded: Option<Seq<u8>>) -> Result<Step, Seq<char>> {
    match decoded {
        None => Err("Failed to base64-decode precompiled_charsmap"@),
        Some(bytes) => if charsmap_valid(bytes) {
            Ok(Step::Precompiled(bytes))
        } else {
            Err("Failed to parse precompiled_charsmap: Cannot parse precompiled_charsmap"@)
        },
    }
}

/// The step of a `Replace` block.
pub open spec fn replace_step(n: NormalizerJson) -> Result<Step, Seq<char>> {
    match n.content {
        None => Err("Replace normalizer without a `content` string"@),
        Some(content) => match n.pattern {
            None => Err("Replace normalizer without a pattern"@),
            Some(p) => match (p.literal, p.regex) {
                (Some(pattern), _) => Ok(Step::Replace { pattern: pattern@, content: content@ }),
                (None, Some(re)) => if re@ == " {2,}"@ {
                    Ok(Step::CollapseSpaces { content: content@ })
                } else {
                    Err(
                        "Unsupported Replace normalizer regex: "@ + text::debug_form(re@)
                            + " (only \" {2,}\" is supported)"@,
                    )
                },
                (None, None) => Err("Replace normalizer without a pattern"@),
            },
        },
    }
}

/// The step of a block that is no sequence.
pub open spec fn single_step(n: NormalizerJson) -> Result<Step, Seq<char>> {
    if n.kind@ == "Prepend"@ {
        match n.prepend {
            Some(prefix) => Ok(Step::Prepend(prefix@)),
            None => Err("Prepend normalizer without a `prepend` string"@),
        }
    } else if n.kind@ == "Replace"@ {
        replace_step(n)
    } else if n.kind@ == "Strip"@ {
        Ok(
            Step::Strip {
                left: detect::bool_or(n.strip_left, true),
                right: detect::bool_or(n.strip_right, true),
            },
        )
    } else if n.kind@ == "Precompiled"@ {
        match n.precompiled_charsmap {
            Some(b64) => charsmap_step(base64_decoded(b64@)),
            None => Err("Precompiled normalizer without a `precompiled_charsmap`"@),
        }
    } else {
        Err("Unsupported normalizer type for SentencePiece tokenizers: "@ + n.kind@)
    }
}

/// The steps of a normalizer in order, or why the first block is refused that
/// is.
pub open spec fn sp_steps(n: NormalizerJson) -> Result<Seq<Step>, Seq<char>>
    decreases n, 0int,
{
    if n.kind@ == "Sequence"@ {
        sp_steps_from(n.normalizers@, 0)
    } else {
        match single_step(n) {
            Ok(step) => Ok(seq![step]),
            Err(e) => Err(e),
        }
    }
}

/// The steps of the normalizers from index `i` on.
pub open spec fn sp_steps_from(list: Seq<NormalizerJson>, i: int) -> Result<Seq<Step>, Seq<char>>
    decreases list, list.len() - i,
{
    if i < 0 || i >= list.len() {
        Ok(Seq::empty())
    } else {
        match sp_steps(list[i]) {
            Err(e) => Err(e),
            Ok(here) => match sp_steps_from(list, i + 1) {
                Err(e) => Err(e),
                Ok(later) => Ok(here + later),
            },
        }
    }
}

fn refused(reason: &str) -> (e: LoadError)
    ensures
        e.text() == reason@,
{
    LoadError::Refused { reason: reason.to_owned() }
}

fn fits(bytes: &[u8]) -> (res: bool)
    ensures
        res == header_fits(bytes@),
{
    if bytes.len() < 4 {
        return true;
    }
    let size: u64 = bytes[0] as u64 + bytes[1] as u64 * 0x100 + bytes[2] as u64 * 0x1_0000
        + bytes[3] as u64 * 0x100_0000;
    4 + 4 * (size / 4) <= bytes.len() as u64
}

/// The step of a precompiled map, given what base64 made of it.
pub fn charsmap_op(decoded: Option<Vec<u8>>) -> (res: Result<NormOp, LoadError>)
    ensures
        ({
            let given = match decoded {
                Some(bytes) => Some(bytes@),
                None => None,
            };
            match res {
                Ok(op) => charsmap_step(given) == Ok::<Step, Seq<char>>(op@),
                Err(e) => charsmap_step(given) == Err::<Step, Seq<char>>(e.text()),
            }
        }),
{
    proof {
        reveal_strlit("Failed to parse precompiled_charsmap: Cannot parse precompiled_charsmap");
        reveal_strlit("Failed to parse precompiled_charsmap: ");
        reveal_strlit("Cannot parse precompiled_charsmap");
        assert("Failed to parse precompiled_charsmap: Cannot parse precompiled_charsmap"@
            =~= "Failed to parse precompiled_charsmap: "@ + "Cannot parse precompiled_charsmap"@);
    }
    match decoded {
        None => Err(refused("Failed to base64-decode precompiled_charsmap")),
        Some(bytes) => {
            if !fits(&bytes) {
                return Err(
                    refused(
                        "Failed to parse precompiled_charsmap: Cannot parse precompiled_charsmap",
                    ),
                );
            }
            match spm_precompiled_from(&bytes) {
                Ok(map) => Ok(NormOp::Precompiled(map)),
                Err(e) => Err(
                    LoadError::Refused {
                        reason: text::join("Failed to parse precompiled_charsmap: ", e.as_str()),
                    },
                ),
            }
        },
    }
}

fn replace_op(n: &NormalizerJson) -> (res: Result<NormOp, LoadError>)
    ensures
        match res {
            Ok(op) => replace_step(*n) == Ok::<Step, Seq<char>>(op@),
            Err(e) => replace_step(*n) == Err::<Step, Seq<char>>(e.text()),
        },
{
    let content = match &n.content {
        None => {
            return Err(refused("Replace normalizer without a `content` string"));
        },
        Some(content) => content.as_str().to_owned(),
    };
    match &n.pattern {
        None => Err(refused("Replace normalizer without a pattern")),
        Some(p) => match (&p.literal, &p.regex) {
            (Some(pattern), _) => Ok(
                NormOp::Replace { pattern: pattern.as_str().to_owned(), content },
            ),
            (None, Some(re)) => if text::same(re.as_str(), " {2,}") {
                Ok(NormOp::CollapseSpaces { content })
            } else {
                let shown = text::quoted(re.as_str());
                let named = text::join("Unsupported Replace normalizer regex: ", shown.as_str());
                Err(
                    LoadError::Refused {
                        reason: text::join(named.as_str(), " (only \" {2,}\" is supported)"),
                    },
                )
            },
            (None, None) => Err(refused("Replace normalizer without a pattern")),
        },
    }
}

fn single_op(n: &NormalizerJson) -> (res: Result<NormOp, LoadError>)
    ensures
        match res {
            Ok(op) => single_step(*n) == Ok::<Step, Seq<char>>(op@),
            Err(e) => single_step(*n) == Err::<Step, Seq<char>>(e.text()),
        },
{
    let kind = n.kind.as_str();
    if text::same(kind, "Prepend") {
        match &n.prepend {
            Some(prefix) => Ok(NormOp::Prepend(prefix.as_str().to_owned())),
            None => Err(refused("Prepend normalizer without a `prepend` string")),
        }
    } else if text::same(kind, "Replace") {
        replace_op(n)
    } else if text::same(kind, "Strip") {
        Ok(
            NormOp::Strip {
                left: detect::flag_or(n.strip_left, true),
                right: detect::flag_or(n.strip_right, true),
            },
        )
    } else if text::same(kind, "Precompiled") {
        match &n.precompiled_charsmap {
            Some(b64) => charsmap_op(base64_decode(b64.as_str())),
            None => Err(refused("Precompiled normalizer without a `precompiled_charsmap`")),
        }
    } else {
        Err(
            LoadError::Refused {
                reason: text::join(
                    "Unsupported normalizer type for SentencePiece tokenizers: ",
                    kind,
                ),
            },
        )
    }
}

/// Appends the steps of a normalizer. What is not supported is refused: to skip
/// it would change the tokens. The steps that were there before stay in front
/// either way.
pub fn parse_sp_normalizer(n: &NormalizerJson, out: &mut Vec<NormOp>) -> (res: Result<
    (),
    LoadError,
>)
    ensures
        match res {
            Ok(_) => {
                &&& sp_steps(*n) matches Ok(steps)
                &&& steps_of(final(out)@) == steps_of(old(out)@) + steps
            },
            Err(e) => sp_steps(*n) == Err::<Seq<Step>, Seq<char>>(e.text()),
        },
        final(out)@.len() >= old(out)@.len(),
        steps_of(final(out)@).take(old(out)@.len() as int) == steps_of(old(out)@),
    decreases n,
{
    if !text::same(n.kind.as_str(), "Sequence") {
        let ghost before = out@;
        let op = match single_op(n) {
            Ok(op) => op,
            Err(e) => {
                return Err(e);
            },
        };
        let ghost step = op@;
        out.push(op);
        assert(steps_of(out@) =~= steps_of(before) + seq![step]);
        return Ok(());
    }
    let ghost start = steps_of(out@);
    let ghost mut done: Seq<Step> = Seq::empty();
    assert(start + done =~= start);
    proof {
        match sp_steps_from(n.normalizers@, 0) {
            Ok(later) => {
                assert(done + later =~= later);
            },
            Err(_) => {},
        }
    }
    let mut i: usize = 0;
    while i < n.normalizers.len()
        invariant
            i <= n.normalizers@.len(),
            start == steps_of(old(out)@),
            steps_of(out@) == start + done,
            sp_steps(*n) == (match sp_steps_from(n.normalizers@, i as int) {
                Ok(later) => Ok::<Seq<Step>, Seq<char>>(done + later),
                Err(e) => Err(e),
            }),
        decreases n.normalizers@.len() - i,
    {
        let ghost given = done;
        let ghost mid = out@;
        assert(steps_of(mid).len() == start.len() + done.len());
        match parse_sp_normalizer(&n.normalizers[i], out) {
            Ok(_) => {},
            Err(e) => {
                proof {
                    let kept = steps_of(out@).take(mid.len() as int);
                    assert(kept.take(start.len() as int) =~= start);
                    assert(steps_of(out@).take(start.len() as int) =~= kept.take(start.len() as int));
                }
                return Err(e);
            },
        }
        proof {
            let here = sp_steps(n.normalizers@[i as int])->Ok_0;
            done = given + here;
            assert(start + done =~= (start + given) + here);
            match sp_steps_from(n.normalizers@, i + 1) {
                Ok(later) => {
                    assert(given + (here + later) =~= done + later);
                },
                Err(_) => {},
            }
        }
        i += 1;
    }
    assert(done + Seq::<Step>::empty() =~= done);
    assert(steps_of(out@).len() == start.len() + done.len());
    Ok(())
}

/// Where a `Metaspace` pre-tokenizer puts its mark in front.
#[derive(Clone, Copy, Debug, PartialEq, Eq, Structural)]
pub enum PrependScheme {
    Never,
    Always,
    First,
}

/// A `Metaspace` pre-tokenizer.
#[derive(Clone, Copy, Debug, PartialEq, Eq, Structural)]
pub struct Metaspace {
    pub prepend: PrependScheme,
    pub split: bool,
}

/// Where the mark goes, or why the block is refused.
pub open spec fn prepend_of(pt: PreTokenizerJson) -> Result<PrependScheme, Seq<char>> {
    match pt.prepend_scheme {
        Some(scheme) => if scheme@ == "never"@ {
            Ok(PrependScheme::Never)
        } else if scheme@ == "always"@ {
            Ok(PrependScheme::Always)
        } else if scheme@ == "first"@ {
            Ok(PrependScheme::First)
        } else {
            Err("Unsupported Metaspace prepend_scheme: "@ + scheme@)
        },
        None => if pt.add_prefix_space == Some(false) {
            Ok(PrependScheme::Never)
        } else {
            Ok(PrependScheme::Always)
        },
    }
}

/// The setting of a `Metaspace` block, or why it is refused.
pub open spec fn metaspace_of(pt: PreTokenizerJson) -> Result<Metaspace, Seq<char>> {
    if detect::text_or(pt.replacement, "\u{2581}"@) != "\u{2581}"@ {
        Err(
            "Unsupported Metaspace replacement: Some("@ + text::debug_form(pt.replacement->0@)
                + ") (expected \"\u{2581}\")"@,
        )
    } else {
        match prepend_of(pt) {
            Ok(prepend) => Ok(Metaspace { prepend, split: detect::bool_or(pt.split, true) }),
            Err(e) => Err(e),
        }
    }
}

/// Whether a step leaves no space in a text.
pub open spec fn removes_spaces(step: Step) -> bool {
    step matches Step::Replace { pattern, content } && pattern == " "@ && !content.contains(' ')
}

/// Whether a pre-tokenizer splits at spaces that are gone by then.
pub open spec fn splits_nothing(pt: PreTokenizerJson, steps: Seq<Step>) -> bool {
    &&& pt.kind@ == "Split"@
    &&& pt.pattern matches Some(p) && p.literal matches Some(l) && l@ == " "@
    &&& pt.behavior matches Some(b) && b@ == "MergedWithPrevious"@
    &&& exists|i: int| 0 <= i < steps.len() && removes_spaces(#[trigger] steps[i])
}

/// The `Metaspace` setting of a file, none where merges cross word boundaries, or
/// why its pre-tokenizer is refused.
pub open spec fn metaspace_setting(
    pre_tokenizer: Option<PreTokenizerJson>,
    steps: Seq<Step>,
) -> Result<Option<Metaspace>, Seq<char>> {
    match pre_tokenizer {
        None => Ok(None),
        Some(pt) => if pt.kind@ == "Metaspace"@ {
            match metaspace_of(pt) {
                Ok(m) => Ok(Some(m)),
                Err(e) => Err(e),
            }
        } else if pt.kind@ == "Sequence"@ && pt.pretokenizers@.len() == 1
            && pt.pretokenizers@[0].kind@ == "Metaspace"@ {
            match metaspace_of(pt.pretokenizers@[0]) {
                Ok(m) => Ok(Some(m)),
                Err(e) => Err(e),
            }
        } else if splits_nothing(pt, steps) {
            Ok(None)
        } else {
            Err("Unsupported pre_tokenizer type for SentencePiece tokenizers: "@ + pt.kind@)
        },
    }
}

fn from_metaspace(pt: &PreTokenizerJson) -> (res: Result<Metaspace, LoadError>)
    ensures
        match res {
            Ok(m) => metaspace_of(*pt) == Ok::<Metaspace, Seq<char>>(m),
            Err(e) => metaspace_of(*pt) == Err::<Metaspace, Seq<char>>(e.text()),
        },
{
    match &pt.replacement {
        Some(mark) => if !text::same(mark.as_str(), "\u{2581}") {
            let shown = text::quoted(mark.as_str());
            let named = text::join("Unsupported Metaspace replacement: Some(", shown.as_str());
            return Err(
                LoadError::Refused {
                    reason: text::join(named.as_str(), ") (expected \"\u{2581}\")"),
                },
            );
        },
        None => {},
    }
    let prepend = match &pt.prepend_scheme {
        Some(scheme) => {
            let scheme = scheme.as_str();
            if text::same(scheme, "never") {
                PrependScheme::Never
            } else if text::same(scheme, "always") {
                PrependScheme::Always
            } else if text::same(scheme, "first") {
                PrependScheme::First
            } else {
                return Err(
                    LoadError::Refused {
                        reason: text::join("Unsupported Metaspace prepend_scheme: ", scheme),
                    },
                );
            }
        },
        None => match pt.add_prefix_space {
            Some(false) => PrependScheme::Never,
            _ => PrependScheme::Always,
        },
    };
    Ok(Metaspace { prepend, split: detect::flag_or(pt.split, true) })
}

fn holds_space(s: &str) -> (res: bool)
    ensures
        res == s@.contains(' '),
{
    let chars = text::chars_of(s);
    let mut i: usize = 0;
    while i < chars.len()
        invariant
            chars@ == s@,
            i <= s@.len(),
            forall|m: int| 0 <= m < i ==> #[trigger] s@[m] != ' ',
        decreases s@.len() - i,
    {
        if chars[i] == ' ' {
            return true;
        }
        i += 1;
    }
    false
}

fn any_removes_spaces(ops: &Vec<NormOp>) -> (res: bool)
    ensures
        res == (exists|i: int|
            0 <= i < steps_of(ops@).len() && removes_spaces(#[trigger] steps_of(ops@)[i])),
{
    let ghost steps = steps_of(ops@);
    let mut i: usize = 0;
    while i < ops.len()
        invariant
            steps == steps_of(ops@),
            i <= ops@.len(),
            forall|m: int| 0 <= m < i ==> !removes_spaces(#[trigger] steps[m]),
        decreases ops@.len() - i,
    {
        assert(steps[i as int] == ops@[i as int]@);
        let removes = match &ops[i] {
            NormOp::Replace { pattern, content } => text::same(pattern.as_str(), " ")
                && !holds_space(content.as_str()),
            _ => false,
        };
        if removes {
            assert(removes_spaces(steps[i as int]));
            return true;
        }
        i += 1;
    }
    false
}

/// The `Metaspace` setting of a file. Without a pre-tokenizer, and with one that
/// splits at spaces that normalization has already replaced, merges cross word
/// boundaries.
pub fn parse_sp_metaspace(
    pre_tokenizer: &Option<PreTokenizerJson>,
    norm_ops: &Vec<NormOp>,
) -> (res: Result<Option<Metaspace>, LoadError>)
    ensures
        match res {
            Ok(m) => metaspace_setting(*pre_tokenizer, steps_of(norm_ops@)) == Ok::<
                Option<Metaspace>,
                Seq<char>,
            >(m),
            Err(e) => metaspace_setting(*pre_tokenizer, steps_of(norm_ops@)) == Err::<
                Option<Metaspace>,
                Seq<char>,
            >(e.text()),
        },
{
    let pt = match pre_tokenizer {
        None => {
            return Ok(None);
        },
        Some(pt) => pt,
    };
    let kind = pt.kind.as_str();
    if text::same(kind, "Metaspace") {
        return match from_metaspace(pt) {
            Ok(m) => Ok(Some(m)),
            Err(e) => Err(e),
        };
    }
    if text::same(kind, "Sequence") && pt.pretokenizers.len() == 1 && text::same(
        pt.pretokenizers[0].kind.as_str(),
        "Metaspace",
    ) {
        return match from_metaspace(&pt.pretokenizers[0]) {
            Ok(m) => Ok(Some(m)),
            Err(e) => Err(e),
        };
    }
    let at_space = match &pt.pattern {
        Some(p) => match &p.literal {
            Some(l) => text::same(l.as_str(), " "),
            None => false,
        },
        None => false,
    };
    let merged = match &pt.behavior {
        Some(b) => text::same(b.as_str(), "MergedWithPrevious"),
        None => false,
    };
    if text::same(kind, "Split") && at_space && merged && any_removes_spaces(norm_ops) {
        return Ok(None);
    }
    Err(
        LoadError::Refused {
            reason: text::join(
                "Unsupported pre_tokenizer type for SentencePiece tokenizers: ",
                kind,
            ),
        },
    )
}

/// An added token as it is matched.
#[derive(Debug)]
pub struct AddedTokenSpec {
    pub content: String,
    pub id: TokenId,
    pub lstrip: bool,
    pub rstrip: bool,
}

/// A SentencePiece-style tokenizer.
#[derive(Debug)]
pub struct SentencePieceBPE {
    pub merges: MergeTable,
    pub vocab: Vec<Vec<u8>>,
    pub vocab_inv: ByteMap,
    /// The byte token of every byte; a vocabulary may lack those that it never
    /// needs.
    pub byte_fallback_ids: Vec<Option<TokenId>>,
    /// The tokens that are matched in the text as given.
    pub added_tokens: Vec<AddedTokenSpec>,
    /// The tokens that are matched in normalized text. The content is as listed:
    /// it is to be normalized like the text.
    pub norm_added_tokens: Vec<AddedTokenSpec>,
    pub norm_ops: Vec<NormOp>,
    pub metaspace: Option<Metaspace>,
}

/// The upper-case hexadecimal digit of a value below 16.
pub open spec fn upper_hex(v: int) -> u8 {
    if v < 10 {
        (48 + v) as u8
    } else {
        (55 + v) as u8
    }
}

/// The name of the byte token of a byte.
pub open spec fn byte_name(b: u8) -> Seq<u8> {
    seq![60u8, 48u8, 120u8, upper_hex(b as int / 16), upper_hex(b as int % 16), 62u8]
}

/// The number of the last of the first `n` entries with a given name.
pub open spec fn id_named(entries: Seq<(Seq<char>, u32)>, name: Seq<u8>, n: nat) -> Option<u32>
    decreases n,
{
    if n == 0 || n > entries.len() {
        None
    } else if encode_utf8(entries[n - 1].0) == name {
        Some(entries[n - 1].1)
    } else {
        id_named(entries, name, (n - 1) as nat)
    }
}

/// The byte token of a byte.
pub open spec fn fallback_id(entries: Seq<(Seq<char>, u32)>, b: u8) -> Option<u32> {
    id_named(entries, byte_name(b), entries.len())
}

/// The number of an optional token.
pub open spec fn opt_number(id: Option<TokenId>) -> Option<u32> {
    match id {
        Some(id) => Some(id.0),
        None => None,
    }
}

proof fn lemma_byte_name(b: u8)
    ensures
        vocab::fallback_byte(byte_name(b)) == Some(b),
{
    let h = b as int / 16;
    let l = b as int % 16;
    assert(0 <= h < 16 && 0 <= l < 16 && h * 16 + l == b);
    assert(vocab::hex_value(upper_hex(h)) == Some(h as u8));
    assert(vocab::hex_value(upper_hex(l)) == Some(l as u8));
}

fn hex_char(v: u8) -> (c: u8)
    requires
        v < 16,
    ensures
        c == upper_hex(v as int),
{
    if v < 10 {
        48 + v
    } else {
        55 + v
    }
}

fn name_of_byte(b: u8) -> (out: Vec<u8>)
    ensures
        out@ == byte_name(b),
{
    let mut out: Vec<u8> = Vec::new();
    out.push(60);
    out.push(48);
    out.push(120);
    out.push(hex_char(b / 16));
    out.push(hex_char(b % 16));
    out.push(62);
    assert(out@ =~= byte_name(b));
    out
}

fn find_byte_tokens(entries: &Vec<(String, TokenId)>) -> (ids: Vec<Option<TokenId>>)
    ensures
        ids@.len() == 256,
        forall|b: u8| opt_number(#[trigger] ids@[b as int]) == fallback_id(
            schema::entry_views(entries@),
            b,
        ),
{
    let ghost views = schema::entry_views(entries@);
    let mut ids: Vec<Option<TokenId>> = Vec::new();
    while ids.len() < 256
        invariant
            ids@.len() <= 256,
            forall|b: int| 0 <= b < ids@.len() ==> #[trigger] ids@[b] is None,
        decreases 256 - ids@.len(),
    {
        ids.push(None);
    }
    let mut i: usize = 0;
    while i < entries.len()
        invariant
            views == schema::entry_views(entries@),
            i <= entries@.len(),
            ids@.len() == 256,
            forall|b: u8| opt_number(#[trigger] ids@[b as int]) == id_named(
                views,
                byte_name(b),
                i as nat,
            ),
        decreases entries@.len() - i,
    {
        let name = entries[i].0.as_str();
        let ghost before = ids@;
        assert(views[i as int] == (name@, entries@[i as int].1.0));
        match vocab::parse_byte_fallback(name) {
            Some(b) => {
                let canonical = name_of_byte(b);
                if same_bytes(name.as_bytes(), &canonical) {
                    ids.set(b as usize, Some(entries[i].1));
                }
            },
            None => {},
        }
        proof {
            assert forall|b: u8| opt_number(#[trigger] ids@[b as int]) == id_named(
                views,
                byte_name(b),
                (i + 1) as nat,
            ) by {
                lemma_byte_name(b);
                assert(opt_number(before[b as int]) == id_named(views, byte_name(b), i as nat));
            }
        }
        i += 1;
    }
    ids
}

fn any_token(ids: &Vec<Option<TokenId>>) -> (res: bool)
    requires
        ids@.len() == 256,
    ensures
        res == (exists|b: u8| (#[trigger] ids@[b as int]) is Some),
{
    let mut i: usize = 0;
    while i < 256
        invariant
            ids@.len() == 256,
            i <= 256,
            forall|b: u8| b < i ==> (#[trigger] ids@[b as int]) is None,
        decreases 256 - i,
    {
        if ids[i].is_some() {
            assert(ids@[i as u8 as int] is Some);
            return true;
        }
        i += 1;
    }
    false
}

/// The pieces among the first `n` entries that are byte-fallback tokens, or that
/// are not.
pub open spec fn pieces_that(
    entries: Seq<(Seq<char>, u32)>,
    fallback: bool,
    n: nat,
) -> Seq<(Seq<u8>, u32)>
    decreases n,
{
    if n == 0 || n > entries.len() {
        Seq::empty()
    } else {
        let before = pieces_that(entries, fallback, (n - 1) as nat);
        let name = entries[n - 1].0;
        if (vocab::fallback_byte(encode_utf8(name)) is Some) == fallback {
            before.push((vocab::token_bytes(name), entries[n - 1].1))
        } else {
            before
        }
    }
}

/// The pieces of a vocabulary, the byte-fallback tokens first: of the same bytes
/// another token counts.
pub open spec fn sp_pieces(entries: Seq<(Seq<char>, u32)>) -> Seq<(Seq<u8>, u32)> {
    pieces_that(entries, true, entries.len()) + pieces_that(entries, false, entries.len())
}

fn append_pieces(entries: &Vec<(String, TokenId)>, fallback: bool, out: &mut Vec<(Vec<u8>, u32)>)
    ensures
        vocab::piece_views(final(out)@) == vocab::piece_views(old(out)@) + pieces_that(
            schema::entry_views(entries@),
            fallback,
            entries@.len(),
        ),
{
    let ghost views = schema::entry_views(entries@);
    let ghost start = vocab::piece_views(out@);
    assert(start + pieces_that(views, fallback, 0) =~= start);
    let mut i: usize = 0;
    while i < entries.len()
        invariant
            views == schema::entry_views(entries@),
            start == vocab::piece_views(old(out)@),
            i <= entries@.len(),
            vocab::piece_views(out@) == start + pieces_that(views, fallback, i as nat),
        decreases entries@.len() - i,
    {
        let name = entries[i].0.as_str();
        assert(views[i as int] == (name@, entries@[i as int].1.0));
        if vocab::parse_byte_fallback(name).is_some() == fallback {
            let ghost before = out@;
            let bytes = vocab::token_str_to_bytes(name);
            let id: u32 = entries[i].1.0;
            let ghost piece = (bytes@, id);
            out.push((bytes, id));
            assert(vocab::piece_views(out@) =~= vocab::piece_views(before).push(piece));
            assert(vocab::piece_views(out@) =~= start + pieces_that(
                views,
                fallback,
                (i + 1) as nat,
            ));
        }
        i += 1;
    }
}

/// The merge of two strings: each and both together must be in the vocabulary.
pub open spec fn sp_merge(
    inv: Map<Seq<u8>, u32>,
    a: Seq<char>,
    b: Seq<char>,
    rank: u32,
) -> Option<Merge> {
    let left = vocab::token_bytes(a);
    let right = vocab::token_bytes(b);
    let both = vocab::token_bytes(a + b);
    if inv.contains_key(left) && inv.contains_key(right) && inv.contains_key(both) {
        Some(Merge { left: inv[left], right: inv[right], merged: inv[both], rank })
    } else {
        None
    }
}

/// The merges of the first `n` pairs of a list, ranked by their place in it.
pub open spec fn sp_merges(
    list: Seq<(String, String)>,
    inv: Map<Seq<u8>, u32>,
    n: nat,
) -> Seq<Merge>
    decreases n,
{
    if n == 0 || n > list.len() {
        Seq::empty()
    } else {
        let before = sp_merges(list, inv, (n - 1) as nat);
        match sp_merge(inv, list[n - 1].0@, list[n - 1].1@, (n - 1) as u32) {
            Some(m) => before.push(m),
            None => before,
        }
    }
}

fn merge_of(a: &str, b: &str, rank: u32, inv: &ByteMap) -> (res: Option<Merge>)
    requires
        inv.well_formed(),
    ensures
        res == sp_merge(inv@, a@, b@, rank),
{
    let both = text::join(a, b);
    let left = inv.get(&vocab::token_str_to_bytes(a));
    let right = inv.get(&vocab::token_str_to_bytes(b));
    let merged = inv.get(&vocab::token_str_to_bytes(both.as_str()));
    match (left, right, merged) {
        (Some(left), Some(right), Some(merged)) => Some(Merge { left, right, merged, rank }),
        _ => None,
    }
}

fn collect_merges(list: &Vec<(String, String)>, inv: &ByteMap) -> (table: MergeTable)
    requires
        inv.well_formed(),
    ensures
        table.well_formed(),
        ({
            let merges = sp_merges(list@, inv@, list@.len());
            table@ == merge::table_of(merges, merges.len())
        }),
{
    let mut table = MergeTable::new();
    let ghost mut merges: Seq<Merge> = Seq::empty();
    let mut i: usize = 0;
    while i < list.len()
        invariant
            inv.well_formed(),
            table.well_formed(),
            i <= list@.len(),
            merges == sp_merges(list@, inv@, i as nat),
            table@ == merge::table_of(merges, merges.len()),
        decreases list@.len() - i,
    {
        match merge_of(list[i].0.as_str(), list[i].1.as_str(), i as u32, inv) {
            Some(m) => {
                table.insert_first(m);
                proof {
                    let longer = merges.push(m);
                    merge::lemma_table_of_prefix(merges, longer, merges.len());
                    merges = longer;
                }
            },
            None => {},
        }
        i += 1;
    }
    table
}

/// What is kept of an added token.
pub open spec fn spec_view(t: AddedTokenSpec) -> (Seq<char>, u32, bool, bool) {
    (t.content@, t.id.0, t.lstrip, t.rstrip)
}

/// The views of added tokens.
pub open spec fn spec_views(tokens: Seq<AddedTokenSpec>) -> Seq<(Seq<char>, u32, bool, bool)> {
    Seq::new(tokens.len(), |i: int| spec_view(tokens[i]))
}

/// The added tokens among the first `n` that are matched in normalized text, or
/// that are not.
pub open spec fn added_that(
    added: Seq<AddedToken>,
    normalized: bool,
    n: nat,
) -> Seq<(Seq<char>, u32, bool, bool)>
    decreases n,
{
    if n == 0 || n > added.len() {
        Seq::empty()
    } else {
        let before = added_that(added, normalized, (n - 1) as nat);
        let t = added[n - 1];
        if t.normalized == normalized {
            before.push((t.content@, t.id, t.lstrip, t.rstrip))
        } else {
            before
        }
    }
}

fn select_added(added: &Vec<AddedToken>, normalized: bool) -> (out: Vec<AddedTokenSpec>)
    ensures
        spec_views(out@) == added_that(added@, normalized, added@.len()),
{
    let mut out: Vec<AddedTokenSpec> = Vec::new();
    assert(spec_views(out@) =~= added_that(added@, normalized, 0));
    let mut i: usize = 0;
    while i < added.len()
        invariant
            i <= added@.len(),
            spec_views(out@) == added_that(added@, normalized, i as nat),
        decreases added@.len() - i,
    {
        let t = &added[i];
        if t.normalized == normalized {
            let ghost before = out@;
            let kept = AddedTokenSpec {
                content: t.content.as_str().to_owned(),
                id: TokenId(t.id),
                lstrip: t.lstrip,
                rstrip: t.rstrip,
            };
            let ghost shown = spec_view(kept);
            out.push(kept);
            assert(spec_views(out@) =~= spec_views(before).push(shown));
        }
        i += 1;
    }
    out
}

/// The steps of a file's normalizer, or why it is refused.
pub open spec fn steps_setting(normalizer: Option<NormalizerJson>) -> Result<Seq<Step>, Seq<char>> {
    match normalizer {
        None => Ok(Seq::empty()),
        Some(n) => sp_steps(n),
    }
}

/// Why a file is refused as a SentencePiece-style tokenizer.
pub open spec fn sp_fault(tj: TokenizerJson) -> Option<Seq<char>> {
    let entries = schema::entry_views(tj.model.vocab@);
    if tj.model.model_type@ != "BPE"@ {
        Some("Unsupported model type: "@ + tj.model.model_type@ + " (expected BPE)"@)
    } else if !tj.model.byte_fallback {
        Some("Only byte_fallback tokenizers are supported"@)
    } else if forall|b: u8| (#[trigger] fallback_id(entries, b)) is None {
        Some("byte_fallback is set but the vocab has no <0xHH> byte tokens"@)
    } else {
        match steps_setting(tj.normalizer) {
            Err(e) => Some(e),
            Ok(steps) => match metaspace_setting(tj.pre_tokenizer, steps) {
                Err(e) => Some(e),
                Ok(_) => None,
            },
        }
    }
}

/// Whether a tokenizer is the one that a file describes.
pub open spec fn sp_describes(tj: TokenizerJson, m: SentencePieceBPE) -> bool {
    let entries = schema::entry_views(tj.model.vocab@);
    let pieces = sp_pieces(entries);
    let inv = vocab::numbers_by_bytes(pieces, pieces.len());
    let merges = sp_merges(tj.model.merges@, inv, tj.model.merges@.len());
    &&& m.merges.well_formed()
    &&& m.merges@ == merge::table_of(merges, merges.len())
    &&& m.vocab_inv.well_formed()
    &&& m.vocab_inv@ == inv
    &&& superword::views(m.vocab@) == vocab::extended(
        vocab::slots(pieces),
        tj.added_tokens@,
        tj.added_tokens@.len(),
    )
    &&& m.byte_fallback_ids@.len() == 256
    &&& forall|b: u8|
        opt_number(#[trigger] m.byte_fallback_ids@[b as int]) == fallback_id(entries, b)
    &&& steps_setting(tj.normalizer) == Ok::<Seq<Step>, Seq<char>>(steps_of(m.norm_ops@))
    &&& metaspace_setting(tj.pre_tokenizer, steps_of(m.norm_ops@)) == Ok::<
        Option<Metaspace>,
        Seq<char>,
    >(m.metaspace)
    &&& spec_views(m.added_tokens@) == added_that(
        tj.added_tokens@,
        false,
        tj.added_tokens@.len(),
    )
    &&& spec_views(m.norm_added_tokens@) == added_that(
        tj.added_tokens@,
        true,
        tj.added_tokens@.len(),
    )
}

/// Builds the SentencePiece-style tokenizer that a file describes.
pub fn build_sentencepiece(tj: &TokenizerJson) -> (res: Result<SentencePieceBPE, LoadError>)
    ensures
        match res {
            Ok(m) => sp_fault(*tj) is None && sp_describes(*tj, m),
            Err(e) => sp_fault(*tj) == Some(e.text()),
        },
{
    if !text::same(tj.model.model_type.as_str(), "BPE") {
        let named = text::join("Unsupported model type: ", tj.model.model_type.as_str());
        return Err(
            LoadError::Refused { reason: text::join(named.as_str(), " (expected BPE)") },
        );
    }
    if !tj.model.byte_fallback {
        return Err(refused("Only byte_fallback tokenizers are supported"));
    }
    let ghost entries = schema::entry_views(tj.model.vocab@);
    let mut pieces: Vec<(Vec<u8>, u32)> = Vec::new();
    append_pieces(&tj.model.vocab, true, &mut pieces);
    append_pieces(&tj.model.vocab, false, &mut pieces);
    assert(vocab::piece_views(pieces@) =~= sp_pieces(entries));
    let mut entries_by_id = vocab::place(&pieces);
    let vocab_inv = vocab::index(&pieces);
    let byte_fallback_ids = find_byte_tokens(&tj.model.vocab);
    if !any_token(&byte_fallback_ids) {
        assert forall|b: u8| (#[trigger] fallback_id(entries, b)) is None by {
            assert(byte_fallback_ids@[b as int] is None);
        }
        return Err(refused("byte_fallback is set but the vocab has no <0xHH> byte tokens"));
    }
    proof {
        let b = choose|b: u8| (#[trigger] byte_fallback_ids@[b as int]) is Some;
        assert(fallback_id(entries, b) is Some);
    }
    let merges = collect_merges(&tj.model.merges, &vocab_inv);
    let mut norm_ops: Vec<NormOp> = Vec::new();
    assert(steps_of(norm_ops@) =~= Seq::<Step>::empty());
    match &tj.normalizer {
        Some(n) => {
            match parse_sp_normalizer(n, &mut norm_ops) {
                Ok(_) => {},
                Err(e) => {
                    return Err(e);
                },
            }
            assert(Seq::<Step>::empty() + sp_steps(*n)->Ok_0 =~= sp_steps(*n)->Ok_0);
        },
        None => {},
    }
    let metaspace = match parse_sp_metaspace(&tj.pre_tokenizer, &norm_ops) {
        Ok(m) => m,
        Err(e) => {
            return Err(e);
        },
    };
    let added_tokens = select_added(&tj.added_tokens, false);
    let norm_added_tokens = select_added(&tj.added_tokens, true);
    vocab::extend_vocab_with_added_tokens(&mut entries_by_id, &tj.added_tokens);
    Ok(
        SentencePieceBPE {
            merges,
            vocab: entries_by_id,
            vocab_inv,
            byte_fallback_ids,
            added_tokens,
            norm_added_tokens,
            norm_ops,
            metaspace,
        },
    )
}

} // verus!
