//! The tokenizer: added tokens, normalization, pretokenization and a model.

use super::bert_normalizer;
use super::bert_normalizer::{BertNormalizer, BertScratch};
use super::byte_remapping;
use super::byte_remapping::ByteRemapping;
use super::decode;
use super::merge;
use super::merge::MergeTable;
use super::plan;
use super::plan::{L1Fill, SuperwordPlan};
use super::superword;
use super::wordpiece;
use super::wordpiece::{WordPiece, WordPieceDecoder};
use crate::byte_map::ByteMap;
use crate::pretokenize::fast::dispatch;
use crate::pretokenize::options::PretokenizerType;
use crate::pretokenize::pattern;
use crate::pretokenize::pattern::CharSet;
use crate::pretokenize::unicode::category;
use crate::pretokenize::walker;
use crate::pretokenize::walker::SpanWalker;
use crate::utf8;
use crate::TokenId;
use vstd::prelude::*;
use vstd::slice::slice_subrange;
use vstd::utf8::*;

verus! {

/// A token that is matched in the raw text before anything else happens to it.
/// With `lstrip` or `rstrip`, a match takes the white space on that side.
#[derive(Debug)]
pub struct AddedTokenDef {
    pub content: Vec<u8>,
    pub id: TokenId,
    pub lstrip: bool,
    pub rstrip: bool,
}

/// What turns a pretoken into tokens.
#[derive(Debug)]
pub enum Model {
    /// Merging from single bytes. With `ignore_merges`, a pretoken that is a
    /// vocabulary entry is that entry.
    Bpe { merges: MergeTable, bytes: ByteRemapping, id_ranked: bool },
    /// Longest-match-first segmentation.
    WordPiece { model: WordPiece, decoder: Option<WordPieceDecoder> },
}

/// A tokenizer.
#[derive(Debug)]
pub struct Tokenizer {
    pub vocab: Vec<Vec<u8>>,
    pub vocab_inv: ByteMap,
    pub model: Model,
    pub scheme: PretokenizerType,
    pub normalizer: Option<BertNormalizer>,
    pub normalize_nfc: bool,
    pub add_prefix_space: bool,
    pub ignore_merges: bool,
    pub added_tokens: Vec<AddedTokenDef>,
    pub plan: Option<SuperwordPlan>,
}

/// The canonical composition (NFC) of a text, as ICU gives it.
pub uninterp spec fn nfc_form(chars: Seq<char>) -> Seq<char>;

/// `icu::normalizer::ComposingNormalizer::new_nfc().normalize(s)`: a text that
/// the given one alone decides.
#[verifier::external_body]
fn icu_nfc(s: &str) -> (res: String)
    ensures
        res@ == nfc_form(s@),
{
    icu::normalizer::ComposingNormalizer::new_nfc().normalize(s).into_owned()
}

/// A segment in NFC; one that is not well-formed text is left alone.
pub open spec fn nfc_segment(seg: Seq<u8>) -> Seq<u8> {
    if valid_utf8(seg) {
        encode_utf8(nfc_form(decode_utf8(seg)))
    } else {
        seg
    }
}

/// Whether an added token stands at `pos`.
pub open spec fn stands_at(def: AddedTokenDef, bytes: Seq<u8>, pos: int) -> bool {
    def.content@.len() > 0 && wordpiece::has_prefix(
        bytes.subrange(pos, bytes.len() as int),
        def.content@,
    )
}

/// The longest of the first `n` added tokens that stand at `pos`, the first of
/// those equally long.
pub open spec fn longest_at(
    added: Seq<AddedTokenDef>,
    bytes: Seq<u8>,
    pos: int,
    n: nat,
) -> Option<int>
    decreases n,
{
    if n == 0 || n > added.len() {
        None
    } else {
        let before = longest_at(added, bytes, pos, (n - 1) as nat);
        if !stands_at(added[n - 1], bytes, pos) {
            before
        } else {
            match before {
                Some(i) if added[i].content@.len() >= added[n - 1].content@.len() => Some(i),
                _ => Some(n - 1),
            }
        }
    }
}

/// The leftmost added token at or after `pos`: where it stands, and which it is.
pub open spec fn next_added(
    added: Seq<AddedTokenDef>,
    bytes: Seq<u8>,
    pos: int,
) -> Option<(int, int)>
    decreases bytes.len() - pos,
{
    if pos < 0 || pos >= bytes.len() {
        None
    } else {
        match longest_at(added, bytes, pos, added.len()) {
            Some(i) => Some((pos, i)),
            None => next_added(added, bytes, pos + 1),
        }
    }
}

/// A text without the white space at its end.
pub open spec fn trimmed_end(seg: Seq<u8>) -> Seq<u8>
    decreases seg.len(),
{
    match utf8::last_char(seg) {
        Some(cp) => if category::is_white_space(cp) && 1 <= utf8::last_len(seg) <= seg.len() {
            trimmed_end(seg.subrange(0, seg.len() - utf8::last_len(seg)))
        } else {
            seg
        },
        None => seg,
    }
}

/// The offset past the white space from `pos` on.
pub open spec fn past_white(bytes: Seq<u8>, pos: int) -> int {
    pattern::after(
        bytes,
        pos,
        pattern::run_len(CharSet::White, bytes, pos, pattern::MANY as nat),
    )
}

impl Tokenizer {
    /// The parts are sound.
    pub open spec fn well_formed(&self) -> bool {
        &&& self.vocab_inv.well_formed()
        &&& match self.model {
            Model::Bpe { merges, bytes, .. } => merges.well_formed() && bytes.well_formed(),
            Model::WordPiece { model, .. } => model.well_formed(),
        }
        &&& match self.plan {
            Some(plan) => plan.well_formed(),
            None => true,
        }
    }

    /// A segment after normalization.
    pub open spec fn normalized(&self, seg: Seq<u8>) -> Seq<u8> {
        match self.normalizer {
            Some(n) => bert_normalizer::normalized(n.steps(), seg),
            None => if self.normalize_nfc {
                nfc_segment(seg)
            } else {
                seg
            },
        }
    }

    /// Normalized text as it is pretokenized: with a leading space where one is to
    /// be added to text that has none.
    pub open spec fn prefixed(&self, text: Seq<u8>) -> Seq<u8> {
        if self.add_prefix_space && text.len() > 0 && text[0] != 0x20 {
            seq![0x20u8] + text
        } else {
            text
        }
    }

    /// The tokens of a pretoken.
    pub open spec fn pretoken_tokens(&self, pretoken: Seq<u8>) -> Seq<u32> {
        match self.model {
            Model::Bpe { merges, bytes, .. } => if self.ignore_merges
                && self.vocab_inv@.contains_key(pretoken) {
                seq![self.vocab_inv@[pretoken]]
            } else {
                merge::merged(merges@, byte_remapping::byte_tokens(bytes.ids(), pretoken))
            },
            Model::WordPiece { model, .. } => model.tokens(pretoken),
        }
    }

    /// The tokens of the first `n` spans.
    pub open spec fn span_tokens(
        &self,
        text: Seq<u8>,
        spans: Seq<(int, int)>,
        n: nat,
    ) -> Seq<u32>
        decreases n,
    {
        if n == 0 || n > spans.len() {
            Seq::empty()
        } else {
            self.span_tokens(text, spans, (n - 1) as nat) + self.pretoken_tokens(
                text.subrange(spans[n - 1].0, spans[n - 1].1),
            )
        }
    }

    /// The tokens of normalized text.
    pub open spec fn normalized_tokens(&self, plain: Seq<u8>) -> Seq<u32> {
        let text = self.prefixed(plain);
        let spans = walker::all_spans(dispatch::type_step(self.scheme, text), text.len());
        self.span_tokens(text, spans, spans.len())
    }

    /// The tokens of a segment between added tokens.
    pub open spec fn segment_tokens(&self, seg: Seq<u8>) -> Seq<u32> {
        if seg.len() == 0 {
            Seq::empty()
        } else {
            self.normalized_tokens(self.normalized(seg))
        }
    }

    /// The tokens of the text from `pos` on.
    pub open spec fn tokens_from(&self, bytes: Seq<u8>, pos: int) -> Seq<u32>
        decreases bytes.len() - pos,
    {
        match next_added(self.added_tokens@, bytes, pos) {
            None => self.segment_tokens(bytes.subrange(pos, bytes.len() as int)),
            Some((at, i)) => {
                let def = self.added_tokens@[i];
                let gap = bytes.subrange(pos, at);
                let seg = if def.lstrip {
                    trimmed_end(gap)
                } else {
                    gap
                };
                let end = at + def.content@.len();
                let next = if def.rstrip {
                    past_white(bytes, end)
                } else {
                    end
                };
                if pos < next <= bytes.len() {
                    self.segment_tokens(seg).push(def.id.0) + self.tokens_from(bytes, next)
                } else {
                    Seq::empty()
                }
            },
        }
    }

    /// The tokens of a text.
    pub open spec fn tokens(&self, bytes: Seq<u8>) -> Seq<u32> {
        self.tokens_from(bytes, 0)
    }

    /// A tokenizer that merges from single bytes. `id_ranked` says that the
    /// merged token's number is the rank of every merge.
    pub fn new(
        merges: MergeTable,
        vocab: Vec<Vec<u8>>,
        bytes: ByteRemapping,
        id_ranked: bool,
    ) -> (res: Tokenizer)
        requires
            merges.well_formed(),
            bytes.well_formed(),
        ensures
            res.well_formed(),
            res.vocab == vocab,
            res.vocab_inv@ == inverse(superword::views(vocab@), vocab@.len()),
            res.model == (Model::Bpe { merges, bytes, id_ranked }),
            res.scheme == PretokenizerType::GPT2,
            res.normalizer is None,
            !res.normalize_nfc,
            !res.add_prefix_space,
            !res.ignore_merges,
            res.added_tokens@.len() == 0,
            res.plan is None,
    {
        let vocab_inv = invert(&vocab);
        Tokenizer {
            vocab,
            vocab_inv,
            model: Model::Bpe { merges, bytes, id_ranked },
            scheme: PretokenizerType::GPT2,
            normalizer: None,
            normalize_nfc: false,
            add_prefix_space: false,
            ignore_merges: false,
            added_tokens: Vec::new(),
            plan: None,
        }
    }

    /// A tokenizer that segments words.
    pub fn new_wordpiece(model: WordPiece, vocab: Vec<Vec<u8>>) -> (res: Tokenizer)
        requires
            model.well_formed(),
        ensures
            res.well_formed(),
            res.vocab == vocab,
            res.vocab_inv@ == inverse(superword::views(vocab@), vocab@.len()),
            res.model == (Model::WordPiece { model, decoder: None }),
            res.scheme == PretokenizerType::GPT2,
            res.normalizer is None,
            !res.normalize_nfc,
            !res.add_prefix_space,
            !res.ignore_merges,
            res.added_tokens@.len() == 0,
            res.plan is None,
    {
        let vocab_inv = invert(&vocab);
        Tokenizer {
            vocab,
            vocab_inv,
            model: Model::WordPiece { model, decoder: None },
            scheme: PretokenizerType::GPT2,
            normalizer: None,
            normalize_nfc: false,
            add_prefix_space: false,
            ignore_merges: false,
            added_tokens: Vec::new(),
            plan: None,
        }
    }

    /// The pretokenization scheme.
    pub fn pretokenizer_type(&self) -> (res: PretokenizerType)
        ensures
            res == self.scheme,
    {
        self.scheme
    }

    /// The WordPiece model, where this is one.
    pub fn wordpiece(&self) -> (res: Option<&WordPiece>)
        ensures
            match self.model {
                Model::WordPiece { model, .. } => res == Some(&model),
                Model::Bpe { .. } => res is None,
            },
    {
        match &self.model {
            Model::WordPiece { model, .. } => Some(model),
            Model::Bpe { .. } => None,
        }
    }

    /// Sets the decoder of a WordPiece tokenizer; another has none.
    pub fn set_wordpiece_decoder(&mut self, decoder: Option<WordPieceDecoder>)
        requires
            old(self).well_formed(),
        ensures
            final(self).well_formed(),
            *final(self) == (Tokenizer {
                model: match old(self).model {
                    Model::WordPiece { model, .. } => Model::WordPiece { model, decoder },
                    other => other,
                },
                ..*old(self)
            }),
    {
        match &mut self.model {
            Model::WordPiece { decoder: slot, .. } => {
                *slot = decoder;
            },
            Model::Bpe { .. } => {},
        }
    }

    /// Derives the two-level plan where the tokenizer does not split, its merges
    /// rank by the merged token and whole entries are not looked up. The plan
    /// changes no token stream.
    pub fn enable_superword_two_level(&mut self, l1_fill: L1Fill, use_cuts: bool)
        requires
            old(self).well_formed(),
        ensures
            final(self).well_formed(),
            *final(self) == (Tokenizer { plan: final(self).plan, ..*old(self) }),
            match old(self).model {
                Model::Bpe { merges, id_ranked: true, .. } if old(self).scheme
                    == PretokenizerType::Superword && !old(self).ignore_merges => plan::planned(
                    superword::views(old(self).vocab@),
                    old(self).vocab_inv@,
                    &merges,
                    l1_fill,
                    use_cuts,
                    u32::MAX,
                    final(self).plan,
                ),
                _ => final(self).plan == old(self).plan,
            },
            forall|bytes: Seq<u8>| #[trigger] final(self).tokens(bytes) == old(self).tokens(bytes),
    {
        let ghost before = *self;
        if matches!(self.scheme, PretokenizerType::Superword) && !self.ignore_merges {
            match &self.model {
                Model::Bpe { merges, id_ranked, .. } => if *id_ranked {
                    let plan = SuperwordPlan::build(
                        &self.vocab,
                        &self.vocab_inv,
                        merges,
                        l1_fill,
                        use_cuts,
                    );
                    self.plan = plan;
                },
                Model::WordPiece { .. } => {},
            }
        }
        proof {
            assert forall|bytes: Seq<u8>| #[trigger] self.tokens(bytes) == before.tokens(bytes) by {
                lemma_plan_is_silent(*self, before, bytes, 0);
            }
        }
    }

    /// A segment after normalization.
    fn normalize(&self, seg: &[u8]) -> (res: Vec<u8>)
        ensures
            res@ == self.normalized(seg@),
    {
        let mut out: Vec<u8> = Vec::new();
        match &self.normalizer {
            Some(n) => {
                let mut scratch = BertScratch::default();
                out.extend_from_slice(n.normalize(seg, &mut scratch));
                assert(out@ =~= bert_normalizer::normalized(n.steps(), seg@));
            },
            None => {
                if self.normalize_nfc {
                    match utf8::str_of_utf8(seg) {
                        Some(s) => {
                            proof {
                                encode_utf8_decode_utf8(s@);
                            }
                            let nfc = icu_nfc(s);
                            out.extend_from_slice(nfc.as_str().as_bytes());
                            assert(out@ =~= encode_utf8(nfc@));
                            return out;
                        },
                        None => {},
                    }
                }
                out.extend_from_slice(seg);
                assert(out@ =~= seg@);
            },
        }
        out
    }

    /// Appends the tokens of a pretoken.
    pub fn encode_pretoken(&self, pretoken: &[u8], out: &mut Vec<u32>)
        requires
            self.well_formed(),
        ensures
            final(out)@ == old(out)@ + self.pretoken_tokens(pretoken@),
    {
        let ghost before = out@;
        match &self.model {
            Model::Bpe { merges, bytes, .. } => {
                if self.ignore_merges {
                    match self.vocab_inv.get(pretoken) {
                        Some(id) => {
                            out.push(id);
                            assert(out@ =~= before + seq![id]);
                            return;
                        },
                        None => {},
                    }
                }
                let mut symbols: Vec<u32> = Vec::new();
                bytes.append(pretoken, &mut symbols);
                assert(symbols@ =~= byte_remapping::byte_tokens(bytes.ids(), pretoken@));
                merges.merge(&mut symbols);
                out.append(&mut symbols);
            },
            Model::WordPiece { model, .. } => {
                let mut ids: Vec<TokenId> = Vec::new();
                model.encode_unit(pretoken, &mut ids);
                assert(wordpiece::numbers(ids@) =~= model.tokens(pretoken@));
                let mut i: usize = 0;
                assert(before + model.tokens(pretoken@).take(0) =~= before);
                while i < ids.len()
                    invariant
                        i <= ids@.len(),
                        wordpiece::numbers(ids@) == model.tokens(pretoken@),
                        out@ == before + model.tokens(pretoken@).take(i as int),
                    decreases ids@.len() - i,
                {
                    out.push(ids[i].0);
                    proof {
                        let all = model.tokens(pretoken@);
                        assert(wordpiece::numbers(ids@)[i as int] == ids@[i as int].0);
                        assert(all.take(i + 1) =~= all.take(i as int).push(all[i as int]));
                        assert(out@ =~= before + all.take(i + 1));
                    }
                    i += 1;
                }
                assert(model.tokens(pretoken@).take(ids@.len() as int) =~= model.tokens(pretoken@));
            },
        }
    }

    /// Appends the tokens of a segment between added tokens.
    pub fn encode_segment(&self, seg: &[u8], out: &mut Vec<u32>)
        requires
            self.well_formed(),
        ensures
            final(out)@ == old(out)@ + self.segment_tokens(seg@),
    {
        let ghost before = out@;
        if seg.len() == 0 {
            assert(before + Seq::<u32>::empty() =~= before);
            return;
        }
        let text = self.normalize(seg);
        self.encode_normalized(&text, out);
    }

    /// Appends the tokens of a segment that is already normalized.
    pub fn encode_normalized(&self, plain: &[u8], out: &mut Vec<u32>)
        requires
            self.well_formed(),
        ensures
            final(out)@ == old(out)@ + self.normalized_tokens(plain@),
    {
        let ghost before = out@;
        let mut text: Vec<u8> = Vec::new();
        if self.add_prefix_space && plain.len() > 0 && plain[0] != 0x20 {
            text.push(0x20);
        }
        text.extend_from_slice(plain);
        assert(text@ =~= self.prefixed(plain@));
        let ghost step = dispatch::type_step(self.scheme, text@);
        proof {
            dispatch::lemma_forward(self.scheme, text@);
        }
        let mut walk = self.scheme.pretokenize(&text);
        let ghost mut n: nat = 0;
        assert(before + self.span_tokens(text@, walker::spans_from(step, 0, 0), 0) =~= before);
        loop
            invariant
                self.well_formed(),
                text@ == self.prefixed(plain@),
                before == old(out)@,
                step == dispatch::type_step(self.scheme, text@),
                walker::forward(step, text@.len() as int),
                walk.valid(),
                walk.text() == text@,
                walk.step() == step,
                walk.position() == walker::pos_after(step, 0, n),
                walker::spans_from(step, 0, n).len() == n,
                out@ == before + self.span_tokens(text@, walker::spans_from(step, 0, n), n),
            decreases text@.len() - n,
        {
            proof {
                walker::lemma_span_count(step, text@.len() as int, 0, n);
                walker::lemma_spans_step(step, 0, n);
            }
            match walk.next() {
                None => {
                    proof {
                        walker::lemma_all_spans(step, text@.len(), n);
                    }
                    return;
                },
                Some(p) => {
                    self.encode_pretoken(p.0, out);
                    proof {
                        let given = walker::spans_from(step, 0, n);
                        let longer = walker::spans_from(step, 0, n + 1);
                        lemma_span_tokens(*self, text@, given, longer, n);
                        let tokens = self.pretoken_tokens(p.0@);
                        assert((before + self.span_tokens(text@, given, n)) + tokens =~= before + (
                        self.span_tokens(text@, longer, n) + tokens));
                        n = n + 1;
                        walker::lemma_span_count(step, text@.len() as int, 0, n);
                    }
                },
            }
        }
    }

    /// The longest added token at `pos`.
    fn longest_added(&self, bytes: &[u8], pos: usize) -> (res: Option<usize>)
        requires
            pos <= bytes@.len(),
        ensures
            match res {
                Some(i) => longest_at(
                    self.added_tokens@,
                    bytes@,
                    pos as int,
                    self.added_tokens@.len(),
                ) == Some(i as int) && i < self.added_tokens@.len() && stands_at(
                    self.added_tokens@[i as int],
                    bytes@,
                    pos as int,
                ),
                None => longest_at(
                    self.added_tokens@,
                    bytes@,
                    pos as int,
                    self.added_tokens@.len(),
                ) is None,
            },
    {
        let rest = slice_subrange(bytes, pos, bytes.len());
        let mut best: Option<usize> = None;
        let mut i: usize = 0;
        while i < self.added_tokens.len()
            invariant
                pos <= bytes@.len(),
                rest@ == bytes@.subrange(pos as int, bytes@.len() as int),
                i <= self.added_tokens@.len(),
                match best {
                    Some(b) => longest_at(self.added_tokens@, bytes@, pos as int, i as nat) == Some(
                        b as int,
                    ) && b < i && stands_at(self.added_tokens@[b as int], bytes@, pos as int),
                    None => longest_at(
                        self.added_tokens@,
                        bytes@,
                        pos as int,
                        i as nat,
                    ) is None,
                },
            decreases self.added_tokens@.len() - i,
        {
            let content = &self.added_tokens[i].content;
            if content.len() > 0 && wordpiece::starts_with(rest, content) {
                match best {
                    None => {
                        best = Some(i);
                    },
                    Some(b) => if self.added_tokens[b].content.len() < content.len() {
                        best = Some(i);
                    },
                }
            }
            i += 1;
        }
        best
    }

    /// The leftmost added token at or after `pos`.
    fn next_match(&self, bytes: &[u8], pos: usize) -> (res: Option<(usize, usize)>)
        requires
            pos <= bytes@.len(),
        ensures
            match res {
                Some((at, i)) => {
                    &&& next_added(self.added_tokens@, bytes@, pos as int) == Some(
                        (at as int, i as int),
                    )
                    &&& pos <= at
                    &&& i < self.added_tokens@.len()
                    &&& self.added_tokens@[i as int].content@.len() > 0
                    &&& at + self.added_tokens@[i as int].content@.len() <= bytes@.len()
                },
                None => next_added(self.added_tokens@, bytes@, pos as int) is None,
            },
    {
        let mut at: usize = pos;
        while at < bytes.len()
            invariant
                pos <= at <= bytes@.len(),
                next_added(self.added_tokens@, bytes@, pos as int) == next_added(
                    self.added_tokens@,
                    bytes@,
                    at as int,
                ),
            decreases bytes@.len() - at,
        {
            match self.longest_added(bytes, at) {
                Some(i) => {
                    return Some((at, i));
                },
                None => {},
            }
            at += 1;
        }
        None
    }

    /// Appends the tokens of a text, added tokens included.
    pub fn encode_with_added_tokens_flat(&self, bytes: &[u8], out: &mut Vec<u32>)
        requires
            self.well_formed(),
        ensures
            final(out)@ == old(out)@ + self.tokens(bytes@),
    {
        let ghost before = out@;
        let mut pos: usize = 0;
        assert(before + self.tokens(bytes@) =~= out@ + self.tokens_from(bytes@, 0));
        loop
            invariant
                self.well_formed(),
                pos <= bytes@.len(),
                before + self.tokens(bytes@) == out@ + self.tokens_from(bytes@, pos as int),
                before == old(out)@,
            decreases bytes@.len() - pos,
        {
            match self.next_match(bytes, pos) {
                None => {
                    self.encode_segment(slice_subrange(bytes, pos, bytes.len()), out);
                    return;
                },
                Some((at, i)) => {
                    let ghost so_far = out@;
                    let def = &self.added_tokens[i];
                    let gap = slice_subrange(bytes, pos, at);
                    let seg = if def.lstrip {
                        trim_end(gap)
                    } else {
                        gap
                    };
                    self.encode_segment(seg, out);
                    out.push(def.id.0);
                    assert(at + def.content.len() <= bytes.len());
                    let end: usize = at + def.content.len();
                    let next: usize = if def.rstrip {
                        pattern::scan_run(CharSet::White, pattern::MANY, bytes, end)
                    } else {
                        end
                    };
                    proof {
                        let tokens = self.segment_tokens(seg@);
                        assert((so_far + tokens).push(def.id.0) + self.tokens_from(
                            bytes@,
                            next as int,
                        ) =~= so_far + (tokens.push(def.id.0) + self.tokens_from(
                            bytes@,
                            next as int,
                        )));
                    }
                    pos = next;
                },
            }
        }
    }

    /// The bytes that tokens spell: those of their entries, end to end.
    pub fn decode(&self, tokens: &[TokenId]) -> (out: Vec<u8>)
        ensures
            out@ == merge::text_of(superword::views(self.vocab@), wordpiece::numbers(tokens@)),
    {
        let ghost views = superword::views(self.vocab@);
        let ghost ids = wordpiece::numbers(tokens@);
        let mut out: Vec<u8> = Vec::new();
        let mut i: usize = 0;
        assert(ids.take(0) =~= Seq::<u32>::empty());
        while i < tokens.len()
            invariant
                views == superword::views(self.vocab@),
                ids == wordpiece::numbers(tokens@),
                i <= tokens@.len(),
                out@ == merge::text_of(views, ids.take(i as int)),
            decreases tokens@.len() - i,
        {
            let ghost so_far = out@;
            let id: u32 = tokens[i].0;
            if (id as usize) < self.vocab.len() {
                out.extend_from_slice(&self.vocab[id as usize]);
            }
            proof {
                assert(ids.take(i + 1).drop_last() =~= ids.take(i as int));
                assert(ids.take(i + 1).last() == id);
                assert(out@ =~= so_far + merge::bytes_of(views, id));
            }
            i += 1;
        }
        assert(ids.take(tokens@.len() as int) =~= ids);
        out
    }

    /// The text of WordPiece tokens: their pieces joined as the decoder says.
    /// `None` where the model is no WordPiece, or the pieces spell no
    /// well-formed text.
    pub fn decode_wordpiece(&self, tokens: &[TokenId]) -> (res: Option<String>)
        ensures
            match self.model {
                Model::Bpe { .. } => res is None,
                Model::WordPiece { decoder, .. } => {
                    let pieces = self.pieces(wordpiece::numbers(tokens@));
                    let text = decode::pieces_text(
                        decode::decoder_prefix(decoder),
                        decode::decoder_cleanup(decoder),
                        pieces,
                        pieces.len(),
                    );
                    match res {
                        Some(s) => encode_utf8(s@) == text,
                        None => !valid_utf8(text),
                    }
                },
            },
    {
        match &self.model {
            Model::Bpe { .. } => None,
            Model::WordPiece { decoder, .. } => {
                let ghost ids = wordpiece::numbers(tokens@);
                let ghost prefix = decode::decoder_prefix(*decoder);
                let ghost clean = decode::decoder_cleanup(*decoder);
                let mut out: Vec<u8> = Vec::new();
                let mut first = true;
                let mut i: usize = 0;
                assert(ids.take(0) =~= Seq::<u32>::empty());
                while i < tokens.len()
                    invariant
                        ids == wordpiece::numbers(tokens@),
                        prefix == decode::decoder_prefix(*decoder),
                        clean == decode::decoder_cleanup(*decoder),
                        i <= tokens@.len(),
                        first == (self.pieces(ids.take(i as int)).len() == 0),
                        out@ == decode::pieces_text(
                            prefix,
                            clean,
                            self.pieces(ids.take(i as int)),
                            self.pieces(ids.take(i as int)).len(),
                        ),
                    decreases tokens@.len() - i,
                {
                    let id: u32 = tokens[i].0;
                    proof {
                        assert(ids.take(i + 1).drop_last() =~= ids.take(i as int));
                        assert(ids.take(i + 1).last() == id);
                        assert(superword::views(self.vocab@).len() == self.vocab@.len());
                    }
                    if (id as usize) < self.vocab.len() && self.vocab[id as usize].len() > 0 {
                        decode::append_piece(decoder, &self.vocab[id as usize], first, &mut out);
                        first = false;
                        proof {
                            let before = self.pieces(ids.take(i as int));
                            let after = self.pieces(ids.take(i + 1));
                            decode::lemma_pieces_prefix(prefix, clean, before, after, before.len());
                        }
                    }
                    i += 1;
                }
                assert(ids.take(tokens@.len() as int) =~= ids);
                match utf8::str_of_utf8(&out) {
                    Some(s) => Some(s.to_owned()),
                    None => None,
                }
            },
        }
    }

    /// The entries of tokens; a token without one is passed over.
    pub open spec fn pieces(&self, ids: Seq<u32>) -> Seq<Seq<u8>>
        decreases ids.len(),
    {
        if ids.len() == 0 {
            Seq::empty()
        } else {
            let before = self.pieces(ids.drop_last());
            let piece = merge::bytes_of(superword::views(self.vocab@), ids.last());
            if piece.len() == 0 {
                before
            } else {
                before.push(piece)
            }
        }
    }

    /// The tokens of a segment by the two-level plan, where there is one.
    pub fn encode_two_level(&self, seg: &[u8]) -> (res: Option<Vec<u32>>)
        requires
            self.well_formed(),
        ensures
            match (self.plan, self.model) {
                (Some(plan), Model::Bpe { merges, bytes, .. }) => {
                    &&& res matches Some(ids)
                    &&& ids@ == plan.tokens(merges@, bytes.ids(), seg@)
                },
                _ => res is None,
            },
    {
        match &self.plan {
            None => None,
            Some(plan) => match &self.model {
                Model::Bpe { merges, bytes, .. } => Some(plan.encode(merges, bytes, seg)),
                Model::WordPiece { .. } => None,
            },
        }
    }
}

/// A text without the white space at its end.
fn trim_end<'a>(seg: &'a [u8]) -> (res: &'a [u8])
    ensures
        res@ == trimmed_end(seg@),
{
    let mut end: usize = seg.len();
    assert(seg@.subrange(0, end as int) =~= seg@);
    loop
        invariant
            end <= seg@.len(),
            trimmed_end(seg@) == trimmed_end(seg@.subrange(0, end as int)),
        decreases end,
    {
        let head = slice_subrange(seg, 0, end);
        match utf8::decode_last_len(head) {
            Some((cp, len)) => {
                if !category::is_white_space_cp(cp) {
                    return head;
                }
                assert(head@.subrange(0, end - len) =~= seg@.subrange(0, end - len));
                end -= len;
            },
            None => {
                return head;
            },
        }
    }
}

/// The tokens of a vocabulary's first `n` entries by their bytes; of equal
/// entries the last counts, and empty ones are none.
pub open spec fn inverse(vocab: Seq<Seq<u8>>, n: nat) -> Map<Seq<u8>, u32>
    decreases n,
{
    if n == 0 || n > vocab.len() {
        Map::empty()
    } else {
        let before = inverse(vocab, (n - 1) as nat);
        if vocab[n - 1].len() == 0 || n - 1 > u32::MAX {
            before
        } else {
            before.insert(vocab[n - 1], (n - 1) as u32)
        }
    }
}

fn invert(vocab: &Vec<Vec<u8>>) -> (map: ByteMap)
    ensures
        map.well_formed(),
        map@ == inverse(superword::views(vocab@), vocab@.len()),
{
    let ghost views = superword::views(vocab@);
    let mut map = ByteMap::with_capacity(vocab.len());
    let mut i: usize = 0;
    while i < vocab.len()
        invariant
            views == superword::views(vocab@),
            i <= vocab@.len(),
            map.well_formed(),
            map@ == inverse(views, i as nat),
        decreases vocab@.len() - i,
    {
        if vocab[i].len() > 0 && i <= 0xFFFF_FFFF {
            let mut key: Vec<u8> = Vec::new();
            key.extend_from_slice(&vocab[i]);
            assert(key@ =~= views[i as int]);
            map.insert(key, i as u32);
        }
        i += 1;
    }
    map
}

proof fn lemma_span_tokens(
    t: Tokenizer,
    text: Seq<u8>,
    given: Seq<(int, int)>,
    longer: Seq<(int, int)>,
    n: nat,
)
    requires
        n <= given.len() <= longer.len(),
        forall|i: int| 0 <= i < n ==> given[i] == longer[i],
    ensures
        t.span_tokens(text, given, n) == t.span_tokens(text, longer, n),
    decreases n,
{
    if n > 0 {
        lemma_span_tokens(t, text, given, longer, (n - 1) as nat);
    }
}

/// The plan takes no part in encoding.
proof fn lemma_plan_is_silent(a: Tokenizer, b: Tokenizer, bytes: Seq<u8>, pos: int)
    requires
        a == (Tokenizer { plan: a.plan, ..b }),
    ensures
        a.tokens_from(bytes, pos) == b.tokens_from(bytes, pos),
    decreases bytes.len() - pos,
{
    assert forall|text: Seq<u8>, spans: Seq<(int, int)>, n: nat| #[trigger]
        a.span_tokens(text, spans, n) == b.span_tokens(text, spans, n) by {
        lemma_plan_spans(a, b, text, spans, n);
    }
    if let Some((at, i)) = next_added(a.added_tokens@, bytes, pos) {
        let def = a.added_tokens@[i];
        let end = at + def.content@.len();
        let next = if def.rstrip {
            past_white(bytes, end)
        } else {
            end
        };
        if pos < next <= bytes.len() {
            lemma_plan_is_silent(a, b, bytes, next);
        }
    }
}

proof fn lemma_plan_spans(
    a: Tokenizer,
    b: Tokenizer,
    text: Seq<u8>,
    spans: Seq<(int, int)>,
    n: nat,
)
    requires
        a == (Tokenizer { plan: a.plan, ..b }),
    ensures
        a.span_tokens(text, spans, n) == b.span_tokens(text, spans, n),
    decreases n,
{
    if n > 0 && n <= spans.len() {
        lemma_plan_spans(a, b, text, spans, (n - 1) as nat);
    }
}

} // verus!
