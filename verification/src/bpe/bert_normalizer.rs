//! The BERT normalizer: cleaning, CJK padding, accent stripping, lowercasing,
//! in that order, each of which can be off.

use crate::pretokenize::unicode::bert;
use crate::pretokenize::unicode::bert::BertNormClass;
use crate::utf8;
use vstd::prelude::*;
use vstd::utf8::*;

verus! {

/// Replaces every character by what `f` gives for it.
pub open spec fn flat(chars: Seq<char>, f: spec_fn(char) -> Seq<char>) -> Seq<char>
    decreases chars.len(),
{
    if chars.len() == 0 {
        Seq::empty()
    } else {
        flat(chars.drop_last(), f) + f(chars.last())
    }
}

/// Cleaning: NUL, U+FFFD and controls go; other white space becomes a space.
/// Removal comes first, so a control that is also white space goes.
pub open spec fn cleaned(on: bool, c: char) -> Seq<char> {
    if !on {
        seq![c]
    } else {
        match bert::bert_norm_class(c as u32) {
            BertNormClass::Remove => Seq::empty(),
            BertNormClass::Whitespace => seq![' '],
            _ => seq![c],
        }
    }
}

/// CJK padding: a space on either side.
pub open spec fn padded(on: bool, c: char) -> Seq<char> {
    if on && bert::bert_cjk(c as u32) {
        seq![' ', c, ' ']
    } else {
        seq![c]
    }
}

/// Dropping marks.
pub open spec fn unmarked(on: bool, c: char) -> Seq<char> {
    if on && bert::bert_norm_class(c as u32) == BertNormClass::Mark {
        Seq::empty()
    } else {
        seq![c]
    }
}

/// The lowercase mapping of `std` for a character, which may expand.
pub uninterp spec fn lowercase_of(c: char) -> Seq<char>;

/// Lowercasing, with the ASCII letters written out.
pub open spec fn lowered(on: bool, c: char) -> Seq<char> {
    if !on {
        seq![c]
    } else if (c as u32) < 0x80 {
        seq![ascii_lower(c as u8) as char]
    } else {
        lowercase_of(c)
    }
}

/// ASCII lowercasing of a byte.
pub open spec fn ascii_lower(b: u8) -> u8 {
    if 0x41 <= b <= 0x5A {
        (b + 32) as u8
    } else {
        b
    }
}

/// The canonical decomposition (NFD) of a text, as ICU gives it.
pub uninterp spec fn nfd_form(chars: Seq<char>) -> Seq<char>;

/// Canonical decomposition, which leaves ASCII text alone.
pub open spec fn decomposed(on: bool, chars: Seq<char>) -> Seq<char> {
    if !on || is_ascii_chars(chars) {
        chars
    } else {
        nfd_form(chars)
    }
}

/// Which steps are on.
#[derive(Clone, Copy, Debug, PartialEq, Eq, Structural)]
pub struct BertSteps {
    pub clean_text: bool,
    pub handle_chinese_chars: bool,
    pub strip_accents: bool,
    pub lowercase: bool,
}

/// A text after the four steps.
pub open spec fn normalized_chars(steps: BertSteps, chars: Seq<char>) -> Seq<char> {
    let clean = flat(chars, |c: char| cleaned(steps.clean_text, c));
    let spaced = flat(clean, |c: char| padded(steps.handle_chinese_chars, c));
    let plain = flat(
        decomposed(steps.strip_accents, spaced),
        |c: char| unmarked(steps.strip_accents, c),
    );
    flat(plain, |c: char| lowered(steps.lowercase, c))
}

/// A segment after the four steps. One that is not well-formed text is left
/// alone.
pub open spec fn normalized(steps: BertSteps, seg: Seq<u8>) -> Seq<u8> {
    if valid_utf8(seg) {
        encode_utf8(normalized_chars(steps, decode_utf8(seg)))
    } else {
        seg
    }
}

/// Replacing in two texts put together is replacing in each.
pub proof fn lemma_flat_concat(a: Seq<char>, b: Seq<char>, f: spec_fn(char) -> Seq<char>)
    ensures
        flat(a + b, f) == flat(a, f) + flat(b, f),
    decreases b.len(),
{
    if b.len() == 0 {
        assert(a + b =~= a);
        assert(flat(a, f) + flat(b, f) =~= flat(a, f));
    } else {
        assert((a + b).drop_last() =~= a + b.drop_last());
        lemma_flat_concat(a, b.drop_last(), f);
        assert(flat(a, f) + (flat(b.drop_last(), f) + f(b.last())) =~= (flat(a, f) + flat(
            b.drop_last(),
            f,
        )) + f(b.last()));
    }
}

/// Two replacements in a row are one.
pub proof fn lemma_flat_twice(
    chars: Seq<char>,
    f: spec_fn(char) -> Seq<char>,
    g: spec_fn(char) -> Seq<char>,
    h: spec_fn(char) -> Seq<char>,
)
    requires
        forall|c: char| #[trigger] h(c) == flat(f(c), g),
    ensures
        flat(flat(chars, f), g) == flat(chars, h),
    decreases chars.len(),
{
    if chars.len() > 0 {
        lemma_flat_twice(chars.drop_last(), f, g, h);
        lemma_flat_concat(flat(chars.drop_last(), f), f(chars.last()), g);
        assert(h(chars.last()) == flat(f(chars.last()), g));
    }
}

/// Replacing one character.
pub proof fn lemma_flat_one(c: char, f: spec_fn(char) -> Seq<char>)
    ensures
        flat(seq![c], f) == f(c),
{
    reveal_with_fuel(flat, 2);
    assert(seq![c].drop_last() =~= Seq::<char>::empty());
    assert(Seq::<char>::empty() + f(c) =~= f(c));
}

/// A replacement by single characters.
pub proof fn lemma_flat_map(chars: Seq<char>, f: spec_fn(char) -> Seq<char>, out: Seq<char>)
    requires
        out.len() == chars.len(),
        forall|i: int| 0 <= i < chars.len() ==> #[trigger] f(chars[i]) == seq![out[i]],
    ensures
        flat(chars, f) == out,
    decreases chars.len(),
{
    if chars.len() > 0 {
        let n = chars.len() - 1;
        assert forall|i: int| 0 <= i < n implies #[trigger] f(chars.drop_last()[i])
            == seq![out.drop_last()[i]] by {
            assert(f(chars[i]) == seq![out[i]]);
        }
        lemma_flat_map(chars.drop_last(), f, out.drop_last());
        assert(f(chars[n]) == seq![out[n]]);
        assert(out.drop_last() + seq![out[n]] =~= out);
    } else {
        assert(out =~= Seq::<char>::empty());
    }
}

/// `char::to_lowercase`: the characters it yields, which the character alone
/// decides.
#[verifier::external_body]
fn std_to_lowercase(c: char) -> (res: Vec<char>)
    ensures
        res@ == lowercase_of(c),
{
    c.to_lowercase().collect()
}

/// `icu::normalizer::DecomposingNormalizer::new_nfd().normalize(s)`: a text
/// that the given one alone decides. Of ASCII text it is claimed that it comes
/// back unchanged.
#[verifier::external_body]
fn icu_nfd(s: &str) -> (res: String)
    ensures
        res@ == nfd_form(s@),
        is_ascii_chars(s@) ==> res@ == s@,
{
    icu::normalizer::DecomposingNormalizer::new_nfd().normalize(s).into_owned()
}

/// Buffers that are kept from one segment to the next.
#[derive(Debug)]
pub struct BertScratch {
    clean: Vec<u8>,
    folded: Vec<u8>,
}

impl Default for BertScratch {
    fn default() -> (res: Self) {
        BertScratch { clean: Vec::new(), folded: Vec::new() }
    }
}

/// A BERT normalizer.
#[derive(Debug)]
pub struct BertNormalizer {
    clean_text: bool,
    handle_chinese_chars: bool,
    strip_accents: bool,
    lowercase: bool,
}

/// Whether a byte is printable ASCII.
pub open spec fn printable(b: u8) -> bool {
    0x20 <= b <= 0x7E
}

/// Cleaning and padding at once.
pub open spec fn spaced(steps: BertSteps, c: char) -> Seq<char> {
    flat(cleaned(steps.clean_text, c), |d: char| padded(steps.handle_chinese_chars, d))
}

/// Dropping marks and lowercasing at once.
pub open spec fn folded(steps: BertSteps, c: char) -> Seq<char> {
    flat(unmarked(steps.strip_accents, c), |d: char| lowered(steps.lowercase, d))
}

/// The four steps in two passes.
proof fn lemma_two_passes(steps: BertSteps, chars: Seq<char>)
    ensures
        normalized_chars(steps, chars) == flat(
            decomposed(steps.strip_accents, flat(chars, |c: char| spaced(steps, c))),
            |c: char| folded(steps, c),
        ),
{
    let clean = |c: char| cleaned(steps.clean_text, c);
    let pad = |c: char| padded(steps.handle_chinese_chars, c);
    let both = |c: char| spaced(steps, c);
    lemma_flat_twice(chars, clean, pad, both);
    let mid = decomposed(steps.strip_accents, flat(chars, both));
    let unmark = |c: char| unmarked(steps.strip_accents, c);
    let lower = |c: char| lowered(steps.lowercase, c);
    let fold = |c: char| folded(steps, c);
    lemma_flat_twice(mid, unmark, lower, fold);
}

/// Printable ASCII only changes case.
proof fn lemma_printable(steps: BertSteps, bytes: Seq<u8>, out: Seq<u8>)
    requires
        forall|i: int| 0 <= i < bytes.len() ==> printable(#[trigger] bytes[i]),
        out.len() == bytes.len(),
        forall|i: int|
            0 <= i < bytes.len() ==> #[trigger] out[i] == (if steps.lowercase {
                ascii_lower(bytes[i])
            } else {
                bytes[i]
            }),
    ensures
        normalized(steps, bytes) == out,
{
    utf8::lemma_ascii_text(bytes);
    utf8::lemma_ascii_text(out);
    let chars = decode_utf8(bytes);
    let ends = decode_utf8(out);
    let clean = |c: char| cleaned(steps.clean_text, c);
    let pad = |c: char| padded(steps.handle_chinese_chars, c);
    let unmark = |c: char| unmarked(steps.strip_accents, c);
    let lower = |c: char| lowered(steps.lowercase, c);
    assert forall|i: int| 0 <= i < chars.len() implies #[trigger] clean(chars[i])
        == seq![chars[i]] by {
        assert(chars[i] as u32 == bytes[i]);
        assert(printable(bytes[i]));
    }
    lemma_flat_map(chars, clean, chars);
    assert forall|i: int| 0 <= i < chars.len() implies #[trigger] pad(chars[i])
        == seq![chars[i]] by {
        assert(chars[i] as u32 == bytes[i]);
    }
    lemma_flat_map(chars, pad, chars);
    assert forall|i: int| 0 <= i < chars.len() implies #[trigger] unmark(chars[i])
        == seq![chars[i]] by {
        assert(chars[i] as u32 == bytes[i]);
    }
    lemma_flat_map(chars, unmark, chars);
    assert forall|i: int| 0 <= i < chars.len() implies #[trigger] lower(chars[i])
        == seq![ends[i]] by {
        assert(chars[i] as u32 == bytes[i]);
        assert(ends[i] as u32 == out[i]);
    }
    lemma_flat_map(chars, lower, ends);
    decode_utf8_encode_utf8(out);
}

/// What normalizing makes of well-formed text is well-formed text.
pub proof fn law_text_stays_text(steps: BertSteps, seg: Seq<u8>)
    requires
        valid_utf8(seg),
    ensures
        valid_utf8(normalized(steps, seg)),
{
    encode_utf8_valid_utf8(normalized_chars(steps, decode_utf8(seg)));
}

/// A text after cleaning and padding, the steps before decomposition.
pub open spec fn prepared(steps: BertSteps, chars: Seq<char>) -> Seq<char> {
    flat(chars, |c: char| spaced(steps, c))
}

/// What cleaning and padding make of one character.
proof fn lemma_spaced(steps: BertSteps, c: char)
    ensures
        spaced(steps, c) == (if steps.clean_text && bert::bert_norm_class(c as u32)
            == BertNormClass::Remove {
            Seq::empty()
        } else {
            let d = if steps.clean_text && bert::bert_norm_class(c as u32)
                == BertNormClass::Whitespace {
                ' '
            } else {
                c
            };
            padded(steps.handle_chinese_chars, d)
        }),
{
    let pad = |d: char| padded(steps.handle_chinese_chars, d);
    lemma_flat_one(c, pad);
    lemma_flat_one(' ', pad);
}

/// Cleaning leaves no character that it removes, and no white space but spaces;
/// where nothing else follows, this is so of the output.
pub proof fn law_cleaned(steps: BertSteps, chars: Seq<char>)
    requires
        steps.clean_text,
    ensures
        forall|i: int|
            0 <= i < prepared(steps, chars).len() ==> {
                let c = #[trigger] prepared(steps, chars)[i];
                let class = bert::bert_norm_class(c as u32);
                &&& class != BertNormClass::Remove
                &&& class == BertNormClass::Whitespace ==> c == ' '
            },
        !steps.strip_accents && !steps.lowercase ==> normalized_chars(steps, chars) == prepared(
            steps,
            chars,
        ),
    decreases chars.len(),
{
    law_prepared_then_folded(steps, chars);
    if chars.len() > 0 {
        law_cleaned(steps, chars.drop_last());
        lemma_spaced(steps, chars.last());
        let before = prepared(steps, chars.drop_last());
        let here = spaced(steps, chars.last());
        assert(prepared(steps, chars) == before + here);
        assert forall|i: int| 0 <= i < prepared(steps, chars).len() implies {
            let c = #[trigger] prepared(steps, chars)[i];
            let class = bert::bert_norm_class(c as u32);
            &&& class != BertNormClass::Remove
            &&& class == BertNormClass::Whitespace ==> c == ' '
        } by {
            if i < before.len() {
                assert(prepared(steps, chars)[i] == before[i]);
            } else {
                assert(prepared(steps, chars)[i] == here[i - before.len()]);
            }
        }
    }
}

/// After cleaning and padding come decomposition and folding; where neither is
/// on, nothing does.
pub proof fn law_prepared_then_folded(steps: BertSteps, chars: Seq<char>)
    ensures
        normalized_chars(steps, chars) == flat(
            decomposed(steps.strip_accents, prepared(steps, chars)),
            |c: char| folded(steps, c),
        ),
        !steps.strip_accents && !steps.lowercase ==> normalized_chars(steps, chars) == prepared(
            steps,
            chars,
        ),
{
    lemma_two_passes(steps, chars);
    let fold = |c: char| folded(steps, c);
    let text = prepared(steps, chars);
    if !steps.strip_accents && !steps.lowercase {
        assert forall|i: int| 0 <= i < text.len() implies #[trigger] fold(text[i])
            == seq![text[i]] by {
            lemma_flat_one(text[i], |d: char| lowered(steps.lowercase, d));
        }
        lemma_flat_map(text, fold, text);
    }
}

/// Padding puts every CJK ideograph between spaces; where nothing else follows,
/// this is so of the output.
pub proof fn law_padded(steps: BertSteps, chars: Seq<char>)
    requires
        steps.handle_chinese_chars,
    ensures
        forall|i: int|
            0 <= i < prepared(steps, chars).len() && bert::bert_cjk(
                #[trigger] prepared(steps, chars)[i] as u32,
            ) ==> {
                &&& 0 < i < prepared(steps, chars).len() - 1
                &&& prepared(steps, chars)[i - 1] == ' '
                &&& prepared(steps, chars)[i + 1] == ' '
            },
        !steps.strip_accents && !steps.lowercase ==> normalized_chars(steps, chars) == prepared(
            steps,
            chars,
        ),
    decreases chars.len(),
{
    law_prepared_then_folded(steps, chars);
    if chars.len() > 0 {
        law_padded(steps, chars.drop_last());
        lemma_spaced(steps, chars.last());
        let before = prepared(steps, chars.drop_last());
        let here = spaced(steps, chars.last());
        let all = prepared(steps, chars);
        assert(all == before + here);
        assert forall|i: int| 0 <= i < all.len() && bert::bert_cjk(
            #[trigger] all[i] as u32,
        ) implies {
            &&& 0 < i < all.len() - 1
            &&& all[i - 1] == ' '
            &&& all[i + 1] == ' '
        } by {
            if i < before.len() {
                assert(all[i] == before[i]);
                assert(all[i - 1] == before[i - 1]);
                assert(all[i + 1] == before[i + 1]);
            } else {
                assert(all[i] == here[i - before.len()]);
                assert(i == before.len() + 1);
            }
        }
    }
}

/// With every step off, a segment is left alone.
pub proof fn law_noop(steps: BertSteps, seg: Seq<u8>)
    requires
        !steps.clean_text,
        !steps.handle_chinese_chars,
        !steps.strip_accents,
        !steps.lowercase,
    ensures
        normalized(steps, seg) == seg,
{
    if valid_utf8(seg) {
        let chars = decode_utf8(seg);
        lemma_flat_map(chars, |c: char| cleaned(steps.clean_text, c), chars);
        lemma_flat_map(chars, |c: char| padded(steps.handle_chinese_chars, c), chars);
        lemma_flat_map(chars, |c: char| unmarked(steps.strip_accents, c), chars);
        lemma_flat_map(chars, |c: char| lowered(steps.lowercase, c), chars);
        decode_utf8_encode_utf8(seg);
    }
}

/// Printable ASCII text is left alone by every step but lowercasing, whichever
/// steps are on.
pub proof fn law_printable_ascii(steps: BertSteps, seg: Seq<u8>)
    requires
        forall|i: int| 0 <= i < seg.len() ==> printable(#[trigger] seg[i]),
    ensures
        normalized(steps, seg) == (if steps.lowercase {
            Seq::new(seg.len(), |i: int| ascii_lower(seg[i]))
        } else {
            seg
        }),
{
    if steps.lowercase {
        lemma_printable(steps, seg, Seq::new(seg.len(), |i: int| ascii_lower(seg[i])));
    } else {
        lemma_printable(steps, seg, seg);
    }
}

/// The end of the run of printable ASCII from `from` on.
fn printable_ascii_run(bytes: &[u8], from: usize) -> (end: usize)
    requires
        from <= bytes@.len(),
    ensures
        from <= end <= bytes@.len(),
        forall|i: int| from <= i < end ==> printable(#[trigger] bytes@[i]),
        end < bytes@.len() ==> !printable(bytes@[end as int]),
{
    let mut i: usize = from;
    while i < bytes.len() && 0x20 <= bytes[i] && bytes[i] <= 0x7E
        invariant
            from <= i <= bytes@.len(),
            forall|k: int| from <= k < i ==> printable(#[trigger] bytes@[k]),
        decreases bytes@.len() - i,
    {
        i += 1;
    }
    i
}

/// The end of the run of ASCII from `from` on.
fn ascii_run(bytes: &[u8], from: usize) -> (end: usize)
    requires
        from <= bytes@.len(),
    ensures
        from <= end <= bytes@.len(),
        forall|i: int| from <= i < end ==> #[trigger] bytes@[i] < 0x80,
        end < bytes@.len() ==> bytes@[end as int] >= 0x80,
{
    let mut i: usize = from;
    while i < bytes.len() && bytes[i] < 0x80
        invariant
            from <= i <= bytes@.len(),
            forall|k: int| from <= k < i ==> #[trigger] bytes@[k] < 0x80,
        decreases bytes@.len() - i,
    {
        i += 1;
    }
    i
}

/// Appending one character's replacement.
proof fn lemma_append(
    bytes: Seq<u8>,
    pos: int,
    done: Seq<char>,
    f: spec_fn(char) -> Seq<char>,
    out: Seq<u8>,
)
    requires
        0 <= pos < bytes.len(),
        valid_utf8(bytes),
        valid_utf8(utf8::tail(bytes, pos)),
        decode_utf8(bytes) == done + decode_utf8(utf8::tail(bytes, pos)),
        out == encode_utf8(flat(done, f)),
    ensures
        ({
            let t = utf8::tail(bytes, pos);
            let c = decode_first_scalar(t) as char;
            let next = pos + length_of_first_scalar(t);
            &&& valid_first_scalar(t)
            &&& is_scalar(decode_first_scalar(t))
            &&& c as u32 == decode_first_scalar(t)
            &&& next <= bytes.len()
            &&& valid_utf8(utf8::tail(bytes, next))
            &&& decode_utf8(bytes) == done.push(c) + decode_utf8(utf8::tail(bytes, next))
            &&& out + encode_utf8(f(c)) == encode_utf8(flat(done.push(c), f))
        }),
{
    let t = utf8::tail(bytes, pos);
    utf8::lemma_decode_step(bytes, pos);
    let c = decode_first_scalar(t) as char;
    let next = pos + length_of_first_scalar(t);
    assert(done + (seq![c] + decode_utf8(utf8::tail(bytes, next))) =~= done.push(c) + decode_utf8(
        utf8::tail(bytes, next),
    ));
    assert(done.push(c).drop_last() =~= done);
    utf8::lemma_encode_concat(flat(done, f), f(c));
    utf8::lemma_scalar_char(t);
}

impl BertNormalizer {
    /// Which steps are on.
    pub closed spec fn steps(&self) -> BertSteps {
        BertSteps {
            clean_text: self.clean_text,
            handle_chinese_chars: self.handle_chinese_chars,
            strip_accents: self.strip_accents,
            lowercase: self.lowercase,
        }
    }

    /// A normalizer with the given steps. Where nothing is said of accents they
    /// are stripped exactly if the text is lowercased.
    pub fn new(
        clean_text: bool,
        handle_chinese_chars: bool,
        strip_accents: Option<bool>,
        lowercase: bool,
    ) -> (res: Self)
        ensures
            res.steps() == (BertSteps {
                clean_text,
                handle_chinese_chars,
                strip_accents: match strip_accents {
                    Some(on) => on,
                    None => lowercase,
                },
                lowercase,
            }),
    {
        BertNormalizer {
            clean_text,
            handle_chinese_chars,
            strip_accents: match strip_accents {
                Some(on) => on,
                None => lowercase,
            },
            lowercase,
        }
    }

    /// Are all steps off?
    pub fn is_noop(&self) -> (res: bool)
        ensures
            res == (!self.steps().clean_text && !self.steps().handle_chinese_chars
                && !self.steps().strip_accents && !self.steps().lowercase),
    {
        !self.clean_text && !self.handle_chinese_chars && !self.strip_accents && !self.lowercase
    }

    /// Is every byte printable ASCII? Every step but lowercasing leaves such a
    /// segment alone.
    fn is_printable_ascii(&self, seg: &[u8]) -> (res: bool)
        ensures
            res == (forall|i: int| 0 <= i < seg@.len() ==> printable(#[trigger] seg@[i])),
    {
        printable_ascii_run(seg, 0) == seg.len()
    }

    /// Cleaning and padding.
    pub fn clean_pass(&self, bytes: &[u8], out: &mut Vec<u8>)
        requires
            valid_utf8(bytes@),
        ensures
            final(out)@ == encode_utf8(
                flat(decode_utf8(bytes@), |c: char| spaced(self.steps(), c)),
            ),
    {
        let ghost f = |c: char| spaced(self.steps(), c);
        let ghost mut done = Seq::<char>::empty();
        out.clear();
        let mut i: usize = 0;
        proof {
            assert(utf8::tail(bytes@, 0) =~= bytes@);
            assert(done + decode_utf8(bytes@) =~= decode_utf8(bytes@));
            assert(encode_utf8(flat(done, f)) =~= Seq::<u8>::empty());
        }
        while i < bytes.len()
            invariant
                valid_utf8(bytes@),
                i <= bytes@.len(),
                f == |c: char| spaced(self.steps(), c),
                valid_utf8(utf8::tail(bytes@, i as int)),
                decode_utf8(bytes@) == done + decode_utf8(utf8::tail(bytes@, i as int)),
                out@ == encode_utf8(flat(done, f)),
            decreases bytes@.len() - i,
        {
            let run: usize = printable_ascii_run(bytes, i);
            let ghost from = i;
            while i < run
                invariant
                    valid_utf8(bytes@),
                    from <= i <= run <= bytes@.len(),
                    forall|k: int| from <= k < run ==> printable(#[trigger] bytes@[k]),
                    f == |c: char| spaced(self.steps(), c),
                    valid_utf8(utf8::tail(bytes@, i as int)),
                    decode_utf8(bytes@) == done + decode_utf8(utf8::tail(bytes@, i as int)),
                    out@ == encode_utf8(flat(done, f)),
                decreases run - i,
            {
                proof {
                    assert(printable(bytes@[i as int]));
                    utf8::lemma_tail_ascii(bytes@, i as int);
                    lemma_append(bytes@, i as int, done, f, out@);
                    let c = decode_first_scalar(utf8::tail(bytes@, i as int)) as char;
                    lemma_flat_one(c, |d: char| padded(self.steps().handle_chinese_chars, d));
                    assert(f(c) =~= seq![c]);
                    utf8::lemma_encode_ascii(c);
                    done = done.push(c);
                }
                let ghost before = out@;
                out.push(bytes[i]);
                assert(out@ =~= before + seq![bytes@[i as int]]);
                i += 1;
            }
            if i < bytes.len() {
                proof {
                    lemma_append(bytes@, i as int, done, f, out@);
                }
                match utf8::decode_at(bytes, i) {
                    None => {},
                    Some((cp, len)) => {
                        match char::from_u32(cp) {
                            None => {},
                            Some(c) => {
                                proof {
                                    char_u32_cast(c, cp);
                                }
                                self.push_spaced(c, out);
                                proof {
                                    done = done.push(c);
                                }
                            },
                        }
                        i += len;
                    },
                }
            }
        }
        assert(utf8::tail(bytes@, bytes@.len() as int) =~= Seq::<u8>::empty());
        assert(decode_utf8(Seq::<u8>::empty()) =~= Seq::<char>::empty());
        assert(done + Seq::<char>::empty() =~= done);
    }

    /// Cleans and pads one character.
    fn push_spaced(&self, c: char, out: &mut Vec<u8>)
        ensures
            final(out)@ == old(out)@ + encode_utf8(spaced(self.steps(), c)),
    {
        let ghost pad = |d: char| padded(self.steps().handle_chinese_chars, d);
        let ghost before = out@;
        let mut kept: char = c;
        if self.clean_text {
            match bert::bert_norm_class_of(c as u32) {
                BertNormClass::Remove => {
                    assert(flat(Seq::<char>::empty(), pad) =~= Seq::<char>::empty());
                    assert(before + encode_utf8(Seq::<char>::empty()) =~= before);
                    return;
                },
                BertNormClass::Whitespace => {
                    kept = ' ';
                },
                _ => {},
            }
        }
        proof {
            lemma_flat_one(kept, pad);
        }
        if self.handle_chinese_chars && bert::is_bert_cjk(kept as u32) {
            utf8::push_char(out, ' ');
            utf8::push_char(out, kept);
            utf8::push_char(out, ' ');
            proof {
                utf8::lemma_encode_concat(seq![' '], seq![kept]);
                utf8::lemma_encode_concat(seq![' '] + seq![kept], seq![' ']);
                assert(seq![' '] + seq![kept] + seq![' '] =~= seq![' ', kept, ' ']);
                assert(out@ =~= before + encode_utf8(seq![' ', kept, ' ']));
            }
        } else {
            utf8::push_char(out, kept);
        }
    }

    /// Dropping marks and lowercasing.
    pub fn fold_pass(&self, bytes: &[u8], out: &mut Vec<u8>)
        requires
            valid_utf8(bytes@),
        ensures
            final(out)@ == encode_utf8(
                flat(decode_utf8(bytes@), |c: char| folded(self.steps(), c)),
            ),
    {
        let ghost f = |c: char| folded(self.steps(), c);
        let ghost mut done = Seq::<char>::empty();
        out.clear();
        let mut i: usize = 0;
        proof {
            assert(utf8::tail(bytes@, 0) =~= bytes@);
            assert(done + decode_utf8(bytes@) =~= decode_utf8(bytes@));
            assert(encode_utf8(flat(done, f)) =~= Seq::<u8>::empty());
        }
        while i < bytes.len()
            invariant
                valid_utf8(bytes@),
                i <= bytes@.len(),
                f == |c: char| folded(self.steps(), c),
                valid_utf8(utf8::tail(bytes@, i as int)),
                decode_utf8(bytes@) == done + decode_utf8(utf8::tail(bytes@, i as int)),
                out@ == encode_utf8(flat(done, f)),
            decreases bytes@.len() - i,
        {
            let run: usize = ascii_run(bytes, i);
            let ghost from = i;
            while i < run
                invariant
                    valid_utf8(bytes@),
                    from <= i <= run <= bytes@.len(),
                    forall|k: int| from <= k < run ==> #[trigger] bytes@[k] < 0x80,
                    f == |c: char| folded(self.steps(), c),
                    valid_utf8(utf8::tail(bytes@, i as int)),
                    decode_utf8(bytes@) == done + decode_utf8(utf8::tail(bytes@, i as int)),
                    out@ == encode_utf8(flat(done, f)),
                decreases run - i,
            {
                let b: u8 = bytes[i];
                let low: u8 = if self.lowercase && 0x41 <= b && b <= 0x5A {
                    b + 32
                } else {
                    b
                };
                proof {
                    utf8::lemma_tail_ascii(bytes@, i as int);
                    lemma_append(bytes@, i as int, done, f, out@);
                    let c = decode_first_scalar(utf8::tail(bytes@, i as int)) as char;
                    lemma_flat_one(c, |d: char| lowered(self.steps().lowercase, d));
                    assert(f(c) =~= seq![low as char]);
                    utf8::lemma_encode_ascii(low as char);
                    done = done.push(c);
                }
                let ghost before = out@;
                out.push(low);
                assert(out@ =~= before + seq![low]);
                i += 1;
            }
            if i < bytes.len() {
                proof {
                    lemma_append(bytes@, i as int, done, f, out@);
                }
                match utf8::decode_at(bytes, i) {
                    None => {},
                    Some((cp, len)) => {
                        match char::from_u32(cp) {
                            None => {},
                            Some(c) => {
                                proof {
                                    char_u32_cast(c, cp);
                                }
                                self.push_folded(c, out);
                                proof {
                                    done = done.push(c);
                                }
                            },
                        }
                        i += len;
                    },
                }
            }
        }
        assert(utf8::tail(bytes@, bytes@.len() as int) =~= Seq::<u8>::empty());
        assert(decode_utf8(Seq::<u8>::empty()) =~= Seq::<char>::empty());
        assert(done + Seq::<char>::empty() =~= done);
    }

    /// Drops or lowercases one character beyond ASCII.
    fn push_folded(&self, c: char, out: &mut Vec<u8>)
        requires
            c as u32 >= 0x80,
        ensures
            final(out)@ == old(out)@ + encode_utf8(folded(self.steps(), c)),
    {
        let ghost low = |d: char| lowered(self.steps().lowercase, d);
        let ghost before = out@;
        if self.strip_accents && matches!(
            bert::bert_norm_class_of(c as u32),
            BertNormClass::Mark
        ) {
            assert(flat(Seq::<char>::empty(), low) =~= Seq::<char>::empty());
            assert(before + encode_utf8(Seq::<char>::empty()) =~= before);
            return;
        }
        proof {
            lemma_flat_one(c, low);
        }
        if self.lowercase {
            let chars = std_to_lowercase(c);
            let mut k: usize = 0;
            assert(chars@.take(0) =~= Seq::<char>::empty());
            assert(before + encode_utf8(Seq::<char>::empty()) =~= before);
            while k < chars.len()
                invariant
                    k <= chars@.len(),
                    out@ == before + encode_utf8(chars@.take(k as int)),
                decreases chars@.len() - k,
            {
                utf8::push_char(out, chars[k]);
                proof {
                    let head = chars@.take(k as int);
                    let one = seq![chars@[k as int]];
                    utf8::lemma_encode_concat(head, one);
                    assert(chars@.take(k + 1) =~= head + one);
                    assert(before + encode_utf8(head) + encode_utf8(one) =~= before + encode_utf8(
                        head + one,
                    ));
                }
                k += 1;
            }
            assert(chars@.take(chars@.len() as int) =~= chars@);
        } else {
            utf8::push_char(out, c);
        }
    }

    /// Normalizes one segment. What the buffers held before does not matter.
    pub fn normalize<'s>(&self, seg: &'s [u8], scratch: &'s mut BertScratch) -> (res: &'s [u8])
        ensures
            res@ == normalized(self.steps(), seg@),
    {
        if self.is_noop() {
            proof {
                law_noop(self.steps(), seg@);
            }
            return seg;
        }
        if self.is_printable_ascii(seg) {
            return self.normalize_printable(seg, scratch);
        }
        match utf8::str_of_utf8(seg) {
            None => seg,
            Some(s) => {
                proof {
                    encode_utf8_decode_utf8(s@);
                    lemma_two_passes(self.steps(), decode_utf8(seg@));
                }
                let ghost mid = flat(decode_utf8(seg@), |c: char| spaced(self.steps(), c));
                self.clean_pass(seg, &mut scratch.clean);
                proof {
                    encode_utf8_valid_utf8(mid);
                    encode_utf8_decode_utf8(mid);
                }
                if self.strip_accents {
                    match utf8::str_of_utf8(&scratch.clean) {
                        None => {},
                        Some(clean) => {
                            proof {
                                encode_utf8_decode_utf8(clean@);
                            }
                            let nfd = icu_nfd(clean);
                            proof {
                                encode_utf8_valid_utf8(nfd@);
                                encode_utf8_decode_utf8(nfd@);
                            }
                            self.fold_pass(nfd.as_str().as_bytes(), &mut scratch.folded);
                        },
                    }
                } else {
                    self.fold_pass(&scratch.clean, &mut scratch.folded);
                }
                &scratch.folded
            },
        }
    }

    /// Normalizes a segment of printable ASCII.
    fn normalize_printable<'s>(&self, seg: &'s [u8], scratch: &'s mut BertScratch) -> (res: &'s [u8])
        requires
            forall|i: int| 0 <= i < seg@.len() ==> printable(#[trigger] seg@[i]),
        ensures
            res@ == normalized(self.steps(), seg@),
    {
        let mut upper = false;
        let mut k: usize = 0;
        while k < seg.len()
            invariant
                k <= seg@.len(),
                upper == (exists|i: int| 0 <= i < k && 0x41 <= #[trigger] seg@[i] <= 0x5A),
            decreases seg@.len() - k,
        {
            if 0x41 <= seg[k] && seg[k] <= 0x5A {
                upper = true;
            }
            k += 1;
        }
        if !self.lowercase || !upper {
            proof {
                lemma_printable(self.steps(), seg@, seg@);
            }
            return seg;
        }
        scratch.folded.clear();
        let mut i: usize = 0;
        while i < seg.len()
            invariant
                i <= seg@.len(),
                scratch.folded@.len() == i,
                forall|k: int|
                    0 <= k < i ==> #[trigger] scratch.folded@[k] == ascii_lower(seg@[k]),
            decreases seg@.len() - i,
        {
            let b: u8 = seg[i];
            scratch.folded.push(
                if 0x41 <= b && b <= 0x5A {
                    b + 32
                } else {
                    b
                },
            );
            i += 1;
        }
        proof {
            lemma_printable(self.steps(), seg@, scratch.folded@);
        }
        &scratch.folded
    }
}

} // verus!
