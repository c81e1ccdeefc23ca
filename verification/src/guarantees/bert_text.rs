//! What the BERT normalizer makes of a text, character by character.

use crate::bpe::bert_normalizer;
use crate::bpe::bert_normalizer::BertSteps;
use crate::pretokenize::unicode::bert;
use crate::pretokenize::unicode::bert::BertNormClass;
use crate::pretokenize::unicode::category;
use super::characters;
use super::newer_data;
use vstd::prelude::*;
use vstd::utf8::*;

verus! {

/// A character in lowercase: ASCII capitals by their small letters, every other
/// ASCII character itself, and every character beyond ASCII by what
/// `char::to_lowercase` gives for it.
pub open spec fn in_lowercase(c: char) -> Seq<char> {
    if c as u32 >= 0x80 {
        bert_normalizer::lowercase_of(c)
    } else if 'A' <= c && c <= 'Z' {
        seq![((c as u8) + 32) as u8 as char]
    } else {
        seq![c]
    }
}

/// A text in lowercase.
pub open spec fn all_lowercase(chars: Seq<char>) -> Seq<char>
    decreases chars.len(),
{
    if chars.len() == 0 {
        Seq::empty()
    } else {
        in_lowercase(chars[0]) + all_lowercase(chars.drop_first())
    }
}

/// The characters that cleaning drops: NUL and the other ASCII controls but tab,
/// line feed and carriage return, the replacement character, and, beyond ASCII,
/// those of the categories Cc, Cf, Co and Cs, but for a few format characters that
/// are kept and for what counts as a mark or is listed as none.
pub open spec fn is_dropped(c: char) -> bool {
    let cp = c as u32;
    let code = category::general_category_code(cp);
    if cp < 0x80 {
        (cp < 0x20 || cp == 0x7F) && cp != 0x09 && cp != 0x0A && cp != 0x0D
    } else {
        cp == 0xFFFD || (15 <= code <= 18 && !is_kept_format(cp) && !is_mark(c)
            && !is_listed_no_mark(c))
    }
}

/// The characters that cleaning turns into a space: the white space that it does
/// not drop, but for what counts as a mark.
pub open spec fn is_blank(c: char) -> bool {
    characters::white(c as u32) && !is_dropped(c) && !is_mark(c)
}

/// The marks of the category data that count as none.
pub open spec fn is_listed_no_mark(c: char) -> bool {
    newer_data::newer_marks(c as u32)
}

/// The format characters that cleaning keeps.
pub open spec fn is_kept_format(cp: u32) -> bool {
    cp == 0x0890 || cp == 0x0891 || cp == 0x08E2 || cp == 0x110CD || 0x13430 <= cp <= 0x1343F
}

/// The characters that have a space on either side after padding.
pub open spec fn is_ideograph(c: char) -> bool {
    let cp = c as u32;
    ||| 0x3400 <= cp <= 0x4DBF
    ||| 0x4E00 <= cp <= 0x9FFF
    ||| 0xF900 <= cp <= 0xFAFF
    ||| 0x20000 <= cp <= 0x2A6DF
    ||| 0x2A700 <= cp <= 0x2B81F
    ||| 0x2B920 <= cp <= 0x2CEAF
    ||| 0x2F800 <= cp <= 0x2FA1F
}

/// The marks that accent stripping drops: category Mn beyond ASCII, but for those
/// listed as no marks, and two more.
pub open spec fn is_mark(c: char) -> bool {
    let cp = c as u32;
    ||| cp == 0x1734 || cp == 0x1171E
    ||| cp >= 0x80 && cp != 0xFFFD && category::general_category_code(cp) == 6
        && !is_listed_no_mark(c)
}

proof fn lemma_extra_marks(cp: u32)
    ensures
        bert::listed(bert::BERT_STALE_EXTRA_MARK@, cp) <==> cp == 0x1734 || cp == 0x1171E,
{
    let list = bert::BERT_STALE_EXTRA_MARK@;
    assert(list.len() == 2 && list[0] == 0x1734 && list[1] == 0x1171E);
}

proof fn lemma_kept_formats(cp: u32)
    ensures
        bert::listed(bert::BERT_STALE_NOT_CONTROL@, cp) <==> is_kept_format(cp),
{
    let list = bert::BERT_STALE_NOT_CONTROL@;
    assert(list.len() == 20);
    assert(list[0] == 0x0890 && list[1] == 0x0891 && list[2] == 0x08E2 && list[3] == 0x110CD);
    assert(forall|k: int| 4 <= k < 20 ==> list[k] == 0x13430 + (k - 4));
    if 0x13430 <= cp <= 0x1343F {
        assert(list[cp - 0x13430 + 4] == cp);
    }
}

/// Marks are told by their category, but for the listed differences.
pub proof fn law_marks(c: char)
    ensures
        bert::bert_norm_class(c as u32) == BertNormClass::Mark <==> is_mark(c),
{
    lemma_extra_marks(c as u32);
    newer_data::law_newer_marks(c as u32);
}

/// What cleaning drops, and what it turns into a space.
pub proof fn law_dropped(c: char)
    ensures
        bert::bert_norm_class(c as u32) == BertNormClass::Remove <==> is_dropped(c),
        bert::bert_norm_class(c as u32) == BertNormClass::Whitespace <==> is_blank(c),
{
    lemma_extra_marks(c as u32);
    newer_data::law_newer_marks(c as u32);
    lemma_kept_formats(c as u32);
}

/// With lowercasing alone, every character is replaced by itself in lowercase:
/// beyond ASCII by what `char::to_lowercase` gives, with no exception.
pub proof fn law_lowercase_alone(c: char)
    ensures
        ({
            let steps = BertSteps {
                clean_text: false,
                handle_chinese_chars: false,
                strip_accents: false,
                lowercase: true,
            };
            let out = bert_normalizer::normalized_chars(steps, seq![c]);
            &&& c as u32 >= 0x80 ==> out == bert_normalizer::lowercase_of(c)
            &&& 'A' <= c && c <= 'Z' ==> out == seq![((c as u8) + 32) as u8 as char]
            &&& (c as u32) < 0x80 && !('A' <= c && c <= 'Z') ==> out == seq![c]
        }),
{
    let steps = BertSteps {
        clean_text: false,
        handle_chinese_chars: false,
        strip_accents: false,
        lowercase: true,
    };
    bert_normalizer::lemma_flat_one(c, |d: char| bert_normalizer::cleaned(false, d));
    bert_normalizer::lemma_flat_one(c, |d: char| bert_normalizer::padded(false, d));
    bert_normalizer::lemma_flat_one(c, |d: char| bert_normalizer::unmarked(false, d));
    bert_normalizer::lemma_flat_one(c, |d: char| bert_normalizer::lowered(true, d));
}

/// Lowercasing comes last: with it on, a text becomes what it becomes with it off,
/// in lowercase.
pub proof fn law_lowercase_comes_last(steps: BertSteps, chars: Seq<char>)
    requires
        steps.lowercase,
    ensures
        bert_normalizer::normalized_chars(steps, chars) == all_lowercase(
            bert_normalizer::normalized_chars(BertSteps { lowercase: false, ..steps }, chars),
        ),
{
    let off = BertSteps { lowercase: false, ..steps };
    let clean = bert_normalizer::flat(
        chars,
        |c: char| bert_normalizer::cleaned(steps.clean_text, c),
    );
    let spaced = bert_normalizer::flat(
        clean,
        |c: char| bert_normalizer::padded(steps.handle_chinese_chars, c),
    );
    let plain = bert_normalizer::flat(
        bert_normalizer::decomposed(steps.strip_accents, spaced),
        |c: char| bert_normalizer::unmarked(steps.strip_accents, c),
    );
    bert_normalizer::lemma_flat_map(plain, |c: char| bert_normalizer::lowered(false, c), plain);
    assert(bert_normalizer::normalized_chars(off, chars) == plain);
    lemma_all_lowercase(plain);
}

proof fn lemma_all_lowercase(chars: Seq<char>)
    ensures
        bert_normalizer::flat(chars, |c: char| bert_normalizer::lowered(true, c)) == all_lowercase(
            chars,
        ),
    decreases chars.len(),
{
    let f = |c: char| bert_normalizer::lowered(true, c);
    if chars.len() > 0 {
        let first = seq![chars[0]];
        let rest = chars.drop_first();
        assert(chars =~= first + rest);
        bert_normalizer::lemma_flat_concat(first, rest, f);
        bert_normalizer::lemma_flat_one(chars[0], f);
        lemma_all_lowercase(rest);
        law_lowercase_alone(chars[0]);
        assert(f(chars[0]) == bert_normalizer::lowered(true, chars[0]));
        assert(bert_normalizer::lowered(true, chars[0]) == in_lowercase(chars[0]));
    }
}

/// Accent stripping decomposes a text and drops its marks: with it on, and
/// lowercasing off, what comes out is what the first two steps make of the text,
/// decomposed, without its marks. ASCII text has none.
pub proof fn law_accents_are_stripped(steps: BertSteps, chars: Seq<char>)
    requires
        steps.strip_accents,
        !steps.lowercase,
    ensures
        ({
            let before = bert_normalizer::normalized_chars(
                BertSteps { strip_accents: false, ..steps },
                chars,
            );
            &&& is_ascii_chars(before) ==> bert_normalizer::normalized_chars(steps, chars)
                == before
            &&& !is_ascii_chars(before)
                ==> bert_normalizer::normalized_chars(steps, chars) == bert_normalizer::nfd_form(
                before,
            ).filter(|c: char| !is_mark(c))
        }),
{
    let off = BertSteps { strip_accents: false, ..steps };
    let clean = bert_normalizer::flat(
        chars,
        |c: char| bert_normalizer::cleaned(steps.clean_text, c),
    );
    let spaced = bert_normalizer::flat(
        clean,
        |c: char| bert_normalizer::padded(steps.handle_chinese_chars, c),
    );
    let lower = |c: char| bert_normalizer::lowered(false, c);
    bert_normalizer::lemma_flat_map(
        spaced,
        |c: char| bert_normalizer::unmarked(false, c),
        spaced,
    );
    bert_normalizer::lemma_flat_map(spaced, lower, spaced);
    assert(bert_normalizer::normalized_chars(off, chars) == spaced);
    let plain = bert_normalizer::flat(
        bert_normalizer::decomposed(true, spaced),
        |c: char| bert_normalizer::unmarked(true, c),
    );
    bert_normalizer::lemma_flat_map(plain, lower, plain);
    assert(bert_normalizer::normalized_chars(steps, chars) == plain);
    if is_ascii_chars(spaced) {
        assert forall|i: int| 0 <= i < spaced.len() implies #[trigger] bert_normalizer::unmarked(
            true,
            spaced[i],
        ) == seq![spaced[i]] by {
            assert(('\0' as u32) <= spaced[i] as u32 <= ('\u{7f}' as u32));
        }
        bert_normalizer::lemma_flat_map(
            spaced,
            |c: char| bert_normalizer::unmarked(true, c),
            spaced,
        );
    } else {
        lemma_filter(bert_normalizer::nfd_form(spaced));
    }
}

proof fn lemma_filter(chars: Seq<char>)
    ensures
        bert_normalizer::flat(chars, |c: char| bert_normalizer::unmarked(true, c)) == chars.filter(
            |c: char| !is_mark(c),
        ),
    decreases chars.len(),
{
    reveal(Seq::filter);
    if chars.len() > 0 {
        lemma_filter(chars.drop_last());
        law_marks(chars.last());
        let before = chars.drop_last().filter(|c: char| !is_mark(c));
        assert(before + seq![chars.last()] =~= before.push(chars.last()));
        assert(before + Seq::<char>::empty() =~= before);
    }
}

/// Without accent stripping a text is normalized piece by piece.
pub proof fn law_text_piece_by_piece(steps: BertSteps, a: Seq<char>, b: Seq<char>)
    requires
        !steps.strip_accents,
    ensures
        bert_normalizer::normalized_chars(steps, a + b) == bert_normalizer::normalized_chars(
            steps,
            a,
        ) + bert_normalizer::normalized_chars(steps, b),
        a.len() == 0 ==> bert_normalizer::normalized_chars(steps, a) == Seq::<char>::empty(),
{
    let clean = |c: char| bert_normalizer::cleaned(steps.clean_text, c);
    let pad = |c: char| bert_normalizer::padded(steps.handle_chinese_chars, c);
    let unmark = |c: char| bert_normalizer::unmarked(false, c);
    let lower = |c: char| bert_normalizer::lowered(steps.lowercase, c);
    bert_normalizer::lemma_flat_concat(a, b, clean);
    let (x, y) = (bert_normalizer::flat(a, clean), bert_normalizer::flat(b, clean));
    bert_normalizer::lemma_flat_concat(x, y, pad);
    let (v, w) = (bert_normalizer::flat(x, pad), bert_normalizer::flat(y, pad));
    bert_normalizer::lemma_flat_concat(v, w, unmark);
    let (p, q) = (bert_normalizer::flat(v, unmark), bert_normalizer::flat(w, unmark));
    bert_normalizer::lemma_flat_concat(p, q, lower);
}

/// What the first two steps make of one character: one that is dropped goes, white
/// space becomes a space, an ideograph gets a space on either side, and every
/// other stays.
#[verifier::rlimit(40)]
pub proof fn law_one_char(steps: BertSteps, c: char)
    requires
        !steps.strip_accents,
        !steps.lowercase,
    ensures
        ({
            let out = bert_normalizer::normalized_chars(steps, seq![c]);
            &&& steps.clean_text && is_dropped(c) ==> out == Seq::<char>::empty()
            &&& steps.clean_text && is_blank(c) ==> out
                == seq![' ']
            &&& !(steps.clean_text && (is_dropped(c) || is_blank(c)))
                && steps.handle_chinese_chars && is_ideograph(c) ==> out == seq![' ', c, ' ']
            &&& !(steps.clean_text && (is_dropped(c) || is_blank(c))) && !(
            steps.handle_chinese_chars && is_ideograph(c)) ==> out == seq![c]
        }),
{
    law_dropped(c);
    bert_normalizer::law_prepared_then_folded(steps, seq![c]);
    let clean = |d: char| bert_normalizer::cleaned(steps.clean_text, d);
    let pad = |d: char| bert_normalizer::padded(steps.handle_chinese_chars, d);
    bert_normalizer::lemma_flat_one(c, |d: char| bert_normalizer::spaced(steps, d));
    bert_normalizer::lemma_flat_one(c, pad);
    bert_normalizer::lemma_flat_one(' ', pad);
    assert(bert_normalizer::flat(Seq::<char>::empty(), pad) =~= Seq::<char>::empty());
}

/// With lowercasing on and accent stripping off, every character beyond ASCII that
/// is not dropped, is no white space and is not padded becomes what
/// `char::to_lowercase` gives, whichever of the first two steps are on.
pub proof fn law_beyond_ascii_lowercased(steps: BertSteps, c: char)
    requires
        !steps.strip_accents,
        steps.lowercase,
        c as u32 >= 0x80,
        !(steps.clean_text && (is_dropped(c) || is_blank(c))),
        !(steps.handle_chinese_chars && is_ideograph(c)),
    ensures
        bert_normalizer::normalized_chars(steps, seq![c]) == bert_normalizer::lowercase_of(c),
{
    law_lowercase_comes_last(steps, seq![c]);
    law_one_char(BertSteps { lowercase: false, ..steps }, c);
    reveal_with_fuel(all_lowercase, 2);
    assert(seq![c].drop_first() =~= Seq::<char>::empty());
    assert(all_lowercase(seq![c]) =~= bert_normalizer::lowercase_of(c));
}

/// Normalizing works on the characters of a text, and leaves alone what is no
/// text.
pub proof fn law_bytes_of_text(steps: BertSteps, chars: Seq<char>, seg: Seq<u8>)
    ensures
        bert_normalizer::normalized(steps, encode_utf8(chars)) == encode_utf8(
            bert_normalizer::normalized_chars(steps, chars),
        ),
        !valid_utf8(seg) ==> bert_normalizer::normalized(steps, seg) == seg,
{
    encode_utf8_valid_utf8(chars);
    encode_utf8_decode_utf8(chars);
}

/// An ideograph that is padded is lowercased between its two spaces.
pub proof fn law_ideograph_lowercased(steps: BertSteps, c: char)
    requires
        !steps.strip_accents,
        steps.lowercase,
        steps.handle_chinese_chars,
        is_ideograph(c),
        !(steps.clean_text && (is_dropped(c) || is_blank(c))),
    ensures
        bert_normalizer::normalized_chars(steps, seq![c]) == seq![' ']
            + bert_normalizer::lowercase_of(c) + seq![' '],
{
    let padded = seq![' ', c, ' '];
    law_lowercase_comes_last(steps, seq![c]);
    law_one_char(BertSteps { lowercase: false, ..steps }, c);
    reveal_with_fuel(all_lowercase, 4);
    let two = padded.drop_first();
    let one = two.drop_first();
    assert(two[0] == c && one[0] == ' ');
    assert(one.drop_first() =~= Seq::<char>::empty());
    assert(all_lowercase(one) =~= seq![' ']);
    assert(all_lowercase(two) =~= bert_normalizer::lowercase_of(c) + seq![' ']);
    assert(all_lowercase(padded) =~= seq![' '] + bert_normalizer::lowercase_of(c) + seq![' ']);
}

/// With accent stripping and lowercasing on, a character beyond ASCII that the
/// first two steps leave alone is decomposed, its marks go, and what is left is
/// lowercased.
pub proof fn law_uncased(steps: BertSteps, c: char)
    requires
        steps.strip_accents,
        steps.lowercase,
        c as u32 >= 0x80,
        !(steps.clean_text && (is_dropped(c) || is_blank(c))),
        !(steps.handle_chinese_chars && is_ideograph(c)),
    ensures
        bert_normalizer::normalized_chars(steps, seq![c]) == all_lowercase(
            bert_normalizer::nfd_form(seq![c]).filter(|d: char| !is_mark(d)),
        ),
{
    let cased = BertSteps { lowercase: false, ..steps };
    law_lowercase_comes_last(steps, seq![c]);
    law_accents_are_stripped(cased, seq![c]);
    law_one_char(BertSteps { strip_accents: false, ..cased }, c);
    assert(!is_ascii_chars(seq![c])) by {
        let one = seq![c];
        assert(one[0] == c);
        if is_ascii_chars(one) {
            assert(('\0' as u32) <= one[0] as u32 <= ('\u{7f}' as u32));
        }
    }
}

} // verus!
