//! Units of two-level tokenization: pretokens that are glued together, and the
//! choices that a plan rests on.

use super::characters;
use super::gpt2;
use super::kinds;
use super::kinds::Kind;
use super::runs;
use super::stage1;
use crate::bpe::merge;
use crate::bpe::merge::{Merge, MergeTable, Table};
use crate::bpe::plan;
use crate::bpe::plan::{L1Fill, SuperwordPlan};
use crate::bpe::superword;
use crate::pretokenize::fast::dispatch;
use crate::pretokenize::fast::level1;
use crate::pretokenize::options::PretokenizerType;
use crate::utf8;
use vstd::prelude::*;
use vstd::utf8::*;

verus! {

/// What glues two pretokens: white space on both sides, an apostrophe at either
/// end of the first, an ASCII digit at the start of the second, or bytes beyond
/// ASCII on both sides. Nothing else does, where whole characters meet.
pub proof fn law_what_glues(x: Seq<u8>, c: char, d: char, y: Seq<u8>)
    ensures
        ({
            let prev = x + characters::bytes_of(c);
            let next = characters::bytes_of(d) + y;
            level1::glued(prev, next) <==> {
                ||| characters::white(c as u32) && characters::white(d as u32)
                ||| prev.last() == 0x27
                ||| prev[0] == 0x27
                ||| 0x30 <= next[0] <= 0x39
                ||| prev.last() >= 0x80 && next[0] >= 0x80
            }
        }),
{
    let prev = x + characters::bytes_of(c);
    let next = characters::bytes_of(d) + y;
    characters::law_last_char(x, c);
    characters::law_white(c as u32);
    characters::law_white(d as u32);
    encode_utf8_first_scalar(seq![d]);
    utf8::lemma_encode_one(d);
    lemma_first_char(d, y);
    assert(utf8::first_char(next) == Some(d as u32));
}

/// A piece of a character at a junction glues as white space would, before or
/// behind white space or another such piece.
pub proof fn law_torn_glues(prev: Seq<u8>, next: Seq<u8>, x: Seq<u8>, c: char, d: char, y: Seq<u8>)
    ensures
        utf8::last_char(prev) is None && utf8::first_char(next) is None ==> level1::glued(
            prev,
            next,
        ),
        characters::white(c as u32) && utf8::first_char(next) is None ==> level1::glued(
            x + characters::bytes_of(c),
            next,
        ),
        characters::white(d as u32) && utf8::last_char(prev) is None ==> level1::glued(
            prev,
            characters::bytes_of(d) + y,
        ),
{
    characters::law_last_char(x, c);
    characters::law_white(c as u32);
    characters::law_white(d as u32);
    lemma_first_char(d, y);
}

/// The character whose bytes start a text is its first.
proof fn lemma_first_char(d: char, y: Seq<u8>)
    ensures
        utf8::first_char(characters::bytes_of(d) + y) == Some(d as u32),
{
    let one = characters::bytes_of(d);
    let next = one + y;
    encode_utf8_first_scalar(seq![d]);
    utf8::lemma_encode_one(d);
    assert(next.subrange(0, one.len() as int) =~= one);
    characters::law_char_read(next, 0, d);
    assert(utf8::tail(next, 0) =~= next);
    utf8::lemma_first_char_prefix(one, next, 0);
    reveal(utf8::cp_at);
}

/// Whether `cuts` are the ends of pretokens, one after the other, from its first
/// offset on.
pub open spec fn pretoken_cuts(scheme: PretokenizerType, bytes: Seq<u8>, cuts: Seq<int>) -> bool {
    &&& cuts.len() >= 2
    &&& forall|i: int|
        0 <= i && i + 1 < cuts.len() ==> 0 <= cuts[i] < bytes.len() && dispatch::type_step(
            scheme,
            bytes,
        )(#[trigger] cuts[i]) == Some((cuts[i], cuts[i + 1]))
}

/// Whether the pretokens on both sides of cut `i` are glued.
pub open spec fn glued_at(bytes: Seq<u8>, cuts: Seq<int>, i: int) -> bool {
    level1::glued(bytes.subrange(cuts[i - 1], cuts[i]), bytes.subrange(cuts[i], cuts[i + 1]))
}

proof fn lemma_unit(
    scheme: PretokenizerType,
    bytes: Seq<u8>,
    cuts: Seq<int>,
    n: int,
    k: int,
)
    requires
        dispatch::tiling(scheme),
        pretoken_cuts(scheme, bytes, cuts),
        1 <= k <= n < cuts.len(),
        forall|i: int| 1 <= i < n ==> #[trigger] glued_at(bytes, cuts, i),
        cuts[n] == bytes.len() || (n + 1 < cuts.len() && !glued_at(bytes, cuts, n)),
    ensures
        level1::unit_end(level1::type_ends(scheme, bytes), bytes, cuts[k - 1], cuts[k]) == cuts[n],
    decreases n - k,
{
    let ends = level1::type_ends(scheme, bytes);
    assert(dispatch::type_step(scheme, bytes)(cuts[k - 1]) == Some((cuts[k - 1], cuts[k - 1 + 1])));
    dispatch::law_tiles(scheme, bytes, cuts[k - 1]);
    if k < n {
        assert(dispatch::type_step(scheme, bytes)(cuts[k]) == Some((cuts[k], cuts[k + 1])));
        dispatch::law_tiles(scheme, bytes, cuts[k]);
        assert(glued_at(bytes, cuts, k));
        lemma_unit(scheme, bytes, cuts, n, k + 1);
    } else if cuts[n] < bytes.len() {
        assert(dispatch::type_step(scheme, bytes)(cuts[n]) == Some((cuts[n], cuts[n + 1])));
        dispatch::law_tiles(scheme, bytes, cuts[n]);
    }
}

/// A unit is made of whole pretokens: it takes the next as long as that is glued to
/// the one before it, and no further.
pub proof fn law_units(scheme: PretokenizerType, bytes: Seq<u8>, cuts: Seq<int>, n: int)
    requires
        dispatch::tiling(scheme),
        pretoken_cuts(scheme, bytes, cuts),
        1 <= n < cuts.len(),
        forall|i: int| 1 <= i < n ==> #[trigger] glued_at(bytes, cuts, i),
        cuts[n] == bytes.len() || (n + 1 < cuts.len() && !glued_at(bytes, cuts, n)),
    ensures
        plan::units(scheme, bytes)(cuts[0]) == Some((cuts[0], cuts[n])),
{
    assert(dispatch::type_step(scheme, bytes)(cuts[0]) == Some((cuts[0], cuts[1])));
    dispatch::law_tiles(scheme, bytes, cuts[0]);
    lemma_unit(scheme, bytes, cuts, n, 1);
}

/// Of two schemes with thresholds the one with the larger counts, and GPT-2's where
/// they are equal; one alone counts, and none where there is none.
pub proof fn law_better_scheme(a: u32, b: u32)
    ensures
        plan::better(None, None) is None,
        plan::better(Some(a), None) == Some((PretokenizerType::SuperBPEStage1, a)),
        plan::better(None, Some(b)) == Some((PretokenizerType::GPT2, b)),
        a > b ==> plan::better(Some(a), Some(b)) == Some((PretokenizerType::SuperBPEStage1, a)),
        a <= b ==> plan::better(Some(a), Some(b)) == Some((PretokenizerType::GPT2, b)),
{
}

/// The merges below a bound are those of smaller rank, unchanged.
pub proof fn law_below(table: Table, bound: int, pair: (u32, u32))
    ensures
        merge::below(table, bound).contains_key(pair) <==> table.contains_key(pair)
            && table[pair].1 < bound,
        merge::below(table, bound).contains_key(pair) ==> merge::below(table, bound)[pair]
            == table[pair],
{
}

/// The names of the ways to pull units are told in either case.
pub proof fn law_names_in_either_case(v: Seq<u8>)
    ensures
        plan::same_ignoring_case(v, encode_utf8("iter"@)) <==> v.len() == 4 && (v[0] == 0x69 || v[0]
            == 0x49) && (v[1] == 0x74 || v[1] == 0x54) && (v[2] == 0x65 || v[2] == 0x45) && (v[3]
            == 0x72 || v[3] == 0x52),
        plan::same_ignoring_case(v, encode_utf8("buf"@)) <==> v.len() == 3 && (v[0] == 0x62 || v[0]
            == 0x42) && (v[1] == 0x75 || v[1] == 0x55) && (v[2] == 0x66 || v[2] == 0x46),
{
    reveal_strlit("iter");
    reveal_strlit("buf");
    super::decoding::lemma_ascii_bytes("iter"@, seq![0x69u8, 0x74, 0x65, 0x72]);
    super::decoding::lemma_ascii_bytes("buf"@, seq![0x62u8, 0x75, 0x66]);
    let iter = encode_utf8("iter"@);
    let buf = encode_utf8("buf"@);
    assert(iter.len() == 4 && iter[0] == 0x69 && iter[1] == 0x74 && iter[2] == 0x65 && iter[3]
        == 0x72);
    assert(buf.len() == 3 && buf[0] == 0x62 && buf[1] == 0x75 && buf[2] == 0x66);
    if v.len() == 4 {
        let (p, q, r, s) = (v[0], v[1], v[2], v[3]);
    }
    if v.len() == 3 {
        let (p, q, r) = (v[0], v[1], v[2]);
    }
}

/// A byte that starts no character is read as the replacement character, alone.
pub proof fn law_malformed(bytes: Seq<u8>, pos: int)
    requires
        0 <= pos < bytes.len(),
        forall|c: char, rest: Seq<u8>| bytes.skip(pos) != #[trigger] (characters::bytes_of(c)
            + rest),
    ensures
        utf8::cp_at(bytes, pos) == 0xFFFD,
        utf8::next_pos(bytes, pos) == pos + 1,
{
    reveal(utf8::cp_at);
    reveal(utf8::cp_len);
    let t = utf8::tail(bytes, pos);
    if valid_first_scalar(t) {
        characters::lemma_first_bytes(t);
        let c = decode_first_scalar(t) as char;
        assert(t =~= characters::bytes_of(c) + pop_first_scalar(t));
        assert(bytes.skip(pos) =~= t);
        assert(false);
    }
}

/// A unit ends at the junction of a word and a spaced word, in either scheme.
proof fn lemma_word_ends(
    scheme: PretokenizerType,
    word: Seq<char>,
    next: Seq<char>,
)
    requires
        scheme == PretokenizerType::GPT2 || scheme == PretokenizerType::SuperBPEStage1,
        word.len() > 0,
        next.len() > 0,
        forall|i: int| 0 <= i < word.len() ==> 0x61 <= (#[trigger] word[i]) as u32 <= 0x7A,
        forall|i: int| 0 <= i < next.len() ==> 0x61 <= (#[trigger] next[i]) as u32 <= 0x7A,
        (encode_utf8(word) + encode_utf8(seq![' '] + next)).len() <= usize::MAX,
    ensures
        superword::unit_ends_at(
            scheme,
            encode_utf8(word) + encode_utf8(seq![' '] + next),
            0,
            encode_utf8(word).len() as int,
        ),
{
    let left = encode_utf8(word);
    let spaced = seq![' '] + next;
    let right = encode_utf8(spaced);
    let bytes = left + right;
    let cut = left.len() as int;
    assert(bytes.skip(0) =~= left + right);
    assert(runs::stands(bytes, 0, word, right));
    runs::lemma_first(bytes, 0, word, right);
    assert(right.skip(0) =~= right + Seq::<u8>::empty());
    runs::lemma_first(right, 0, spaced, Seq::empty());
    assert(spaced[0] == ' ');
    utf8::lemma_cp(right, 0);
    utf8::lemma_cp(bytes, 0);
    assert(bytes[0] == word[0] as u32);
    assert(bytes.skip(cut) =~= right);
    assert(runs::stands(bytes, cut, spaced, Seq::empty())) by {
        assert(right + Seq::<u8>::empty() =~= right);
    }
    runs::lemma_first(bytes, cut, spaced, Seq::empty());
    if scheme == PretokenizerType::GPT2 {
        assert forall|i: int| 0 <= i < word.len() implies kinds::is(
            Kind::Letter,
            (#[trigger] word[i]) as u32,
        ) by {}
        assert(Seq::<char>::empty() + word =~= word);
        gpt2::law_runs(Kind::Letter, bytes, 0, false, word, right);
    } else {
        assert forall|i: int| 0 <= i < word.len() implies stage1::in_body(
            (#[trigger] word[i]) as u32,
        ) by {}
        assert(stage1::maybe(None) + (Seq::<char>::empty() + word) =~= word);
        assert(Seq::<char>::empty() + word =~= word);
        stage1::law_capitals_then_small(bytes, 0, None, Seq::empty(), word, right);
    }
    dispatch::law_tiles(scheme, bytes, 0);
    dispatch::law_tiles(scheme, bytes, cut);
    let ends = level1::type_ends(scheme, bytes);
    assert(ends(0) == cut);
    let end = ends(cut);
    let prev = bytes.subrange(0, cut);
    let after = bytes.subrange(cut, end);
    assert(prev =~= left);
    let c = word.last();
    let x = encode_utf8(word.drop_last());
    assert(word =~= word.drop_last() + seq![c]);
    utf8::lemma_encode_concat(word.drop_last(), seq![c]);
    assert(prev =~= x + characters::bytes_of(c));
    assert(word[word.len() - 1] == c);
    utf8::lemma_encode_ascii(c);
    super::decoding::lemma_ascii_byte(c);
    utf8::lemma_encode_ascii(' ');
    let y = bytes.subrange(cut + 1, end);
    assert(bytes[cut] == 0x20) by {
        utf8::lemma_cp(bytes, cut);
    }
    assert(after =~= characters::bytes_of(' ') + y);
    law_what_glues(x, c, ' ', y);
    assert(prev.last() == c as u8);
    assert(!level1::glued(prev, after));
}

/// A merge of a word and a spaced word, in small ASCII letters, joins what a unit
/// would keep apart: the threshold of either scheme is at most its merged token.
pub proof fn law_threshold_of_words(
    scheme: PretokenizerType,
    vocab: Seq<Seq<u8>>,
    merges: Seq<Merge>,
    k: int,
    word: Seq<char>,
    next: Seq<char>,
    t: Option<u32>,
)
    requires
        scheme == PretokenizerType::GPT2 || scheme == PretokenizerType::SuperBPEStage1,
        superword::is_threshold(vocab, merges, scheme, t),
        0 <= k < merges.len(),
        merges[k].left < vocab.len(),
        merges[k].right < vocab.len(),
        vocab[merges[k].left as int] == encode_utf8(word),
        vocab[merges[k].right as int] == encode_utf8(seq![' '] + next),
        word.len() > 0,
        next.len() > 0,
        forall|i: int| 0 <= i < word.len() ==> 0x61 <= (#[trigger] word[i]) as u32 <= 0x7A,
        forall|i: int| 0 <= i < next.len() ==> 0x61 <= (#[trigger] next[i]) as u32 <= 0x7A,
        (encode_utf8(word) + encode_utf8(seq![' '] + next)).len() <= usize::MAX,
    ensures
        t matches Some(id) && id <= merges[k].merged,
{
    let left = encode_utf8(word);
    let right = encode_utf8(seq![' '] + next);
    lemma_word_ends(scheme, word, next);
    assert(superword::pad(0) =~= Seq::<u8>::empty());
    assert(superword::probe(left, right, 0, 0) =~= left + right);
    assert((superword::pad(0) + left) =~= left);
    assert(superword::unit_ends_at(
        scheme,
        superword::probe(left, right, 0, 0),
        0,
        (superword::pad(0) + left).len() as int,
    ));
    assert(superword::can_split(scheme, left, right));
    let c = word.last();
    assert(word =~= word.drop_last() + seq![c]);
    utf8::lemma_encode_concat(word.drop_last(), seq![c]);
    characters::law_last_char(encode_utf8(word.drop_last()), c);
    encode_utf8_first_scalar(seq![' '] + next);
    assert(superword::junction(left, right) is Some);
    assert(superword::splittable(vocab, merges[k], scheme));
}

/// A plan keeps to its cap, holds the merges of smaller rank than its bound, and
/// pulls and cuts as it was told.
pub proof fn law_plan_parts(
    vocab: Seq<Seq<u8>>,
    inv: Map<Seq<u8>, u32>,
    merges: &MergeTable,
    l1_fill: L1Fill,
    use_cuts: bool,
    cap: u32,
    built: SuperwordPlan,
    pair: (u32, u32),
)
    requires
        plan::planned(vocab, inv, merges, l1_fill, use_cuts, cap, Some(built)),
    ensures
        built.bound() <= cap,
        built.stage1_table().contains_key(pair) <==> merges@.contains_key(pair) && merges@[pair].1
            < built.bound(),
        built.stage1_table().contains_key(pair) ==> built.stage1_table()[pair] == merges@[pair],
        built.fill() == l1_fill,
        built.cutting() == use_cuts,
        built.scheme() == PretokenizerType::GPT2 || built.scheme()
            == PretokenizerType::SuperBPEStage1,
{
}

} // verus!
