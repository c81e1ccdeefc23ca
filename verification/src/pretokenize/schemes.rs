//! The pretokenization patterns.

use super::pattern;
use super::pattern::{Alt, Alternative, CharSet, Item};
use super::unicode::classes;
use super::unicode::classes::{CharClass, O200kCharClass};
use crate::utf8;
use vstd::prelude::*;

verus! {

/// One character of a set.
pub open spec fn one(set: CharSet) -> Item {
    Item { set, min: 1, max: 1 }
}

/// `?`.
pub open spec fn opt(set: CharSet) -> Item {
    Item { set, min: 0, max: 1 }
}

/// `+`.
pub open spec fn plus(set: CharSet) -> Item {
    Item { set, min: 1, max: pattern::MANY }
}

/// `*`.
pub open spec fn star(set: CharSet) -> Item {
    Item { set, min: 0, max: pattern::MANY }
}

/// `{1,3}`.
pub open spec fn up_to_three(set: CharSet) -> Item {
    Item { set, min: 1, max: 3 }
}

/// `{2,}`.
pub open spec fn two_or_more(set: CharSet) -> Item {
    Item { set, min: 2, max: pattern::MANY }
}

/// The space.
pub open spec fn space() -> CharSet {
    CharSet::Literal(0x20)
}

/// The apostrophe.
pub open spec fn apostrophe() -> CharSet {
    CharSet::Literal(0x27)
}

pub open spec fn alt(items: Seq<Item>) -> Alt {
    Alt { items, lookahead: false }
}

/// An alternative followed by `(?!\S)`.
pub open spec fn alt_before_space(items: Seq<Item>) -> Alt {
    Alt { items, lookahead: true }
}

/// The GPT-2 pattern:
/// `'(?:[sdmt]|ll|ve|re)| ?\p{L}+| ?\p{N}+| ?[^\s\p{L}\p{N}]+|\s+(?!\S)|\s+`,
/// with the contractions written out.
pub open spec fn gpt2_alts() -> Seq<Alt> {
    seq![
        alt(seq![one(apostrophe()), one(CharSet::ContractionSuffix)]),
        alt(seq![one(apostrophe()), one(CharSet::Literal(0x6C)), one(CharSet::Literal(0x6C))]),
        alt(seq![one(apostrophe()), one(CharSet::Literal(0x76)), one(CharSet::Literal(0x65))]),
        alt(seq![one(apostrophe()), one(CharSet::Literal(0x72)), one(CharSet::Literal(0x65))]),
        alt(seq![opt(space()), plus(CharSet::Letter)]),
        alt(seq![opt(space()), plus(CharSet::Number)]),
        alt(seq![opt(space()), plus(CharSet::Other)]),
        alt_before_space(seq![plus(CharSet::White)]),
        alt(seq![plus(CharSet::White)]),
    ]
}

/// The SuperBPE stage-1 pattern:
/// `[^\r\n\p{L}\p{N}]?[\p{Lu}\p{Lt}\p{Lm}\p{Lo}\p{M}]*[\p{Ll}\p{Lm}\p{Lo}\p{M}]+`
/// `|[^\r\n\p{L}\p{N}]?[\p{Lu}\p{Lt}\p{Lm}\p{Lo}\p{M}]+[\p{Ll}\p{Lm}\p{Lo}\p{M}]*`
/// `|\p{N}{1,3}| ?[^\s\p{L}\p{N}]+[\r\n/]*|\s*[\r\n]+|\s+(?!\S)|\s+`.
pub open spec fn stage1_alts() -> Seq<Alt> {
    seq![
        alt(
            seq![
                opt(CharSet::NoNewlineLetterNumber),
                star(CharSet::UpperRun),
                plus(CharSet::LowerRun),
            ],
        ),
        alt(
            seq![
                opt(CharSet::NoNewlineLetterNumber),
                plus(CharSet::UpperRun),
                star(CharSet::LowerRun),
            ],
        ),
        alt(seq![up_to_three(CharSet::Number)]),
        alt(seq![opt(space()), plus(CharSet::Other), star(CharSet::NewlineOrSlash)]),
        alt(seq![star(CharSet::White), plus(CharSet::Newline)]),
        alt_before_space(seq![plus(CharSet::White)]),
        alt(seq![plus(CharSet::White)]),
    ]
}

/// The bounded superword pattern:
/// `\p{N}{1,3}| ?[^\s\p{L}\p{N}]{2,}[\r\n/]*| +(?!\S)`.
pub open spec fn bounded_alts() -> Seq<Alt> {
    seq![
        alt(seq![up_to_three(CharSet::Number)]),
        alt(seq![opt(space()), two_or_more(CharSet::Other), star(CharSet::NewlineOrSlash)]),
        alt_before_space(seq![plus(space())]),
    ]
}

fn single(item: Item) -> (alternative: Alternative)
    ensures
        alternative@ == alt(seq![item]),
{
    let items = vec![item];
    assert(items@ =~= seq![item]);
    Alternative { items, lookahead: false }
}

fn double(first: Item, second: Item) -> (alternative: Alternative)
    ensures
        alternative@ == alt(seq![first, second]),
{
    let items = vec![first, second];
    assert(items@ =~= seq![first, second]);
    Alternative { items, lookahead: false }
}

fn triple(first: Item, second: Item, third: Item) -> (alternative: Alternative)
    ensures
        alternative@ == alt(seq![first, second, third]),
{
    let items = vec![first, second, third];
    assert(items@ =~= seq![first, second, third]);
    Alternative { items, lookahead: false }
}

fn single_before_space(item: Item) -> (alternative: Alternative)
    ensures
        alternative@ == alt_before_space(seq![item]),
{
    let items = vec![item];
    assert(items@ =~= seq![item]);
    Alternative { items, lookahead: true }
}

/// Builds the GPT-2 pattern.
pub fn gpt2_pattern() -> (alternatives: Vec<Alternative>)
    ensures
        pattern::alts(alternatives@) == gpt2_alts(),
{
    let quote = Item { set: CharSet::Literal(0x27), min: 1, max: 1 };
    let l = Item { set: CharSet::Literal(0x6C), min: 1, max: 1 };
    let v = Item { set: CharSet::Literal(0x76), min: 1, max: 1 };
    let e = Item { set: CharSet::Literal(0x65), min: 1, max: 1 };
    let r = Item { set: CharSet::Literal(0x72), min: 1, max: 1 };
    let suffix = Item { set: CharSet::ContractionSuffix, min: 1, max: 1 };
    let lead = Item { set: CharSet::Literal(0x20), min: 0, max: 1 };
    let letters = Item { set: CharSet::Letter, min: 1, max: pattern::MANY };
    let numbers = Item { set: CharSet::Number, min: 1, max: pattern::MANY };
    let others = Item { set: CharSet::Other, min: 1, max: pattern::MANY };
    let whites = Item { set: CharSet::White, min: 1, max: pattern::MANY };
    let alternatives = vec![
        double(quote, suffix),
        triple(quote, l, l),
        triple(quote, v, e),
        triple(quote, r, e),
        double(lead, letters),
        double(lead, numbers),
        double(lead, others),
        single_before_space(whites),
        single(whites),
    ];
    assert(pattern::alts(alternatives@) =~= gpt2_alts());
    alternatives
}

/// Builds the SuperBPE stage-1 pattern.
pub fn stage1_pattern() -> (alternatives: Vec<Alternative>)
    ensures
        pattern::alts(alternatives@) == stage1_alts(),
{
    let lead = Item { set: CharSet::NoNewlineLetterNumber, min: 0, max: 1 };
    let upper_any = Item { set: CharSet::UpperRun, min: 0, max: pattern::MANY };
    let upper_some = Item { set: CharSet::UpperRun, min: 1, max: pattern::MANY };
    let lower_any = Item { set: CharSet::LowerRun, min: 0, max: pattern::MANY };
    let lower_some = Item { set: CharSet::LowerRun, min: 1, max: pattern::MANY };
    let numbers = Item { set: CharSet::Number, min: 1, max: 3 };
    let space = Item { set: CharSet::Literal(0x20), min: 0, max: 1 };
    let others = Item { set: CharSet::Other, min: 1, max: pattern::MANY };
    let tail = Item { set: CharSet::NewlineOrSlash, min: 0, max: pattern::MANY };
    let white_any = Item { set: CharSet::White, min: 0, max: pattern::MANY };
    let newlines = Item { set: CharSet::Newline, min: 1, max: pattern::MANY };
    let whites = Item { set: CharSet::White, min: 1, max: pattern::MANY };
    let alternatives = vec![
        triple(lead, upper_any, lower_some),
        triple(lead, upper_some, lower_any),
        single(numbers),
        triple(space, others, tail),
        double(white_any, newlines),
        single_before_space(whites),
        single(whites),
    ];
    assert(pattern::alts(alternatives@) =~= stage1_alts());
    alternatives
}

/// None of the three patterns matches the empty text.
pub proof fn lemma_productive()
    ensures
        pattern::productive_pattern(gpt2_alts()),
        pattern::productive_pattern(stage1_alts()),
        pattern::productive_pattern(bounded_alts()),
{
    assert forall|i: int| 0 <= i < gpt2_alts().len() implies pattern::productive(
        #[trigger] gpt2_alts()[i],
    ) by {
        let items = gpt2_alts()[i].items;
        assert(items[0].min >= 1 || items[1].min >= 1);
    }
    assert forall|i: int| 0 <= i < stage1_alts().len() implies pattern::productive(
        #[trigger] stage1_alts()[i],
    ) by {
        let items = stage1_alts()[i].items;
        assert(items[0].min >= 1 || items[1].min >= 1 || items[2].min >= 1);
    }
    assert forall|i: int| 0 <= i < bounded_alts().len() implies pattern::productive(
        #[trigger] bounded_alts()[i],
    ) by {
        let items = bounded_alts()[i].items;
        assert(items[0].min >= 1 || items[1].min >= 1);
    }
}

/// A pattern matches where one of its alternatives does.
pub proof fn lemma_some_alternative(p: Seq<Alt>, i: nat, j: int, bytes: Seq<u8>, pos: int)
    requires
        i <= j < p.len(),
        pattern::match_items(p[j], 0, bytes, pos) is Some,
    ensures
        pattern::first_match_from(p, i, bytes, pos) is Some,
    decreases j - i,
{
    if i < j {
        lemma_some_alternative(p, i + 1, j, bytes, pos);
    }
}

/// Where the rest of an alternative matches after `c` repetitions of item `k`,
/// it matches from item `k` on.
proof fn lemma_items_from(a: Alt, k: nat, c: nat, bytes: Seq<u8>, pos: int)
    requires
        k < a.items.len(),
        a.items[k as int].min <= c <= pattern::run_len(
            a.items[k as int].set,
            bytes,
            pos,
            a.items[k as int].max as nat,
        ),
        pattern::match_items(a, k + 1, bytes, pattern::after(bytes, pos, c)) is Some,
    ensures
        pattern::match_items(a, k, bytes, pos) is Some,
{
    let item = a.items[k as int];
    pattern::lemma_back_off_finds(
        a,
        k,
        bytes,
        pos,
        pattern::run_len(item.set, bytes, pos, item.max as nat),
        c,
    );
}

/// An item that may be repeated once takes one character of its set.
proof fn lemma_one_in_run(set: CharSet, bytes: Seq<u8>, pos: int, max: nat)
    requires
        0 <= pos < bytes.len(),
        pattern::in_set(set, utf8::cp_at(bytes, pos)),
        max >= 1,
    ensures
        pattern::run_len(set, bytes, pos, max) >= 1,
{
}

/// `A+` matches at a member of `A`.
proof fn lemma_plus(set: CharSet, bytes: Seq<u8>, pos: int)
    requires
        0 <= pos < bytes.len(),
        pattern::in_set(set, utf8::cp_at(bytes, pos)),
    ensures
        pattern::match_items(alt(seq![plus(set)]), 0, bytes, pos) is Some,
{
    lemma_one_in_run(set, bytes, pos, pattern::MANY as nat);
    lemma_items_from(alt(seq![plus(set)]), 0, 1, bytes, pos);
}

/// `A?B+` matches at a member of `B`.
proof fn lemma_opt_plus(first: CharSet, set: CharSet, bytes: Seq<u8>, pos: int)
    requires
        0 <= pos < bytes.len(),
        pattern::in_set(set, utf8::cp_at(bytes, pos)),
    ensures
        pattern::match_items(alt(seq![opt(first), plus(set)]), 0, bytes, pos) is Some,
{
    let a = alt(seq![opt(first), plus(set)]);
    lemma_one_in_run(set, bytes, pos, pattern::MANY as nat);
    lemma_items_from(a, 1, 1, bytes, pos);
    lemma_items_from(a, 0, 0, bytes, pos);
}

/// Three items match at a character that the second must take once, when the
/// first and the third may be absent.
proof fn lemma_middle(first: Item, second: Item, third: Item, bytes: Seq<u8>, pos: int)
    requires
        0 <= pos < bytes.len(),
        first.min == 0,
        second.min <= 1 <= second.max,
        third.min == 0,
        pattern::in_set(second.set, utf8::cp_at(bytes, pos)),
    ensures
        pattern::match_items(alt(seq![first, second, third]), 0, bytes, pos) is Some,
{
    let a = alt(seq![first, second, third]);
    lemma_one_in_run(second.set, bytes, pos, second.max as nat);
    lemma_items_from(a, 2, 0, bytes, pattern::after(bytes, pos, 1));
    lemma_items_from(a, 1, 1, bytes, pos);
    lemma_items_from(a, 0, 0, bytes, pos);
}

/// Three items match at a character that the third must take once, when the
/// first and the second may be absent.
proof fn lemma_last(first: Item, second: Item, third: Item, bytes: Seq<u8>, pos: int)
    requires
        0 <= pos < bytes.len(),
        first.min == 0,
        second.min == 0,
        third.min <= 1 <= third.max,
        pattern::in_set(third.set, utf8::cp_at(bytes, pos)),
    ensures
        pattern::match_items(alt(seq![first, second, third]), 0, bytes, pos) is Some,
{
    let a = alt(seq![first, second, third]);
    lemma_one_in_run(third.set, bytes, pos, third.max as nat);
    lemma_items_from(a, 2, 1, bytes, pos);
    lemma_items_from(a, 1, 0, bytes, pos);
    lemma_items_from(a, 0, 0, bytes, pos);
}

/// The GPT-2 pattern matches everywhere: its pieces are its matches, without
/// gaps.
pub proof fn law_gpt2_covers(bytes: Seq<u8>, pos: int)
    requires
        0 <= pos < bytes.len(),
    ensures
        pattern::first_match(gpt2_alts(), bytes, pos) == Some(
            pattern::piece_end(gpt2_alts(), bytes, pos),
        ),
{
    match classes::char_class(utf8::cp_at(bytes, pos)) {
        CharClass::Letter => {
            lemma_opt_plus(space(), CharSet::Letter, bytes, pos);
            lemma_some_alternative(gpt2_alts(), 0, 4, bytes, pos);
        },
        CharClass::Number => {
            lemma_opt_plus(space(), CharSet::Number, bytes, pos);
            lemma_some_alternative(gpt2_alts(), 0, 5, bytes, pos);
        },
        CharClass::Other => {
            lemma_opt_plus(space(), CharSet::Other, bytes, pos);
            lemma_some_alternative(gpt2_alts(), 0, 6, bytes, pos);
        },
        CharClass::Whitespace => {
            lemma_plus(CharSet::White, bytes, pos);
            lemma_some_alternative(gpt2_alts(), 0, 8, bytes, pos);
        },
    }
}

/// The SuperBPE stage-1 pattern matches everywhere: its pieces are its
/// matches, without gaps.
pub proof fn law_stage1_covers(bytes: Seq<u8>, pos: int)
    requires
        0 <= pos < bytes.len(),
    ensures
        pattern::first_match(stage1_alts(), bytes, pos) == Some(
            pattern::piece_end(stage1_alts(), bytes, pos),
        ),
{
    let cp = utf8::cp_at(bytes, pos);
    match classes::o200k_char_class(cp) {
        O200kCharClass::Lower | O200kCharClass::Caseless | O200kCharClass::Mark => {
            lemma_last(
                opt(CharSet::NoNewlineLetterNumber),
                star(CharSet::UpperRun),
                plus(CharSet::LowerRun),
                bytes,
                pos,
            );
            lemma_some_alternative(stage1_alts(), 0, 0, bytes, pos);
        },
        O200kCharClass::Upper => {
            lemma_middle(
                opt(CharSet::NoNewlineLetterNumber),
                plus(CharSet::UpperRun),
                star(CharSet::LowerRun),
                bytes,
                pos,
            );
            lemma_some_alternative(stage1_alts(), 0, 1, bytes, pos);
        },
        O200kCharClass::Number => {
            assert(pattern::in_set(CharSet::Number, cp));
            lemma_one_in_run(CharSet::Number, bytes, pos, 3);
            lemma_items_from(alt(seq![up_to_three(CharSet::Number)]), 0, 1, bytes, pos);
            lemma_some_alternative(stage1_alts(), 0, 2, bytes, pos);
        },
        O200kCharClass::Other => {
            assert(pattern::in_set(CharSet::Other, cp));
            lemma_middle(
                opt(space()),
                plus(CharSet::Other),
                star(CharSet::NewlineOrSlash),
                bytes,
                pos,
            );
            lemma_some_alternative(stage1_alts(), 0, 3, bytes, pos);
        },
        O200kCharClass::Whitespace => {
            lemma_plus(CharSet::White, bytes, pos);
            lemma_some_alternative(stage1_alts(), 0, 6, bytes, pos);
        },
    }
}

} // verus!
