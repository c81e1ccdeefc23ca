//! The pretokens of the first stage of SuperBPE: words by their case, numbers
//! three digits at a time, other characters with the line ends behind them, and
//! white space up to its last line end.

use super::characters;
use super::kinds;
use super::runs;
use crate::pretokenize::fast::dispatch;
use crate::pretokenize::options::PretokenizerType;
use crate::pretokenize::pattern;
use crate::pretokenize::pattern::{Alt, CharSet};
use crate::pretokenize::schemes;
use crate::utf8;
use vstd::prelude::*;
use vstd::utf8::*;

verus! {

/// The step of the walk at `pos`.
pub open spec fn step(bytes: Seq<u8>, pos: int) -> Option<(int, int)> {
    dispatch::type_step(PretokenizerType::SuperBPEStage1, bytes)(pos)
}

/// What can stand before or between small letters: capitals, letters without case
/// and marks.
pub open spec fn in_head(cp: u32) -> bool {
    kinds::is_upper(cp) || kinds::is_caseless(cp) || kinds::is_mark(cp)
}

/// What ends a word: small letters, letters without case and marks.
pub open spec fn in_body(cp: u32) -> bool {
    kinds::is_lower(cp) || kinds::is_caseless(cp) || kinds::is_mark(cp)
}

/// What may stand before a word: anything but a letter, a number or a line end.
pub open spec fn leads(cp: u32) -> bool {
    !kinds::is_letter(cp) && !kinds::is_number(cp) && cp != 0x0D && cp != 0x0A
}

pub open spec fn newline(cp: u32) -> bool {
    cp == 0x0D || cp == 0x0A
}

/// Whether all characters of a text are such that `f` holds.
pub open spec fn all(chars: Seq<char>, f: spec_fn(u32) -> bool) -> bool {
    forall|i: int| 0 <= i < chars.len() ==> f((#[trigger] chars[i]) as u32)
}

/// One character, or none.
pub open spec fn maybe(lead: Option<char>) -> Seq<char> {
    match lead {
        Some(c) => seq![c],
        None => Seq::empty(),
    }
}

/// Backing off goes to the longest repetition that lets the rest match.
proof fn lemma_back_off_to(a: Alt, k: nat, bytes: Seq<u8>, pos: int, n: nat, c: nat)
    requires
        k < a.items.len(),
        a.items[k as int].min <= c <= n,
        forall|d: nat|
            c < d <= n ==> pattern::match_items(a, k + 1, bytes, #[trigger] pattern::after(bytes, pos, d))
                is None,
        pattern::match_items(a, k + 1, bytes, pattern::after(bytes, pos, c)) is Some,
    ensures
        pattern::back_off(a, k, bytes, pos, n) == pattern::match_items(
            a,
            k + 1,
            bytes,
            pattern::after(bytes, pos, c),
        ),
    decreases n,
{
    if n > c {
        assert(pattern::match_items(a, k + 1, bytes, pattern::after(bytes, pos, n)) is None);
        lemma_back_off_to(a, k, bytes, pos, (n - 1) as nat, c);
    }
}

/// Where no repetition lets the rest match, nothing does.
proof fn lemma_back_off_none(a: Alt, k: nat, bytes: Seq<u8>, pos: int, n: nat)
    requires
        k < a.items.len(),
        forall|d: nat|
            d <= n ==> pattern::match_items(a, k + 1, bytes, #[trigger] pattern::after(bytes, pos, d))
                is None,
    ensures
        pattern::back_off(a, k, bytes, pos, n) is None,
    decreases n,
{
    assert(pattern::match_items(a, k + 1, bytes, pattern::after(bytes, pos, n)) is None);
    if n > 0 {
        lemma_back_off_none(a, k, bytes, pos, (n - 1) as nat);
    }
}

/// Where the `d`th of a run of characters stands, and what is read there.
proof fn lemma_within(
    set: CharSet,
    bytes: Seq<u8>,
    pos: int,
    chars: Seq<char>,
    after: Seq<u8>,
    d: nat,
)
    requires
        runs::stands(bytes, pos, chars, after),
        d <= chars.len() <= pattern::MANY,
        forall|i: int| 0 <= i < chars.len() ==> pattern::in_set(set, (#[trigger] chars[i]) as u32),
    ensures
        ({
            let at = pattern::after(bytes, pos, d);
            &&& at == pos + encode_utf8(chars.take(d as int)).len()
            &&& runs::stands(bytes, at, chars.skip(d as int), after)
            &&& d < chars.len() ==> at < bytes.len() && utf8::cp_at(bytes, at) == chars[d as int] as u32
            &&& d == chars.len() ==> utf8::cp_at(bytes, at) == runs::first(after) && (at
                == bytes.len() <==> after.len() == 0)
        }),
{
    let a = chars.take(d as int);
    let b = chars.skip(d as int);
    assert(chars =~= a + b);
    runs::lemma_parts(bytes, pos, a, b, after);
    assert forall|i: int| 0 <= i < a.len() implies pattern::in_set(set, (#[trigger] a[i]) as u32) by {
        assert(chars[i] == a[i]);
    }
    runs::lemma_run(set, bytes, pos, a, encode_utf8(b) + after, pattern::MANY as nat);
    let at = pattern::after(bytes, pos, d);
    if d < chars.len() {
        runs::lemma_first(bytes, at, b, after);
    } else {
        assert(b =~= Seq::<char>::empty());
        runs::lemma_behind(bytes, at, after);
    }
}

/// What stands in a text is no longer than it.
pub proof fn lemma_fits(bytes: Seq<u8>, pos: int, chars: Seq<char>, after: Seq<u8>)
    requires
        runs::stands(bytes, pos, chars, after),
        bytes.len() <= pattern::MANY,
    ensures
        chars.len() <= pattern::MANY,
        pos + encode_utf8(chars).len() <= bytes.len(),
{
    runs::lemma_len(chars);
    assert(encode_utf8(chars).len() <= bytes.skip(pos).len());
}

/// A `plus` at the end of an alternative, at a character outside its set.
pub proof fn lemma_none_here(a: Alt, k: nat, bytes: Seq<u8>, pos: int)
    requires
        k < a.items.len(),
        a.items[k as int].min >= 1,
        0 <= pos <= bytes.len(),
        pos == bytes.len() || !pattern::in_set(a.items[k as int].set, utf8::cp_at(bytes, pos)),
    ensures
        pattern::match_items(a, k, bytes, pos) is None,
{
    runs::lemma_too_few(a, k, bytes, pos);
}

/// Capitals and small letters, from the character behind the optional first one
/// on.
proof fn lemma_lower_word(bytes: Seq<u8>, pos: int, m: Seq<char>, l: Seq<char>, after: Seq<u8>)
    requires
        runs::stands(bytes, pos, m + l, after),
        bytes.len() <= pattern::MANY,
        all(m, |cp: u32| in_head(cp)),
        all(l, |cp: u32| in_body(cp)),
        l.len() > 0,
        !in_head(l[0] as u32),
        after.len() == 0 || !in_body(runs::first(after)),
    ensures
        pattern::match_items(schemes::stage1_alts()[0], 1, bytes, pos) == Some(
            pos + encode_utf8(m + l).len(),
        ),
{
    let a = schemes::stage1_alts()[0];
    let many = pattern::MANY as nat;
    lemma_fits(bytes, pos, m + l, after);
    runs::lemma_parts(bytes, pos, m, l, after);
    assert forall|i: int| 0 <= i < m.len() implies pattern::in_set(
        CharSet::UpperRun,
        (#[trigger] m[i]) as u32,
    ) by {
        kinds::law_sets(m[i] as u32);
    }
    assert forall|i: int| 0 <= i < l.len() implies pattern::in_set(
        CharSet::LowerRun,
        (#[trigger] l[i]) as u32,
    ) by {
        kinds::law_sets(l[i] as u32);
    }
    kinds::law_sets(l[0] as u32);
    kinds::law_sets(runs::first(after));
    runs::lemma_run(CharSet::UpperRun, bytes, pos, m, encode_utf8(l) + after, many);
    let mid = pos + encode_utf8(m).len();
    runs::lemma_run(CharSet::LowerRun, bytes, mid, l, after, many);
    runs::lemma_last_item(a, 2, bytes, mid);
    runs::lemma_takes_all(a, 1, bytes, pos, m.len());
}

/// Letters that end with one without case, or with a mark, and capitals behind
/// them that no small letter follows.
proof fn lemma_caseless_word(bytes: Seq<u8>, pos: int, m: Seq<char>, u: Seq<char>, after: Seq<u8>)
    requires
        runs::stands(bytes, pos, m + u, after),
        bytes.len() <= pattern::MANY,
        m.len() > 0,
        all(m, |cp: u32| in_head(cp)),
        in_body(m.last() as u32),
        all(u, |cp: u32| kinds::is_upper(cp)),
        after.len() == 0 || (!in_head(runs::first(after)) && !in_body(runs::first(after))),
    ensures
        pattern::match_items(schemes::stage1_alts()[0], 1, bytes, pos) == Some(
            pos + encode_utf8(m).len(),
        ),
{
    let a = schemes::stage1_alts()[0];
    let many = pattern::MANY as nat;
    let chars = m + u;
    let n = chars.len();
    lemma_fits(bytes, pos, chars, after);
    kinds::law_sets(runs::first(after));
    assert forall|i: int| 0 <= i < chars.len() implies pattern::in_set(
        CharSet::UpperRun,
        (#[trigger] chars[i]) as u32,
    ) by {
        kinds::law_sets(chars[i] as u32);
        if i < m.len() {
            assert(chars[i] == m[i]);
        } else {
            assert(chars[i] == u[i - m.len()]);
        }
    }
    runs::lemma_run(CharSet::UpperRun, bytes, pos, chars, after, many);
    assert forall|d: nat| m.len() - 1 < d <= n implies pattern::match_items(
        a,
        2,
        bytes,
        #[trigger] pattern::after(bytes, pos, d),
    ) is None by {
        lemma_within(CharSet::UpperRun, bytes, pos, chars, after, d);
        if d < n {
            assert(chars[d as int] == u[d - m.len()]);
            kinds::law_sets(chars[d as int] as u32);
        }
        lemma_none_here(a, 2, bytes, pattern::after(bytes, pos, d));
    }
    let c = (m.len() - 1) as nat;
    lemma_within(CharSet::UpperRun, bytes, pos, chars, after, c);
    lemma_within(CharSet::UpperRun, bytes, pos, chars, after, m.len());
    assert(chars.take(m.len() as int) =~= m);
    let at = pattern::after(bytes, pos, c);
    assert(chars[c as int] == m.last());
    kinds::law_sets(m.last() as u32);
    let one = seq![m.last()];
    let rest = encode_utf8(u) + after;
    assert(chars.skip(c as int) =~= one + u);
    runs::lemma_parts(bytes, at, one, u, after);
    if u.len() > 0 {
        kinds::law_sets(u[0] as u32);
    }
    runs::lemma_run(CharSet::LowerRun, bytes, at, one, rest, many);
    assert(chars.take(m.len() as int) =~= chars.take(c as int) + one);
    utf8::lemma_encode_concat(chars.take(c as int), one);
    runs::lemma_last_item(a, 2, bytes, at);
    lemma_back_off_to(a, 1, bytes, pos, n, c);
}

/// Capitals that no letter follows are no word of the first form.
proof fn lemma_no_lower_word(bytes: Seq<u8>, pos: int, u: Seq<char>, after: Seq<u8>)
    requires
        runs::stands(bytes, pos, u, after),
        bytes.len() <= pattern::MANY,
        all(u, |cp: u32| kinds::is_upper(cp)),
        after.len() == 0 || (!in_head(runs::first(after)) && !in_body(runs::first(after))),
    ensures
        pattern::match_items(schemes::stage1_alts()[0], 1, bytes, pos) is None,
{
    let a = schemes::stage1_alts()[0];
    let many = pattern::MANY as nat;
    let n = u.len();
    lemma_fits(bytes, pos, u, after);
    kinds::law_sets(runs::first(after));
    assert forall|i: int| 0 <= i < u.len() implies pattern::in_set(
        CharSet::UpperRun,
        (#[trigger] u[i]) as u32,
    ) by {
        kinds::law_sets(u[i] as u32);
    }
    runs::lemma_run(CharSet::UpperRun, bytes, pos, u, after, many);
    assert forall|d: nat| d <= n implies pattern::match_items(
        a,
        2,
        bytes,
        #[trigger] pattern::after(bytes, pos, d),
    ) is None by {
        lemma_within(CharSet::UpperRun, bytes, pos, u, after, d);
        if d < n {
            kinds::law_sets(u[d as int] as u32);
        }
        lemma_none_here(a, 2, bytes, pattern::after(bytes, pos, d));
    }
    lemma_back_off_none(a, 1, bytes, pos, n);
}

/// Capitals that no letter follows are a word of the second form.
proof fn lemma_upper_word(bytes: Seq<u8>, pos: int, u: Seq<char>, after: Seq<u8>)
    requires
        runs::stands(bytes, pos, u, after),
        bytes.len() <= pattern::MANY,
        u.len() > 0,
        all(u, |cp: u32| kinds::is_upper(cp)),
        after.len() == 0 || (!in_head(runs::first(after)) && !in_body(runs::first(after))),
    ensures
        pattern::match_items(schemes::stage1_alts()[1], 1, bytes, pos) == Some(
            pos + encode_utf8(u).len(),
        ),
{
    let a = schemes::stage1_alts()[1];
    let many = pattern::MANY as nat;
    lemma_fits(bytes, pos, u, after);
    kinds::law_sets(runs::first(after));
    assert forall|i: int| 0 <= i < u.len() implies pattern::in_set(
        CharSet::UpperRun,
        (#[trigger] u[i]) as u32,
    ) by {
        kinds::law_sets(u[i] as u32);
    }
    runs::lemma_run(CharSet::UpperRun, bytes, pos, u, after, many);
    let end = pos + encode_utf8(u).len();
    runs::lemma_behind(bytes, end, after);
    assert(pattern::run_len(CharSet::LowerRun, bytes, end, many) == 0);
    runs::lemma_last_item(a, 2, bytes, end);
    runs::lemma_takes_all(a, 1, bytes, pos, u.len());
}

/// An optional first character, where the rest matches behind it or where there
/// is none.
proof fn lemma_lead(a: Alt, bytes: Seq<u8>, pos: int, lead: Option<char>, rest: Seq<char>, after: Seq<u8>)
    requires
        a.items.len() == 3,
        a.items[0] == schemes::opt(CharSet::NoNewlineLetterNumber),
        runs::stands(bytes, pos, maybe(lead) + rest, after),
        rest.len() > 0,
        match lead {
            Some(c) => leads(c as u32),
            None => kinds::is_letter(rest[0] as u32),
        },
    ensures
        runs::stands(bytes, pos + encode_utf8(maybe(lead)).len(), rest, after),
        ({
            let start = pos + encode_utf8(maybe(lead)).len();
            let there = pattern::match_items(a, 1, bytes, start);
            pattern::match_items(a, 0, bytes, pos) == (if there is Some {
                there
            } else {
                pattern::match_items(a, 1, bytes, pos)
            })
        }),
{
    let set = CharSet::NoNewlineLetterNumber;
    runs::lemma_parts(bytes, pos, maybe(lead), rest, after);
    runs::lemma_first(bytes, pos, maybe(lead) + rest, after);
    reveal_with_fuel(pattern::run_len, 2);
    reveal_with_fuel(pattern::after, 2);
    let n = pattern::run_len(set, bytes, pos, 1);
    assert(pattern::match_items(a, 0, bytes, pos) == pattern::back_off(a, 0, bytes, pos, n));
    assert(pattern::back_off(a, 0, bytes, pos, 0) == pattern::match_items(a, 1, bytes, pos));
    match lead {
        Some(c) => {
            kinds::law_sets(c as u32);
            assert((maybe(lead) + rest)[0] == c);
            assert(n == 1);
            assert(pattern::after(bytes, pos, 1) == pos + encode_utf8(maybe(lead)).len());
        },
        None => {
            assert(maybe(lead) + rest =~= rest);
            kinds::law_sets(rest[0] as u32);
            assert(n == 0);
            assert(encode_utf8(maybe(lead)) =~= Seq::<u8>::empty());
        },
    }
}

/// Capitals and then small letters are one word, as far as nothing that continues
/// it follows, together with one character before it that is no letter, no number
/// and no line end.
pub proof fn law_capitals_then_small(
    bytes: Seq<u8>,
    pos: int,
    lead: Option<char>,
    m: Seq<char>,
    l: Seq<char>,
    after: Seq<u8>,
)
    requires
        runs::stands(bytes, pos, maybe(lead) + (m + l), after),
        bytes.len() <= usize::MAX,
        lead matches Some(c) ==> leads(c as u32),
        lead is None ==> kinds::is_letter((m + l)[0] as u32),
        all(m, |cp: u32| in_head(cp)),
        all(l, |cp: u32| in_body(cp)),
        l.len() > 0,
        kinds::is_lower(l[0] as u32),
        after.len() == 0 || !in_body(runs::first(after)),
    ensures
        step(bytes, pos) == Some((pos, pos + encode_utf8(maybe(lead) + (m + l)).len())),
{
    let p = schemes::stage1_alts();
    lemma_lead(p[0], bytes, pos, lead, m + l, after);
    runs::lemma_parts(bytes, pos, maybe(lead), m + l, after);
    lemma_lower_word(bytes, pos + encode_utf8(maybe(lead)).len(), m, l, after);
    runs::lemma_first_match(p, 0, 0, bytes, pos);
    runs::lemma_first(bytes, pos, maybe(lead) + (m + l), after);
    dispatch::law_tiles(PretokenizerType::SuperBPEStage1, bytes, pos);
}

/// Letters up to a last one without case or a mark are one word where only
/// capitals, and then no letter, follow.
pub proof fn law_caseless_letters(
    bytes: Seq<u8>,
    pos: int,
    lead: Option<char>,
    m: Seq<char>,
    u: Seq<char>,
    after: Seq<u8>,
)
    requires
        runs::stands(bytes, pos, maybe(lead) + (m + u), after),
        bytes.len() <= usize::MAX,
        lead matches Some(c) ==> leads(c as u32),
        lead is None ==> kinds::is_letter(m[0] as u32),
        m.len() > 0,
        all(m, |cp: u32| in_head(cp)),
        in_body(m.last() as u32),
        all(u, |cp: u32| kinds::is_upper(cp)),
        after.len() == 0 || (!in_head(runs::first(after)) && !in_body(runs::first(after))),
    ensures
        step(bytes, pos) == Some((pos, pos + encode_utf8(maybe(lead) + m).len())),
{
    let p = schemes::stage1_alts();
    assert((m + u)[0] == m[0]);
    lemma_lead(p[0], bytes, pos, lead, m + u, after);
    utf8::lemma_encode_concat(maybe(lead), m);
    lemma_caseless_word(bytes, pos + encode_utf8(maybe(lead)).len(), m, u, after);
    runs::lemma_first_match(p, 0, 0, bytes, pos);
    runs::lemma_first(bytes, pos, maybe(lead) + (m + u), after);
    dispatch::law_tiles(PretokenizerType::SuperBPEStage1, bytes, pos);
}

/// Capitals that no letter follows are one word.
pub proof fn law_capitals(
    bytes: Seq<u8>,
    pos: int,
    lead: Option<char>,
    u: Seq<char>,
    after: Seq<u8>,
)
    requires
        runs::stands(bytes, pos, maybe(lead) + u, after),
        bytes.len() <= usize::MAX,
        lead matches Some(c) ==> leads(c as u32) && !kinds::is_mark(c as u32),
        u.len() > 0,
        all(u, |cp: u32| kinds::is_upper(cp)),
        after.len() == 0 || (!in_head(runs::first(after)) && !in_body(runs::first(after))),
    ensures
        step(bytes, pos) == Some((pos, pos + encode_utf8(maybe(lead) + u).len())),
{
    let p = schemes::stage1_alts();
    let start = pos + encode_utf8(maybe(lead)).len();
    let first = u[0];
    assert(kinds::is_upper(first as u32));
    lemma_lead(p[0], bytes, pos, lead, u, after);
    lemma_lead(p[1], bytes, pos, lead, u, after);
    runs::lemma_parts(bytes, pos, maybe(lead), u, after);
    runs::lemma_first(bytes, pos, maybe(lead) + u, after);
    lemma_no_lower_word(bytes, start, u, after);
    lemma_upper_word(bytes, start, u, after);
    match lead {
        Some(c) => {
            assert((maybe(lead) + u)[0] == c);
            lemma_no_word_here(bytes, pos);
        },
        None => {
            assert(encode_utf8(maybe(lead)) =~= Seq::<u8>::empty());
        },
    }
    runs::lemma_first_match(p, 0, 1, bytes, pos);
    dispatch::law_tiles(PretokenizerType::SuperBPEStage1, bytes, pos);
}

/// No word starts, without a first character, at what is neither letter nor mark.
proof fn lemma_no_word_here(bytes: Seq<u8>, pos: int)
    requires
        0 <= pos <= bytes.len(),
        pos < bytes.len() ==> !in_head(utf8::cp_at(bytes, pos)) && !in_body(utf8::cp_at(bytes, pos)),
    ensures
        pattern::match_items(schemes::stage1_alts()[0], 1, bytes, pos) is None,
        pattern::match_items(schemes::stage1_alts()[1], 1, bytes, pos) is None,
{
    let a = schemes::stage1_alts()[0];
    let many = pattern::MANY as nat;
    kinds::law_sets(utf8::cp_at(bytes, pos));
    assert(pattern::run_len(CharSet::UpperRun, bytes, pos, many) == 0);
    assert(pattern::after(bytes, pos, 0) == pos);
    lemma_none_here(a, 2, bytes, pos);
    assert(pattern::match_items(a, 1, bytes, pos) == pattern::back_off(a, 1, bytes, pos, 0));
    assert(pattern::back_off(a, 1, bytes, pos, 0) is None);
    lemma_none_here(schemes::stage1_alts()[1], 1, bytes, pos);
}

/// No word starts at what is neither letter nor mark, where none starts behind it
/// or where it cannot lead one.
proof fn lemma_no_word(bytes: Seq<u8>, pos: int)
    requires
        0 <= pos < bytes.len(),
        !in_head(utf8::cp_at(bytes, pos)) && !in_body(utf8::cp_at(bytes, pos)),
        ({
            let next = utf8::next_pos(bytes, pos);
            ||| !leads(utf8::cp_at(bytes, pos))
            ||| next >= bytes.len()
            ||| !in_head(utf8::cp_at(bytes, next)) && !in_body(utf8::cp_at(bytes, next))
        }),
    ensures
        pattern::match_items(schemes::stage1_alts()[0], 0, bytes, pos) is None,
        pattern::match_items(schemes::stage1_alts()[1], 0, bytes, pos) is None,
{
    let p = schemes::stage1_alts();
    let next = utf8::next_pos(bytes, pos);
    utf8::lemma_cp(bytes, pos);
    kinds::law_sets(utf8::cp_at(bytes, pos));
    lemma_no_word_here(bytes, pos);
    if leads(utf8::cp_at(bytes, pos)) {
        lemma_no_word_here(bytes, next);
    }
    let n = pattern::run_len(CharSet::NoNewlineLetterNumber, bytes, pos, 1);
    reveal_with_fuel(pattern::run_len, 2);
    reveal_with_fuel(pattern::after, 2);
    assert forall|k: int| 0 <= k < 2 implies pattern::match_items(#[trigger] p[k], 0, bytes, pos)
        is None by {
        assert(p[k].items[0] == schemes::opt(CharSet::NoNewlineLetterNumber));
        assert(pattern::match_items(p[k], 0, bytes, pos) == pattern::back_off(
            p[k],
            0,
            bytes,
            pos,
            n,
        ));
        assert(pattern::back_off(p[k], 0, bytes, pos, 0) is None);
    }
    assert(pattern::match_items(p[0], 0, bytes, pos) is None);
    assert(pattern::match_items(p[1], 0, bytes, pos) is None);
}

/// Numbers go three characters at a time, and fewer only where no number follows.
pub proof fn law_numbers(bytes: Seq<u8>, pos: int, digits: Seq<char>, after: Seq<u8>)
    requires
        runs::stands(bytes, pos, digits, after),
        bytes.len() <= usize::MAX,
        1 <= digits.len() <= 3,
        all(digits, |cp: u32| kinds::is_number(cp)),
        digits.len() == 3 || after.len() == 0 || !kinds::is_number(runs::first(after)),
    ensures
        step(bytes, pos) == Some((pos, pos + encode_utf8(digits).len())),
{
    let p = schemes::stage1_alts();
    runs::lemma_first(bytes, pos, digits, after);
    assert(kinds::is_number(digits[0] as u32));
    lemma_no_word(bytes, pos);
    assert forall|i: int| 0 <= i < digits.len() implies pattern::in_set(
        CharSet::Number,
        (#[trigger] digits[i]) as u32,
    ) by {
        kinds::law_sets(digits[i] as u32);
    }
    kinds::law_sets(runs::first(after));
    runs::lemma_run(CharSet::Number, bytes, pos, digits, after, 3);
    runs::lemma_last_item(p[2], 0, bytes, pos);
    runs::lemma_first_match(p, 0, 2, bytes, pos);
    dispatch::law_tiles(PretokenizerType::SuperBPEStage1, bytes, pos);
}

/// Other characters go together, with a space before them and with the line ends
/// and slashes behind them; a single one goes so only where no letter follows,
/// since it would lead that word.
pub proof fn law_other_characters(
    bytes: Seq<u8>,
    pos: int,
    spaced: bool,
    others: Seq<char>,
    tail: Seq<char>,
    after: Seq<u8>,
)
    requires
        runs::stands(
            bytes,
            pos,
            (if spaced {
                seq![' ']
            } else {
                Seq::empty()
            }) + (others + tail),
            after,
        ),
        bytes.len() <= usize::MAX,
        others.len() > 0,
        all(others, |cp: u32| kinds::is_other(cp) && !kinds::is_mark(cp)),
        all(tail, |cp: u32| newline(cp) || cp == 0x2F),
        tail.len() > 0 ==> newline(tail[0] as u32),
        after.len() == 0 || (!newline(runs::first(after)) && runs::first(after) != 0x2F),
        tail.len() == 0 ==> after.len() == 0 || !kinds::is_other(runs::first(after)),
        !spaced && others.len() == 1 && tail.len() == 0 ==> after.len() == 0 || !kinds::is_letter(
            runs::first(after),
        ),
    ensures
        step(bytes, pos) == Some(
            (
                pos,
                pos + (if spaced {
                    1int
                } else {
                    0int
                }) + encode_utf8(others + tail).len(),
            ),
        ),
{
    let p = schemes::stage1_alts();
    let many = pattern::MANY as nat;
    let lead = if spaced {
        seq![' ']
    } else {
        Seq::empty()
    };
    let both = others + tail;
    runs::lemma_parts(bytes, pos, lead, both, after);
    runs::lemma_first(bytes, pos, lead + both, after);
    let start = pos + encode_utf8(lead).len();
    runs::lemma_first(bytes, start, both, after);
    runs::lemma_parts(bytes, start, others, tail, after);
    lemma_fits(bytes, start, both, after);
    assert(both[0] == others[0]);
    assert(kinds::is_other(others[0] as u32) && !kinds::is_mark(others[0] as u32));
    kinds::law_sets(others[0] as u32);
    kinds::law_sets(runs::first(after));
    let next = utf8::next_pos(bytes, pos);
    if spaced {
        utf8::lemma_encode_ascii(' ');
        assert((lead + both)[0] == ' ');
        assert(next == start);
    } else {
        assert(encode_utf8(lead) =~= Seq::<u8>::empty());
        assert(lead + both =~= both);
        let rest = both.drop_first();
        if rest.len() > 0 {
            runs::lemma_first(bytes, next, rest, after);
            if others.len() > 1 {
                assert(rest[0] == others[1]);
            } else {
                assert(rest[0] == tail[0]);
            }
        } else {
            assert(rest =~= Seq::<char>::empty());
            runs::lemma_behind(bytes, next, after);
        }
    }
    kinds::law_sets(utf8::cp_at(bytes, pos));
    lemma_no_word(bytes, pos);
    lemma_none_here(p[2], 0, bytes, pos);
    assert forall|i: int| 0 <= i < others.len() implies pattern::in_set(
        CharSet::Other,
        (#[trigger] others[i]) as u32,
    ) by {
        kinds::law_sets(others[i] as u32);
    }
    assert forall|i: int| 0 <= i < tail.len() implies pattern::in_set(
        CharSet::NewlineOrSlash,
        (#[trigger] tail[i]) as u32,
    ) by {
        kinds::law_sets(tail[i] as u32);
    }
    if tail.len() > 0 {
        kinds::law_sets(tail[0] as u32);
    }
    runs::lemma_run(CharSet::Other, bytes, start, others, encode_utf8(tail) + after, many);
    let mid = start + encode_utf8(others).len();
    runs::lemma_run(CharSet::NewlineOrSlash, bytes, mid, tail, after, many);
    runs::lemma_last_item(p[3], 2, bytes, mid);
    runs::lemma_takes_all(p[3], 1, bytes, start, others.len());
    reveal_with_fuel(pattern::run_len, 2);
    reveal_with_fuel(pattern::after, 2);
    let n = pattern::run_len(schemes::space(), bytes, pos, 1);
    assert(p[3].items[0] == schemes::opt(schemes::space()));
    assert(n == if spaced {
        1nat
    } else {
        0nat
    });
    runs::lemma_takes_all(p[3], 0, bytes, pos, n);
    runs::lemma_first_match(p, 0, 3, bytes, pos);
    dispatch::law_tiles(PretokenizerType::SuperBPEStage1, bytes, pos);
}

/// What the alternatives before white space make of white space: nothing, unless a
/// single character leads what follows.
proof fn lemma_only_white(bytes: Seq<u8>, pos: int)
    requires
        0 <= pos < bytes.len(),
        characters::white(utf8::cp_at(bytes, pos)),
        ({
            let next = utf8::next_pos(bytes, pos);
            let cp = utf8::cp_at(bytes, next);
            ||| next >= bytes.len()
            ||| characters::white(cp) || kinds::is_number(cp)
            ||| newline(utf8::cp_at(bytes, pos))
            ||| utf8::cp_at(bytes, pos) != 0x20 && !in_head(cp) && !in_body(cp)
        }),
    ensures
        forall|k: int|
            0 <= k < 4 ==> pattern::match_items(
                #[trigger] schemes::stage1_alts()[k],
                0,
                bytes,
                pos,
            ) is None,
{
    let p = schemes::stage1_alts();
    let many = pattern::MANY as nat;
    let next = utf8::next_pos(bytes, pos);
    utf8::lemma_cp(bytes, pos);
    kinds::law_sets(utf8::cp_at(bytes, pos));
    kinds::law_sets(utf8::cp_at(bytes, next));
    lemma_no_word(bytes, pos);
    lemma_none_here(p[2], 0, bytes, pos);
    lemma_none_here(p[3], 1, bytes, pos);
    reveal_with_fuel(pattern::run_len, 2);
    reveal_with_fuel(pattern::after, 2);
    let n = pattern::run_len(schemes::space(), bytes, pos, 1);
    if n == 1 {
        lemma_none_here(p[3], 1, bytes, next);
    }
    assert(p[3].items[0] == schemes::opt(schemes::space()));
    assert(pattern::match_items(p[3], 0, bytes, pos) == pattern::back_off(p[3], 0, bytes, pos, n));
    assert(pattern::back_off(p[3], 0, bytes, pos, 0) is None);
    assert forall|k: int| 0 <= k < 4 implies pattern::match_items(#[trigger] p[k], 0, bytes, pos)
        is None by {
        assert(k == 0 || k == 1 || k == 2 || k == 3);
    }
}

/// White space goes together up to its last line end.
pub proof fn law_line_ends(
    bytes: Seq<u8>,
    pos: int,
    spaces: Seq<char>,
    end: char,
    rest: Seq<char>,
    after: Seq<u8>,
)
    requires
        runs::stands(bytes, pos, spaces + seq![end] + rest, after),
        bytes.len() <= usize::MAX,
        all(spaces, |cp: u32| characters::white(cp)),
        newline(end as u32),
        all(rest, |cp: u32| characters::white(cp) && !newline(cp)),
        after.len() == 0 || !characters::white(runs::first(after)),
    ensures
        step(bytes, pos) == Some((pos, pos + encode_utf8(spaces + seq![end]).len())),
{
    let p = schemes::stage1_alts();
    let a = p[4];
    let many = pattern::MANY as nat;
    let chars = spaces + seq![end] + rest;
    let n = chars.len();
    lemma_fits(bytes, pos, chars, after);
    kinds::law_sets(runs::first(after));
    assert forall|i: int| 0 <= i < chars.len() implies pattern::in_set(
        CharSet::White,
        (#[trigger] chars[i]) as u32,
    ) && characters::white(chars[i] as u32) by {
        kinds::law_sets(chars[i] as u32);
        if i < spaces.len() {
            assert(chars[i] == spaces[i]);
        } else if i > spaces.len() {
            assert(chars[i] == rest[i - spaces.len() - 1]);
        }
    }
    runs::lemma_first(bytes, pos, chars, after);
    assert(characters::white(chars[0] as u32));
    let more = chars.drop_first();
    let next = utf8::next_pos(bytes, pos);
    if more.len() > 0 {
        runs::lemma_first(bytes, next, more, after);
        assert(chars[1] == more[0]);
        assert(characters::white(chars[1] as u32));
    } else {
        assert(chars[0] == end);
    }
    lemma_only_white(bytes, pos);
    runs::lemma_run(CharSet::White, bytes, pos, chars, after, many);
    let c = spaces.len();
    assert forall|d: nat| c < d <= n implies pattern::match_items(
        a,
        1,
        bytes,
        #[trigger] pattern::after(bytes, pos, d),
    ) is None by {
        lemma_within(CharSet::White, bytes, pos, chars, after, d);
        if d < n {
            assert(chars[d as int] == rest[d - c - 1]);
            kinds::law_sets(chars[d as int] as u32);
        }
        lemma_none_here(a, 1, bytes, pattern::after(bytes, pos, d));
    }
    lemma_within(CharSet::White, bytes, pos, chars, after, c);
    let at = pattern::after(bytes, pos, c);
    assert(chars.take(c as int) =~= spaces);
    assert(chars.skip(c as int) =~= seq![end] + rest);
    kinds::law_sets(end as u32);
    runs::lemma_parts(bytes, at, seq![end], rest, after);
    if rest.len() > 0 {
        kinds::law_sets(rest[0] as u32);
    }
    runs::lemma_run(CharSet::Newline, bytes, at, seq![end], encode_utf8(rest) + after, many);
    runs::lemma_last_item(a, 1, bytes, at);
    utf8::lemma_encode_concat(spaces, seq![end]);
    lemma_back_off_to(a, 0, bytes, pos, n, c);
    runs::lemma_first_match(p, 0, 4, bytes, pos);
    dispatch::law_tiles(PretokenizerType::SuperBPEStage1, bytes, pos);
}

/// White space without a line end goes together up to the end of the text; before
/// anything else all of it goes together but its last character, which may lead
/// what follows. A single one goes by itself before a number, and one other than
/// the space before what is neither letter nor mark.
pub proof fn law_spaces(bytes: Seq<u8>, pos: int, spaces: Seq<char>, after: Seq<u8>)
    requires
        runs::stands(bytes, pos, spaces, after),
        bytes.len() <= usize::MAX,
        spaces.len() > 0,
        all(spaces, |cp: u32| characters::white(cp) && !newline(cp)),
        after.len() == 0 || !characters::white(runs::first(after)),
        spaces.len() == 1 ==> after.len() == 0 || kinds::is_number(runs::first(after)) || (spaces[0]
            as u32 != 0x20 && !in_head(runs::first(after)) && !in_body(runs::first(after))),
    ensures
        step(bytes, pos) == Some(
            (
                pos,
                pos + encode_utf8(
                    if after.len() == 0 || spaces.len() == 1 {
                        spaces
                    } else {
                        spaces.drop_last()
                    },
                ).len(),
            ),
        ),
{
    let p = schemes::stage1_alts();
    let a = p[4];
    let many = pattern::MANY as nat;
    let n = spaces.len();
    lemma_fits(bytes, pos, spaces, after);
    kinds::law_sets(runs::first(after));
    assert forall|i: int| 0 <= i < spaces.len() implies pattern::in_set(
        CharSet::White,
        (#[trigger] spaces[i]) as u32,
    ) && characters::white(spaces[i] as u32) by {
        kinds::law_sets(spaces[i] as u32);
    }
    runs::lemma_first(bytes, pos, spaces, after);
    assert(characters::white(spaces[0] as u32));
    let more = spaces.drop_first();
    let next = utf8::next_pos(bytes, pos);
    if more.len() > 0 {
        runs::lemma_first(bytes, next, more, after);
        assert(spaces[1] == more[0]);
        assert(characters::white(spaces[1] as u32));
    } else {
        assert(more =~= Seq::<char>::empty());
        runs::lemma_behind(bytes, next, after);
    }
    lemma_only_white(bytes, pos);
    runs::lemma_run(CharSet::White, bytes, pos, spaces, after, many);
    assert forall|d: nat| d <= n implies pattern::match_items(
        a,
        1,
        bytes,
        #[trigger] pattern::after(bytes, pos, d),
    ) is None by {
        lemma_within(CharSet::White, bytes, pos, spaces, after, d);
        if d < n {
            kinds::law_sets(spaces[d as int] as u32);
        }
        lemma_none_here(a, 1, bytes, pattern::after(bytes, pos, d));
    }
    lemma_back_off_none(a, 0, bytes, pos, n);
    runs::lemma_white_before(p[5], bytes, pos, spaces, after);
    runs::lemma_last_item(p[6], 0, bytes, pos);
    dispatch::law_tiles(PretokenizerType::SuperBPEStage1, bytes, pos);
    assert forall|k: int| 0 <= k < 5 implies pattern::match_items(#[trigger] p[k], 0, bytes, pos)
        is None by {
        assert(k < 4 || k == 4);
    }
    if after.len() == 0 || n > 1 {
        runs::lemma_first_match(p, 0, 5, bytes, pos);
    } else {
        runs::lemma_first_match(p, 0, 6, bytes, pos);
    }
}

} // verus!
