//! Why a threshold is safe.
//!
//! Below the threshold of a scheme no merge has a junction at which a unit of any
//! text can end. For the GPT-2 scheme the contexts show it wherever the characters
//! at the junction are whole: where a unit ends between two tokens in any text at
//! all, one ends between them after an exclamation mark. For the stage-1 scheme,
//! and where a character is torn, what may meet at a boundary shows it.

use super::byte_remapping;
use super::cuts;
use super::merge;
use super::merge::{Merge, MergeTable, Table};
use super::plan;
use super::plan::{L1Fill, SuperwordPlan};
use super::superword;
use super::tiktoken::{Model, Tokenizer};
use super::two_levels;
use crate::pretokenize::fast::dispatch;
use crate::pretokenize::fast::level1;
use crate::pretokenize::gpt2_pieces;
use crate::pretokenize::options::PretokenizerType;
use crate::pretokenize::pattern;
use crate::pretokenize::pattern::CharSet;
use crate::pretokenize::stage1_pieces;
use crate::pretokenize::unicode::classes;
use crate::pretokenize::unicode::classes::CharClass;
use crate::pretokenize::walker;
use crate::utf8;
use vstd::prelude::*;
use vstd::utf8::*;

verus! {

/// Whether the pretokens from `pos` on come by `at`.
pub open spec fn comes_by(ends: spec_fn(int) -> int, len: int, pos: int, at: int) -> bool
    decreases len - pos,
{
    pos == at || {
        &&& 0 <= pos < ends(pos) <= at <= len
        &&& comes_by(ends, len, ends(pos), at)
    }
}

/// Whether pretokens are nonempty and within the text.
spec fn tiles(ends: spec_fn(int) -> int, len: int) -> bool {
    forall|pos: int| 0 <= pos < len ==> pos < #[trigger] ends(pos) <= len
}

/// The pretoken that reaches `at` from before it.
proof fn covering(ends: spec_fn(int) -> int, len: int, pos: int, at: int) -> (start: int)
    requires
        tiles(ends, len),
        0 <= pos < at <= len,
    ensures
        comes_by(ends, len, pos, start),
        pos <= start < at <= ends(start) <= len,
    decreases len - pos,
{
    assert(pos < ends(pos) <= len);
    if ends(pos) < at {
        let start = covering(ends, len, ends(pos), at);
        start
    } else {
        pos
    }
}

/// The pretoken that ends at `at`.
proof fn preceding(ends: spec_fn(int) -> int, len: int, pos: int, at: int) -> (start: int)
    requires
        comes_by(ends, len, pos, at),
        0 <= pos < at,
    ensures
        comes_by(ends, len, pos, start),
        pos <= start < at <= len,
        ends(start) == at,
    decreases len - pos,
{
    if ends(pos) < at {
        preceding(ends, len, ends(pos), at)
    } else {
        pos
    }
}

/// Of two places that pretokens come by, the later is past the pretoken at the
/// earlier.
proof fn lemma_order(ends: spec_fn(int) -> int, len: int, pos: int, one: int, other: int)
    requires
        comes_by(ends, len, pos, one),
        comes_by(ends, len, pos, other),
        0 <= pos <= one < other,
    ensures
        one < ends(one) <= other,
    decreases len - pos,
{
    if pos < one {
        lemma_order(ends, len, ends(pos), one, other);
    }
}

/// The pretokens of the GPT-2 scheme.
spec fn gpt2_ends(bytes: Seq<u8>) -> spec_fn(int) -> int {
    level1::type_ends(PretokenizerType::GPT2, bytes)
}

proof fn lemma_gpt2_tiles(bytes: Seq<u8>)
    ensures
        tiles(gpt2_ends(bytes), bytes.len() as int),
{
    assert forall|pos: int| 0 <= pos < bytes.len() implies pos < #[trigger] gpt2_ends(bytes)(pos)
        <= bytes.len() by {
        dispatch::law_tiles(PretokenizerType::GPT2, bytes, pos);
    }
}

/// Pretokens end between code points.
proof fn lemma_gpt2_aligned(bytes: Seq<u8>, pos: int, at: int)
    requires
        comes_by(gpt2_ends(bytes), bytes.len() as int, pos, at),
        0 <= pos <= at <= bytes.len() <= pattern::MANY,
        utf8::aligned(bytes, 0, pos),
    ensures
        utf8::aligned(bytes, 0, at),
    decreases bytes.len() - pos,
{
    if pos < at {
        gpt2_pieces::lemma_piece_boundary(bytes, pos);
        lemma_gpt2_aligned(bytes, gpt2_ends(bytes)(pos), at);
    }
}

/// Whether two texts are alike from `n` bytes before a place to the byte there,
/// which is no continuation byte.
spec fn alike(s: Seq<u8>, p: int, t: Seq<u8>, q: int, n: int) -> bool {
    &&& 0 <= n <= p < s.len()
    &&& n <= q < t.len()
    &&& forall|i: int| 0 <= i <= n ==> #[trigger] s[p - i] == t[q - i]
    &&& !is_continuation_byte(s[p])
}

proof fn lemma_uniform_alike(
    s: Seq<u8>,
    p: int,
    t: Seq<u8>,
    q: int,
    n: int,
    class: CharClass,
)
    requires
        alike(s, p, t, q, n),
        gpt2_pieces::uniform(t, q - n, q, class),
    ensures
        gpt2_pieces::uniform(s, p - n, p, class),
    decreases n,
{
    if n > 0 {
        utf8::lemma_same_cp(s, p, t, q, n);
        utf8::lemma_cp(t, q - n);
        let m = n - utf8::cp_len(t, q - n);
        lemma_uniform_alike(s, p, t, q, m, class);
    }
}

/// A pretoken that starts with an apostrophe ends in one text where it ends in
/// the other.
proof fn lemma_apostrophe_alike(s: Seq<u8>, p: int, t: Seq<u8>, q: int, n: int)
    requires
        s.len() <= pattern::MANY,
        t.len() <= pattern::MANY,
        alike(s, p, t, q, n),
        n >= 1,
        t[q - n] == 0x27,
        s[p - 1] != 0x27,
        utf8::aligned(t, 0, q - n),
        gpt2_ends(t)(q - n) == q,
        classes::char_class(utf8::cp_before(t, q)) != gpt2_pieces::class_at(s, p),
    ensures
        gpt2_ends(s)(p - n) == p,
{
    let other = CharClass::Other;
    gpt2_pieces::law_gpt2_piece(t, q - n);
    gpt2_pieces::law_gpt2_piece(s, p - n);
    utf8::lemma_cp(t, q - n);
    utf8::lemma_cp(s, p - n);
    assert(s[p - n] == t[q - n]);
    assert(s[p - 1] == t[q - 1]);
    assert(n >= 2);
    assert(s[p - (n - 1)] == t[q - (n - 1)]);
    match gpt2_pieces::contraction_end(t, q - n) {
        Some(end) => {
            assert(s[p - (n - 2)] == t[q - (n - 2)]);
        },
        None => {
            assert(gpt2_pieces::full_run(t, q - n, q, other));
            utf8::lemma_cp(t, q - n + 1);
            reveal_with_fuel(gpt2_pieces::uniform, 3);
            assert(gpt2_pieces::class_at(t, q - n + 1) == other);
            assert(gpt2_pieces::contraction_end(s, p - n) is None);
            lemma_uniform_alike(s, p, t, q, n, other);
            gpt2_pieces::lemma_uniform_walk(t, q - n, q, other);
            gpt2_pieces::lemma_run_end(s, p - n, p, gpt2_ends(s)(p - n), other);
        },
    }
}

/// Whether a unit of a scheme ends at `at`, after the pretoken from `start` on.
spec fn closes(scheme: PretokenizerType, bytes: Seq<u8>, start: int, at: int) -> bool {
    let ends = level1::type_ends(scheme, bytes);
    &&& comes_by(ends, bytes.len() as int, 0, start)
    &&& 0 <= start < at < bytes.len() <= pattern::MANY
    &&& ends(start) == at
    &&& !level1::glued(bytes.subrange(start, at), bytes.subrange(at, ends(at)))
}

/// Whether a unit of the GPT-2 scheme ends at `at`, after the pretoken from
/// `start` on.
spec fn unit_closes(bytes: Seq<u8>, start: int, at: int) -> bool {
    closes(PretokenizerType::GPT2, bytes, start, at)
}

/// White space on both sides of a place glues.
proof fn lemma_white_glues(bytes: Seq<u8>, start: int, at: int, end: int)
    requires
        0 <= start < at < end <= bytes.len(),
        classes::char_class(utf8::cp_before(bytes, at)) == CharClass::Whitespace,
        gpt2_pieces::class_at(bytes, at) == CharClass::Whitespace,
    ensures
        level1::glued(bytes.subrange(start, at), bytes.subrange(at, end)),
{
    let prev = bytes.subrange(start, at);
    let next = bytes.subrange(at, end);
    let whole = bytes.take(at);
    assert(whole.subrange(whole.len() - prev.len(), whole.len() as int) =~= prev);
    if utf8::last_char(prev) is Some {
        utf8::lemma_last_char_suffix(prev, whole);
    }
    let rest = utf8::tail(bytes, at);
    assert(rest.subrange(0, next.len() as int) =~= next);
    if utf8::first_char(next) is Some {
        utf8::lemma_first_char_prefix(next, bytes, at);
    }
    assert(level1::ends_white(prev));
    assert(level1::starts_white(next));
}

/// What meets where a unit ends: characters of different classes, the first of
/// them neither a space nor an apostrophe.
proof fn lemma_unit_boundary(bytes: Seq<u8>, start: int, at: int)
    requires
        unit_closes(bytes, start, at),
    ensures
        utf8::aligned(bytes, 0, start),
        utf8::aligned(bytes, 0, at),
        classes::char_class(utf8::cp_before(bytes, at)) != gpt2_pieces::class_at(bytes, at),
        bytes[at - 1] != 0x20,
        bytes[at - 1] != 0x27,
        bytes[start] != 0x27,
        !(0x30 <= bytes[at] <= 0x39),
        bytes[at - 1] < 0x80 || bytes[at] < 0x80,
{
    let prev = bytes.subrange(start, at);
    let end = gpt2_ends(bytes)(at);
    let next = bytes.subrange(at, end);
    lemma_gpt2_aligned(bytes, 0, start);
    gpt2_pieces::lemma_piece_boundary(bytes, start);
    gpt2_pieces::lemma_piece_boundary(bytes, at);
    assert(prev.last() == bytes[at - 1]);
    assert(prev[0] == bytes[start]);
    assert(next[0] == bytes[at]);
    let before = utf8::cp_before(bytes, at);
    if classes::char_class(before) == CharClass::Whitespace && gpt2_pieces::class_at(bytes, at)
        == CharClass::Whitespace {
        lemma_white_glues(bytes, start, at, end);
    }
    if bytes[at - 1] == 0x20 {
        utf8::lemma_cp_before_ascii(bytes, at);
    }
}

/// No pretoken starts with an apostrophe after something other or after a space.
proof fn lemma_no_start(bytes: Seq<u8>, at: int)
    requires
        comes_by(gpt2_ends(bytes), bytes.len() as int, 0, at),
        0 < at < bytes.len() <= pattern::MANY,
        bytes[at] == 0x27,
    ensures
        classes::char_class(utf8::cp_before(bytes, at)) != CharClass::Other,
        bytes[at - 1] != 0x20,
{
    let start = preceding(gpt2_ends(bytes), bytes.len() as int, 0, at);
    lemma_gpt2_aligned(bytes, 0, start);
    gpt2_pieces::lemma_piece_boundary(bytes, start);
    utf8::lemma_cp(bytes, at);
}

/// The character before an apostrophe, in a text and in a context of its own.
proof fn lemma_before_alike(s: Seq<u8>, at: int, t: Seq<u8>, to: int)
    requires
        1 <= to < t.len(),
        to - 1 <= at < s.len(),
        t[0] == 0x21,
        forall|i: int| 1 <= i < to ==> #[trigger] t[to - i] == s[at - i],
        to > 1 ==> classes::char_class(utf8::cp_before(s, at)) == CharClass::Other,
    ensures
        classes::char_class(utf8::cp_before(t, to)) == CharClass::Other,
{
    let head = t.take(to);
    if to == 1 {
        utf8::lemma_cp_before_ascii(t, 1);
    } else if utf8::last_char(head) is Some {
        let k = utf8::last_len(head);
        let e = utf8::tail(head, head.len() - k);
        assert(utf8::char_ends(head, k));
        if k == to {
            assert(e[0] == t[0]);
        }
        let own = t.subrange(1, to);
        assert(head.subrange(head.len() - own.len(), head.len() as int) =~= own);
        utf8::lemma_last_char_of_suffix(own, head);
        let whole = s.take(at);
        assert forall|i: int| 0 <= i < own.len() implies own[i] == whole[at - own.len() + i] by {
            assert(t[to - (to - 1 - i)] == s[at - (to - 1 - i)]);
        }
        assert(whole.subrange(whole.len() - own.len(), whole.len() as int) =~= own);
        utf8::lemma_last_char_suffix(own, whole);
    }
}

/// No pretoken that ends at the boundary starts with an apostrophe in the
/// context, since the one in the text does not.
proof fn lemma_context_start(
    s: Seq<u8>,
    start: int,
    p: int,
    t: Seq<u8>,
    from: int,
    q: int,
)
    requires
        unit_closes(s, start, p),
        t.len() <= pattern::MANY,
        1 < q < t.len(),
        t[0] == 0x21,
        alike(s, p, t, q, q - 1),
        comes_by(gpt2_ends(t), t.len() as int, 0, from),
        0 <= from < q,
        gpt2_ends(t)(from) == q,
        classes::char_class(utf8::cp_before(t, q)) != gpt2_pieces::class_at(s, p),
    ensures
        t[from] != 0x27,
{
    if t[from] == 0x27 {
        let n = q - from;
        let at = p - n;
        lemma_unit_boundary(s, start, p);
        lemma_gpt2_aligned(t, 0, from);
        lemma_no_start(t, from);
        assert(s[p - n] == t[q - n]);
        lemma_apostrophe_alike(s, p, t, q, n);
        lemma_gpt2_tiles(s);
        let ends = gpt2_ends(s);
        let len = s.len() as int;
        if at > 0 {
            let over = covering(ends, len, 0, at);
            if ends(over) == at {
                assert(comes_by(ends, len, 0, at)) by {
                    lemma_step(ends, len, 0, over);
                }
                if start < at {
                    lemma_order(ends, len, 0, start, at);
                } else if at < start {
                    lemma_order(ends, len, 0, at, start);
                }
            } else {
                lemma_gpt2_aligned(s, 0, over);
                gpt2_pieces::lemma_piece_inside(s, over, at);
                utf8::lemma_cp(s, at);
                if from > 1 {
                    assert(s[p - (n + 1)] == t[q - (n + 1)]);
                    if s[at - 1] == 0x27 {
                        utf8::lemma_cp_before_ascii(s, at);
                    }
                }
                assert forall|i: int| 1 <= i < from implies #[trigger] t[from - i] == s[at - i] by {
                    assert(s[p - (n + i)] == t[q - (n + i)]);
                }
                lemma_before_alike(s, at, t, from);
            }
        } else {
            if start > 0 {
                lemma_order(ends, len, 0, 0, start);
            }
        }
    }
}

/// One pretoken further.
proof fn lemma_step(ends: spec_fn(int) -> int, len: int, pos: int, at: int)
    requires
        comes_by(ends, len, pos, at),
        0 <= pos <= at < ends(at) <= len,
    ensures
        comes_by(ends, len, pos, ends(at)),
    decreases len - pos,
{
    reveal_with_fuel(comes_by, 2);
    if pos < at {
        lemma_step(ends, len, ends(pos), at);
    }
}

/// A unit from `prev` on ends at `at` or before the pretoken that closes there.
proof fn lemma_unit_stops(bytes: Seq<u8>, prev: int, end: int, start: int, at: int)
    requires
        unit_closes(bytes, start, at),
        0 <= prev < end <= bytes.len(),
        end == gpt2_ends(bytes)(prev),
        prev == start || (end <= start && comes_by(
            gpt2_ends(bytes),
            bytes.len() as int,
            end,
            start,
        )),
    ensures
        ({
            let e = level1::unit_end(gpt2_ends(bytes), bytes, prev, end);
            ||| e == at
            ||| e <= start && comes_by(gpt2_ends(bytes), bytes.len() as int, e, start)
        }),
        end <= level1::unit_end(gpt2_ends(bytes), bytes, prev, end),
    decreases bytes.len() - end,
{
    let ends = gpt2_ends(bytes);
    level1::law_unit_extends(ends, bytes, prev, end);
    if prev != start {
        dispatch::law_tiles(PretokenizerType::GPT2, bytes, end);
        if level1::glued(bytes.subrange(prev, end), bytes.subrange(end, ends(end))) {
            lemma_unit_stops(bytes, end, ends(end), start, at);
        }
    }
}

/// Where a pretoken closes a unit, the walk over the units finds its end.
proof fn lemma_unit_found(bytes: Seq<u8>, pos: int, start: int, at: int)
    requires
        unit_closes(bytes, start, at),
        0 <= pos <= start,
        comes_by(gpt2_ends(bytes), bytes.len() as int, pos, start),
    ensures
        superword::unit_ends_at(PretokenizerType::GPT2, bytes, pos, at),
    decreases bytes.len() - pos,
{
    let ends = gpt2_ends(bytes);
    dispatch::law_tiles(PretokenizerType::GPT2, bytes, pos);
    lemma_unit_stops(bytes, pos, ends(pos), start, at);
    let e = level1::unit_end(ends, bytes, pos, ends(pos));
    if e != at {
        lemma_unit_found(bytes, e, start, at);
    }
}

/// Where a unit ends between two tokens in some text, one ends between them
/// after an exclamation mark.
proof fn lemma_context_splits(s: Seq<u8>, start: int, p: int, left: Seq<u8>, right: Seq<u8>)
    requires
        unit_closes(s, start, p),
        s.len() < pattern::MANY,
        left.is_suffix_of(s.take(p)),
        right.is_prefix_of(utf8::tail(s, p)),
        superword::junction(left, right) is Some,
    ensures
        superword::can_split(PretokenizerType::GPT2, left, right),
{
    let t = superword::probe(left, right, 6, 0);
    let q = 1 + left.len();
    let len = t.len() as int;
    let ends = gpt2_ends(t);
    let head = s.take(p);
    let rest = utf8::tail(s, p);
    assert(t =~= seq![0x21u8] + left + right);
    assert(t[0] == 0x21);
    lemma_unit_boundary(s, start, p);
    utf8::lemma_first_char_prefix(right, s, p);
    utf8::lemma_last_char_suffix(left, head);
    let k = utf8::last_len(left);
    assert forall|i: int| 0 <= i < left.len() implies left[i] == s[p - left.len() + i] by {
        assert(head.subrange(head.len() - left.len(), head.len() as int)[i] == left[i]);
    }
    assert(right.len() > 0);
    assert(rest.subrange(0, right.len() as int)[0] == right[0]);
    assert(t[q as int] == right[0]);
    assert forall|i: int| 0 <= i <= q - 1 implies #[trigger] s[p - i] == t[q - i] by {
        if i > 0 {
            assert(t[q - i] == left[left.len() - i]);
        }
    }
    assert(alike(s, p, t, q as int, q - 1));
    let t_head = t.take(q as int);
    assert(t_head.subrange(t_head.len() - left.len(), t_head.len() as int) =~= left);
    utf8::lemma_last_char_suffix(left, t_head);
    let t_rest = utf8::tail(t, q as int);
    assert(t_rest.subrange(0, right.len() as int) =~= right);
    utf8::lemma_first_char_prefix(right, t, q as int);
    assert(utf8::cp_before(t, q as int) == utf8::cp_before(s, p));
    assert(utf8::cp_at(t, q as int) == utf8::cp_at(s, p));
    assert(s[p - 1] == t[q - 1]);
    lemma_gpt2_tiles(t);
    let from = covering(ends, len, 0, q as int);
    lemma_gpt2_aligned(t, 0, from);
    if q < ends(from) {
        gpt2_pieces::lemma_piece_inside(t, from, q as int);
    }
    assert(ends(from) == q);
    lemma_context_start(s, start, p, t, from, q as int);
    let prev = t.subrange(from, q as int);
    let end = ends(q as int);
    let next = t.subrange(q as int, end);
    lemma_step(ends, len, 0, from);
    lemma_gpt2_aligned(t, 0, q as int);
    assert(prev.last() == t[q - 1]);
    assert(prev[0] == t[from]);
    assert(next[0] == t[q as int]);
    assert(!(level1::ends_white(prev) && level1::starts_white(next))) by {
        let lead = q - k;
        let e = utf8::tail(t_head, t_head.len() - k);
        assert(utf8::char_ends(t_head, k));
        assert(e[0] == t[lead]);
        assert(utf8::tail(t, lead).subrange(0, k) =~= e);
        lemma_lead(t, lead, q as int);
        if lead < from {
            utf8::lemma_aligned_split(t, 0, lead, from);
        }
        assert(t_head.subrange(t_head.len() - prev.len(), t_head.len() as int) =~= prev);
        utf8::lemma_last_char_of_suffix(prev, t_head);
        gpt2_pieces::lemma_first_whole(t, q as int);
        utf8::lemma_first_char_within(t, q as int, end);
    }
    assert(!level1::glued(prev, next));
    assert(unit_closes(t, from, q as int));
    lemma_unit_found(t, 0, from, q as int);
    assert(superword::pad(6) + left =~= seq![0x21u8] + left);
}

/// A character that ends at a place is read there.
proof fn lemma_lead(bytes: Seq<u8>, lead: int, at: int)
    requires
        0 <= lead < at <= bytes.len(),
        utf8::char_ends(bytes.take(at), at - lead),
    ensures
        utf8::next_pos(bytes, lead) == at,
        !is_continuation_byte(bytes[lead]),
{
    reveal(utf8::cp_len);
    let e = utf8::tail(bytes.take(at), lead);
    let t = utf8::tail(bytes, lead);
    assert forall|i: int| 0 <= i < e.len() implies e[i] == t[i] by {}
    assert(e[0] == bytes[lead]);
}

/// Pretokens of the stage-1 scheme end between code points.
proof fn lemma_stage1_aligned(bytes: Seq<u8>, pos: int, at: int)
    requires
        comes_by(
            level1::type_ends(PretokenizerType::SuperBPEStage1, bytes),
            bytes.len() as int,
            pos,
            at,
        ),
        0 <= pos <= at <= bytes.len() <= pattern::MANY,
        utf8::aligned(bytes, 0, pos),
    ensures
        utf8::aligned(bytes, 0, at),
    decreases bytes.len() - pos,
{
    if pos < at {
        stage1_pieces::law_stage1_boundary(bytes, pos);
        let ends = level1::type_ends(PretokenizerType::SuperBPEStage1, bytes);
        lemma_stage1_aligned(bytes, ends(pos), at);
    }
}

/// The beginning of a text can become a number where one starts there.
proof fn lemma_number_starts(s: Seq<u8>, p: int, head: Seq<u8>)
    requires
        0 <= p < s.len(),
        head.is_prefix_of(utf8::tail(s, p)),
        head.len() > 0,
        utf8::first_char(head) is None,
        valid_first_scalar(utf8::tail(s, p)),
        pattern::in_set(CharSet::Number, utf8::cp_at(s, p)),
    ensures
        superword::number_may_start(head, 3),
{
    reveal(utf8::cp_at);
    let rest = utf8::tail(s, p);
    let k = length_of_first_scalar(rest);
    assert forall|i: int| 0 <= i < head.len() implies head[i] == rest[i] by {
        assert(rest.subrange(0, head.len() as int)[i] == head[i]);
    }
    assert(head.len() < k <= 4);
    let t = rest.subrange(head.len() as int, k);
    let whole = head + t;
    assert(whole =~= rest.subrange(0, k));
    assert(superword::starts_number(whole));
}

/// Where a unit of the stage-1 scheme ends between two tokens, they may part.
proof fn lemma_stage1_parts(s: Seq<u8>, start: int, p: int, left: Seq<u8>, right: Seq<u8>)
    requires
        closes(PretokenizerType::SuperBPEStage1, s, start, p),
        left.len() > 0,
        right.len() > 0,
        left.is_suffix_of(s.take(p)),
        right.is_prefix_of(utf8::tail(s, p)),
    ensures
        superword::may_part(PretokenizerType::SuperBPEStage1, left, right),
{
    let ends = level1::type_ends(PretokenizerType::SuperBPEStage1, s);
    let head = s.take(p);
    let rest = utf8::tail(s, p);
    let x = utf8::cp_before(s, p);
    let y = utf8::cp_at(s, p);
    lemma_stage1_aligned(s, 0, start);
    stage1_pieces::law_stage1_boundary(s, start);
    dispatch::law_tiles(PretokenizerType::SuperBPEStage1, s, p);
    let prev = s.subrange(start, p);
    let next = s.subrange(p, ends(p));
    assert(prev.last() == s[p - 1]);
    assert(next[0] == s[p]);
    if pattern::in_set(CharSet::White, x) && pattern::in_set(CharSet::White, y) {
        lemma_white_glues(s, start, p, ends(p));
    }
    let own = head.subrange(head.len() - left.len(), head.len() as int);
    assert(own[left.len() - 1] == left.last());
    assert(left.last() == s[p - 1]);
    assert(rest.subrange(0, right.len() as int)[0] == right[0]);
    assert(right[0] == s[p]);
    if utf8::last_char(left) is None {
        if left.last() < 0x80 {
            utf8::lemma_last_ascii(left);
        }
    } else if utf8::first_char(right) is None {
        if right[0] < 0x80 {
            utf8::lemma_first_ascii(right);
        }
        utf8::lemma_cp_before_ascii(s, p);
        if left.last() == 0x20 {
            assert(pattern::in_set(CharSet::Number, y));
            reveal(utf8::cp_at);
            lemma_number_starts(s, p, right);
        }
    } else {
        utf8::lemma_last_char_suffix(left, head);
        utf8::lemma_first_char_prefix(right, s, p);
        stage1_pieces::lemma_ending_parts(left, head, x, y);
        if x == 0x27 {
            if s[p - 1] < 0x80 {
                utf8::lemma_cp_before_ascii(s, p);
            } else {
                lemma_wide_last(head);
            }
        }
    }
}

/// A last character of several bytes is not ASCII.
proof fn lemma_wide_last(s: Seq<u8>)
    requires
        s.len() > 0,
        s.last() >= 0x80,
    ensures
        utf8::last_char(s) matches Some(cp) ==> cp >= 0x80,
{
    let k = utf8::last_len(s);
    if utf8::last_char(s) is Some {
        let e = utf8::tail(s, s.len() - k);
        assert(utf8::char_ends(s, k));
        assert(e.last() == s.last());
    }
}

/// Where a unit of the GPT-2 scheme ends between two tokens and one of them holds
/// a part of a character only, they may part.
proof fn lemma_torn_parts(s: Seq<u8>, start: int, p: int, left: Seq<u8>, right: Seq<u8>)
    requires
        unit_closes(s, start, p),
        left.len() > 0,
        right.len() > 0,
        left.is_suffix_of(s.take(p)),
        right.is_prefix_of(utf8::tail(s, p)),
        superword::junction(left, right) is None,
    ensures
        superword::torn_may_part(PretokenizerType::GPT2, left, right),
{
    let head = s.take(p);
    let rest = utf8::tail(s, p);
    lemma_unit_boundary(s, start, p);
    let own = head.subrange(head.len() - left.len(), head.len() as int);
    assert(own[left.len() - 1] == left.last());
    assert(left.last() == s[p - 1]);
    assert(rest.subrange(0, right.len() as int)[0] == right[0]);
    assert(right[0] == s[p]);
    if left.last() < 0x80 {
        utf8::lemma_last_ascii(left);
    }
    if right[0] < 0x80 {
        utf8::lemma_first_ascii(right);
    }
}

/// Where a unit ends between two tokens of a merge in some text, one can end at
/// its junction.
proof fn lemma_parts(
    scheme: PretokenizerType,
    s: Seq<u8>,
    start: int,
    p: int,
    left: Seq<u8>,
    right: Seq<u8>,
)
    requires
        scheme == PretokenizerType::GPT2 || scheme == PretokenizerType::SuperBPEStage1,
        closes(scheme, s, start, p),
        s.len() < pattern::MANY,
        left.len() > 0,
        right.len() > 0,
        left.is_suffix_of(s.take(p)),
        right.is_prefix_of(utf8::tail(s, p)),
    ensures
        (superword::junction(left, right) is Some && superword::can_split(scheme, left, right))
            || superword::may_part(scheme, left, right),
{
    if scheme == PretokenizerType::SuperBPEStage1 {
        lemma_stage1_parts(s, start, p, left, right);
    } else if superword::junction(left, right) is Some {
        lemma_context_splits(s, start, p, left, right);
    } else {
        lemma_torn_parts(s, start, p, left, right);
    }
}

/// Whether a unit ends at a place, or the text starts there.
spec fn closed_at(scheme: PretokenizerType, bytes: Seq<u8>, at: int) -> bool {
    at == 0 || exists|start: int| closes(scheme, bytes, start, at)
}

/// The unit of a pretoken ends where one closes it, or with the text.
proof fn lemma_unit_closes(scheme: PretokenizerType, bytes: Seq<u8>, prev: int, end: int)
    requires
        dispatch::tiling(scheme),
        comes_by(level1::type_ends(scheme, bytes), bytes.len() as int, 0, prev),
        0 <= prev < end <= bytes.len() <= pattern::MANY,
        end == level1::type_ends(scheme, bytes)(prev),
    ensures
        ({
            let ends = level1::type_ends(scheme, bytes);
            let e = level1::unit_end(ends, bytes, prev, end);
            &&& end <= e <= bytes.len()
            &&& comes_by(ends, bytes.len() as int, 0, e)
            &&& e < bytes.len() ==> closed_at(scheme, bytes, e)
        }),
    decreases bytes.len() - end,
{
    let ends = level1::type_ends(scheme, bytes);
    lemma_step(ends, bytes.len() as int, 0, prev);
    if end < bytes.len() {
        dispatch::law_tiles(scheme, bytes, end);
        if level1::glued(bytes.subrange(prev, end), bytes.subrange(end, ends(end))) {
            lemma_unit_closes(scheme, bytes, end, ends(end));
        } else {
            assert(closes(scheme, bytes, prev, end));
        }
    }
}

/// Every unit starts where one closed, or with the text.
proof fn lemma_units_closed(scheme: PretokenizerType, bytes: Seq<u8>, n: nat)
    requires
        dispatch::tiling(scheme),
        bytes.len() <= pattern::MANY,
    ensures
        ({
            let step = plan::units(scheme, bytes);
            let at = walker::pos_after(step, 0, n);
            let spans = walker::spans_from(step, 0, n);
            &&& 0 <= at <= bytes.len()
            &&& comes_by(level1::type_ends(scheme, bytes), bytes.len() as int, 0, at)
            &&& at < bytes.len() ==> closed_at(scheme, bytes, at)
            &&& forall|k: int|
                0 <= k < spans.len() ==> closed_at(scheme, bytes, (#[trigger] spans[k]).0) && 0
                    <= spans[k].0 < spans[k].1 <= bytes.len()
        }),
    decreases n,
{
    if n > 0 {
        let m = (n - 1) as nat;
        let step = plan::units(scheme, bytes);
        lemma_units_closed(scheme, bytes, m);
        walker::lemma_spans_step(step, 0, m);
        let at = walker::pos_after(step, 0, m);
        let spans = walker::spans_from(step, 0, m);
        if let Some(span) = step(at) {
            dispatch::law_tiles(scheme, bytes, at);
            lemma_unit_closes(scheme, bytes, at, level1::type_ends(scheme, bytes)(at));
            let longer = spans.push(span);
            assert forall|k: int| 0 <= k < longer.len() implies closed_at(
                scheme,
                bytes,
                (#[trigger] longer[k]).0,
            ) && 0 <= longer[k].0 < longer[k].1 <= bytes.len() by {
                if k < spans.len() {
                    assert(longer[k] == spans[k]);
                }
            }
        }
    }
}

/// Whether every byte of a text has a token.
pub open spec fn covered(ids: Seq<Option<u32>>, bytes: Seq<u8>) -> bool {
    forall|i: int| 0 <= i < bytes.len() ==> ids[(#[trigger] bytes[i]) as int] is Some
}

proof fn lemma_covered_text(
    ids: Seq<Option<u32>>,
    vocab: Seq<Seq<u8>>,
    bytes: Seq<u8>,
    from: int,
    to: int,
)
    requires
        byte_remapping::bytes_spell(ids, vocab),
        covered(ids, bytes),
        0 <= from <= to <= bytes.len(),
    ensures
        merge::text_of(vocab, byte_remapping::byte_tokens(ids, bytes.subrange(from, to)))
            == bytes.subrange(from, to),
{
    let part = bytes.subrange(from, to);
    assert forall|i: int| 0 <= i < part.len() implies ids[(#[trigger] part[i]) as int] is Some by {
        assert(part[i] == bytes[from + i]);
    }
    byte_remapping::lemma_byte_tokens_text(ids, vocab, part);
}

/// A threshold keeps the units apart: no merge below it has its junction where a
/// unit of any text starts.
pub proof fn law_threshold(
    scheme: PretokenizerType,
    vocab: Seq<Seq<u8>>,
    merges: Seq<Merge>,
    table: Table,
    threshold: u32,
    bound: u32,
    ids: Seq<Option<u32>>,
    bytes: Seq<u8>,
)
    requires
        scheme == PretokenizerType::GPT2 || scheme == PretokenizerType::SuperBPEStage1,
        superword::is_threshold(vocab, merges, scheme, Some(threshold)),
        bound <= threshold,
        merge::listed_in(table, merges),
        merge::causal(table),
        byte_remapping::bytes_spell(ids, vocab),
        covered(ids, bytes),
        bytes.len() < usize::MAX,
    ensures
        two_levels::closed_boundaries(
            merge::below(table, bound as int),
            vocab,
            ids,
            bytes,
            walker::all_spans(plan::units(scheme, bytes), bytes.len()),
        ),
{
    let low = merge::below(table, bound as int);
    let spans = walker::all_spans(plan::units(scheme, bytes), bytes.len());
    lemma_units_closed(scheme, bytes, bytes.len());
    assert forall|k: int| 0 <= k < spans.len() implies two_levels::closed_boundary(
        low,
        vocab,
        byte_remapping::byte_tokens(ids, bytes.subrange(0, (#[trigger] spans[k]).0)),
        byte_remapping::byte_tokens(ids, bytes.subrange(spans[k].0, spans[k].1)),
    ) by {
        let p = spans[k].0;
        let end = spans[k].1;
        let left = byte_remapping::byte_tokens(ids, bytes.subrange(0, p));
        let right = byte_remapping::byte_tokens(ids, bytes.subrange(p, end));
        if left.len() > 0 && right.len() > 0 {
            lemma_covered_text(ids, vocab, bytes, 0, p);
            lemma_covered_text(ids, vocab, bytes, p, end);
            if p == 0 {
                assert(bytes.subrange(0, 0) =~= Seq::<u8>::empty());
            }
            let start = choose|start: int| closes(scheme, bytes, start, p);
            byte_remapping::lemma_byte_tokens_spell(ids, vocab, bytes.subrange(0, p));
            byte_remapping::lemma_byte_tokens_spell(ids, vocab, bytes.subrange(p, end));
            let last = merge::bytes_of(vocab, left.last());
            let first = merge::bytes_of(vocab, right[0]);
            assert(last.len() > 0 && first.len() > 0);
            assert forall|pair: (u32, u32)| #[trigger] low.contains_key(pair) implies !(
            merge::may_end(merge::bytes_of(vocab, pair.0), bytes.subrange(0, p), last)
                && merge::may_start(
                merge::bytes_of(vocab, pair.1),
                bytes.subrange(p, end),
                first,
            )) by {
                let a = merge::bytes_of(vocab, pair.0);
                let b = merge::bytes_of(vocab, pair.1);
                if merge::may_end(a, bytes.subrange(0, p), last) && merge::may_start(
                    b,
                    bytes.subrange(p, end),
                    first,
                ) {
                    assert(table.contains_key(pair));
                    let i = choose|i: int|
                        0 <= i < merges.len() && merge::is_merge(#[trigger] merges[i], pair, table);
                    assert(bytes.subrange(0, p) =~= bytes.take(p));
                    let rest = utf8::tail(bytes, p);
                    assert(rest.subrange(0, b.len() as int) =~= bytes.subrange(p, end).subrange(
                        0,
                        b.len() as int,
                    ));
                    lemma_parts(scheme, bytes, start, p, a, b);
                    assert(superword::splittable(vocab, merges[i], scheme));
                }
            }
        }
    }
}

/// Two levels give what one gives, for every plan and every text: encoding with
/// the plan is merging the whole text with all merges. The merges make tokens that
/// spell their parts and come after them, and every byte of the text has a token.
pub proof fn law_plan_two_levels(
    plan: SuperwordPlan,
    vocab: Seq<Seq<u8>>,
    inv: Map<Seq<u8>, u32>,
    merges: &MergeTable,
    l1_fill: L1Fill,
    use_cuts: bool,
    cap: u32,
    ids: Seq<Option<u32>>,
    bytes: Seq<u8>,
)
    requires
        plan::planned(vocab, inv, merges, l1_fill, use_cuts, cap, Some(plan)),
        merges.well_formed(),
        merge::consistent(merges@, vocab),
        merge::causal(merges@),
        cuts::inverts(vocab, inv, plan.bound()),
        byte_remapping::bytes_spell(ids, vocab),
        covered(ids, bytes),
        bytes.len() < usize::MAX,
    ensures
        plan.tokens(merges@, ids, bytes) == merge::merged(
            merges@,
            byte_remapping::byte_tokens(ids, bytes),
        ),
{
    merges.lemma_listed();
    let (a, b) = choose|a: Option<u32>, b: Option<u32>| #[trigger]
        plan::derived(vocab, merges.merges(), a, b) && match plan::better(a, b) {
            None => false,
            Some((scheme, threshold)) => {
                &&& plan.scheme() == scheme
                &&& plan.bound() == (if threshold < cap {
                    threshold
                } else {
                    cap
                })
            },
        };
    let (_, threshold) = plan::better(a, b)->0;
    law_threshold(
        plan.scheme(),
        vocab,
        merges.merges(),
        merges@,
        threshold,
        plan.bound(),
        ids,
        bytes,
    );
    two_levels::law_two_levels(plan, merges@, vocab, inv, merges.merges(), ids, bytes);
}

/// What a tokenizer encodes by its plan is what it encodes without it.
pub proof fn law_plan_gives_tokens(
    t: Tokenizer,
    plan: SuperwordPlan,
    l1_fill: L1Fill,
    use_cuts: bool,
    text: Seq<u8>,
)
    requires
        t.well_formed(),
        t.plan == Some(plan),
        !t.ignore_merges,
        text.len() < usize::MAX,
        match t.model {
            Model::Bpe { merges, bytes, .. } => {
                let vocab = superword::views(t.vocab@);
                &&& plan::planned(
                    vocab,
                    t.vocab_inv@,
                    &merges,
                    l1_fill,
                    use_cuts,
                    u32::MAX,
                    Some(plan),
                )
                &&& merge::consistent(merges@, vocab)
                &&& merge::causal(merges@)
                &&& cuts::inverts(vocab, t.vocab_inv@, plan.bound())
                &&& byte_remapping::bytes_spell(bytes.ids(), vocab)
                &&& covered(bytes.ids(), text)
            },
            Model::WordPiece { .. } => false,
        },
    ensures
        t.model matches Model::Bpe { merges, bytes, .. } && plan.tokens(merges@, bytes.ids(), text)
            == t.pretoken_tokens(text),
{
    match t.model {
        Model::Bpe { merges, bytes, .. } => {
            law_plan_two_levels(
                plan,
                superword::views(t.vocab@),
                t.vocab_inv@,
                &merges,
                l1_fill,
                use_cuts,
                u32::MAX,
                bytes.ids(),
                text,
            );
        },
        Model::WordPiece { .. } => {},
    }
}

} // verus!
