//! The pretokens of the GPT-2 scheme: contractions, runs of letters, of numbers
//! and of other characters, each with a space before it, and white space.

use super::characters;
use super::kinds;
use super::kinds::Kind;
use super::runs;
use crate::pretokenize::fast::dispatch;
use crate::pretokenize::gpt2_pieces;
use crate::pretokenize::options::PretokenizerType;
use crate::pretokenize::pattern;
use crate::pretokenize::pattern::CharSet;
use crate::pretokenize::schemes;
use crate::pretokenize::unicode::classes::CharClass;
use crate::utf8;
use vstd::prelude::*;
use vstd::utf8::*;

verus! {

/// The step of the walk at `pos`.
pub open spec fn step(bytes: Seq<u8>, pos: int) -> Option<(int, int)> {
    dispatch::type_step(PretokenizerType::GPT2, bytes)(pos)
}

/// Whether a contraction stands at `pos`: an apostrophe and s, d, m or t, or an
/// apostrophe and ll, ve or re.
pub open spec fn contraction(bytes: Seq<u8>, pos: int) -> bool {
    &&& bytes[pos] == 0x27
    &&& {
        ||| pos + 1 < bytes.len() && (bytes[pos + 1] == 0x73 || bytes[pos + 1] == 0x64 || bytes[pos
            + 1] == 0x6D || bytes[pos + 1] == 0x74)
        ||| pos + 2 < bytes.len() && bytes[pos + 1] == 0x6C && bytes[pos + 2] == 0x6C
        ||| pos + 2 < bytes.len() && bytes[pos + 1] == 0x76 && bytes[pos + 2] == 0x65
        ||| pos + 2 < bytes.len() && bytes[pos + 1] == 0x72 && bytes[pos + 2] == 0x65
    }
}

/// An apostrophe and s, d, m or t are a pretoken of two bytes, and an apostrophe
/// and ll, ve or re are one of three, whatever follows.
pub proof fn law_contractions(bytes: Seq<u8>, pos: int)
    requires
        0 <= pos,
        pos + 1 < bytes.len() <= usize::MAX,
        bytes[pos] == 0x27,
    ensures
        bytes[pos + 1] == 0x73 ==> step(bytes, pos) == Some((pos, pos + 2)),
        bytes[pos + 1] == 0x64 ==> step(bytes, pos) == Some((pos, pos + 2)),
        bytes[pos + 1] == 0x6D ==> step(bytes, pos) == Some((pos, pos + 2)),
        bytes[pos + 1] == 0x74 ==> step(bytes, pos) == Some((pos, pos + 2)),
        pos + 2 < bytes.len() && bytes[pos + 1] == 0x6C && bytes[pos + 2] == 0x6C ==> step(
            bytes,
            pos,
        ) == Some((pos, pos + 3)),
        pos + 2 < bytes.len() && bytes[pos + 1] == 0x76 && bytes[pos + 2] == 0x65 ==> step(
            bytes,
            pos,
        ) == Some((pos, pos + 3)),
        pos + 2 < bytes.len() && bytes[pos + 1] == 0x72 && bytes[pos + 2] == 0x65 ==> step(
            bytes,
            pos,
        ) == Some((pos, pos + 3)),
{
    dispatch::law_tiles(PretokenizerType::GPT2, bytes, pos);
    gpt2_pieces::law_gpt2_piece(bytes, pos);
}

spec fn class(kind: Kind) -> CharClass {
    match kind {
        Kind::Letter => CharClass::Letter,
        Kind::Number => CharClass::Number,
        Kind::Other => CharClass::Other,
    }
}

proof fn lemma_uniform(
    kind: Kind,
    bytes: Seq<u8>,
    pos: int,
    chars: Seq<char>,
    after: Seq<u8>,
)
    requires
        runs::stands(bytes, pos, chars, after),
        forall|i: int| 0 <= i < chars.len() ==> kinds::is(kind, (#[trigger] chars[i]) as u32),
    ensures
        gpt2_pieces::uniform(bytes, pos, pos + encode_utf8(chars).len(), class(kind)),
        runs::stands(bytes, pos + encode_utf8(chars).len(), Seq::empty(), after),
    decreases chars.len(),
{
    if chars.len() == 0 {
        assert(encode_utf8(chars) =~= Seq::<u8>::empty());
        assert(chars =~= Seq::<char>::empty());
    } else {
        runs::lemma_first(bytes, pos, chars, after);
        let rest = chars.drop_first();
        assert forall|i: int| 0 <= i < rest.len() implies kinds::is(
            kind,
            (#[trigger] rest[i]) as u32,
        ) by {
            assert(chars[i + 1] == rest[i]);
        }
        assert(kinds::is(kind, chars[0] as u32));
        kinds::law_classes(chars[0] as u32);
        lemma_uniform(kind, bytes, utf8::next_pos(bytes, pos), rest, after);
        let end = pos + encode_utf8(chars).len();
        assert(encode_utf8(chars).len() <= bytes.skip(pos).len());
    }
}

proof fn lemma_one_end(bytes: Seq<u8>, pos: int, a: int, b: int, class: CharClass)
    requires
        0 <= pos <= a,
        pos <= b,
        gpt2_pieces::uniform(bytes, pos, a, class),
        gpt2_pieces::uniform(bytes, pos, b, class),
        a >= bytes.len() || gpt2_pieces::class_at(bytes, a) != class,
        b >= bytes.len() || gpt2_pieces::class_at(bytes, b) != class,
    ensures
        a == b,
    decreases a - pos,
{
    if pos < a && pos < b {
        lemma_one_end(bytes, utf8::next_pos(bytes, pos), a, b, class);
    }
}

/// A run of letters, of numbers or of other characters that nothing of its kind
/// follows is one pretoken, together with a space before it; only a contraction
/// goes before it.
pub proof fn law_runs(
    kind: Kind,
    bytes: Seq<u8>,
    pos: int,
    spaced: bool,
    chars: Seq<char>,
    after: Seq<u8>,
)
    requires
        runs::stands(
            bytes,
            pos,
            (if spaced {
                seq![' ']
            } else {
                Seq::empty()
            }) + chars,
            after,
        ),
        bytes.len() <= usize::MAX,
        chars.len() > 0,
        forall|i: int| 0 <= i < chars.len() ==> kinds::is(kind, (#[trigger] chars[i]) as u32),
        after.len() == 0 || !kinds::is(kind, runs::first(after)),
        !contraction(bytes, pos),
    ensures
        step(bytes, pos) == Some(
            (
                pos,
                pos + (if spaced {
                    1int
                } else {
                    0int
                }) + encode_utf8(chars).len(),
            ),
        ),
{
    let lead = if spaced {
        seq![' ']
    } else {
        Seq::empty()
    };
    runs::lemma_parts(bytes, pos, lead, chars, after);
    if spaced {
        utf8::lemma_encode_ascii(' ');
        runs::lemma_first(bytes, pos, lead + chars, after);
        utf8::lemma_cp(bytes, pos);
    } else {
        assert(encode_utf8(lead) =~= Seq::<u8>::empty());
    }
    let start = pos + encode_utf8(lead).len();
    let end = start + encode_utf8(chars).len();
    runs::lemma_first(bytes, start, chars, after);
    lemma_uniform(kind, bytes, start, chars, after);
    runs::lemma_behind(bytes, end, after);
    assert(kinds::is(kind, chars[0] as u32));
    kinds::law_classes(chars[0] as u32);
    kinds::law_classes(runs::first(after));
    dispatch::law_tiles(PretokenizerType::GPT2, bytes, pos);
    gpt2_pieces::law_gpt2_piece(bytes, pos);
    if !spaced {
        utf8::lemma_cp(bytes, pos);
        assert(bytes[pos] != 0x20);
    }
    lemma_one_end(
        bytes,
        start,
        pattern::piece_end(schemes::gpt2_alts(), bytes, pos),
        end,
        class(kind),
    );
}

/// White space is one pretoken up to the end of the text. Before a character that
/// is none, it is one pretoken up to its last character, which is left for what
/// follows; where it is a single character other than a space, it is one by
/// itself.
pub proof fn law_white_space(bytes: Seq<u8>, pos: int, spaces: Seq<char>, after: Seq<u8>)
    requires
        runs::stands(bytes, pos, spaces, after),
        bytes.len() <= usize::MAX,
        spaces.len() > 0,
        forall|i: int| 0 <= i < spaces.len() ==> characters::white((#[trigger] spaces[i]) as u32),
        after.len() == 0 || !characters::white(runs::first(after)),
        after.len() > 0 ==> spaces != seq![' '],
    ensures
        step(bytes, pos) == Some(
            (
                pos,
                pos + encode_utf8(
                    if after.len() == 0 || spaces.len() == 1 {
                        spaces
                    } else {
                        spaces.drop_last()
                    },
                ).len(),
            ),
        ),
{
    let p = schemes::gpt2_alts();
    let many = pattern::MANY as nat;
    runs::lemma_first(bytes, pos, spaces, after);
    utf8::lemma_cp(bytes, pos);
    assert(characters::white(spaces[0] as u32));
    kinds::law_classes(spaces[0] as u32);
    runs::lemma_len(spaces);
    assert(encode_utf8(spaces).len() <= bytes.skip(pos).len());
    assert forall|i: int| 0 <= i < spaces.len() implies pattern::in_set(
        CharSet::White,
        (#[trigger] spaces[i]) as u32,
    ) && characters::white(spaces[i] as u32) by {
        kinds::law_sets(spaces[i] as u32);
    }
    kinds::law_sets(runs::first(after));
    kinds::law_sets(spaces[0] as u32);
    runs::lemma_white_before(p[7], bytes, pos, spaces, after);
    runs::lemma_run(CharSet::White, bytes, pos, spaces, after, many);
    runs::lemma_last_item(p[8], 0, bytes, pos);
    assert forall|k: int| 0 <= k < 4 implies pattern::match_items(
        #[trigger] p[k],
        0,
        bytes,
        pos,
    ) is None by {
        assert(p[k].items[0] == schemes::one(schemes::apostrophe()));
        assert(pattern::run_len(schemes::apostrophe(), bytes, pos, 1) == 0);
        runs::lemma_too_few(p[k], 0, bytes, pos);
    }
    assert forall|k: int| 4 <= k < 7 implies pattern::match_items(
        #[trigger] p[k],
        0,
        bytes,
        pos,
    ) is None by {
        let set = p[k].items[1].set;
        assert(p[k].items[0] == schemes::opt(schemes::space()));
        assert(p[k].items[1] == schemes::plus(set));
        assert(!pattern::in_set(set, spaces[0] as u32));
        assert(pattern::run_len(set, bytes, pos, many) == 0);
        runs::lemma_too_few(p[k], 1, bytes, pos);
        let n = pattern::run_len(schemes::space(), bytes, pos, 1);
        reveal_with_fuel(pattern::run_len, 2);
        reveal_with_fuel(pattern::after, 2);
        reveal_with_fuel(pattern::back_off, 3);
        assert(n <= 1);
        if n == 1 {
            let next = utf8::next_pos(bytes, pos);
            let rest = spaces.drop_first();
            if rest.len() > 0 {
                runs::lemma_first(bytes, next, rest, after);
                assert(characters::white(spaces[1] as u32));
                kinds::law_sets(rest[0] as u32);
            } else {
                assert(rest =~= Seq::<char>::empty());
                runs::lemma_behind(bytes, next, after);
                assert(spaces[0] as u32 == 0x20);
                char_u32_cast(spaces[0], 0x20);
                char_u32_cast(' ', 0x20);
                assert(spaces =~= seq![' ']);
            }
            assert(pattern::run_len(set, bytes, next, many) == 0);
            runs::lemma_too_few(p[k], 1, bytes, next);
        }
        assert(pattern::match_items(p[k], 0, bytes, pos) == pattern::back_off(
            p[k],
            0,
            bytes,
            pos,
            n,
        ));
    }
    dispatch::law_tiles(PretokenizerType::GPT2, bytes, pos);
    if after.len() == 0 || spaces.len() > 1 {
        runs::lemma_first_match(p, 0, 7, bytes, pos);
    } else {
        runs::lemma_first_match(p, 0, 8, bytes, pos);
    }
}

} // verus!
