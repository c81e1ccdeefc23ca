//! WordPiece: greedy longest-match-first segmentation against a vocabulary,
//! with the unknown token for the whole word on any failure.

use crate::byte_map::ByteMap;
use crate::error::LoadError;
use crate::TokenId;
use vstd::prelude::*;
use vstd::slice::{slice_subrange, slice_to_vec};
use vstd::utf8::*;

verus! {

/// The longest word, in characters, that is segmented by default.
pub const DEFAULT_MAX_INPUT_CHARS_PER_WORD: usize = 100;

/// The decoder of a WordPiece file: the prefix to splice out, and whether to
/// tidy punctuation. Without a decoder the pieces are joined by spaces and keep
/// their prefix.
#[derive(Debug)]
pub struct WordPieceDecoder {
    pub prefix: String,
    pub cleanup: bool,
}

/// Whether a byte string starts with another.
pub open spec fn has_prefix(bytes: Seq<u8>, prefix: Seq<u8>) -> bool {
    prefix.len() <= bytes.len() && bytes.subrange(0, prefix.len() as int) == prefix
}

/// A byte string without its first `n` bytes.
pub open spec fn without(bytes: Seq<u8>, n: nat) -> Seq<u8> {
    bytes.subrange(n as int, bytes.len() as int)
}

/// The pieces that may start a word, among the first `n` entries of a
/// vocabulary: those without the continuing prefix, or all where it is empty.
pub open spec fn head_pieces(
    vocab: Seq<(String, TokenId)>,
    prefix: Seq<u8>,
    n: nat,
) -> Map<Seq<u8>, u32>
    decreases n,
{
    if n == 0 || n > vocab.len() {
        Map::empty()
    } else {
        let before = head_pieces(vocab, prefix, (n - 1) as nat);
        let piece = encode_utf8(vocab[n - 1].0@);
        if prefix.len() == 0 || !has_prefix(piece, prefix) {
            before.insert(piece, vocab[n - 1].1.0)
        } else {
            before
        }
    }
}

/// The pieces that continue a word, among the first `n` entries: those with the
/// continuing prefix, without it.
pub open spec fn cont_pieces(
    vocab: Seq<(String, TokenId)>,
    prefix: Seq<u8>,
    n: nat,
) -> Map<Seq<u8>, u32>
    decreases n,
{
    if n == 0 || n > vocab.len() {
        Map::empty()
    } else {
        let before = cont_pieces(vocab, prefix, (n - 1) as nat);
        let piece = encode_utf8(vocab[n - 1].0@);
        if has_prefix(piece, prefix) {
            before.insert(without(piece, prefix.len()), vocab[n - 1].1.0)
        } else {
            before
        }
    }
}

/// The identifier of a token among the first `n` entries, the last where there
/// are several.
pub open spec fn id_of(vocab: Seq<(String, TokenId)>, token: Seq<char>, n: nat) -> Option<u32>
    decreases n,
{
    if n == 0 || n > vocab.len() {
        None
    } else if vocab[n - 1].0@ == token {
        Some(vocab[n - 1].1.0)
    } else {
        id_of(vocab, token, (n - 1) as nat)
    }
}

/// A byte that starts a character: any but a continuation byte.
pub open spec fn starts_char(b: u8) -> bool {
    b < 0x80 || b >= 0xC0
}

/// The number of bytes that start a character.
pub open spec fn char_count(bytes: Seq<u8>) -> nat
    decreases bytes.len(),
{
    if bytes.len() == 0 {
        0
    } else {
        char_count(bytes.drop_last()) + (if starts_char(bytes.last()) {
            1nat
        } else {
            0nat
        })
    }
}

/// The end of the longest piece that starts at `start` and ends at `end` or
/// before.
pub open spec fn longest_piece(
    pieces: Map<Seq<u8>, u32>,
    bytes: Seq<u8>,
    start: int,
    end: int,
) -> Option<int>
    decreases end - start,
{
    if end <= start {
        None
    } else if pieces.contains_key(bytes.subrange(start, end)) {
        Some(end)
    } else {
        longest_piece(pieces, bytes, start, end - 1)
    }
}

/// The longest-match-first segmentation of a word from `start` on, or `None`
/// where some position starts no piece.
pub open spec fn segmentation(
    head: Map<Seq<u8>, u32>,
    cont: Map<Seq<u8>, u32>,
    bytes: Seq<u8>,
    start: int,
) -> Option<Seq<u32>>
    decreases bytes.len() - start,
{
    if start >= bytes.len() {
        Some(Seq::empty())
    } else {
        let pieces = if start == 0 {
            head
        } else {
            cont
        };
        match longest_piece(pieces, bytes, start, bytes.len() as int) {
            None => None,
            Some(end) => if start < end <= bytes.len() {
                match segmentation(head, cont, bytes, end) {
                    None => None,
                    Some(rest) => Some(seq![pieces[bytes.subrange(start, end)]] + rest),
                }
            } else {
                None
            },
        }
    }
}

/// The tokens of a word: none for the empty word, the unknown token for one
/// that is too long or has no segmentation, else its segmentation.
pub open spec fn word_tokens(
    head: Map<Seq<u8>, u32>,
    cont: Map<Seq<u8>, u32>,
    unk: u32,
    max_chars: nat,
    bytes: Seq<u8>,
) -> Seq<u32> {
    if bytes.len() == 0 {
        Seq::empty()
    } else if char_count(bytes) > max_chars {
        seq![unk]
    } else {
        match segmentation(head, cont, bytes, 0) {
            Some(ids) => ids,
            None => seq![unk],
        }
    }
}

/// A word that is a piece of its own is that piece, unless it is too long: no
/// shorter pieces are tried.
pub proof fn law_whole_word(
    head: Map<Seq<u8>, u32>,
    cont: Map<Seq<u8>, u32>,
    unk: u32,
    max_chars: nat,
    word: Seq<u8>,
)
    requires
        word.len() > 0,
        head.contains_key(word),
        char_count(word) <= max_chars,
    ensures
        word_tokens(head, cont, unk, max_chars, word) == seq![head[word]],
{
    assert(word.subrange(0, word.len() as int) =~= word);
    assert(segmentation(head, cont, word, word.len() as int) == Some(Seq::<u32>::empty()));
    assert(seq![head[word]] + Seq::<u32>::empty() =~= seq![head[word]]);
}

/// Token identifiers as plain numbers.
pub open spec fn numbers(ids: Seq<TokenId>) -> Seq<u32> {
    Seq::new(ids.len(), |i: int| ids[i].0)
}

proof fn lemma_longest(pieces: Map<Seq<u8>, u32>, bytes: Seq<u8>, start: int, end: int)
    requires
        0 <= start,
        end <= bytes.len(),
    ensures
        longest_piece(pieces, bytes, start, end) matches Some(e) ==> start < e <= end
            && pieces.contains_key(bytes.subrange(start, e)),
    decreases end - start,
{
    if end > start {
        lemma_longest(pieces, bytes, start, end - 1);
    }
}

/// Candidates longer than every piece cannot match.
proof fn lemma_longest_cap(
    pieces: Map<Seq<u8>, u32>,
    bytes: Seq<u8>,
    start: int,
    end: int,
    cap: int,
)
    requires
        0 <= start,
        start + cap <= end <= bytes.len(),
        forall|key: Seq<u8>| #[trigger] pieces.contains_key(key) ==> key.len() <= cap,
    ensures
        longest_piece(pieces, bytes, start, end) == longest_piece(
            pieces,
            bytes,
            start,
            start + cap,
        ),
    decreases end,
{
    if end > start + cap && end > start {
        assert(bytes.subrange(start, end).len() == end - start);
        lemma_longest_cap(pieces, bytes, start, end - 1, cap);
    }
}

proof fn lemma_char_count_concat(a: Seq<u8>, b: Seq<u8>)
    ensures
        char_count(a + b) == char_count(a) + char_count(b),
    decreases b.len(),
{
    if b.len() == 0 {
        assert(a + b =~= a);
    } else {
        assert((a + b).drop_last() =~= a + b.drop_last());
        lemma_char_count_concat(a, b.drop_last());
    }
}

/// The length cap counts characters, not bytes: of well-formed text, the bytes
/// that start a character are as many as the characters.
pub proof fn law_char_count(bytes: Seq<u8>)
    requires
        valid_utf8(bytes),
    ensures
        char_count(bytes) == decode_utf8(bytes).len(),
    decreases bytes.len(),
{
    if bytes.len() > 0 {
        let first = take_first_scalar(bytes);
        let rest = pop_first_scalar(bytes);
        assert(bytes =~= first + rest);
        lemma_char_count_concat(first, rest);
        assert(char_count(first) == 1) by {
            reveal_with_fuel(char_count, 5);
        }
        law_char_count(rest);
    }
}

/// A piece found in well-formed text ends between characters: every piece is
/// itself well-formed text, so backing off byte by byte finds the same pieces
/// as backing off character by character.
pub proof fn law_pieces_end_between_chars(
    pieces: Map<Seq<u8>, u32>,
    bytes: Seq<u8>,
    start: int,
    end: int,
)
    requires
        0 <= start <= end <= bytes.len(),
        valid_utf8(bytes.subrange(0, start)),
        forall|key: Seq<u8>| #[trigger] pieces.contains_key(key) ==> valid_utf8(key),
    ensures
        longest_piece(pieces, bytes, start, end) matches Some(e) ==> valid_utf8(
            bytes.subrange(0, e),
        ),
{
    lemma_longest(pieces, bytes, start, end);
    if let Some(e) = longest_piece(pieces, bytes, start, end) {
        valid_utf8_concat(bytes.subrange(0, start), bytes.subrange(start, e));
        assert(bytes.subrange(0, start) + bytes.subrange(start, e) =~= bytes.subrange(0, e));
    }
}

/// Whether the bytes between two offsets are a piece of the vocabulary with
/// identifier `id`: a head piece at the start of the word, else a continuing
/// one.
pub open spec fn is_piece(
    head: Map<Seq<u8>, u32>,
    cont: Map<Seq<u8>, u32>,
    bytes: Seq<u8>,
    start: int,
    end: int,
    id: u32,
) -> bool {
    let pieces = if start == 0 {
        head
    } else {
        cont
    };
    &&& start < end
    &&& pieces.contains_key(bytes.subrange(start, end))
    &&& id == pieces[bytes.subrange(start, end)]
}

/// Whether `cuts` are the offsets at which `ids` spell the word from `start`
/// on: the pieces between them are the vocabulary's, end to end.
pub open spec fn spells(
    head: Map<Seq<u8>, u32>,
    cont: Map<Seq<u8>, u32>,
    bytes: Seq<u8>,
    start: int,
    ids: Seq<u32>,
    cuts: Seq<int>,
) -> bool {
    &&& cuts.len() == ids.len() + 1
    &&& cuts[0] == start
    &&& cuts.last() == bytes.len()
    &&& forall|i: int|
        0 <= i < ids.len() ==> #[trigger] is_piece(
            head,
            cont,
            bytes,
            cuts[i],
            cuts[i + 1],
            ids[i],
        )
}

/// The segmentation of a word spells it.
pub proof fn law_segmentation_spells(
    head: Map<Seq<u8>, u32>,
    cont: Map<Seq<u8>, u32>,
    bytes: Seq<u8>,
    start: int,
)
    requires
        0 <= start <= bytes.len(),
    ensures
        segmentation(head, cont, bytes, start) matches Some(ids) ==> exists|cuts: Seq<int>|
            spells(head, cont, bytes, start, ids, cuts),
    decreases bytes.len() - start,
{
    if let Some(ids) = segmentation(head, cont, bytes, start) {
        if start >= bytes.len() {
            assert(spells(head, cont, bytes, start, ids, seq![start]));
        } else {
            let pieces = if start == 0 {
                head
            } else {
                cont
            };
            let end = longest_piece(pieces, bytes, start, bytes.len() as int).unwrap();
            lemma_longest(pieces, bytes, start, bytes.len() as int);
            law_segmentation_spells(head, cont, bytes, end);
            let rest = segmentation(head, cont, bytes, end).unwrap();
            let after = choose|cuts: Seq<int>| spells(head, cont, bytes, end, rest, cuts);
            let cuts = seq![start] + after;
            assert(ids == seq![pieces[bytes.subrange(start, end)]] + rest);
            assert forall|i: int| 0 <= i < ids.len() implies #[trigger] is_piece(
                head,
                cont,
                bytes,
                cuts[i],
                cuts[i + 1],
                ids[i],
            ) by {
                if i > 0 {
                    let k = i - 1;
                    assert(is_piece(head, cont, bytes, after[k], after[k + 1], rest[k]));
                }
            }
            assert(cuts.last() == after.last());
            assert(cuts.len() == ids.len() + 1);
            assert(spells(head, cont, bytes, start, ids, cuts));
        }
    }
}

/// A WordPiece model.
#[derive(Debug)]
pub struct WordPiece {
    head: ByteMap,
    cont: ByteMap,
    unk: TokenId,
    max_head_len: usize,
    max_cont_len: usize,
    max_input_chars_per_word: usize,
    prefix: String,
}

/// Does a byte string start with another?
pub fn starts_with(bytes: &[u8], prefix: &[u8]) -> (res: bool)
    ensures
        res == has_prefix(bytes@, prefix@),
{
    if prefix.len() > bytes.len() {
        return false;
    }
    crate::byte_map::same_bytes(slice_subrange(bytes, 0, prefix.len()), prefix)
}

impl WordPiece {
    /// No piece is longer than recorded.
    pub closed spec fn well_formed(&self) -> bool {
        &&& self.head.well_formed()
        &&& self.cont.well_formed()
        &&& forall|key: Seq<u8>| #[trigger]
            self.head@.contains_key(key) ==> key.len() <= self.max_head_len
        &&& forall|key: Seq<u8>| #[trigger]
            self.cont@.contains_key(key) ==> key.len() <= self.max_cont_len
    }

    /// The pieces that may start a word.
    pub closed spec fn head_map(&self) -> Map<Seq<u8>, u32> {
        self.head@
    }

    /// The pieces that continue a word, without the prefix.
    pub closed spec fn cont_map(&self) -> Map<Seq<u8>, u32> {
        self.cont@
    }

    /// The unknown token.
    pub closed spec fn unk_token(&self) -> TokenId {
        self.unk
    }

    /// The longest word, in characters, that is segmented.
    pub closed spec fn max_chars(&self) -> nat {
        self.max_input_chars_per_word as nat
    }

    /// The continuing prefix.
    pub closed spec fn prefix_text(&self) -> Seq<char> {
        self.prefix@
    }

    /// The tokens of a word.
    pub open spec fn tokens(&self, bytes: Seq<u8>) -> Seq<u32> {
        word_tokens(
            self.head_map(),
            self.cont_map(),
            self.unk_token().0,
            self.max_chars(),
            bytes,
        )
    }

    /// Builds the model of a vocabulary. It fails exactly where the vocabulary
    /// lacks its unknown token.
    pub fn new(
        vocab: &Vec<(String, TokenId)>,
        unk_token: &str,
        continuing_subword_prefix: &str,
        max_input_chars_per_word: usize,
    ) -> (res: Result<WordPiece, LoadError>)
        ensures
            match res {
                Ok(model) => {
                    &&& model.well_formed()
                    &&& id_of(vocab@, unk_token@, vocab@.len()) == Some(model.unk_token().0)
                    &&& model.head_map() == head_pieces(
                        vocab@,
                        encode_utf8(continuing_subword_prefix@),
                        vocab@.len(),
                    )
                    &&& model.cont_map() == cont_pieces(
                        vocab@,
                        encode_utf8(continuing_subword_prefix@),
                        vocab@.len(),
                    )
                    &&& model.max_chars() == max_input_chars_per_word
                    &&& model.prefix_text() == continuing_subword_prefix@
                },
                Err(e) => {
                    &&& id_of(vocab@, unk_token@, vocab@.len()) is None
                    &&& e matches LoadError::MissingUnkToken { unk_token: t } && t@ == unk_token@
                },
            },
    {
        let unk_name = unk_token.to_owned();
        let prefix = continuing_subword_prefix.as_bytes();
        let mut head = ByteMap::with_capacity(vocab.len());
        let mut cont = ByteMap::with_capacity(vocab.len());
        let mut unk: Option<TokenId> = None;
        let mut max_head_len: usize = 0;
        let mut max_cont_len: usize = 0;
        let mut i: usize = 0;
        while i < vocab.len()
            invariant
                i <= vocab@.len(),
                unk_name@ == unk_token@,
                prefix@ == encode_utf8(continuing_subword_prefix@),
                head.well_formed(),
                cont.well_formed(),
                head@ == head_pieces(vocab@, prefix@, i as nat),
                cont@ == cont_pieces(vocab@, prefix@, i as nat),
                forall|key: Seq<u8>| #[trigger]
                    head@.contains_key(key) ==> key.len() <= max_head_len,
                forall|key: Seq<u8>| #[trigger]
                    cont@.contains_key(key) ==> key.len() <= max_cont_len,
                id_of(vocab@, unk_token@, i as nat) == (match unk {
                    Some(id) => Some(id.0),
                    None => None,
                }),
            decreases vocab@.len() - i,
        {
            let piece = vocab[i].0.as_str();
            let id = vocab[i].1;
            if vocab[i].0 == unk_name {
                unk = Some(id);
            }
            let bytes = piece.as_bytes();
            let continues = starts_with(bytes, prefix);
            if prefix.len() == 0 || !continues {
                if max_head_len < bytes.len() {
                    max_head_len = bytes.len();
                }
                head.insert(slice_to_vec(bytes), id.0);
            }
            if continues {
                let rest = slice_subrange(bytes, prefix.len(), bytes.len());
                if max_cont_len < rest.len() {
                    max_cont_len = rest.len();
                }
                cont.insert(slice_to_vec(rest), id.0);
            }
            i += 1;
        }
        match unk {
            None => Err(LoadError::MissingUnkToken { unk_token: unk_name }),
            Some(unk) => Ok(
                WordPiece {
                    head,
                    cont,
                    unk,
                    max_head_len,
                    max_cont_len,
                    max_input_chars_per_word,
                    prefix: continuing_subword_prefix.to_owned(),
                },
            ),
        }
    }

    /// The continuing prefix.
    pub fn prefix(&self) -> (res: &str)
        ensures
            res@ == self.prefix_text(),
    {
        self.prefix.as_str()
    }

    /// The unknown token.
    pub fn unk_id(&self) -> (res: TokenId)
        ensures
            res == self.unk_token(),
    {
        self.unk
    }

    /// Appends the tokens of one word to `out` and returns how many there are.
    pub fn encode_unit(&self, bytes: &[u8], out: &mut Vec<TokenId>) -> (n: usize)
        requires
            self.well_formed(),
        ensures
            numbers(final(out)@) == numbers(old(out)@) + self.tokens(bytes@),
            n == self.tokens(bytes@).len(),
    {
        let ghost before = out@;
        if bytes.len() == 0 {
            assert(numbers(out@) =~= numbers(before) + Seq::<u32>::empty());
            return 0;
        }
        if count_chars(bytes) > self.max_input_chars_per_word {
            out.push(self.unk);
            assert(numbers(out@) =~= numbers(before) + seq![self.unk.0]);
            return 1;
        }
        let mark: usize = out.len();
        let len: usize = bytes.len();
        let mut start: usize = 0;
        assert(numbers(out@.subrange(mark as int, mark as int)) + segmentation(
            self.head@,
            self.cont@,
            bytes@,
            0,
        ).unwrap_or(Seq::empty()) =~= segmentation(
            self.head@,
            self.cont@,
            bytes@,
            0,
        ).unwrap_or(Seq::empty()));
        while start < len
            invariant
                self.well_formed(),
                len == bytes@.len(),
                len > 0,
                char_count(bytes@) <= self.max_input_chars_per_word,
                before == old(out)@,
                start <= len,
                mark == before.len(),
                mark <= out@.len(),
                out@.subrange(0, mark as int) == before,
                match segmentation(self.head@, self.cont@, bytes@, 0) {
                    None => segmentation(self.head@, self.cont@, bytes@, start as int) is None,
                    Some(all) => {
                        &&& segmentation(self.head@, self.cont@, bytes@, start as int) matches Some(
                            rest,
                        )
                        &&& all == numbers(out@.subrange(mark as int, out@.len() as int)) + rest
                    },
                },
            decreases len - start,
        {
            let at_head = start == 0;
            let cap: usize = if at_head {
                self.max_head_len
            } else {
                self.max_cont_len
            };
            let ghost pieces = if at_head {
                self.head@
            } else {
                self.cont@
            };
            let mut end: usize = if len - start > cap {
                start + cap
            } else {
                len
            };
            proof {
                if len - start > cap {
                    lemma_longest_cap(pieces, bytes@, start as int, len as int, cap as int);
                }
            }
            let mut matched: Option<u32> = None;
            while start < end && matched.is_none()
                invariant
                    self.well_formed(),
                    at_head == (start == 0),
                    pieces == (if at_head {
                        self.head@
                    } else {
                        self.cont@
                    }),
                    len == bytes@.len(),
                    start <= end <= len,
                    match matched {
                        None => longest_piece(pieces, bytes@, start as int, len as int)
                            == longest_piece(pieces, bytes@, start as int, end as int),
                        Some(id) => {
                            &&& start < end
                            &&& longest_piece(pieces, bytes@, start as int, len as int) == Some(
                                end as int,
                            )
                            &&& id == pieces[bytes@.subrange(start as int, end as int)]
                        },
                    },
                decreases
                        end - start + (if matched is None {
                            1int
                        } else {
                            0int
                        }),
            {
                let candidate = slice_subrange(bytes, start, end);
                let found = if at_head {
                    self.head.get(candidate)
                } else {
                    self.cont.get(candidate)
                };
                match found {
                    Some(id) => {
                        matched = Some(id);
                    },
                    None => {
                        end -= 1;
                    },
                }
            }
            match matched {
                Some(id) => {
                    let ghost so_far = out@;
                    out.push(TokenId(id));
                    proof {
                        assert(out@.subrange(0, mark as int) =~= so_far.subrange(0, mark as int));
                        if let Some(rest) = segmentation(
                            self.head@,
                            self.cont@,
                            bytes@,
                            end as int,
                        ) {
                            assert(numbers(so_far.subrange(mark as int, so_far.len() as int)) + (
                            seq![id] + rest) =~= numbers(
                                out@.subrange(mark as int, out@.len() as int),
                            ) + rest);
                        }
                    }
                    start = end;
                },
                None => {
                    out.truncate(mark);
                    assert(out@ =~= before);
                    out.push(self.unk);
                    assert(numbers(out@) =~= numbers(before) + seq![self.unk.0]);
                    return 1;
                },
            }
        }
        proof {
            let all = segmentation(self.head@, self.cont@, bytes@, 0).unwrap();
            assert(all =~= numbers(out@.subrange(mark as int, out@.len() as int)));
            assert(numbers(out@) =~= numbers(before) + all);
        }
        out.len() - mark
    }
}

fn count_chars(bytes: &[u8]) -> (n: usize)
    ensures
        n == char_count(bytes@),
{
    let mut n: usize = 0;
    let mut i: usize = 0;
    assert(bytes@.take(0) =~= Seq::<u8>::empty());
    while i < bytes.len()
        invariant
            i <= bytes@.len(),
            n <= i,
            n == char_count(bytes@.take(i as int)),
        decreases bytes@.len() - i,
    {
        assert(bytes@.take(i + 1).drop_last() =~= bytes@.take(i as int));
        let b: u8 = bytes[i];
        if b < 0x80 || b >= 0xC0 {
            n += 1;
        }
        i += 1;
    }
    assert(bytes@.take(bytes@.len() as int) =~= bytes@);
    n
}

} // verus!
