//! The tokens of single bytes.

use super::merge;
use crate::error::LoadError;
use vstd::prelude::*;
use vstd::utf8::*;

verus! {

/// Whether a byte can occur in well-formed UTF-8.
pub open spec fn utf8_legal(b: int) -> bool {
    0 <= b <= 0xBF || 0xC2 <= b <= 0xF4
}

/// The first token among entries `i` onwards that is the single byte `b`.
pub open spec fn byte_token_from(vocab: Seq<Seq<u8>>, b: u8, i: int) -> Option<u32>
    decreases vocab.len() - i,
{
    if i < 0 || i >= vocab.len() || i > u32::MAX {
        None
    } else if vocab[i] == seq![b] {
        Some(i as u32)
    } else {
        byte_token_from(vocab, b, i + 1)
    }
}

/// The token of a single byte.
pub open spec fn byte_token(vocab: Seq<Seq<u8>>, b: u8) -> Option<u32> {
    byte_token_from(vocab, b, 0)
}

/// The tokens that the bytes of a text start out as. A byte without a token of
/// its own, which well-formed text does not hold, gives none.
pub open spec fn byte_tokens(ids: Seq<Option<u32>>, bytes: Seq<u8>) -> Seq<u32>
    decreases bytes.len(),
{
    if bytes.len() == 0 {
        Seq::empty()
    } else {
        let before = byte_tokens(ids, bytes.drop_last());
        match ids[bytes.last() as int] {
            Some(id) => before.push(id),
            None => before,
        }
    }
}

/// Whether byte tokens spell their bytes.
pub open spec fn bytes_spell(ids: Seq<Option<u32>>, vocab: Seq<Seq<u8>>) -> bool {
    forall|b: u8|
        (#[trigger] ids[b as int]) matches Some(id) ==> merge::bytes_of(vocab, id) == seq![b]
}

/// Byte tokens spell the text that they are made of, where every byte has one.
pub proof fn lemma_byte_tokens_text(ids: Seq<Option<u32>>, vocab: Seq<Seq<u8>>, text: Seq<u8>)
    requires
        bytes_spell(ids, vocab),
        forall|i: int| 0 <= i < text.len() ==> ids[(#[trigger] text[i]) as int] is Some,
    ensures
        merge::text_of(vocab, byte_tokens(ids, text)) == text,
    decreases text.len(),
{
    if text.len() > 0 {
        let head = text.drop_last();
        assert forall|i: int| 0 <= i < head.len() implies ids[(#[trigger] head[i]) as int]
            is Some by {
            assert(text[i] == head[i]);
        }
        lemma_byte_tokens_text(ids, vocab, head);
        let b = text.last();
        assert(text[text.len() - 1] == b);
        let id = ids[b as int]->0;
        let before = byte_tokens(ids, head);
        assert(before.push(id).drop_last() =~= before);
        assert(head + seq![b] =~= text);
    } else {
        assert(text =~= Seq::<u8>::empty());
    }
}

/// Byte tokens spell something.
pub proof fn lemma_byte_tokens_spell(ids: Seq<Option<u32>>, vocab: Seq<Seq<u8>>, text: Seq<u8>)
    requires
        bytes_spell(ids, vocab),
    ensures
        merge::all_spell(vocab, byte_tokens(ids, text)),
    decreases text.len(),
{
    if text.len() > 0 {
        lemma_byte_tokens_spell(ids, vocab, text.drop_last());
    }
}

/// The tokens of single bytes.
#[derive(Debug)]
pub struct ByteRemapping {
    ids: Vec<Option<u32>>,
}

impl ByteRemapping {
    /// There is an entry for every byte.
    pub closed spec fn well_formed(&self) -> bool {
        self.ids@.len() == 256
    }

    /// The token of each byte.
    pub closed spec fn ids(&self) -> Seq<Option<u32>> {
        self.ids@
    }

    /// Finds the tokens of single bytes in a vocabulary. It fails exactly where
    /// a byte that can occur in well-formed UTF-8 has none, with the first such
    /// byte.
    pub fn from_byte_vocab(vocab: &Vec<Vec<u8>>) -> (res: Result<ByteRemapping, LoadError>)
        ensures
            match res {
                Ok(map) => {
                    &&& map.well_formed()
                    &&& forall|b: u8| #[trigger]
                        map.ids()[b as int] == byte_token(
                            crate::bpe::superword::views(vocab@),
                            b,
                        )
                    &&& forall|b: u8| utf8_legal(b as int) ==> #[trigger] map.ids()[b as int] is Some
                },
                Err(e) => {
                    &&& e matches LoadError::MissingByteToken { byte }
                    &&& utf8_legal(byte as int)
                    &&& byte_token(crate::bpe::superword::views(vocab@), byte) is None
                    &&& forall|b: u8|
                        b < byte && utf8_legal(b as int) ==> #[trigger] byte_token(
                            crate::bpe::superword::views(vocab@),
                            b,
                        ) is Some
                },
            },
    {
        let ghost views = crate::bpe::superword::views(vocab@);
        let mut ids: Vec<Option<u32>> = Vec::new();
        let mut next: usize = 0;
        while next < 256
            invariant
                views == crate::bpe::superword::views(vocab@),
                next <= 256,
                ids@.len() == next,
                forall|b: u8|
                    b < next ==> #[trigger] ids@[b as int] == byte_token(views, b) && (utf8_legal(
                        b as int,
                    ) ==> ids@[b as int] is Some),
            decreases 256 - next,
        {
            let byte: u8 = next as u8;
            let id = find_byte(vocab, byte);
            let legal = byte <= 0xBF || (0xC2 <= byte && byte <= 0xF4);
            if legal && id.is_none() {
                assert forall|b: u8| b < byte && utf8_legal(b as int) implies #[trigger] byte_token(
                    views,
                    b,
                ) is Some by {
                    assert(ids@[b as int] == byte_token(views, b));
                }
                return Err(LoadError::MissingByteToken { byte });
            }
            ids.push(id);
            next += 1;
        }
        Ok(ByteRemapping { ids })
    }

    /// Appends the tokens that the bytes of a text start out as.
    pub fn append(&self, bytes: &[u8], out: &mut Vec<u32>)
        requires
            self.well_formed(),
        ensures
            final(out)@ == old(out)@ + byte_tokens(self.ids(), bytes@),
    {
        let ghost before = out@;
        let mut i: usize = 0;
        assert(bytes@.take(0) =~= Seq::<u8>::empty());
        assert(before + Seq::<u32>::empty() =~= before);
        while i < bytes.len()
            invariant
                self.well_formed(),
                i <= bytes@.len(),
                out@ == before + byte_tokens(self.ids(), bytes@.take(i as int)),
            decreases bytes@.len() - i,
        {
            assert(bytes@.take(i + 1).drop_last() =~= bytes@.take(i as int));
            match self.ids[bytes[i] as usize] {
                Some(id) => {
                    let ghost so_far = out@;
                    out.push(id);
                    assert(out@ =~= before + byte_tokens(
                        self.ids(),
                        bytes@.take(i as int),
                    ).push(id));
                },
                None => {},
            }
            i += 1;
        }
        assert(bytes@.take(bytes@.len() as int) =~= bytes@);
    }
}

fn find_byte(vocab: &Vec<Vec<u8>>, byte: u8) -> (res: Option<u32>)
    ensures
        res == byte_token(crate::bpe::superword::views(vocab@), byte),
{
    let ghost views = crate::bpe::superword::views(vocab@);
    let mut i: usize = 0;
    while i < vocab.len() && i <= 0xFFFF_FFFF
        invariant
            views == crate::bpe::superword::views(vocab@),
            i <= vocab@.len(),
            byte_token(views, byte) == byte_token_from(views, byte, i as int),
        decreases vocab@.len() - i,
    {
        if vocab[i].len() == 1 && vocab[i][0] == byte {
            assert(vocab@[i as int]@ =~= seq![byte]);
            return Some(i as u32);
        }
        assert(views[i as int] != seq![byte]) by {
            assert(seq![byte].len() == 1 && seq![byte][0] == byte);
        }
        i += 1;
    }
    None
}

/// The tokens of a text are those of its parts.
pub proof fn lemma_byte_tokens_concat(ids: Seq<Option<u32>>, a: Seq<u8>, b: Seq<u8>)
    ensures
        byte_tokens(ids, a + b) == byte_tokens(ids, a) + byte_tokens(ids, b),
    decreases b.len(),
{
    if b.len() == 0 {
        assert(a + b =~= a);
        assert(byte_tokens(ids, a) + byte_tokens(ids, b) =~= byte_tokens(ids, a));
    } else {
        assert((a + b).drop_last() =~= a + b.drop_last());
        lemma_byte_tokens_concat(ids, a, b.drop_last());
        if let Some(id) = ids[b.last() as int] {
            assert((byte_tokens(ids, a) + byte_tokens(ids, b.drop_last())).push(id) =~= byte_tokens(
                ids,
                a,
            ) + byte_tokens(ids, b.drop_last()).push(id));
        }
    }
}

proof fn lemma_leads(b1: u8, b2: u8, b3: u8, b4: u8)
    by (bit_vector)
    ensures
        b1 == 0xC0 || b1 == 0xC1 ==> codepoint_width_2(b1, b2) < 0x80,
        0xF5 <= b1 <= 0xF7 ==> codepoint_width_4(b1, b2, b3, b4) > 0x10FFFF,
{
}

/// Well-formed text holds no other bytes.
pub proof fn law_text_is_legal(text: Seq<u8>, i: int)
    requires
        valid_utf8(text),
        0 <= i < text.len(),
    ensures
        utf8_legal(text[i] as int),
    decreases text.len(),
{
    let b2 = if text.len() > 1 {
        text[1]
    } else {
        0
    };
    let b3 = if text.len() > 2 {
        text[2]
    } else {
        0
    };
    let b4 = if text.len() > 3 {
        text[3]
    } else {
        0
    };
    lemma_leads(text[0], b2, b3, b4);
    let n = length_of_first_scalar(text);
    if i >= n {
        law_text_is_legal(pop_first_scalar(text), i - n);
    }
}

/// The token of a byte is an entry that is the byte.
pub proof fn lemma_byte_token(vocab: Seq<Seq<u8>>, b: u8, i: int)
    requires
        0 <= i,
    ensures
        byte_token_from(vocab, b, i) matches Some(id) ==> id < vocab.len() && vocab[id as int]
            == seq![b],
    decreases vocab.len() - i,
{
    if i < vocab.len() && i <= u32::MAX && vocab[i] != seq![b] {
        lemma_byte_token(vocab, b, i + 1);
    }
}

} // verus!
