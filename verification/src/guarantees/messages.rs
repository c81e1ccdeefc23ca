//! What is said where something is refused.

use crate::error;
use crate::error::LoadError;
use crate::load_tokenizer::detect;
use crate::load_tokenizer::hf;
use crate::load_tokenizer::json;
use crate::load_tokenizer::schema::{NormalizerJson, TokenizerJson};
use crate::load_tokenizer::sentencepiece;
use crate::text;
use crate::train;
use crate::train::ErrorKind;
use vstd::prelude::*;

verus! {

/// The messages of errors name what is at fault.
pub proof fn law_error_messages(e: LoadError, family: Seq<char>)
    ensures
        error::unsupported(family) == "Unsupported model type \""@ + family
            + "\": gigatoken supports BPE tokenizers (byte-level, or SentencePiece-style with byte_fallback) and WordPiece"@,
        e matches LoadError::UnsupportedFamily { family: f } ==> e.text()
            == "Unsupported model type \""@ + f@
            + "\": gigatoken supports BPE tokenizers (byte-level, or SentencePiece-style with byte_fallback) and WordPiece"@,
        e matches LoadError::MissingUnkToken { unk_token } ==> e.text()
            == "WordPiece vocab does not contain its unk_token "@ + text::debug_form(unk_token@),
        e matches LoadError::MissingByteToken { byte } ==> e.text() == "no token for byte "@
            + text::decimal(byte as nat),
        e matches LoadError::Malformed { detail } ==> e.text()
            == "Failed to parse tokenizer JSON: "@ + detail@,
        e matches LoadError::Refused { reason } ==> e.text() == reason@,
{
}

/// A message about a field has its name between backquotes.
pub proof fn law_field_messages(message: Seq<char>, name: Seq<char>)
    ensures
        json::about(message, name) == message + seq!['`'] + name + seq!['`'],
{
    reveal_strlit("`");
    assert("`"@ =~= seq!['`']);
}

/// What a file is refused with names the type that is at fault.
pub proof fn law_refusals(tj: TokenizerJson, n: NormalizerJson)
    ensures
        tj.model.model_type@ != "BPE"@ ==> hf::bpe_fault(tj) == Some(
            "Unsupported model type: "@ + tj.model.model_type@ + " (expected BPE)"@,
        ),
        tj.model.unk_token is None ==> hf::wordpiece_fault(tj) == Some(
            "WordPiece model without an `unk_token`"@,
        ),
        n.kind@ != "NFC"@ && n.kind@ != "Sequence"@ ==> detect::nfc_setting(Some(n)) == Err::<
            bool,
            Seq<char>,
        >("Unsupported normalizer type: "@ + n.kind@),
        n.kind@ != "BertNormalizer"@ && n.kind@ != "Sequence"@ ==> (detect::bert_setting(Some(n))
            matches Err(e) && e == "Unsupported normalizer type for WordPiece tokenizers: "@
            + n.kind@),
        tj.model.model_type@ != "BPE"@ ==> sentencepiece::sp_fault(tj) == Some(
            "Unsupported model type: "@ + tj.model.model_type@ + " (expected BPE)"@,
        ),
{
}

/// A wrong transition point is told with both numbers in decimal.
pub proof fn law_transition_message(point: usize, size: usize)
    requires
        point > size,
    ensures
        train::transition_fault(point, size) == Some(
            (
                ErrorKind::Value,
                "transition_point ("@ + text::decimal(point as nat) + ") must be <= vocab_size ("@
                    + text::decimal(size as nat) + ")"@,
            ),
        ),
{
}

/// A list is shown between brackets, its items apart by a comma and a space.
pub proof fn law_shown_list(items: Seq<Seq<char>>, item: Seq<char>)
    ensures
        text::debug_list(Seq::empty()) == seq!['[', ']'],
        text::debug_list(seq![item]) == seq!['['] + text::debug_form(item) + seq![']'],
        items.len() > 0 ==> text::debug_list(items.push(item)) == text::debug_list(
            items,
        ).drop_last() + seq![',', ' '] + text::debug_form(item) + seq![']'],
{
    reveal_strlit("[");
    reveal_strlit("]");
    reveal_strlit(", ");
    assert("["@ =~= seq!['[']);
    assert("]"@ =~= seq![']']);
    assert(", "@ =~= seq![',', ' ']);
    assert(text::debug_list(Seq::empty()) =~= seq!['[', ']']);
    if items.len() > 0 {
        let more = items.push(item);
        lemma_items(items, more, items.len());
        let shown = text::debug_items(items, items.len());
        assert(more[items.len() as int] == item);
        assert(text::debug_list(items).drop_last() =~= seq!['['] + shown);
        assert(text::debug_list(more) =~= text::debug_list(items).drop_last() + seq![',', ' ']
            + text::debug_form(item) + seq![']']);
    }
}

proof fn lemma_items(items: Seq<Seq<char>>, more: Seq<Seq<char>>, n: nat)
    requires
        n <= items.len() <= more.len(),
        forall|i: int| 0 <= i < items.len() ==> items[i] == more[i],
    ensures
        text::debug_items(items, n) == text::debug_items(more, n),
    decreases n,
{
    if n > 0 {
        lemma_items(items, more, (n - 1) as nat);
    }
}

} // verus!
