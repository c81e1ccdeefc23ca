//! Schemes whose pieces tile the text.

use vstd::prelude::*;

verus! {

/// A scheme that cuts any text into consecutive pieces, each decided by where
/// it starts.
pub trait Scheme: Sized {
    /// The scheme's own invariant.
    spec fn valid(&self) -> bool;

    /// The end of the piece that starts at `pos`.
    spec fn end_of(bytes: Seq<u8>, pos: int) -> int;

    /// A piece is nonempty and lies within the text.
    proof fn lemma_end_of(bytes: Seq<u8>, pos: int)
        requires
            0 <= pos < bytes.len(),
        ensures
            pos < Self::end_of(bytes, pos) <= bytes.len(),
    ;

    /// The scheme.
    fn create() -> (scheme: Self)
        ensures
            scheme.valid(),
    ;

    /// The end of the piece that starts at `pos`.
    fn advance(&self, bytes: &[u8], pos: usize) -> (end: usize)
        requires
            self.valid(),
            pos < bytes@.len(),
        ensures
            end == Self::end_of(bytes@, pos as int),
            pos < end <= bytes@.len(),
    ;
}

} // verus!
