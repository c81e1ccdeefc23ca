//! Entries in the order of their numbers.

use itertools::Itertools;
use vstd::prelude::*;

verus! {

/// Entries as numbers and bytes.
pub open spec fn views(entries: Seq<(u32, Vec<u8>)>) -> Seq<(u32, Seq<u8>)> {
    Seq::new(entries.len(), |i: int| (entries[i].0, entries[i].1@))
}

/// The entries with a given number, in order.
pub open spec fn with_number(entries: Seq<(u32, Seq<u8>)>, id: u32) -> Seq<(u32, Seq<u8>)> {
    entries.filter(|e: (u32, Seq<u8>)| e.0 == id)
}

/// Whether entries are in the order of their numbers.
pub open spec fn ascending(entries: Seq<(u32, Seq<u8>)>) -> bool {
    forall|i: int, j: int|
        0 <= i <= j < entries.len() ==> (#[trigger] entries[i]).0 <= (#[trigger] entries[j]).0
}

/// Whether `sorted` is `entries` in the order of their numbers, entries of one
/// number in the order in which they came.
pub open spec fn sorts(entries: Seq<(u32, Seq<u8>)>, sorted: Seq<(u32, Seq<u8>)>) -> bool {
    &&& ascending(sorted)
    &&& sorted.to_multiset() == entries.to_multiset()
    &&& forall|id: u32| #[trigger] with_number(sorted, id) == with_number(entries, id)
}

/// `itertools::Itertools::sorted_by_key` with the number as the key: the same
/// entries in the order of the key, equal ones in the order in which they came.
#[verifier::external_body]
pub(crate) fn sorted(entries: Vec<(u32, Vec<u8>)>) -> (res: Vec<(u32, Vec<u8>)>)
    ensures
        sorts(views(entries@), views(res@)),
{
    entries.into_iter().sorted_by_key(|e| e.0).collect()
}

} // verus!
