//! A hash table keyed by byte strings.

use vstd::prelude::*;

verus! {

/// The hash of a byte string.
pub open spec fn hash_of(key: Seq<u8>) -> nat
    decreases key.len(),
{
    if key.len() == 0 {
        7
    } else {
        ((hash_of(key.drop_last()) * 31 + key.last()) % 2147483647) as nat
    }
}

fn hash_bytes(key: &[u8]) -> (h: u64)
    ensures
        h == hash_of(key@),
        h < 2147483647,
{
    let mut h: u64 = 7;
    let mut i: usize = 0;
    assert(key@.take(0) =~= Seq::<u8>::empty());
    while i < key.len()
        invariant
            i <= key@.len(),
            h == hash_of(key@.take(i as int)),
            h < 2147483647,
        decreases key@.len() - i,
    {
        assert(key@.take(i + 1).drop_last() =~= key@.take(i as int));
        h = (h * 31 + key[i] as u64) % 2147483647;
        i += 1;
    }
    assert(key@.take(key@.len() as int) =~= key@);
    h
}

/// Are two byte strings equal?
pub fn same_bytes(a: &[u8], b: &[u8]) -> (res: bool)
    ensures
        res == (a@ == b@),
{
    if a.len() != b.len() {
        return false;
    }
    let mut i: usize = 0;
    while i < a.len()
        invariant
            i <= a@.len(),
            a@.len() == b@.len(),
            forall|k: int| 0 <= k < i ==> a@[k] == b@[k],
        decreases a@.len() - i,
    {
        if a[i] != b[i] {
            return false;
        }
        i += 1;
    }
    assert(a@ =~= b@);
    true
}

/// The value under `key` among the entries from index `i` on.
pub open spec fn find_from(entries: Seq<(Vec<u8>, u32)>, key: Seq<u8>, i: int) -> Option<u32>
    decreases entries.len() - i,
{
    if i < 0 || i >= entries.len() {
        None
    } else if entries[i].0@ == key {
        Some(entries[i].1)
    } else {
        find_from(entries, key, i + 1)
    }
}

proof fn lemma_find_push(entries: Seq<(Vec<u8>, u32)>, e: (Vec<u8>, u32), key: Seq<u8>, i: int)
    requires
        0 <= i <= entries.len(),
    ensures
        find_from(entries.push(e), key, i) == (match find_from(entries, key, i) {
            Some(v) => Some(v),
            None => if e.0@ == key {
                Some(e.1)
            } else {
                None
            },
        }),
    decreases entries.len() - i,
{
    reveal_with_fuel(find_from, 2);
    if i < entries.len() && entries[i].0@ != key {
        lemma_find_push(entries, e, key, i + 1);
    }
}

proof fn lemma_find_update(
    entries: Seq<(Vec<u8>, u32)>,
    j: int,
    e: (Vec<u8>, u32),
    key: Seq<u8>,
    i: int,
)
    requires
        0 <= i <= entries.len(),
        0 <= j < entries.len(),
        entries[j].0@ == e.0@,
        forall|k: int| 0 <= k < j ==> entries[k].0@ != e.0@,
    ensures
        find_from(entries.update(j, e), key, i) == (if key == e.0@ && i <= j {
            Some(e.1)
        } else {
            find_from(entries, key, i)
        }),
    decreases entries.len() - i,
{
    if i < entries.len() {
        lemma_find_update(entries, j, e, key, i + 1);
    }
}

proof fn lemma_absent(entries: Seq<(Vec<u8>, u32)>, key: Seq<u8>, i: int)
    requires
        0 <= i,
        forall|j: int| 0 <= j < entries.len() ==> (#[trigger] entries[j]).0@ != key,
    ensures
        find_from(entries, key, i) is None,
    decreases entries.len() - i,
{
    if i < entries.len() {
        lemma_absent(entries, key, i + 1);
    }
}

/// A map from byte strings to numbers.
#[derive(Debug)]
pub struct ByteMap {
    buckets: Vec<Vec<(Vec<u8>, u32)>>,
}

impl ByteMap {
    /// There is at least one bucket.
    pub closed spec fn well_formed(&self) -> bool {
        self.buckets@.len() > 0
    }

    spec fn bucket(&self, key: Seq<u8>) -> int {
        hash_of(key) as int % self.buckets@.len() as int
    }

    /// The value under a key.
    pub closed spec fn lookup(&self, key: Seq<u8>) -> Option<u32> {
        find_from(self.buckets@[self.bucket(key)]@, key, 0)
    }

    /// An empty map with room for about `capacity` entries.
    pub fn with_capacity(capacity: usize) -> (map: Self)
        ensures
            map.well_formed(),
            map@ == Map::<Seq<u8>, u32>::empty(),
    {
        let mut buckets: Vec<Vec<(Vec<u8>, u32)>> = Vec::new();
        buckets.push(Vec::new());
        let mut i: usize = 1;
        while i < capacity
            invariant
                i >= 1,
                buckets@.len() == i,
                forall|k: int| 0 <= k < buckets@.len() ==> (#[trigger] buckets@[k])@.len() == 0,
            decreases capacity - i,
        {
            buckets.push(Vec::new());
            i += 1;
        }
        let map = ByteMap { buckets };
        assert forall|key: Seq<u8>| map.lookup(key) is None by {
            assert(0 <= map.bucket(key) < map.buckets@.len());
        }
        assert(map@ =~= Map::<Seq<u8>, u32>::empty());
        map
    }

    fn bucket_of(&self, key: &[u8]) -> (b: usize)
        requires
            self.well_formed(),
        ensures
            b == self.bucket(key@),
            b < self.buckets@.len(),
    {
        let n: usize = self.buckets.len();
        (hash_bytes(key) % n as u64) as usize
    }

    /// The value under a key.
    pub fn get(&self, key: &[u8]) -> (res: Option<u32>)
        requires
            self.well_formed(),
        ensures
            res == (if self@.contains_key(key@) {
                Some(self@[key@])
            } else {
                None
            }),
    {
        let b: usize = self.bucket_of(key);
        let entries = &self.buckets[b];
        let mut i: usize = 0;
        while i < entries.len()
            invariant
                i <= entries@.len(),
                self.lookup(key@) == find_from(entries@, key@, 0),
                find_from(entries@, key@, 0) == find_from(entries@, key@, i as int),
            decreases entries@.len() - i,
        {
            if same_bytes(&entries[i].0, key) {
                return Some(entries[i].1);
            }
            i += 1;
        }
        None
    }

    /// Puts a value under a key, in place of one already there.
    pub fn insert(&mut self, key: Vec<u8>, value: u32)
        requires
            old(self).well_formed(),
        ensures
            final(self).well_formed(),
            final(self)@ == old(self)@.insert(key@, value),
    {
        let b: usize = self.bucket_of(&key);
        let ghost before = *self;
        let ghost k = key@;
        let ghost entries = self.buckets@[b as int]@;
        let mut i: usize = 0;
        while i < self.buckets[b].len() && !same_bytes(&self.buckets[b][i].0, &key)
            invariant
                *self == before,
                b < self.buckets@.len(),
                entries == self.buckets@[b as int]@,
                i <= entries.len(),
                forall|j: int| 0 <= j < i ==> (#[trigger] entries[j]).0@ != key@,
            decreases entries.len() - i,
        {
            i += 1;
        }
        if i < self.buckets[b].len() {
            self.buckets[b][i] = (key, value);
        } else {
            self.buckets[b].push((key, value));
        }
        proof {
            assert forall|other: Seq<u8>| #[trigger] self.lookup(other) == (if other == k {
                Some(value)
            } else {
                before.lookup(other)
            }) by {
                assert(self.bucket(other) == before.bucket(other));
                if i < entries.len() {
                    lemma_find_update(entries, i as int, (key, value), other, 0);
                } else {
                    lemma_find_push(entries, (key, value), other, 0);
                    if other == k {
                        lemma_absent(entries, k, 0);
                    }
                }
            }
            assert(self@ =~= before@.insert(k, value));
        }
    }
}

impl View for ByteMap {
    type V = Map<Seq<u8>, u32>;

    open spec fn view(&self) -> Map<Seq<u8>, u32> {
        Map::new(|key: Seq<u8>| self.lookup(key) is Some, |key: Seq<u8>| self.lookup(key)->0)
    }
}

} // verus!
