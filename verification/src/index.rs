//! The reverse index from block hashes to heights.

use std::collections::HashMap;

use vstd::prelude::*;

use crate::encoding::same_hash;
use crate::headers::BlockHash;
use crate::HEADERS_PER_SEGMENT;

verus! {

broadcast use vstd::std_specs::hash::group_hash_axioms;

/// A block hash and the height of its block.
#[derive(Clone, Copy, Debug, PartialEq, Eq)]
pub struct IndexEntry {
    pub hash: BlockHash,
    pub height: u32,
}

/// Reverse index from block hashes to heights.
///
/// Entries stand in the order in which their hashes came in. The buckets tell where the entries
/// are whose hashes begin alike.
#[derive(Debug)]
pub struct HeaderHashIndex {
    pub entries: Vec<IndexEntry>,
    pub buckets: HashMap<u32, Vec<usize>>,
}

/// A map after each pair of a list was put into it, in order.
pub open spec fn with_pairs(map: Map<Seq<u8>, u32>, pairs: Seq<(Seq<u8>, u32)>) -> Map<
    Seq<u8>,
    u32,
>
    decreases pairs.len(),
{
    if pairs.len() == 0 {
        map
    } else {
        with_pairs(map, pairs.drop_last()).insert(pairs.last().0, pairs.last().1)
    }
}

/// The bucket of a hash: its first four bytes.
pub open spec fn bucket_of(hash: BlockHash) -> u32 {
    (hash.bytes@[0] + 0x100 * hash.bytes@[1] + 0x1_0000 * hash.bytes@[2] + 0x100_0000
        * hash.bytes@[3]) as u32
}

impl HeaderHashIndex {
    /// The entries as plain values.
    pub open spec fn pairs(self) -> Seq<(Seq<u8>, u32)> {
        self.entries@.map_values(|entry: IndexEntry| (entry.hash.bytes@, entry.height))
    }

    /// No hash has two entries, and the buckets lead to every entry.
    pub open spec fn wf(self) -> bool {
        &&& forall|i: int, j: int|
            0 <= i < j < self.entries@.len() ==> (#[trigger] self.entries@[i]).hash != (
            #[trigger] self.entries@[j]).hash
        &&& forall|i: int|
            0 <= i < self.entries@.len() ==> {
                let bucket = bucket_of((#[trigger] self.entries@[i]).hash);
                self.buckets@.contains_key(bucket) && self.buckets@[bucket]@.contains(i as usize)
            }
        &&& forall|bucket: u32, k: int|
            self.buckets@.contains_key(bucket) && 0 <= k < self.buckets@[bucket]@.len()
                ==> #[trigger] self.buckets@[bucket]@[k] < self.entries@.len()
    }

    /// Whether the entry at `i` is the one of a hash.
    pub open spec fn holds(self, hash: Seq<u8>, i: int) -> bool {
        0 <= i < self.entries@.len() && self.entries@[i].hash.bytes@ == hash
    }
}

impl View for HeaderHashIndex {
    type V = Map<Seq<u8>, u32>;

    open spec fn view(&self) -> Map<Seq<u8>, u32> {
        with_pairs(Map::empty(), self.pairs())
    }
}

/// Whether the pair at `i` is the last one of a hash.
pub open spec fn is_last_of(pairs: Seq<(Seq<u8>, u32)>, hash: Seq<u8>, i: int) -> bool {
    &&& 0 <= i < pairs.len()
    &&& pairs[i].0 == hash
    &&& forall|j: int| i < j < pairs.len() ==> (#[trigger] pairs[j]).0 != hash
}

/// Whether a hash has no pair.
pub open spec fn lacks(pairs: Seq<(Seq<u8>, u32)>, hash: Seq<u8>) -> bool {
    forall|j: int| 0 <= j < pairs.len() ==> (#[trigger] pairs[j]).0 != hash
}

/// Of several pairs with one hash, the last one counts.
pub proof fn law_last_pair_counts(
    map: Map<Seq<u8>, u32>,
    pairs: Seq<(Seq<u8>, u32)>,
    hash: Seq<u8>,
    i: int,
)
    requires
        is_last_of(pairs, hash, i),
    ensures
        with_pairs(map, pairs).contains_key(hash),
        with_pairs(map, pairs)[hash] == pairs[i].1,
    decreases pairs.len(),
{
    if i < pairs.len() - 1 {
        let front = pairs.drop_last();
        assert(front[i] == pairs[i]);
        assert(pairs[pairs.len() - 1].0 != hash);
        law_last_pair_counts(map, front, hash, i);
    }
}

/// Pairs of other hashes leave a hash alone.
pub proof fn law_other_hashes_unchanged(
    map: Map<Seq<u8>, u32>,
    pairs: Seq<(Seq<u8>, u32)>,
    hash: Seq<u8>,
)
    requires
        lacks(pairs, hash),
    ensures
        with_pairs(map, pairs).contains_key(hash) == map.contains_key(hash),
        map.contains_key(hash) ==> with_pairs(map, pairs)[hash] == map[hash],
    decreases pairs.len(),
{
    if pairs.len() > 0 {
        assert(pairs[pairs.len() - 1].0 != hash);
        assert(lacks(pairs.drop_last(), hash));
        law_other_hashes_unchanged(map, pairs.drop_last(), hash);
    }
}

/// Whether no hash has two pairs.
pub open spec fn distinct_hashes(pairs: Seq<(Seq<u8>, u32)>) -> bool {
    forall|i: int, j: int|
        0 <= i < j < pairs.len() ==> (#[trigger] pairs[i]).0 != (#[trigger] pairs[j]).0
}

/// With distinct hashes, each pair counts.
proof fn lemma_distinct_pair(pairs: Seq<(Seq<u8>, u32)>, i: int)
    requires
        distinct_hashes(pairs),
        0 <= i < pairs.len(),
    ensures
        with_pairs(Map::empty(), pairs).contains_key(pairs[i].0),
        with_pairs(Map::empty(), pairs)[pairs[i].0] == pairs[i].1,
{
    assert(is_last_of(pairs, pairs[i].0, i));
    law_last_pair_counts(Map::empty(), pairs, pairs[i].0, i);
}

/// Distinct hashes are counted one by one.
proof fn lemma_distinct_pairs_len(pairs: Seq<(Seq<u8>, u32)>)
    requires
        distinct_hashes(pairs),
    ensures
        with_pairs(Map::empty(), pairs).dom().finite(),
        with_pairs(Map::empty(), pairs).dom().len() == pairs.len(),
    decreases pairs.len(),
{
    if pairs.len() == 0 {
        assert(with_pairs(Map::empty(), pairs).dom() =~= Set::empty());
    } else {
        let front = pairs.drop_last();
        let hash = pairs.last().0;
        assert(distinct_hashes(front));
        lemma_distinct_pairs_len(front);
        assert(lacks(front, hash)) by {
            assert forall|j: int| 0 <= j < front.len() implies (#[trigger] front[j]).0 != hash by {
                assert(pairs[j].0 != pairs[pairs.len() - 1].0);
            }
        }
        law_other_hashes_unchanged(Map::empty(), front, hash);
        assert(with_pairs(Map::empty(), pairs).dom() =~= with_pairs(
            Map::empty(),
            front,
        ).dom().insert(hash));
    }
}

/// Replacing the height of one of several distinct hashes changes the map there alone.
proof fn lemma_replace_pair(pairs: Seq<(Seq<u8>, u32)>, i: int, height: u32)
    requires
        distinct_hashes(pairs),
        0 <= i < pairs.len(),
    ensures
        with_pairs(Map::empty(), pairs.update(i, (pairs[i].0, height))) == with_pairs(
            Map::empty(),
            pairs,
        ).insert(pairs[i].0, height),
{
    let next = pairs.update(i, (pairs[i].0, height));
    let a = with_pairs(Map::empty(), next);
    let b = with_pairs(Map::empty(), pairs).insert(pairs[i].0, height);
    assert(distinct_hashes(next));
    assert forall|hash: Seq<u8>|
        #![trigger a.contains_key(hash)]
        #![trigger a[hash]]
        a.contains_key(hash) == b.contains_key(hash) && (a.contains_key(hash) ==> a[hash]
            == b[hash]) by {
        if lacks(pairs, hash) {
            assert forall|j: int| 0 <= j < next.len() implies (#[trigger] next[j]).0 != hash by {
                assert(pairs[j].0 != hash);
            }
            law_other_hashes_unchanged(Map::empty(), pairs, hash);
            law_other_hashes_unchanged(Map::empty(), next, hash);
            assert(pairs[i].0 != hash);
        } else {
            let k = choose|k: int| 0 <= k < pairs.len() && (#[trigger] pairs[k]).0 == hash;
            assert(next[k].0 == hash);
            lemma_distinct_pair(pairs, k);
            lemma_distinct_pair(next, k);
            if k < i {
                assert(pairs[k].0 != pairs[i].0);
            } else if i < k {
                assert(pairs[i].0 != pairs[k].0);
            }
        }
    }
    assert(a =~= b);
}

impl HeaderHashIndex {
    proof fn lemma_pairs_distinct(self)
        requires
            self.wf(),
        ensures
            distinct_hashes(self.pairs()),
    {
        assert forall|i: int, j: int| 0 <= i < j < self.pairs().len() implies (
        #[trigger] self.pairs()[i]).0 != (#[trigger] self.pairs()[j]).0 by {
            let a = self.entries@[i].hash;
            let b = self.entries@[j].hash;
            if a.bytes@ == b.bytes@ {
                assert(a.bytes =~= b.bytes);
            }
        }
    }

    /// An empty index.
    pub fn new() -> (index: Self)
        ensures
            index.wf(),
            index@ == Map::<Seq<u8>, u32>::empty(),
    {
        HeaderHashIndex { entries: Vec::new(), buckets: HashMap::new() }
    }

    /// Number of hashes.
    pub fn len(&self) -> (len: usize)
        requires
            self.wf(),
        ensures
            len == self@.dom().len(),
            len == self.pairs().len(),
    {
        proof {
            self.lemma_pairs_distinct();
            lemma_distinct_pairs_len(self.pairs());
        }
        self.entries.len()
    }

    fn bucket(hash: &BlockHash) -> (bucket: u32)
        ensures
            bucket == bucket_of(*hash),
    {
        hash.bytes[0] as u32 + 0x100 * hash.bytes[1] as u32 + 0x1_0000 * hash.bytes[2] as u32
            + 0x100_0000 * hash.bytes[3] as u32
    }

    /// Where the entry of a hash is.
    fn position(&self, hash: &BlockHash) -> (position: Option<usize>)
        requires
            self.wf(),
        ensures
            match position {
                Some(i) => self.holds(hash.bytes@, i as int),
                None => forall|i: int| !self.holds(hash.bytes@, i),
            },
    {
        let bucket: u32 = Self::bucket(hash);
        assert(self.entries@.len() == self.entries.len());
        let found = self.buckets.get(&bucket);
        match found {
            Some(places) => {
                let mut k: usize = 0;
                while k < places.len()
                    invariant
                        k <= places.len(),
                        self.wf(),
                        self.buckets@.contains_key(bucket),
                        places@ == self.buckets@[bucket]@,
                        forall|l: int|
                            0 <= l < k ==> !self.holds(hash.bytes@, (#[trigger] places@[l]) as int),
                    decreases places.len() - k,
                {
                    let i: usize = places[k];
                    assert(self.buckets@[bucket]@[k as int] < self.entries@.len());
                    if same_hash(&self.entries[i].hash.bytes, &hash.bytes) {
                        return Some(i);
                    }
                    proof {
                        let other = self.entries@[i as int].hash.bytes;
                        if other@ == hash.bytes@ {
                            assert(other =~= hash.bytes);
                        }
                    }
                    k += 1;
                }
                proof {
                    assert forall|i: int| !self.holds(hash.bytes@, i) by {
                        if self.holds(hash.bytes@, i) {
                            let other = self.entries@[i].hash;
                            assert(other.bytes =~= hash.bytes);
                            assert(places@.contains(i as usize));
                            let l = choose|l: int|
                                0 <= l < places@.len() && places@[l] == i as usize;
                            assert(!self.holds(hash.bytes@, places@[l] as int));
                        }
                    }
                }
                None
            },
            None => {
                proof {
                    assert forall|i: int| !self.holds(hash.bytes@, i) by {
                        if self.holds(hash.bytes@, i) {
                            let other = self.entries@[i].hash;
                            assert(other.bytes =~= hash.bytes);
                            assert(self.buckets@.contains_key(bucket_of(other)));
                        }
                    }
                }
                None
            },
        }
    }

    /// The height of a block.
    pub fn get(&self, hash: &BlockHash) -> (height: Option<u32>)
        requires
            self.wf(),
        ensures
            match height {
                Some(h) => self@.contains_key(hash.bytes@) && self@[hash.bytes@] == h,
                None => !self@.contains_key(hash.bytes@),
            },
    {
        proof {
            self.lemma_pairs_distinct();
        }
        match self.position(hash) {
            Some(i) => {
                proof {
                    lemma_distinct_pair(self.pairs(), i as int);
                }
                Some(self.entries[i].height)
            },
            None => {
                proof {
                    assert forall|i: int| 0 <= i < self.pairs().len() implies (
                    #[trigger] self.pairs()[i]).0 != hash.bytes@ by {
                        assert(!self.holds(hash.bytes@, i));
                    }
                    law_other_hashes_unchanged(Map::empty(), self.pairs(), hash.bytes@);
                }
                None
            },
        }
    }

    /// Puts the height of a block into the index, in place of an earlier one.
    pub fn insert(&mut self, hash: BlockHash, height: u32)
        requires
            old(self).wf(),
        ensures
            final(self).wf(),
            final(self)@ == old(self)@.insert(hash.bytes@, height),
    {
        proof {
            self.lemma_pairs_distinct();
        }
        match self.position(&hash) {
            Some(i) => {
                proof {
                    lemma_replace_pair(self.pairs(), i as int, height);
                    let other = self.entries@[i as int].hash;
                    assert(other.bytes =~= hash.bytes);
                }
                self.entries.set(i, IndexEntry { hash, height });
                assert(self.pairs() =~= old(self).pairs().update(
                    i as int,
                    (hash.bytes@, height),
                ));
            },
            None => {
                let bucket: u32 = Self::bucket(&hash);
                let at: usize = self.entries.len();
                let mut places: Vec<usize> = match self.buckets.remove(&bucket) {
                    Some(places) => places,
                    None => Vec::new(),
                };
                let ghost places_before = places@;
                places.push(at);
                let ghost places_after = places@;
                self.buckets.insert(bucket, places);
                self.entries.push(IndexEntry { hash, height });
                assert(self.pairs() =~= old(self).pairs().push((hash.bytes@, height)));
                assert(self.pairs().drop_last() =~= old(self).pairs());
                proof {
                    assert forall|i: int, j: int| 0 <= i < j < self.entries@.len() implies (
                    #[trigger] self.entries@[i]).hash != (#[trigger] self.entries@[j]).hash by {
                        assert(!old(self).holds(hash.bytes@, i));
                    }
                    assert forall|i: int| 0 <= i < self.entries@.len() implies {
                        let b = bucket_of((#[trigger] self.entries@[i]).hash);
                        self.buckets@.contains_key(b) && self.buckets@[b]@.contains(i as usize)
                    } by {
                        let b = bucket_of(self.entries@[i].hash);
                        if i < at {
                            assert(self.entries@[i] == old(self).entries@[i]);
                            if b == bucket {
                                let k = choose|k: int|
                                    0 <= k < places_before.len() && places_before[k] == i as usize;
                                assert(places_after[k] == i as usize);
                            }
                        } else {
                            assert(places_after.last() == at);
                        }
                    }
                    assert forall|b: u32, k: int|
                        self.buckets@.contains_key(b) && 0 <= k
                            < self.buckets@[b]@.len() implies #[trigger] self.buckets@[b]@[k]
                        < self.entries@.len() by {
                        if b == bucket {
                            if k < places_before.len() {
                                assert(places_after[k] == places_before[k]);
                                assert(old(self).buckets@.contains_key(b) ==> old(
                                    self,
                                ).buckets@[b]@[k] < old(self).entries@.len());
                            }
                        } else {
                            assert(old(self).buckets@[b]@[k] < old(self).entries@.len());
                        }
                    }
                }
            },
        }
    }
}

/// The pairs of a run of hashes whose blocks stand one above the other, the first one at `first`.
pub open spec fn run_pairs(hashes: Seq<BlockHash>, first: int) -> Seq<(Seq<u8>, u32)> {
    Seq::new(hashes.len(), |i: int| (hashes[i].bytes@, (first + i) as u32))
}

impl HeaderHashIndex {
    /// Puts the blocks of a segment into the index.
    ///
    /// `hashes` are the hashes of the segment's headers, in order, and `sync_base_height` is the
    /// height of the first header of the first segment.
    pub fn index_segment(
        &mut self,
        segment_id: u32,
        hashes: &Vec<BlockHash>,
        sync_base_height: u32,
    )
        requires
            old(self).wf(),
            segment_id * HEADERS_PER_SEGMENT <= u32::MAX,
            hashes@.len() > 0 ==> sync_base_height + segment_id * HEADERS_PER_SEGMENT
                + hashes@.len() - 1 <= u32::MAX,
        ensures
            final(self).wf(),
            final(self)@ == with_pairs(
                old(self)@,
                run_pairs(hashes@, sync_base_height + segment_id * HEADERS_PER_SEGMENT),
            ),
    {
        let storage_start: u32 = segment_id * HEADERS_PER_SEGMENT;
        let ghost first = sync_base_height + storage_start;
        let ghost pairs = run_pairs(hashes@, first);
        let mut offset: usize = 0;
        while offset < hashes.len()
            invariant
                offset <= hashes.len(),
                self.wf(),
                first == sync_base_height + storage_start,
                hashes@.len() > 0 ==> first + hashes@.len() - 1 <= u32::MAX,
                pairs == run_pairs(hashes@, first),
                self@ == with_pairs(old(self)@, pairs.take(offset as int)),
            decreases hashes.len() - offset,
        {
            let storage_index: u32 = storage_start + offset as u32;
            let blockchain_height: u32 = sync_base_height + storage_index;
            self.insert(hashes[offset], blockchain_height);
            offset += 1;
            assert(pairs.take(offset as int).drop_last() =~= pairs.take(offset - 1));
        }
        assert(pairs.take(offset as int) =~= pairs);
    }
}

impl Clone for HeaderHashIndex {
    fn clone(&self) -> (copy: Self)
        ensures
            self.wf() ==> copy.wf(),
            copy.pairs() == self.pairs(),
            copy@ == self@,
    {
        let mut entries: Vec<IndexEntry> = Vec::with_capacity(self.entries.len());
        let mut i: usize = 0;
        while i < self.entries.len()
            invariant
                i <= self.entries.len(),
                entries@ == self.entries@.take(i as int),
            decreases self.entries.len() - i,
        {
            entries.push(self.entries[i]);
            i += 1;
            assert(entries@ =~= self.entries@.take(i as int));
        }
        assert(entries@ =~= self.entries@);
        HeaderHashIndex { entries, buckets: self.buckets.clone() }
    }
}

/// Every block of a run of distinct hashes is found at its height.
pub proof fn law_indexed_blocks_found(
    map: Map<Seq<u8>, u32>,
    hashes: Seq<BlockHash>,
    first: int,
    i: int,
)
    requires
        0 <= i < hashes.len(),
        0 <= first,
        first + hashes.len() - 1 <= u32::MAX,
        forall|j: int| i < j < hashes.len() ==> (#[trigger] hashes[j]).bytes@ != hashes[i].bytes@,
    ensures
        with_pairs(map, run_pairs(hashes, first)).contains_key(hashes[i].bytes@),
        with_pairs(map, run_pairs(hashes, first))[hashes[i].bytes@] == first + i,
{
    let pairs = run_pairs(hashes, first);
    assert(is_last_of(pairs, hashes[i].bytes@, i)) by {
        assert forall|j: int| i < j < pairs.len() implies (#[trigger] pairs[j]).0
            != hashes[i].bytes@ by {
            assert(hashes[j].bytes@ != hashes[i].bytes@);
        }
    }
    law_last_pair_counts(map, pairs, hashes[i].bytes@, i);
}

} // verus!
