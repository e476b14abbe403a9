//! Finding out what is on disk when the storage is opened: the index and the tips.

use vstd::prelude::*;
use vstd::string::*;

use crate::error::StorageError;
use crate::headers::{BlockHash, BlockHeader, FilterHeader};
use crate::index::{
    law_indexed_blocks_found, law_other_hashes_unchanged, run_pairs, with_pairs, HeaderHashIndex,
};
use crate::index_file::{is_index_file, load_index_from_file};
use crate::manager::{DiskStorageManager, StorageModel};
use crate::names::{
    filter_name_readable, filter_segment_id, header_name_readable, header_segment_id,
    read_filter_segment_id, read_header_segment_id,
};
use crate::segment_map::with_placed;
use crate::segments::SegmentCache;
use crate::{HEADERS_PER_SEGMENT, MAX_ACTIVE_SEGMENTS};

verus! {

/// A directory of the storage.
#[derive(Clone, Copy, Debug, PartialEq, Eq, Structural)]
pub enum StorageDirectory {
    Base,
    Headers,
    Filters,
    State,
}

impl StorageDirectory {
    /// Path of the directory below the storage directory.
    pub fn relative_path(self) -> (path: &'static str)
        ensures
            path@ == match self {
                StorageDirectory::Base => ""@,
                StorageDirectory::Headers => "headers"@,
                StorageDirectory::Filters => "filters"@,
                StorageDirectory::State => "state"@,
            },
    {
        match self {
            StorageDirectory::Base => "",
            StorageDirectory::Headers => "headers",
            StorageDirectory::Filters => "filters",
            StorageDirectory::State => "state",
        }
    }

    /// The error of a directory that could not be created.
    pub fn creation_error(self, reason: &str) -> (error: StorageError)
        ensures
            error matches StorageError::WriteFailed(text) && text@ == match self {
                StorageDirectory::Base => "Failed to create directory: "@,
                StorageDirectory::Headers => "Failed to create headers directory: "@,
                StorageDirectory::Filters => "Failed to create filters directory: "@,
                StorageDirectory::State => "Failed to create state directory: "@,
            } + reason@,
    {
        let what = match self {
            StorageDirectory::Base => "Failed to create directory: ",
            StorageDirectory::Headers => "Failed to create headers directory: ",
            StorageDirectory::Filters => "Failed to create filters directory: ",
            StorageDirectory::State => "Failed to create state directory: ",
        };
        let mut text = what.to_owned();
        text.append(reason);
        StorageError::WriteFailed(text)
    }
}

/// The segment numbers that the names in the header directory hold, in order.
pub open spec fn header_ids(names: Seq<String>) -> Seq<u32>
    decreases names.len(),
{
    if names.len() == 0 {
        Seq::empty()
    } else {
        match header_segment_id(names.last()@) {
            Some(id) => header_ids(names.drop_last()).push(id),
            None => header_ids(names.drop_last()),
        }
    }
}

/// The segment numbers that the names in the filter directory hold, in order.
pub open spec fn filter_ids(names: Seq<String>) -> Seq<u32>
    decreases names.len(),
{
    if names.len() == 0 {
        Seq::empty()
    } else {
        match filter_segment_id(names.last()@) {
            Some(id) => filter_ids(names.drop_last()).push(id),
            None => filter_ids(names.drop_last()),
        }
    }
}

/// Whether a number is the greatest of a list, or `None` that of an empty list.
pub open spec fn is_greatest(ids: Seq<u32>, greatest: Option<u32>) -> bool {
    match greatest {
        Some(id) => ids.contains(id) && forall|i: int| 0 <= i < ids.len() ==> #[trigger] ids[i]
            <= id,
        None => ids.len() == 0,
    }
}

/// Whether numbers ascend.
pub open spec fn ascending(ids: Seq<u32>) -> bool {
    forall|i: int, j: int| 0 <= i <= j < ids.len() ==> #[trigger] ids[i] <= #[trigger] ids[j]
}

/// What is to be read when the storage is opened.
#[derive(Debug)]
pub struct MetadataPlan {
    /// Segments to build the index from, in order.
    pub rebuild: Vec<u32>,
    /// The last segment of block headers.
    pub tip_segment: Option<u32>,
    /// The last segment of filter headers.
    pub filter_tip_segment: Option<u32>,
}

fn greatest(ids: &Vec<u32>) -> (greatest: Option<u32>)
    ensures
        is_greatest(ids@, greatest),
{
    if ids.len() == 0 {
        return None;
    }
    let mut max: u32 = ids[0];
    let mut i: usize = 1;
    while i < ids.len()
        invariant
            1 <= i <= ids.len(),
            ids@.contains(max),
            forall|j: int| 0 <= j < i ==> #[trigger] ids@[j] <= max,
        decreases ids.len() - i,
    {
        if ids[i] > max {
            max = ids[i];
        }
        i += 1;
    }
    Some(max)
}

fn sorted(ids: &Vec<u32>) -> (sorted: Vec<u32>)
    ensures
        ascending(sorted@),
        sorted@.to_multiset() == ids@.to_multiset(),
{
    let mut sorted: Vec<u32> = Vec::with_capacity(ids.len());
    let mut i: usize = 0;
    assert(ids@.take(0) =~= sorted@);
    while i < ids.len()
        invariant
            i <= ids.len(),
            sorted@.len() == i,
            ascending(sorted@),
            sorted@.to_multiset() == ids@.take(i as int).to_multiset(),
        decreases ids.len() - i,
    {
        let id: u32 = ids[i];
        let mut at: usize = sorted.len();
        while at > 0 && sorted[at - 1] > id
            invariant
                at <= sorted.len(),
                ascending(sorted@),
                forall|j: int| at <= j < sorted@.len() ==> id < #[trigger] sorted@[j],
            decreases at,
        {
            at -= 1;
        }
        let ghost before = sorted@;
        sorted.insert(at, id);
        i += 1;
        proof {
            vstd::seq_lib::to_multiset_insert(before, at as int, id);
            assert(ids@.take(i as int) =~= ids@.take(i - 1).push(id));
            vstd::seq_lib::to_multiset_build(ids@.take(i - 1), id);
        }
    }
    assert(ids@.take(i as int) =~= ids@);
    sorted
}

fn read_header_ids(names: &Vec<String>) -> (ids: Vec<u32>)
    requires
        forall|i: int| 0 <= i < names@.len() ==> header_name_readable((#[trigger] names@[i])@),
    ensures
        ids@ == header_ids(names@),
{
    let mut ids: Vec<u32> = Vec::new();
    let mut i: usize = 0;
    while i < names.len()
        invariant
            i <= names.len(),
            forall|j: int| 0 <= j < names@.len() ==> header_name_readable((#[trigger] names@[j])@),
            ids@ == header_ids(names@.take(i as int)),
        decreases names.len() - i,
    {
        if let Some(id) = read_header_segment_id(names[i].as_str()) {
            ids.push(id);
        }
        i += 1;
        assert(names@.take(i as int).drop_last() =~= names@.take(i - 1));
    }
    assert(names@.take(i as int) =~= names@);
    ids
}

fn read_filter_ids(names: &Vec<String>) -> (ids: Vec<u32>)
    requires
        forall|i: int| 0 <= i < names@.len() ==> filter_name_readable((#[trigger] names@[i])@),
    ensures
        ids@ == filter_ids(names@),
{
    let mut ids: Vec<u32> = Vec::new();
    let mut i: usize = 0;
    while i < names.len()
        invariant
            i <= names.len(),
            forall|j: int| 0 <= j < names@.len() ==> filter_name_readable((#[trigger] names@[j])@),
            ids@ == filter_ids(names@.take(i as int)),
        decreases names.len() - i,
    {
        if let Some(id) = read_filter_segment_id(names[i].as_str()) {
            ids.push(id);
        }
        i += 1;
        assert(names@.take(i as int).drop_last() =~= names@.take(i - 1));
    }
    assert(names@.take(i as int) =~= names@);
    ids
}

impl MetadataPlan {
    /// Plans what to read, given the names in the two directories, where they could be listed.
    ///
    /// The index is rebuilt from all segments if it was not loaded. Without the header directory
    /// there is nothing to read, not even of filters.
    pub fn new(
        index_loaded: bool,
        header_names: Option<&Vec<String>>,
        filter_names: Option<&Vec<String>>,
    ) -> (plan: Self)
        requires
            header_names matches Some(names) ==> forall|i: int|
                0 <= i < names@.len() ==> header_name_readable((#[trigger] names@[i])@),
            filter_names matches Some(names) ==> forall|i: int|
                0 <= i < names@.len() ==> filter_name_readable((#[trigger] names@[i])@),
        ensures
            match header_names {
                Some(names) => {
                    &&& ascending(plan.rebuild@)
                    &&& plan.rebuild@.to_multiset() == if index_loaded {
                        Seq::<u32>::empty().to_multiset()
                    } else {
                        header_ids(names@).to_multiset()
                    }
                    &&& is_greatest(header_ids(names@), plan.tip_segment)
                },
                None => plan.rebuild@.len() == 0 && plan.tip_segment is None,
            },
            match (header_names, filter_names) {
                (Some(_), Some(names)) => is_greatest(
                    filter_ids(names@),
                    plan.filter_tip_segment,
                ),
                _ => plan.filter_tip_segment is None,
            },
    {
        match header_names {
            Some(names) => {
                let ids = read_header_ids(names);
                let rebuild: Vec<u32> = if index_loaded {
                    Vec::new()
                } else {
                    sorted(&ids)
                };
                let filter_tip_segment: Option<u32> = match filter_names {
                    Some(names) => greatest(&read_filter_ids(names)),
                    None => None,
                };
                MetadataPlan { rebuild, tip_segment: greatest(&ids), filter_tip_segment }
            },
            None => MetadataPlan {
                rebuild: Vec::new(),
                tip_segment: None,
                filter_tip_segment: None,
            },
        }
    }
}

/// The height of the first header of a segment.
pub open spec fn first_height(segment_id: u32, sync_base_height: u32) -> int {
    sync_base_height + segment_id * HEADERS_PER_SEGMENT
}

/// The hashes of the block headers of a segment, or none if the segment could not be read.
pub open spec fn hashes_read(hashes: Option<Vec<BlockHash>>) -> Seq<BlockHash> {
    match hashes {
        Some(list) => list@,
        None => Seq::empty(),
    }
}

/// Whether the headers of a segment have heights, if it could be read.
pub open spec fn heights_fit(
    segment_id: u32,
    hashes: Option<Vec<BlockHash>>,
    sync_base_height: u32,
) -> bool {
    hashes matches Some(list) ==> {
        &&& segment_id * HEADERS_PER_SEGMENT <= u32::MAX
        &&& list@.len() > 0 ==> first_height(segment_id, sync_base_height) + list@.len() - 1
            <= u32::MAX
    }
}

/// The index of the blocks of several segments, given the hashes of each.
pub open spec fn rebuilt_index(
    ids: Seq<u32>,
    hashes: Seq<Option<Vec<BlockHash>>>,
    sync_base_height: u32,
) -> Map<Seq<u8>, u32>
    decreases ids.len(),
{
    if ids.len() == 0 {
        Map::empty()
    } else {
        with_pairs(
            rebuilt_index(ids.drop_last(), hashes.drop_last(), sync_base_height),
            run_pairs(hashes_read(hashes.last()), first_height(ids.last(), sync_base_height)),
        )
    }
}

/// The place of the last of so many headers of a segment, counted from the first header of the
/// first segment.
pub open spec fn last_index(segment_id: u32, headers: u32) -> int {
    segment_id * HEADERS_PER_SEGMENT + headers - 1
}

/// A manager after the last block header segment told the tip.
pub open spec fn with_tip_of(storage: StorageModel, segment_id: u32) -> StorageModel {
    if storage.segments.contains_key(segment_id) {
        StorageModel {
            tip: Some(
                last_index(segment_id, storage.segments[segment_id].valid_count as u32) as u32,
            ),
            ..storage
        }
    } else {
        storage
    }
}

/// A manager after the last filter header segment told the filter tip.
pub open spec fn with_filter_tip_of(storage: StorageModel, segment_id: u32) -> StorageModel {
    if storage.filter_segments.contains_key(segment_id) {
        StorageModel {
            filter_tip: Some(
                (storage.sync_base_height + last_index(
                    segment_id,
                    storage.filter_segments[segment_id].headers.len() as u32,
                )) as u32,
            ),
            ..storage
        }
    } else {
        storage
    }
}

/// A manager after its base height was taken from the chain state, if one was saved.
pub open spec fn with_base(storage: StorageModel, base: Option<u32>) -> StorageModel {
    StorageModel { sync_base_height: base.unwrap_or(storage.sync_base_height), ..storage }
}

/// A manager after the index was rebuilt, if there were segments to rebuild it from.
pub open spec fn with_index_of(
    storage: StorageModel,
    rebuild: Seq<u32>,
    hashes: Seq<Option<Vec<BlockHash>>>,
    sync_base_height: u32,
) -> StorageModel {
    if rebuild.len() > 0 {
        StorageModel { index: rebuilt_index(rebuild, hashes, sync_base_height), ..storage }
    } else {
        storage
    }
}

/// A manager after its last block header segment came into memory, if there is one.
pub open spec fn with_tip_segment(
    storage: StorageModel,
    segment: Option<SegmentCache<BlockHeader>>,
) -> StorageModel {
    match segment {
        Some(cache) => with_tip_of(
            StorageModel { segments: with_placed(storage.segments, None, cache@), ..storage },
            cache.segment_id,
        ),
        None => storage,
    }
}

/// A manager after its last filter header segment came into memory, if there is one.
pub open spec fn with_filter_tip_segment(
    storage: StorageModel,
    segment: Option<SegmentCache<FilterHeader>>,
) -> StorageModel {
    match segment {
        Some(cache) => with_filter_tip_of(
            StorageModel {
                filter_segments: with_placed(storage.filter_segments, None, cache@),
                ..storage
            },
            cache.segment_id,
        ),
        None => storage,
    }
}

impl DiskStorageManager {
    /// Takes in what was read by a plan: the base height of the chain state, for each segment to
    /// rebuild the index from its hashes if it could be read, and the two last segments, which tell
    /// the tips.
    ///
    /// The filter tip is a height of the block chain, counted from the base height. The heights of
    /// a rebuilt index are counted from the base height of the chain state, or from the genesis
    /// block if none was saved.
    pub fn load_segment_metadata(
        &mut self,
        plan: &MetadataPlan,
        hashes: &Vec<Option<Vec<BlockHash>>>,
        base: Option<u32>,
        tip_segment: Option<SegmentCache<BlockHeader>>,
        filter_tip_segment: Option<SegmentCache<FilterHeader>>,
    )
        requires
            old(self).wf(),
            old(self)@.segments.dom().len() < MAX_ACTIVE_SEGMENTS,
            old(self)@.filter_segments.dom().len() < MAX_ACTIVE_SEGMENTS,
            hashes@.len() == plan.rebuild@.len(),
            forall|i: int|
                0 <= i < hashes@.len() ==> heights_fit(
                    plan.rebuild@[i],
                    #[trigger] hashes@[i],
                    base.unwrap_or(0),
                ),
            match (plan.tip_segment, tip_segment) {
                (Some(id), Some(cache)) => cache.segment_id == id && 0 <= last_index(
                    id,
                    cache.valid_count as u32,
                ) < u32::MAX,
                (None, None) => true,
                _ => false,
            },
            match (plan.filter_tip_segment, filter_tip_segment) {
                (Some(id), Some(cache)) => {
                    let last = last_index(id, cache.headers@.len() as u32);
                    cache.segment_id == id && 0 <= last < u32::MAX && base.unwrap_or(
                        old(self).sync_base_height,
                    ) + last <= u32::MAX
                },
                (None, None) => true,
                _ => false,
            },
        ensures
            final(self).wf(),
            final(self)@ == with_filter_tip_segment(
                with_tip_segment(
                    with_index_of(
                        with_base(old(self)@, base),
                        plan.rebuild@,
                        hashes@,
                        base.unwrap_or(0),
                    ),
                    tip_segment,
                ),
                filter_tip_segment,
            ),
            filter_tip_segment matches Some(cache) ==> final(self)@.filter_tip == Some(
                (base.unwrap_or(old(self).sync_base_height) + last_index(
                    cache.segment_id,
                    cache.headers@.len() as u32,
                )) as u32,
            ),
    {
        self.restore_sync_base_height(base);
        if plan.rebuild.len() > 0 {
            let index_base: u32 = match base {
                Some(height) => height,
                None => 0,
            };
            self.rebuild_index(&plan.rebuild, hashes, index_base);
        }
        if let Some(cache) = tip_segment {
            let segment_id: u32 = cache.segment_id;
            self.place_segment(None, cache);
            self.find_tip(segment_id);
        }
        if let Some(cache) = filter_tip_segment {
            let segment_id: u32 = cache.segment_id;
            self.place_filter_segment(None, cache);
            self.find_filter_tip(segment_id);
        }
    }

    /// Takes in the index from its file, if it can be read, and tells whether it could.
    pub fn load_index(&mut self, file: Option<&[u8]>) -> (loaded: bool)
        requires
            old(self).wf(),
        ensures
            final(self).wf(),
            loaded <==> (file matches Some(content) && exists|pairs: Seq<(Seq<u8>, u32)>| #[trigger]
                is_index_file(content@, pairs)),
            loaded ==> (file matches Some(content) && exists|pairs: Seq<(Seq<u8>, u32)>| #[trigger]
                is_index_file(content@, pairs) && final(self)@ == (StorageModel {
                    index: with_pairs(Map::empty(), pairs),
                    ..old(self)@
                })),
            !loaded ==> final(self)@ == old(self)@,
    {
        match file {
            Some(content) => match load_index_from_file(content) {
                Ok(index) => {
                    self.header_hash_index = index;
                    proof {
                        let pairs = choose|pairs: Seq<(Seq<u8>, u32)>| #[trigger]
                            is_index_file(content@, pairs) && index@ == with_pairs(
                                Map::empty(),
                                pairs,
                            );
                        assert(is_index_file(content@, pairs));
                        assert(self@ =~= (StorageModel {
                            index: with_pairs(Map::empty(), pairs),
                            ..old(self)@
                        }));
                    }
                    true
                },
                Err(_) => false,
            },
            None => false,
        }
    }

    /// Builds the index anew from the segments that could be read, in order.
    fn rebuild_index(
        &mut self,
        ids: &Vec<u32>,
        hashes: &Vec<Option<Vec<BlockHash>>>,
        sync_base_height: u32,
    )
        requires
            old(self).wf(),
            hashes@.len() == ids@.len(),
            forall|i: int|
                0 <= i < hashes@.len() ==> heights_fit(
                    ids@[i],
                    #[trigger] hashes@[i],
                    sync_base_height,
                ),
        ensures
            final(self).wf(),
            final(self)@ == (StorageModel {
                index: rebuilt_index(ids@, hashes@, sync_base_height),
                ..old(self)@
            }),
    {
        let mut new_index = HeaderHashIndex::new();
        let mut i: usize = 0;
        while i < ids.len()
            invariant
                i <= ids.len(),
                hashes@.len() == ids@.len(),
                new_index.wf(),
                forall|j: int|
                    0 <= j < hashes@.len() ==> heights_fit(
                        ids@[j],
                        #[trigger] hashes@[j],
                        sync_base_height,
                    ),
                new_index@ == rebuilt_index(
                    ids@.take(i as int),
                    hashes@.take(i as int),
                    sync_base_height,
                ),
            decreases ids.len() - i,
        {
            assert(heights_fit(ids@[i as int], hashes@[i as int], sync_base_height));
            if let Some(list) = &hashes[i] {
                new_index.index_segment(ids[i], list, sync_base_height);
            }
            i += 1;
            assert(ids@.take(i as int).drop_last() =~= ids@.take(i - 1));
            assert(hashes@.take(i as int).drop_last() =~= hashes@.take(i - 1));
        }
        assert(ids@.take(i as int) =~= ids@);
        assert(hashes@.take(i as int) =~= hashes@);
        self.header_hash_index = new_index;
    }

    /// Takes the tip from the last block header segment, once it is in memory.
    fn find_tip(&mut self, segment_id: u32)
        requires
            old(self).wf(),
            old(self)@.segments.contains_key(segment_id) ==> 0 <= last_index(
                segment_id,
                old(self)@.segments[segment_id].valid_count as u32,
            ) < u32::MAX,
        ensures
            final(self).wf(),
            final(self)@ == with_tip_of(old(self)@, segment_id),
    {
        if let Some(segment) = self.active_segments.get(segment_id) {
            let headers: u32 =
                #[verifier::truncate]
                (segment.valid_count as u32);
            let tip_height: u32 = segment_id * HEADERS_PER_SEGMENT + headers - 1;
            self.cached_tip_height = Some(tip_height);
        }
    }

    /// Takes the filter tip from the last filter header segment, once it is in memory.
    fn find_filter_tip(&mut self, segment_id: u32)
        requires
            old(self).wf(),
            old(self)@.filter_segments.contains_key(segment_id) ==> {
                let last = last_index(
                    segment_id,
                    old(self)@.filter_segments[segment_id].headers.len() as u32,
                );
                0 <= last < u32::MAX && old(self).sync_base_height + last <= u32::MAX
            },
        ensures
            final(self).wf(),
            final(self)@ == with_filter_tip_of(old(self)@, segment_id),
    {
        if let Some(segment) = self.active_filter_segments.get(segment_id) {
            let headers: u32 =
                #[verifier::truncate]
                (segment.headers.len() as u32);
            let storage_index: u32 = segment_id * HEADERS_PER_SEGMENT + headers - 1;
            let blockchain_height: u32 = if self.sync_base_height > 0 {
                self.sync_base_height + storage_index
            } else {
                storage_index
            };
            self.cached_filter_tip_height = Some(blockchain_height);
        }
    }

    /// Takes the base height from the chain state, if one was saved.
    pub fn restore_sync_base_height(&mut self, base: Option<u32>)
        ensures
            *final(self) == (DiskStorageManager {
                sync_base_height: base.unwrap_or(old(self).sync_base_height),
                ..*old(self)
            }),
            final(self)@ == with_base(old(self)@, base),
    {
        if let Some(height) = base {
            self.sync_base_height = height;
        }
    }
}

/// Whether a block hash occurs in a segment behind the given place.
pub open spec fn occurs_behind(
    hashes: Seq<Option<Vec<BlockHash>>>,
    hash: BlockHash,
    place: int,
    offset: int,
) -> bool {
    exists|k: int, j: int|
        0 <= k < hashes.len() && 0 <= j < hashes_read(hashes[k]).len() && (k > place || k == place
            && j > offset) && (#[trigger] hashes_read(hashes[k])[j]).bytes@ == hash.bytes@
}

/// A rebuilt index finds every block of the segments at its height: the base height plus the place
/// of its header. Of a hash that occurs more than once, the last block counts.
pub proof fn law_rebuilt_index_finds_blocks(
    ids: Seq<u32>,
    hashes: Seq<Option<Vec<BlockHash>>>,
    sync_base_height: u32,
    place: int,
    offset: int,
)
    requires
        hashes.len() == ids.len(),
        forall|i: int|
            0 <= i < hashes.len() ==> heights_fit(ids[i], #[trigger] hashes[i], sync_base_height),
        0 <= place < ids.len(),
        0 <= offset < hashes_read(hashes[place]).len(),
        !occurs_behind(hashes, hashes_read(hashes[place])[offset], place, offset),
    ensures
        ({
            let hash = hashes_read(hashes[place])[offset].bytes@;
            let index = rebuilt_index(ids, hashes, sync_base_height);
            &&& index.contains_key(hash)
            &&& index[hash] == sync_base_height + ids[place] * HEADERS_PER_SEGMENT + offset
        }),
    decreases ids.len(),
{
    let hash = hashes_read(hashes[place])[offset];
    let n = ids.len() - 1;
    let list = hashes_read(hashes.last());
    let front_ids = ids.drop_last();
    let front = hashes.drop_last();
    let first = first_height(ids.last(), sync_base_height);
    assert(heights_fit(ids[n], hashes[n], sync_base_height));
    assert forall|k: int, j: int|
        0 <= k < hashes.len() && 0 <= j < hashes_read(hashes[k]).len() && (k > place || k == place
            && j > offset) implies (#[trigger] hashes_read(hashes[k])[j]).bytes@ != hash.bytes@ by {
        if hashes_read(hashes[k])[j].bytes@ == hash.bytes@ {
            assert(occurs_behind(hashes, hash, place, offset));
        }
    }
    let before = rebuilt_index(front_ids, front, sync_base_height);
    if place == n {
        law_indexed_blocks_found(before, list, first, offset);
    } else {
        assert(front[place] == hashes[place]);
        assert(!occurs_behind(front, hash, place, offset)) by {
            if occurs_behind(front, hash, place, offset) {
                let (k, j) = choose|k: int, j: int|
                    0 <= k < front.len() && 0 <= j < hashes_read(front[k]).len() && (k > place || k
                        == place && j > offset) && (#[trigger] hashes_read(front[k])[j]).bytes@
                        == hash.bytes@;
                assert(front[k] == hashes[k]);
                assert(hashes_read(hashes[k])[j].bytes@ == hash.bytes@);
            }
        }
        assert forall|i: int| 0 <= i < front.len() implies heights_fit(
            front_ids[i],
            #[trigger] front[i],
            sync_base_height,
        ) by {
            assert(front[i] == hashes[i]);
        }
        law_rebuilt_index_finds_blocks(front_ids, front, sync_base_height, place, offset);
        let pairs = run_pairs(list, first);
        assert forall|j: int| 0 <= j < pairs.len() implies (#[trigger] pairs[j]).0
            != hash.bytes@ by {
            assert(hashes_read(hashes[n])[j].bytes@ != hash.bytes@);
        }
        law_other_hashes_unchanged(before, pairs, hash.bytes@);
    }
}

} // verus!
