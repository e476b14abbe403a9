//! What is found after the storage was opened.

use vstd::prelude::*;

use crate::encoding::word_at;
use crate::error::StorageError;
use crate::headers::{BlockHash, BlockHeader, FilterHeader};
use crate::index::{law_other_hashes_unchanged, run_pairs, with_pairs, HeaderHashIndex};
use crate::index_file::is_index_file;
use crate::index_laws::{
    has_entry, has_index_layout, is_last_entry, lemma_entries_found, lemma_index_of_layout,
    lemma_layout_of_index,
};
use crate::manager::{DiskStorageManager, StorageModel};
use crate::memory_laws::was_placed;
use crate::metadata::{
    filter_ids, first_height, hashes_read, header_ids, heights_fit, law_rebuilt_index_finds_blocks,
    occurs_behind, rebuilt_index, MetadataPlan, StorageDirectory,
};
use crate::names::{filter_segment_id, header_segment_id};
use crate::segments::SegmentCache;

verus! {

/// The directories of the storage stand below it under their own names, and an error tells which
/// one could not be created and why.
pub proof fn law_directories(
    directory: StorageDirectory,
    path: &'static str,
    reason: &str,
    error: StorageError,
)
    ensures
        call_ensures(StorageDirectory::relative_path, (directory,), path) ==> {
            &&& directory is Base ==> path@ == ""@
            &&& directory is Headers ==> path@ == "headers"@
            &&& directory is Filters ==> path@ == "filters"@
            &&& directory is State ==> path@ == "state"@
        },
        call_ensures(StorageDirectory::creation_error, (directory, reason), error) ==> (
        error matches StorageError::WriteFailed(text) && {
            let what = text@.take(text@.len() - reason@.len());
            &&& text@.len() >= reason@.len()
            &&& text@.skip(text@.len() - reason@.len()) == reason@
            &&& directory is Base ==> what == "Failed to create directory: "@
            &&& directory is Headers ==> what == "Failed to create headers directory: "@
            &&& directory is Filters ==> what == "Failed to create filters directory: "@
            &&& directory is State ==> what == "Failed to create state directory: "@
        }),
{
    if call_ensures(StorageDirectory::creation_error, (directory, reason), error) {
        let what = match directory {
            StorageDirectory::Base => "Failed to create directory: "@,
            StorageDirectory::Headers => "Failed to create headers directory: "@,
            StorageDirectory::Filters => "Failed to create filters directory: "@,
            StorageDirectory::State => "Failed to create state directory: "@,
        };
        let text = error->WriteFailed_0@;
        assert(text == what + reason@);
        assert(text.take(text.len() - reason@.len()) =~= what);
        assert(text.skip(text.len() - reason@.len()) =~= reason@);
    }
}

/// The names of the header directory that hold a segment number.
pub open spec fn numbered_names(names: Seq<String>) -> Seq<String> {
    names.filter(|name: String| header_segment_id(name@) is Some)
}

proof fn lemma_header_ids(names: Seq<String>, id: u32)
    ensures
        header_ids(names).contains(id) <==> exists|i: int|
            0 <= i < names.len() && header_segment_id((#[trigger] names[i])@) == Some(id),
        header_ids(names).len() == numbered_names(names).len(),
    decreases names.len(),
{
    reveal(Seq::filter);
    if names.len() > 0 {
        let front = names.drop_last();
        lemma_header_ids(front, id);
        let before = header_ids(front);
        let all = header_ids(names);
        if exists|i: int| 0 <= i < names.len() && header_segment_id((#[trigger] names[i])@) == Some(
            id,
        ) {
            let i = choose|i: int|
                0 <= i < names.len() && header_segment_id((#[trigger] names[i])@) == Some(id);
            if i < front.len() {
                assert(header_segment_id(front[i]@) == Some(id));
                let k = choose|k: int| 0 <= k < before.len() && before[k] == id;
                assert(all[k] == id);
            } else {
                assert(all[all.len() - 1] == id);
            }
        }
        if all.contains(id) {
            let k = choose|k: int| 0 <= k < all.len() && all[k] == id;
            if k < before.len() {
                assert(before[k] == id);
                let i = choose|i: int|
                    0 <= i < front.len() && header_segment_id((#[trigger] front[i])@) == Some(id);
                assert(header_segment_id(names[i]@) == Some(id));
            } else {
                assert(header_segment_id(names[names.len() - 1]@) == Some(id));
            }
        }
    }
}

proof fn lemma_filter_ids(names: Seq<String>, id: u32)
    ensures
        filter_ids(names).contains(id) <==> exists|i: int|
            0 <= i < names.len() && filter_segment_id((#[trigger] names[i])@) == Some(id),
        filter_ids(names).len() > 0 ==> filter_ids(names).contains(filter_ids(names)[0]),
    decreases names.len(),
{
    if names.len() > 0 {
        let front = names.drop_last();
        lemma_filter_ids(front, id);
        let before = filter_ids(front);
        let all = filter_ids(names);
        if exists|i: int| 0 <= i < names.len() && filter_segment_id((#[trigger] names[i])@) == Some(
            id,
        ) {
            let i = choose|i: int|
                0 <= i < names.len() && filter_segment_id((#[trigger] names[i])@) == Some(id);
            if i < front.len() {
                assert(filter_segment_id(front[i]@) == Some(id));
                let k = choose|k: int| 0 <= k < before.len() && before[k] == id;
                assert(all[k] == id);
            } else {
                assert(all[all.len() - 1] == id);
            }
        }
        if all.contains(id) {
            let k = choose|k: int| 0 <= k < all.len() && all[k] == id;
            if k < before.len() {
                assert(before[k] == id);
                let i = choose|i: int|
                    0 <= i < front.len() && filter_segment_id((#[trigger] front[i])@) == Some(id);
                assert(filter_segment_id(names[i]@) == Some(id));
            } else {
                assert(filter_segment_id(names[names.len() - 1]@) == Some(id));
            }
        }
    }
}

/// How often a number occurs.
pub open spec fn times(ids: Seq<u32>, id: u32) -> nat {
    ids.filter(|other: u32| other == id).len()
}

/// How many names of the header directory hold a segment number.
pub open spec fn times_named(names: Seq<String>, id: u32) -> nat {
    names.filter(|name: String| header_segment_id(name@) == Some(id)).len()
}

proof fn lemma_times(ids: Seq<u32>, id: u32)
    ensures
        ids.to_multiset().count(id) == times(ids, id),
    decreases ids.len(),
{
    reveal(Seq::filter);
    broadcast use vstd::seq_lib::group_to_multiset_ensures;

    if ids.len() > 0 {
        lemma_times(ids.drop_last(), id);
        assert(ids.drop_last().push(ids.last()) =~= ids);
    }
}

proof fn lemma_times_named(names: Seq<String>, id: u32)
    ensures
        times(header_ids(names), id) == times_named(names, id),
    decreases names.len(),
{
    reveal(Seq::filter);
    if names.len() > 0 {
        lemma_times_named(names.drop_last(), id);
        if let Some(read) = header_segment_id(names.last()@) {
            let before = header_ids(names.drop_last());
            assert(before.push(read).drop_last() =~= before);
        }
    }
}

/// Whether a segment number is in one of the names of the header directory.
pub open spec fn header_named(names: Seq<String>, id: u32) -> bool {
    exists|i: int| 0 <= i < names.len() && header_segment_id((#[trigger] names[i])@) == Some(id)
}

/// Whether a segment number is in one of the names of the filter directory.
pub open spec fn filter_named(names: Seq<String>, id: u32) -> bool {
    exists|i: int| 0 <= i < names.len() && filter_segment_id((#[trigger] names[i])@) == Some(id)
}

/// The index is rebuilt, if it was not loaded, from exactly the segments that are named, each as
/// often as it is named and in ascending order.
pub proof fn law_rebuilding_is_planned(
    index_loaded: bool,
    header_names: &Vec<String>,
    filter_names: Option<&Vec<String>>,
    plan: MetadataPlan,
    id: u32,
    i: int,
    j: int,
)
    requires
        call_ensures(
            MetadataPlan::new,
            (index_loaded, Some(header_names), filter_names),
            plan,
        ),
    ensures
        index_loaded ==> plan.rebuild@.len() == 0,
        !index_loaded ==> {
            &&& plan.rebuild@.contains(id) <==> header_named(header_names@, id)
            &&& times(plan.rebuild@, id) == times_named(header_names@, id)
            &&& plan.rebuild@.len() == numbered_names(header_names@).len()
        },
        0 <= i <= j < plan.rebuild@.len() ==> plan.rebuild@[i] <= plan.rebuild@[j],
{
    let ids = header_ids(header_names@);
    let rebuild = plan.rebuild@;
    lemma_header_ids(header_names@, id);
    lemma_times(ids, id);
    lemma_times(rebuild, id);
    lemma_times_named(header_names@, id);
    broadcast use vstd::seq_lib::group_to_multiset_ensures;

    if index_loaded {
        assert(rebuild.to_multiset().len() == 0);
    } else {
        assert(rebuild.to_multiset().len() == ids.to_multiset().len());
        assert(rebuild.contains(id) == (rebuild.to_multiset().count(id) > 0));
        assert(ids.contains(id) == (ids.to_multiset().count(id) > 0));
    }
}

/// The last segments are those with the greatest number among the names, if any is named. Without
/// the header directory there are none.
pub proof fn law_last_segments_are_planned(
    index_loaded: bool,
    header_names: Option<&Vec<String>>,
    filter_names: Option<&Vec<String>>,
    plan: MetadataPlan,
    id: u32,
)
    requires
        call_ensures(MetadataPlan::new, (index_loaded, header_names, filter_names), plan),
    ensures
        header_names is None ==> plan.rebuild@.len() == 0 && plan.tip_segment is None
            && plan.filter_tip_segment is None,
        filter_names is None ==> plan.filter_tip_segment is None,
        header_names matches Some(names) ==> {
            &&& header_named(names@, id) ==> (plan.tip_segment matches Some(last) && id <= last)
            &&& plan.tip_segment matches Some(last) ==> header_named(names@, last)
        },
        header_names is Some ==> (filter_names matches Some(names) ==> {
            &&& filter_named(names@, id) ==> (plan.filter_tip_segment matches Some(last) && id
                <= last)
            &&& plan.filter_tip_segment matches Some(last) ==> filter_named(names@, last)
        }),
{
    if let Some(names) = header_names {
        lemma_header_ids(names@, id);
        if let Some(last) = plan.tip_segment {
            lemma_header_ids(names@, last);
        }
        if let Some(filters) = filter_names {
            lemma_filter_ids(filters@, id);
            if let Some(last) = plan.filter_tip_segment {
                lemma_filter_ids(filters@, last);
            }
        }
    }
}

/// Whether a block hash is among those of some segment.
pub open spec fn occurs_in_segments(hashes: Seq<Option<Vec<BlockHash>>>, hash: Seq<u8>) -> bool {
    exists|k: int, j: int|
        #![trigger hashes[k]->0@[j]]
        0 <= k < hashes.len() && hashes[k] is Some && 0 <= j < hashes[k]->0@.len() && hashes[k]->0@[
        j].bytes@ == hash
}

proof fn lemma_rebuilt_keys(
    ids: Seq<u32>,
    hashes: Seq<Option<Vec<BlockHash>>>,
    sync_base_height: u32,
    hash: Seq<u8>,
)
    requires
        ids.len() == hashes.len(),
        rebuilt_index(ids, hashes, sync_base_height).contains_key(hash),
    ensures
        occurs_in_segments(hashes, hash),
    decreases ids.len(),
{
    if ids.len() > 0 {
        let n = ids.len() - 1;
        let front = rebuilt_index(ids.drop_last(), hashes.drop_last(), sync_base_height);
        let list = hashes_read(hashes.last());
        let pairs = run_pairs(list, first_height(ids.last(), sync_base_height));
        if exists|j: int| 0 <= j < pairs.len() && (#[trigger] pairs[j]).0 == hash {
            let j = choose|j: int| 0 <= j < pairs.len() && (#[trigger] pairs[j]).0 == hash;
            assert(hashes[n]->0@[j].bytes@ == hash);
        } else {
            law_other_hashes_unchanged(front, pairs, hash);
            lemma_rebuilt_keys(ids.drop_last(), hashes.drop_last(), sync_base_height, hash);
            let (k, j) = choose|k: int, j: int|
                #![trigger hashes.drop_last()[k]->0@[j]]
                0 <= k < n && hashes.drop_last()[k] is Some && 0 <= j
                    < hashes.drop_last()[k]->0@.len() && hashes.drop_last()[k]->0@[j].bytes@
                    == hash;
            assert(hashes[k]->0@[j].bytes@ == hash);
        }
    }
}

/// After the storage was opened with segments to rebuild the index from, the index finds every
/// block of every segment that could be read: at the base height of the chain state, or 0 without
/// one, plus 50,000 for each number of its segment, plus its place there. Of a hash that occurs
/// more than once, the last block counts.
pub proof fn law_opened_storage_finds_blocks(
    storage: &mut DiskStorageManager,
    plan: &MetadataPlan,
    hashes: &Vec<Option<Vec<BlockHash>>>,
    base: Option<u32>,
    tip_segment: Option<SegmentCache<BlockHeader>>,
    filter_tip_segment: Option<SegmentCache<FilterHeader>>,
    place: int,
    list: Vec<BlockHash>,
    offset: int,
    found: Option<u32>,
)
    requires
        call_ensures(
            DiskStorageManager::load_segment_metadata,
            (storage, plan, hashes, base, tip_segment, filter_tip_segment),
            (),
        ),
        hashes@.len() == plan.rebuild@.len(),
        forall|k: int|
            0 <= k < hashes@.len() ==> ((#[trigger] hashes@[k]) matches Some(read) ==> (match base {
                Some(height) => height as int,
                None => 0,
            }) + plan.rebuild@[k] * 50_000 + read@.len() <= u32::MAX),
        0 <= place < hashes@.len(),
        hashes@[place] == Some(list),
        0 <= offset < list@.len(),
        forall|k: int, j: int|
            #![trigger hashes@[k]->0@[j]]
            0 <= k < hashes@.len() && hashes@[k] is Some && 0 <= j < hashes@[k]->0@.len() && (k
                > place || k == place && j > offset) ==> hashes@[k]->0@[j].bytes@
                != list@[offset].bytes@,
        call_ensures(
            HeaderHashIndex::get,
            (&final(storage).header_hash_index, &list@[offset]),
            found,
        ),
    ensures
        found == Some(
            ((match base {
                Some(height) => height as int,
                None => 0,
            }) + plan.rebuild@[place] * 50_000 + offset) as u32,
        ),
{
    let b = base.unwrap_or(0);
    let ids = plan.rebuild@;
    assert forall|i: int| 0 <= i < hashes@.len() implies heights_fit(
        ids[i],
        #[trigger] hashes@[i],
        b,
    ) by {}
    assert(!occurs_behind(hashes@, hashes_read(hashes@[place])[offset], place, offset)) by {
        if occurs_behind(hashes@, hashes_read(hashes@[place])[offset], place, offset) {
            let (k, j) = choose|k: int, j: int|
                0 <= k < hashes@.len() && 0 <= j < hashes_read(hashes@[k]).len() && (k > place || k
                    == place && j > offset) && (#[trigger] hashes_read(hashes@[k])[j]).bytes@
                    == list@[offset].bytes@;
            assert(hashes@[k]->0@[j].bytes@ == list@[offset].bytes@);
        }
    }
    law_rebuilt_index_finds_blocks(ids, hashes@, b, place, offset);
    assert(final(storage)@.index == rebuilt_index(ids, hashes@, b));
}

/// After the storage was opened with segments to rebuild the index from, the index finds no block
/// that is not in one of them. Without such segments the index is as it was.
pub proof fn law_opened_storage_finds_no_others(
    storage: &mut DiskStorageManager,
    plan: &MetadataPlan,
    hashes: &Vec<Option<Vec<BlockHash>>>,
    base: Option<u32>,
    tip_segment: Option<SegmentCache<BlockHeader>>,
    filter_tip_segment: Option<SegmentCache<FilterHeader>>,
    hash: BlockHash,
    before: Option<u32>,
    found: Option<u32>,
)
    requires
        call_ensures(
            DiskStorageManager::load_segment_metadata,
            (storage, plan, hashes, base, tip_segment, filter_tip_segment),
            (),
        ),
        hashes@.len() == plan.rebuild@.len(),
        call_ensures(HeaderHashIndex::get, (&old(storage).header_hash_index, &hash), before),
        call_ensures(HeaderHashIndex::get, (&final(storage).header_hash_index, &hash), found),
    ensures
        plan.rebuild@.len() > 0 && found is Some ==> occurs_in_segments(hashes@, hash.bytes@),
        plan.rebuild@.len() == 0 ==> found == before,
{
    if plan.rebuild@.len() > 0 {
        assert(final(storage)@.index == rebuilt_index(
            plan.rebuild@,
            hashes@,
            base.unwrap_or(0),
        ));
        if found is Some {
            lemma_rebuilt_keys(plan.rebuild@, hashes@, base.unwrap_or(0), hash.bytes@);
        }
    } else {
        assert(final(storage)@.index == old(storage)@.index);
    }
}

/// After the storage was opened, the tips are those of the last headers of the last segments, the
/// filter tip counted from the base height. The last segments are in memory, the base height is
/// that of the chain state if there is one, and all else is as it was.
pub proof fn law_opened_storage_has_its_tips(
    storage: &mut DiskStorageManager,
    plan: &MetadataPlan,
    hashes: &Vec<Option<Vec<BlockHash>>>,
    base: Option<u32>,
    tip_segment: Option<SegmentCache<BlockHeader>>,
    filter_tip_segment: Option<SegmentCache<FilterHeader>>,
    id: u32,
)
    requires
        call_ensures(
            DiskStorageManager::load_segment_metadata,
            (storage, plan, hashes, base, tip_segment, filter_tip_segment),
            (),
        ),
        tip_segment matches Some(cache) ==> cache.valid_count <= u32::MAX && 1 <= cache.segment_id
            * 50_000 + cache.valid_count <= u32::MAX,
        filter_tip_segment matches Some(cache) ==> cache.headers@.len() <= u32::MAX && 1
            <= cache.segment_id * 50_000 + cache.headers@.len() && (match base {
            Some(height) => height,
            None => old(storage).sync_base_height,
        }) + cache.segment_id * 50_000 + cache.headers@.len() <= u32::MAX,
    ensures
        ({
            let before = old(storage)@;
            let after = final(storage)@;
            &&& after.sync_base_height == match base {
                Some(height) => height,
                None => before.sync_base_height,
            }
            &&& tip_segment matches Some(cache) ==> after.tip == Some(
                (cache.segment_id * 50_000 + cache.valid_count - 1) as u32,
            ) && was_placed(before.segments, after.segments, None, cache@, id)
            &&& tip_segment is None ==> after.tip == before.tip && after.segments
                == before.segments
            &&& filter_tip_segment matches Some(cache) ==> after.filter_tip == Some(
                (after.sync_base_height + cache.segment_id * 50_000 + cache.headers@.len()
                    - 1) as u32,
            ) && was_placed(before.filter_segments, after.filter_segments, None, cache@, id)
            &&& filter_tip_segment is None ==> after.filter_tip == before.filter_tip
                && after.filter_segments == before.filter_segments
            &&& after.filter_data_segments == before.filter_data_segments
            &&& after.filter_data_tip == before.filter_data_tip
            &&& after.worker_running == before.worker_running
            &&& after.last_index_save_count == before.last_index_save_count
        }),
{
}

/// The index is taken in exactly from a file with the layout of one. It then finds a block at the
/// height of the last entry with its hash, and no other block. Otherwise nothing changes.
pub proof fn law_index_file_is_taken_in(
    storage: &mut DiskStorageManager,
    file: Option<&[u8]>,
    loaded: bool,
    hash: BlockHash,
    found: Option<u32>,
    i: int,
)
    requires
        call_ensures(DiskStorageManager::load_index, (storage, file), loaded),
        call_ensures(HeaderHashIndex::get, (&final(storage).header_hash_index, &hash), found),
        file matches Some(content) ==> content@.len() <= u64::MAX,
    ensures
        loaded <==> (file matches Some(content) && has_index_layout(content@)),
        file matches Some(content) ==> loaded ==> {
            &&& is_last_entry(content@, hash.bytes@, i) ==> found == Some(
                word_at(content@, 48 + 44 * i) as u32,
            )
            &&& found is Some ==> has_entry(content@, hash.bytes@)
        },
        !loaded ==> final(storage)@ == old(storage)@,
        final(storage)@ == (StorageModel { index: final(storage)@.index, ..old(storage)@ }),
{
    if let Some(content) = file {
        if has_index_layout(content@) {
            lemma_index_of_layout(content@);
        }
        if loaded {
            let pairs = choose|pairs: Seq<(Seq<u8>, u32)>| #[trigger]
                is_index_file(content@, pairs) && final(storage)@ == (StorageModel {
                    index: with_pairs(Map::empty(), pairs),
                    ..old(storage)@
                });
            lemma_layout_of_index(content@, pairs);
            lemma_entries_found(content@, pairs, hash.bytes@, i);
        }
    }
}

/// The base height is that of the chain state, if one was saved, and nothing else changes.
pub proof fn law_base_height_is_restored(storage: &mut DiskStorageManager, base: Option<u32>)
    requires
        call_ensures(DiskStorageManager::restore_sync_base_height, (storage, base), ()),
    ensures
        base matches Some(height) ==> final(storage)@ == (StorageModel {
            sync_base_height: height,
            ..old(storage)@
        }),
        base is None ==> final(storage)@ == old(storage)@,
{
}

} // verus!
