//! What becomes of the segments in memory when they are saved, reported as saved, loaded and
//! evicted.

use vstd::prelude::*;

use crate::headers::{BlockHeader, FilterHeader, Persistable};
use crate::manager::{
    saves_changes, with_changes_handed_over, with_notifications, DiskStorageManager, SaveBatch,
    StorageModel,
};
use crate::name_laws::{is_numbered, law_segment_paths};
use crate::segment_laws::{
    are_block_headers, are_filter_headers, lemma_block_file, lemma_filter_file, valid_headers,
};
use crate::segment_map::{lists_dirty, models, with_saves_started, Eviction, SegmentMap};
use crate::segments::{SegmentCache, SegmentModel, SegmentState};
use crate::worker::{WorkerCommand, WorkerNotification};

verus! {

/// Segments are kept under their numbers: one that was put in is found, one that was taken out is
/// not, and others are not touched.
pub proof fn law_segments_under_their_numbers<H: Persistable>(
    inserted: &mut SegmentMap<H>,
    cache: SegmentCache<H>,
    removed: &mut SegmentMap<H>,
    id: u32,
    taken: Option<SegmentCache<H>>,
    other: u32,
)
    ensures
        call_ensures(SegmentMap::<H>::insert, (inserted, cache), ()) ==> {
            &&& final(inserted)@.contains_key(cache.segment_id)
            &&& final(inserted)@[cache.segment_id] == cache@
            &&& other != cache.segment_id ==> final(inserted)@.contains_key(other) == old(
                inserted,
            )@.contains_key(other) && final(inserted)@[other] == old(inserted)@[other]
        },
        call_ensures(SegmentMap::<H>::remove, (removed, id), taken) ==> {
            &&& taken is Some <==> old(removed)@.contains_key(id)
            &&& taken matches Some(segment) ==> segment@ == old(removed)@[id]
            &&& !final(removed)@.contains_key(id)
            &&& other != id ==> final(removed)@.contains_key(other) == old(removed)@.contains_key(
                other,
            ) && final(removed)@[other] == old(removed)@[other]
        },
{
}

/// What is asked of the segments in memory is answered by what is there.
pub proof fn law_segments_found<H: Persistable>(
    map: &SegmentMap<H>,
    id: u32,
    found: Option<&SegmentCache<H>>,
    contains: bool,
    len: usize,
    ids: Vec<u32>,
    fresh: SegmentMap<H>,
    cleared: &mut SegmentMap<H>,
)
    ensures
        call_ensures(SegmentMap::<H>::get, (map, id), found) ==> (found is Some
            <==> map@.contains_key(id)) && (found matches Some(segment) ==> segment@ == map@[id]),
        call_ensures(SegmentMap::<H>::contains, (map, id), contains) ==> contains
            == map@.contains_key(id),
        call_ensures(SegmentMap::<H>::len, (map,), len) ==> len == map@.dom().len(),
        call_ensures(SegmentMap::<H>::ids, (map,), ids) ==> (exists|i: int|
            0 <= i < ids@.len() && ids@[i] == id) == map@.contains_key(id),
        call_ensures(SegmentMap::<H>::ids, (map,), ids) ==> forall|i: int, j: int|
            0 <= i < j < ids@.len() ==> ids@[i] != ids@[j],
        call_ensures(SegmentMap::<H>::new, (), fresh) ==> !fresh@.contains_key(id),
        call_ensures(SegmentMap::<H>::clear, (cleared,), ()) ==> !final(cleared)@.contains_key(id),
{
    if call_ensures(SegmentMap::<H>::ids, (map,), ids) {
        assert(ids@.to_set().contains(id) == map@.dom().contains(id));
        assert(ids@.contains(id) == ids@.to_set().contains(id));
    }
}

/// Saving begins: each dirty segment is handed over as it is and marked as being saved now. No
/// other segment is handed over or changed.
pub proof fn law_saving_begins<H: Persistable>(
    map: &mut SegmentMap<H>,
    now: u64,
    to_save: Vec<SegmentCache<H>>,
    id: u32,
    k: int,
    l: int,
)
    requires
        call_ensures(SegmentMap::<H>::process_segments, (map, now), to_save),
    ensures
        saving_began(old(map)@, final(map)@, to_save@, now, id),
        0 <= k < to_save@.len() ==> {
            let saved = to_save@[k];
            &&& saved.state is Dirty
            &&& old(map)@.contains_key(saved.segment_id)
            &&& saved@ == old(map)@[saved.segment_id]
        },
        0 <= k < l < to_save@.len() ==> to_save@[k].segment_id != to_save@[l].segment_id,
{
    lemma_saving_began(old(map)@, final(map)@, to_save@, now, id, k, l);
}

/// Whether a list has nothing but copies of dirty segments, each once.
pub open spec fn only_dirty_copies<H: Persistable>(
    segments: Map<u32, SegmentModel<H>>,
    list: Seq<SegmentCache<H>>,
) -> bool {
    &&& forall|k: int|
        0 <= k < list.len() ==> {
            &&& segments.contains_key((#[trigger] list[k]).segment_id)
            &&& segments[list[k].segment_id] == list[k]@
            &&& list[k].state is Dirty
        }
    &&& forall|k: int, l: int|
        0 <= k < l < list.len() ==> (#[trigger] list[k]).segment_id != (
        #[trigger] list[l]).segment_id
}

/// Whether saving began for a segment: if it was dirty, a copy of it is in the list and it is
/// marked as being saved. Otherwise it is as it was.
pub open spec fn saving_began<H: Persistable>(
    before: Map<u32, SegmentModel<H>>,
    after: Map<u32, SegmentModel<H>>,
    to_save: Seq<SegmentCache<H>>,
    now: u64,
    id: u32,
) -> bool {
    &&& only_dirty_copies(before, to_save)
    &&& after.contains_key(id) == before.contains_key(id)
    &&& before.contains_key(id) && before[id].state is Dirty ==> {
        &&& exists|k: int| 0 <= k < to_save.len() && (#[trigger] to_save[k])@ == before[id]
        &&& after[id].state is Saving
        &&& after[id].last_saved == now
        &&& after[id].segment_id == before[id].segment_id
        &&& after[id].headers == before[id].headers
        &&& after[id].valid_count == before[id].valid_count
        &&& after[id].last_accessed == before[id].last_accessed
    }
    &&& before.contains_key(id) && !(before[id].state is Dirty) ==> after[id] == before[id]
}

proof fn lemma_saving_began<H: Persistable>(
    before: Map<u32, SegmentModel<H>>,
    after: Map<u32, SegmentModel<H>>,
    to_save: Seq<SegmentCache<H>>,
    now: u64,
    id: u32,
    k: int,
    l: int,
)
    requires
        lists_dirty(models(to_save), before),
        after == with_saves_started(before, now),
    ensures
        saving_began(before, after, to_save, now, id),
        0 <= k < to_save.len() ==> {
            let saved = to_save[k];
            &&& saved.state is Dirty
            &&& before.contains_key(saved.segment_id)
            &&& saved@ == before[saved.segment_id]
        },
        0 <= k < l < to_save.len() ==> to_save[k].segment_id != to_save[l].segment_id,
{
    let list = models(to_save);
    assert forall|i: int| 0 <= i < to_save.len() implies {
        &&& before.contains_key((#[trigger] to_save[i]).segment_id)
        &&& before[to_save[i].segment_id] == to_save[i]@
        &&& to_save[i].state is Dirty
    } by {
        assert(list[i] == to_save[i]@);
    }
    assert forall|i: int, j: int| 0 <= i < j < to_save.len() implies (
    #[trigger] to_save[i]).segment_id != (#[trigger] to_save[j]).segment_id by {
        assert(list[i] == to_save[i]@ && list[j] == to_save[j]@);
    }
    if before.contains_key(id) && before[id].state is Dirty {
        assert(list.contains(before[id]));
        let j = choose|j: int| 0 <= j < list.len() && list[j] == before[id];
        assert(to_save[j]@ == before[id]);
    }
    if 0 <= k < to_save.len() {
        assert(list[k] == to_save[k]@);
    }
    if 0 <= k < l < to_save.len() {
        assert(list[k] == to_save[k]@ && list[l] == to_save[l]@);
    }
}

/// A segment that was being saved is clean once it is reported, and nothing else changes.
pub proof fn law_save_completed<H: Persistable>(map: &mut SegmentMap<H>, saved: u32, id: u32)
    requires
        call_ensures(SegmentMap::<H>::save_completed, (map, saved), ()),
    ensures
        completed(old(map)@, final(map)@, id, id == saved),
{
}

/// Whether a segment is as it was, but for becoming clean if it was being saved and is reported.
pub open spec fn completed<H>(
    before: Map<u32, SegmentModel<H>>,
    after: Map<u32, SegmentModel<H>>,
    id: u32,
    reported: bool,
) -> bool {
    &&& after.contains_key(id) == before.contains_key(id)
    &&& before.contains_key(id) ==> {
        &&& after[id].segment_id == before[id].segment_id
        &&& after[id].headers == before[id].headers
        &&& after[id].valid_count == before[id].valid_count
        &&& after[id].last_saved == before[id].last_saved
        &&& after[id].last_accessed == before[id].last_accessed
        &&& after[id].state == if reported && before[id].state is Saving {
            SegmentState::Clean
        } else {
            before[id].state
        }
    }
}

/// A segment leaves memory if there are 10 of them: one that no other was accessed before. What is
/// written first are all its filter headers, unless it is clean.
pub proof fn law_filter_segment_eviction(
    map: &SegmentMap<FilterHeader>,
    eviction: Option<Eviction>,
    id: u32,
)
    requires
        call_ensures(SegmentMap::<FilterHeader>::eviction, (map,), eviction),
    ensures
        eviction is Some <==> map@.dom().len() >= 10,
        eviction matches Some(e) ==> {
            &&& map@.contains_key(e.segment_id)
            &&& map@.contains_key(id) ==> map@[e.segment_id].last_accessed
                <= map@[id].last_accessed
            &&& e.file is None <==> map@[e.segment_id].state is Clean
            &&& e.file matches Some(file) ==> are_filter_headers(
                file.bytes@,
                map@[e.segment_id].headers,
            ) && is_numbered(
                file.path@,
                "filters/filter_segment_"@,
                e.segment_id as int,
                ".dat"@,
            )
        },
{
    if let Some(e) = eviction {
        lemma_filter_file(map@[e.segment_id].headers);
        if let Some(file) = e.file {
            law_segment_paths(e.segment_id, file.path, file.path, file.path);
        }
    }
}

/// A segment leaves memory if there are 10 of them: one that no other was accessed before. What is
/// written first are all its valid block headers, unless it is clean.
pub proof fn law_block_segment_eviction(
    map: &SegmentMap<BlockHeader>,
    eviction: Option<Eviction>,
    id: u32,
)
    requires
        call_ensures(SegmentMap::<BlockHeader>::eviction, (map,), eviction),
    ensures
        eviction is Some <==> map@.dom().len() >= 10,
        eviction matches Some(e) ==> {
            &&& map@.contains_key(e.segment_id)
            &&& map@.contains_key(id) ==> map@[e.segment_id].last_accessed
                <= map@[id].last_accessed
            &&& e.file is None <==> map@[e.segment_id].state is Clean
            &&& e.file matches Some(file) ==> are_block_headers(
                file.bytes@,
                valid_headers(map@[e.segment_id].headers),
            ) && is_numbered(file.path@, "headers/segment_"@, e.segment_id as int, ".dat"@)
        },
{
    if let Some(e) = eviction {
        lemma_block_file(map@[e.segment_id].headers);
        if let Some(file) = e.file {
            law_segment_paths(e.segment_id, file.path, file.path, file.path);
        }
    }
}

/// Whether a segment was placed in memory and another one left it.
pub open spec fn was_placed<H>(
    before: Map<u32, SegmentModel<H>>,
    after: Map<u32, SegmentModel<H>>,
    evicted: Option<u32>,
    placed: SegmentModel<H>,
    id: u32,
) -> bool {
    &&& after.contains_key(placed.segment_id)
    &&& after[placed.segment_id] == placed
    &&& id != placed.segment_id && evicted == Some(id) ==> !after.contains_key(id)
    &&& id != placed.segment_id && evicted != Some(id) ==> after.contains_key(id)
        == before.contains_key(id) && after[id] == before[id]
}

/// A segment that is placed in memory is there, the one that left for it is not, and the others are
/// as they were.
pub proof fn law_placed<H: Persistable>(
    map: &mut SegmentMap<H>,
    evicted: Option<u32>,
    cache: SegmentCache<H>,
    id: u32,
)
    requires
        call_ensures(SegmentMap::<H>::place, (map, evicted, cache), ()),
    ensures
        was_placed(old(map)@, final(map)@, evicted, cache@, id),
        final(map)@.dom().len() <= 10,
{
}

/// A segment that is placed in the storage is there, the one that left for it is not, and all else
/// is as it was.
pub proof fn law_placed_in_storage(
    blocks: &mut DiskStorageManager,
    block_cache: SegmentCache<BlockHeader>,
    filters: &mut DiskStorageManager,
    filter_cache: SegmentCache<FilterHeader>,
    evicted: Option<u32>,
    id: u32,
)
    ensures
        call_ensures(DiskStorageManager::place_segment, (blocks, evicted, block_cache), ()) ==> {
            &&& was_placed(
                old(blocks)@.segments,
                final(blocks)@.segments,
                evicted,
                block_cache@,
                id,
            )
            &&& final(blocks)@ == (StorageModel {
                segments: final(blocks)@.segments,
                ..old(blocks)@
            })
            &&& final(blocks)@.segments.dom().len() <= 10
        },
        call_ensures(DiskStorageManager::place_filter_segment, (filters, evicted, filter_cache), ())
            ==> {
            &&& was_placed(
                old(filters)@.filter_segments,
                final(filters)@.filter_segments,
                evicted,
                filter_cache@,
                id,
            )
            &&& final(filters)@ == (StorageModel {
                filter_segments: final(filters)@.filter_segments,
                ..old(filters)@
            })
            &&& final(filters)@.filter_segments.dom().len() <= 10
        },
{
}

/// Whether all of the storage but the segments of headers and the count of saved index entries is
/// as it was.
pub open spec fn only_saving_changed(before: StorageModel, after: StorageModel) -> bool {
    &&& after.filter_data_segments == before.filter_data_segments
    &&& after.index == before.index
    &&& after.worker_running == before.worker_running
    &&& after.tip == before.tip
    &&& after.filter_tip == before.filter_tip
    &&& after.filter_data_tip == before.filter_data_tip
    &&& after.sync_base_height == before.sync_base_height
}

/// Whether the index was handed to the background worker, if it never was before or has 10,000 more
/// entries than when it was.
pub open spec fn index_handed_over(
    before: StorageModel,
    after: StorageModel,
    batch: SaveBatch,
) -> bool {
    let size = before.index.dom().len();
    &&& batch.index is Some <==> before.last_index_save_count == 0 || size
        - before.last_index_save_count >= 10_000
    &&& batch.index matches Some(index) ==> index@ == before.index && after.last_index_save_count
        == size
    &&& batch.index is None ==> after.last_index_save_count == before.last_index_save_count
}

/// Whether changes were handed to the background worker: every dirty segment as it is, and the
/// index if it was never handed over or has 10,000 more entries than when it was. Without a worker
/// nothing is handed over, and nothing changes.
pub open spec fn handed_over(
    before: StorageModel,
    after: StorageModel,
    batch: SaveBatch,
    now: u64,
    id: u32,
) -> bool {
    if before.worker_running {
        &&& saving_began(before.segments, after.segments, batch.segments@, now, id)
        &&& saving_began(
            before.filter_segments,
            after.filter_segments,
            batch.filter_segments@,
            now,
            id,
        )
        &&& index_handed_over(before, after, batch)
        &&& only_saving_changed(before, after)
    } else {
        &&& batch.segments@.len() == 0
        &&& batch.filter_segments@.len() == 0
        &&& batch.index is None
        &&& after == before
    }
}

pub proof fn lemma_handed_over(
    before: StorageModel,
    after: StorageModel,
    batch: SaveBatch,
    now: u64,
    id: u32,
)
    requires
        saves_changes(batch, before),
        after == with_changes_handed_over(before, now),
        before.index.dom().len() <= usize::MAX,
    ensures
        handed_over(before, after, batch, now, id),
{
    if before.worker_running {
        lemma_saving_began(before.segments, after.segments, batch.segments@, now, id, 0, 0);
        lemma_saving_began(
            before.filter_segments,
            after.filter_segments,
            batch.filter_segments@,
            now,
            id,
            0,
            0,
        );
    }
}

/// All changes go to the background worker.
pub proof fn law_changes_are_handed_over(
    storage: &mut DiskStorageManager,
    now: u64,
    batch: SaveBatch,
    id: u32,
    k: int,
)
    requires
        call_ensures(DiskStorageManager::save_dirty_segments_cache, (storage, now), batch),
        old(storage)@.index.dom().len() <= usize::MAX,
    ensures
        handed_over(old(storage)@, final(storage)@, batch, now, id),
        0 <= k < batch.segments@.len() ==> batch.segments@[k].state is Dirty,
        0 <= k < batch.filter_segments@.len() ==> batch.filter_segments@[k].state is Dirty,
{
    let before = old(storage)@;
    let after = final(storage)@;
    lemma_handed_over(before, after, batch, now, id);
    if before.worker_running {
        lemma_saving_began(before.segments, after.segments, batch.segments@, now, id, k, 0);
        lemma_saving_began(
            before.filter_segments,
            after.filter_segments,
            batch.filter_segments@,
            now,
            id,
            k,
            0,
        );
    }
}

/// Every segment of a batch, and its index, has a command of its own, and there are no others.
pub proof fn law_batch_becomes_commands(
    batch: SaveBatch,
    commands: Vec<WorkerCommand>,
    i: int,
)
    requires
        call_ensures(SaveBatch::commands, (batch,), commands),
    ensures
        ({
            let n = batch.segments@.len() as int;
            let m = n + batch.filter_segments@.len();
            &&& commands@.len() == if batch.index is Some {
                m + 1
            } else {
                m
            }
            &&& 0 <= i < n ==> (commands@[i] matches WorkerCommand::SaveBlockHeaderSegmentCache(
                cache,
            ) && cache == batch.segments@[i])
            &&& n <= i < m ==> (commands@[i] matches WorkerCommand::SaveFilterHeaderSegmentCache(
                cache,
            ) && cache == batch.filter_segments@[i - n])
            &&& batch.index matches Some(saved) ==> (commands@[m] matches WorkerCommand::SaveIndex {
                index,
            } && index == saved)
        }),
{
}

/// Whether a block header segment is among those that are reported.
pub open spec fn block_segment_reported(
    notifications: Seq<WorkerNotification>,
    id: u32,
) -> bool {
    exists|i: int|
        0 <= i < notifications.len() && (#[trigger] notifications[i]
            matches WorkerNotification::BlockHeaderSegmentCacheSaved(cache) && cache.segment_id
            == id)
}

/// Whether a filter header segment is among those that are reported.
pub open spec fn filter_segment_reported(
    notifications: Seq<WorkerNotification>,
    id: u32,
) -> bool {
    exists|i: int|
        0 <= i < notifications.len() && (#[trigger] notifications[i]
            matches WorkerNotification::BlockFilterSegmentCacheSaved(cache) && cache.segment_id
            == id)
}

/// Segments that were being saved become clean exactly if they are reported, those of block headers
/// and those of filter headers each for themselves. Nothing else changes.
pub proof fn law_reported_segments_are_clean(
    storage: &mut DiskStorageManager,
    notifications: &Vec<WorkerNotification>,
    id: u32,
)
    requires
        call_ensures(
            DiskStorageManager::process_worker_notifications,
            (storage, notifications),
            (),
        ),
    ensures
        completed(
            old(storage)@.segments,
            final(storage)@.segments,
            id,
            block_segment_reported(notifications@, id),
        ),
        completed(
            old(storage)@.filter_segments,
            final(storage)@.filter_segments,
            id,
            filter_segment_reported(notifications@, id),
        ),
        only_saving_changed(old(storage)@, final(storage)@),
        final(storage)@.last_index_save_count == old(storage)@.last_index_save_count,
{
    lemma_notifications(old(storage)@, notifications@, id);
}

pub proof fn lemma_notifications(
    storage: StorageModel,
    notifications: Seq<WorkerNotification>,
    id: u32,
)
    ensures
        ({
            let after = with_notifications(storage, notifications);
            &&& completed(
                storage.segments,
                after.segments,
                id,
                block_segment_reported(notifications, id),
            )
            &&& completed(
                storage.filter_segments,
                after.filter_segments,
                id,
                filter_segment_reported(notifications, id),
            )
            &&& only_saving_changed(storage, after)
            &&& after.last_index_save_count == storage.last_index_save_count
        }),
    decreases notifications.len(),
{
    if notifications.len() > 0 {
        let front = notifications.drop_last();
        let last = notifications.last();
        lemma_notifications(storage, front, id);
        assert(notifications[notifications.len() - 1] == last);
        let block_last = last matches WorkerNotification::BlockHeaderSegmentCacheSaved(cache)
            && cache.segment_id == id;
        let filter_last = last matches WorkerNotification::BlockFilterSegmentCacheSaved(cache)
            && cache.segment_id == id;
        assert(block_segment_reported(notifications, id) == (block_segment_reported(front, id)
            || block_last)) by {
            if block_segment_reported(front, id) {
                let i = choose|i: int|
                    0 <= i < front.len() && (#[trigger] front[i]
                        matches WorkerNotification::BlockHeaderSegmentCacheSaved(cache)
                        && cache.segment_id == id);
                assert(notifications[i] == front[i]);
            }
            if block_segment_reported(notifications, id) && !block_last {
                let i = choose|i: int|
                    0 <= i < notifications.len() && (#[trigger] notifications[i]
                        matches WorkerNotification::BlockHeaderSegmentCacheSaved(cache)
                        && cache.segment_id == id);
                assert(front[i] == notifications[i]);
            }
        }
        assert(filter_segment_reported(notifications, id) == (filter_segment_reported(front, id)
            || filter_last)) by {
            if filter_segment_reported(front, id) {
                let i = choose|i: int|
                    0 <= i < front.len() && (#[trigger] front[i]
                        matches WorkerNotification::BlockFilterSegmentCacheSaved(cache)
                        && cache.segment_id == id);
                assert(notifications[i] == front[i]);
            }
            if filter_segment_reported(notifications, id) && !filter_last {
                let i = choose|i: int|
                    0 <= i < notifications.len() && (#[trigger] notifications[i]
                        matches WorkerNotification::BlockFilterSegmentCacheSaved(cache)
                        && cache.segment_id == id);
                assert(front[i] == notifications[i]);
            }
        }
    }
}

/// A new storage holds nothing. Its worker runs once it is started and until it is stopped, which
/// takes one command.
pub proof fn law_worker_runs_between_start_and_stop(
    fresh: DiskStorageManager,
    started: &mut DiskStorageManager,
    stopped: &mut DiskStorageManager,
    command: Option<WorkerCommand>,
    id: u32,
    hash: Seq<u8>,
)
    ensures
        call_ensures(DiskStorageManager::new, (), fresh) ==> {
            &&& !fresh.worker_running
            &&& !fresh@.segments.contains_key(id)
            &&& !fresh@.filter_segments.contains_key(id)
            &&& !fresh@.filter_data_segments.contains_key(id)
            &&& !fresh@.index.contains_key(hash)
            &&& fresh.cached_tip_height is None
            &&& fresh.cached_filter_tip_height is None
            &&& fresh.cached_filter_data_tip_height is None
            &&& fresh.sync_base_height == 0
            &&& fresh.last_index_save_count == 0
        },
        call_ensures(DiskStorageManager::start_worker, (started,), ())
            ==> final(started)@ == (StorageModel { worker_running: true, ..old(started)@ }),
        call_ensures(DiskStorageManager::stop_worker, (stopped,), command) ==> {
            &&& final(stopped)@ == (StorageModel { worker_running: false, ..old(stopped)@ })
            &&& command is Some <==> old(stopped).worker_running
            &&& command matches Some(c) ==> c is Shutdown
        },
{
}

} // verus!
