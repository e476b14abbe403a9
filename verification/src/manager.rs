//! The storage manager: its state, and how it works together with the background worker.

use std::collections::HashMap;

use vstd::prelude::*;

use crate::filter_data::{FilterDataModel, FilterDataSegment};
use crate::headers::{BlockHeader, FilterHeader};
use crate::index::HeaderHashIndex;
use crate::segment_map::{
    keyed_by_id, lists_dirty, models, with_placed, with_save_completed, with_saves_started,
    SegmentMap,
};
use crate::segments::{SegmentCache, SegmentModel, SegmentState};
use crate::worker::{WorkerCommand, WorkerNotification};
use crate::{HEADERS_PER_SEGMENT, MAX_ACTIVE_SEGMENTS};

verus! {

broadcast use vstd::std_specs::hash::group_hash_axioms;

/// Storage manager with segmented files and background saving.
///
/// Heights are heights of the block chain. The first header of the first segment is the one at
/// `sync_base_height`.
#[derive(Debug)]
pub struct DiskStorageManager {
    /// Segments of block headers in memory.
    pub active_segments: SegmentMap<BlockHeader>,
    /// Segments of filter headers in memory.
    pub active_filter_segments: SegmentMap<FilterHeader>,
    /// Segments of compact filters in memory.
    pub active_filter_data_segments: HashMap<u32, FilterDataSegment>,
    /// Reverse index for lookups by hash.
    pub header_hash_index: HeaderHashIndex,
    /// Whether the background worker takes commands.
    pub worker_running: bool,
    pub cached_tip_height: Option<u32>,
    pub cached_filter_tip_height: Option<u32>,
    pub cached_filter_data_tip_height: Option<u32>,
    /// Height at which a sync from a checkpoint began, or 0.
    pub sync_base_height: u32,
    /// Number of entries of the index when it was last handed to the background worker.
    pub last_index_save_count: usize,
}

/// What a [`DiskStorageManager`] holds.
#[verifier::ext_equal]
pub struct StorageModel {
    pub segments: Map<u32, SegmentModel<BlockHeader>>,
    pub filter_segments: Map<u32, SegmentModel<FilterHeader>>,
    pub filter_data_segments: Map<u32, FilterDataModel>,
    pub index: Map<Seq<u8>, u32>,
    pub worker_running: bool,
    pub tip: Option<u32>,
    pub filter_tip: Option<u32>,
    pub filter_data_tip: Option<u32>,
    pub sync_base_height: u32,
    pub last_index_save_count: usize,
}

impl View for DiskStorageManager {
    type V = StorageModel;

    open spec fn view(&self) -> StorageModel {
        StorageModel {
            segments: self.active_segments@,
            filter_segments: self.active_filter_segments@,
            filter_data_segments: self.active_filter_data_segments@.map_values(
                |segment: FilterDataSegment| segment@,
            ),
            index: self.header_hash_index@,
            worker_running: self.worker_running,
            tip: self.cached_tip_height,
            filter_tip: self.cached_filter_tip_height,
            filter_data_tip: self.cached_filter_data_tip_height,
            sync_base_height: self.sync_base_height,
            last_index_save_count: self.last_index_save_count,
        }
    }
}

/// A manager that holds nothing and whose background worker has not been started.
pub open spec fn empty_storage() -> StorageModel {
    StorageModel {
        segments: Map::empty(),
        filter_segments: Map::empty(),
        filter_data_segments: Map::empty(),
        index: Map::empty(),
        worker_running: false,
        tip: None,
        filter_tip: None,
        filter_data_tip: None,
        sync_base_height: 0,
        last_index_save_count: 0,
    }
}

/// A manager after a notification of the background worker.
pub open spec fn with_notification(
    storage: StorageModel,
    notification: WorkerNotification,
) -> StorageModel {
    match notification {
        WorkerNotification::BlockHeaderSegmentCacheSaved(cache) => StorageModel {
            segments: with_save_completed(storage.segments, cache.segment_id),
            ..storage
        },
        WorkerNotification::BlockFilterSegmentCacheSaved(cache) => StorageModel {
            filter_segments: with_save_completed(storage.filter_segments, cache.segment_id),
            ..storage
        },
        WorkerNotification::IndexSaved => storage,
    }
}

/// A manager after several notifications, in order.
pub open spec fn with_notifications(
    storage: StorageModel,
    notifications: Seq<WorkerNotification>,
) -> StorageModel
    decreases notifications.len(),
{
    if notifications.len() == 0 {
        storage
    } else {
        with_notification(
            with_notifications(storage, notifications.drop_last()),
            notifications.last(),
        )
    }
}

/// Whether the index has grown so much since it was last saved, or was never saved, that it is
/// to be saved now.
pub open spec fn index_save_due(index_size: nat, last_save_count: usize) -> bool {
    index_size >= last_save_count + 10_000 || last_save_count == 0
}

/// What is handed to the background worker to be saved.
#[derive(Debug)]
pub struct SaveBatch {
    pub segments: Vec<SegmentCache<BlockHeader>>,
    pub filter_segments: Vec<SegmentCache<FilterHeader>>,
    pub index: Option<HeaderHashIndex>,
}

/// Whether a batch is what a manager has to save.
pub open spec fn saves_changes(batch: SaveBatch, storage: StorageModel) -> bool {
    if storage.worker_running {
        &&& lists_dirty(models(batch.segments@), storage.segments)
        &&& lists_dirty(models(batch.filter_segments@), storage.filter_segments)
        &&& batch.index is Some <==> index_save_due(
            storage.index.dom().len(),
            storage.last_index_save_count,
        )
        &&& batch.index matches Some(index) ==> index.wf() && index@ == storage.index
    } else {
        batch.segments@.len() == 0 && batch.filter_segments@.len() == 0 && batch.index is None
    }
}

/// A manager after its changes were handed to the background worker.
pub open spec fn with_changes_handed_over(storage: StorageModel, now: u64) -> StorageModel {
    if storage.worker_running {
        StorageModel {
            segments: with_saves_started(storage.segments, now),
            filter_segments: with_saves_started(storage.filter_segments, now),
            last_index_save_count: if index_save_due(
                storage.index.dom().len(),
                storage.last_index_save_count,
            ) {
                storage.index.dom().len() as usize
            } else {
                storage.last_index_save_count
            },
            ..storage
        }
    } else {
        storage
    }
}

/// The commands of a batch: block header segments, filter header segments, the index.
pub open spec fn batch_commands(batch: SaveBatch) -> Seq<WorkerCommand> {
    batch.segments@.map_values(
        |cache: SegmentCache<BlockHeader>| WorkerCommand::SaveBlockHeaderSegmentCache(cache),
    ) + batch.filter_segments@.map_values(
        |cache: SegmentCache<FilterHeader>| WorkerCommand::SaveFilterHeaderSegmentCache(cache),
    ) + match batch.index {
        Some(index) => seq![WorkerCommand::SaveIndex { index }],
        None => Seq::empty(),
    }
}

impl DiskStorageManager {
    /// Segments stand under their own numbers, there are not too many of them in memory, and the
    /// index is in order.
    pub open spec fn wf(self) -> bool {
        &&& keyed_by_id(self@.segments)
        &&& keyed_by_id(self@.filter_segments)
        &&& self@.segments.dom().len() <= MAX_ACTIVE_SEGMENTS
        &&& self@.filter_segments.dom().len() <= MAX_ACTIVE_SEGMENTS
        &&& forall|id: u32| #[trigger]
            self@.filter_data_segments.contains_key(id)
                ==> self@.filter_data_segments[id].segment_id == id
        &&& self.header_hash_index.wf()
    }

    /// Creates a storage manager that holds nothing.
    pub fn new() -> (storage: Self)
        ensures
            storage.wf(),
            storage@ == empty_storage(),
    {
        let storage = DiskStorageManager {
            active_segments: SegmentMap::new(),
            active_filter_segments: SegmentMap::new(),
            active_filter_data_segments: HashMap::new(),
            header_hash_index: HeaderHashIndex::new(),
            worker_running: false,
            cached_tip_height: None,
            cached_filter_tip_height: None,
            cached_filter_data_tip_height: None,
            sync_base_height: 0,
            last_index_save_count: 0,
        };
        assert(storage@ =~= empty_storage());
        storage
    }

    /// Notes that the background worker takes commands.
    pub fn start_worker(&mut self)
        ensures
            *final(self) == (DiskStorageManager { worker_running: true, ..*old(self) }),
            final(self)@ == (StorageModel { worker_running: true, ..old(self)@ }),
    {
        self.worker_running = true;
    }

    /// Stops the background worker without forcing a save, and returns the command that stops it
    /// if it is running.
    pub fn stop_worker(&mut self) -> (command: Option<WorkerCommand>)
        ensures
            *final(self) == (DiskStorageManager { worker_running: false, ..*old(self) }),
            final(self)@ == (StorageModel { worker_running: false, ..old(self)@ }),
            command == if old(self).worker_running {
                Some(WorkerCommand::Shutdown)
            } else {
                None
            },
    {
        if self.worker_running {
            self.worker_running = false;
            Some(WorkerCommand::Shutdown)
        } else {
            None
        }
    }

    /// Get the segment ID for a given height.
    pub fn get_segment_id(height: u32) -> (segment_id: u32)
        ensures
            segment_id == height / HEADERS_PER_SEGMENT,
    {
        height / HEADERS_PER_SEGMENT
    }

    /// Get the offset within a segment for a given height.
    pub fn get_segment_offset(height: u32) -> (offset: usize)
        ensures
            offset == height % HEADERS_PER_SEGMENT,
    {
        (height % HEADERS_PER_SEGMENT) as usize
    }

    /// Takes in the notifications of the background worker: segments that were being saved
    /// become clean, unless they have changed in the meantime.
    pub fn process_worker_notifications(&mut self, notifications: &Vec<WorkerNotification>)
        requires
            old(self).wf(),
        ensures
            final(self).wf(),
            final(self)@ == with_notifications(old(self)@, notifications@),
    {
        let mut i: usize = 0;
        while i < notifications.len()
            invariant
                i <= notifications.len(),
                self.wf(),
                self@ == with_notifications(old(self)@, notifications@.take(i as int)),
            decreases notifications.len() - i,
        {
            let ghost before = self@;
            match &notifications[i] {
                WorkerNotification::BlockHeaderSegmentCacheSaved(cache) => {
                    self.active_segments.save_completed(cache.segment_id);
                },
                WorkerNotification::BlockFilterSegmentCacheSaved(cache) => {
                    self.active_filter_segments.save_completed(cache.segment_id);
                },
                WorkerNotification::IndexSaved => {},
            }
            assert(self@.segments.dom() =~= before.segments.dom());
            assert(self@.filter_segments.dom() =~= before.filter_segments.dom());
            i += 1;
            assert(notifications@.take(i as int).drop_last() =~= notifications@.take(i - 1));
            assert(self@ =~= with_notification(before, notifications@[i - 1]));
        }
        assert(notifications@.take(i as int) =~= notifications@);
    }

    /// Takes a block header segment into memory, in place of the one that left.
    pub fn place_segment(&mut self, evicted: Option<u32>, cache: SegmentCache<BlockHeader>)
        requires
            old(self).wf(),
            match evicted {
                Some(id) => old(self)@.segments.contains_key(id),
                None => old(self)@.segments.dom().len() < MAX_ACTIVE_SEGMENTS,
            },
        ensures
            final(self).wf(),
            final(self)@ == (StorageModel {
                segments: with_placed(old(self)@.segments, evicted, cache@),
                ..old(self)@
            }),
    {
        self.active_segments.place(evicted, cache);
    }

    /// Takes a filter header segment into memory, in place of the one that left.
    pub fn place_filter_segment(&mut self, evicted: Option<u32>, cache: SegmentCache<FilterHeader>)
        requires
            old(self).wf(),
            match evicted {
                Some(id) => old(self)@.filter_segments.contains_key(id),
                None => old(self)@.filter_segments.dom().len() < MAX_ACTIVE_SEGMENTS,
            },
        ensures
            final(self).wf(),
            final(self)@ == (StorageModel {
                filter_segments: with_placed(old(self)@.filter_segments, evicted, cache@),
                ..old(self)@
            }),
    {
        self.active_filter_segments.place(evicted, cache);
    }

    /// Hands all dirty segments to the background worker, and the index if it has grown by
    /// 10,000 entries or was never saved. Without a worker nothing is saved.
    pub fn save_dirty_segments_cache(&mut self, now: u64) -> (batch: SaveBatch)
        requires
            old(self).wf(),
        ensures
            final(self).wf(),
            saves_changes(batch, old(self)@),
            final(self)@ == with_changes_handed_over(old(self)@, now),
    {
        if !self.worker_running {
            return SaveBatch { segments: Vec::new(), filter_segments: Vec::new(), index: None };
        }
        let segments = self.active_segments.process_segments(now);
        let filter_segments = self.active_filter_segments.process_segments(now);
        let index = self.process_index();
        assert(self@.segments.dom() =~= old(self)@.segments.dom());
        assert(self@.filter_segments.dom() =~= old(self)@.filter_segments.dom());
        assert(self@ =~= with_changes_handed_over(old(self)@, now));
        SaveBatch { segments, filter_segments, index }
    }

    /// A copy of the index, if it has to be saved.
    fn process_index(&mut self) -> (index: Option<HeaderHashIndex>)
        requires
            old(self).header_hash_index.wf(),
        ensures
            ({
                let size = old(self)@.index.dom().len();
                let due = index_save_due(size, old(self).last_index_save_count);
                &&& index is Some <==> due
                &&& index matches Some(copy) ==> copy.wf() && copy@ == old(self)@.index
                &&& due ==> size <= usize::MAX && *final(self) == (DiskStorageManager {
                    last_index_save_count: size as usize,
                    ..*old(self)
                })
                &&& !due ==> *final(self) == *old(self)
            }),
    {
        let current_index_size: usize = self.header_hash_index.len();
        let last_save_count: usize = self.last_index_save_count;
        if last_save_count == 0 || (current_index_size >= last_save_count && current_index_size
            - last_save_count >= 10_000) {
            self.last_index_save_count = current_index_size;
            Some(self.header_hash_index.clone())
        } else {
            None
        }
    }
}

impl SaveBatch {
    /// The commands that hand the batch to the background worker.
    pub fn commands(self) -> (commands: Vec<WorkerCommand>)
        ensures
            commands@ == batch_commands(self),
    {
        let mut commands: Vec<WorkerCommand> = Vec::new();
        let ghost a = self.segments@.map_values(
            |cache: SegmentCache<BlockHeader>| WorkerCommand::SaveBlockHeaderSegmentCache(cache),
        );
        let ghost b = self.filter_segments@.map_values(
            |cache: SegmentCache<FilterHeader>| WorkerCommand::SaveFilterHeaderSegmentCache(cache),
        );
        let SaveBatch { segments, filter_segments, index } = self;
        for cache in it: segments
            invariant
                it.seq() == segments@,
                a.len() == segments@.len(),
                forall|i: int|
                    0 <= i < a.len() ==> #[trigger] a[i]
                        == WorkerCommand::SaveBlockHeaderSegmentCache(segments@[i]),
                commands@ == a.take(it.index() as int),
        {
            commands.push(WorkerCommand::SaveBlockHeaderSegmentCache(cache));
            assert(commands@ =~= a.take(it.index() + 1));
        }
        assert(commands@ =~= a);
        for cache in it: filter_segments
            invariant
                it.seq() == filter_segments@,
                b.len() == filter_segments@.len(),
                forall|i: int|
                    0 <= i < b.len() ==> #[trigger] b[i]
                        == WorkerCommand::SaveFilterHeaderSegmentCache(filter_segments@[i]),
                commands@ == a + b.take(it.index() as int),
        {
            commands.push(WorkerCommand::SaveFilterHeaderSegmentCache(cache));
            assert(commands@ =~= a + b.take(it.index() + 1));
        }
        assert(commands@ =~= a + b);
        if let Some(index) = index {
            commands.push(WorkerCommand::SaveIndex { index });
        }
        assert(commands@ =~= batch_commands(self));
        commands
    }
}

/// Every dirty segment goes to the background worker, as it is.
pub proof fn law_dirty_segments_are_saved(batch: SaveBatch, storage: StorageModel, id: u32)
    requires
        storage.worker_running,
        saves_changes(batch, storage),
    ensures
        storage.segments.contains_key(id) && storage.segments[id].state == SegmentState::Dirty
            ==> exists|i: int|
            0 <= i < batch_commands(batch).len() && (#[trigger] batch_commands(batch)[i]
                matches WorkerCommand::SaveBlockHeaderSegmentCache(cache) && cache@
                == storage.segments[id]),
        storage.filter_segments.contains_key(id) && storage.filter_segments[id].state
            == SegmentState::Dirty ==> exists|i: int|
            0 <= i < batch_commands(batch).len() && (#[trigger] batch_commands(batch)[i]
                matches WorkerCommand::SaveFilterHeaderSegmentCache(cache) && cache@
                == storage.filter_segments[id]),
{
    let commands = batch_commands(batch);
    if storage.segments.contains_key(id) && storage.segments[id].state == SegmentState::Dirty {
        let list = models(batch.segments@);
        assert(list.contains(storage.segments[id]));
        let i = choose|i: int| 0 <= i < list.len() && list[i] == storage.segments[id];
        assert(commands[i] == WorkerCommand::SaveBlockHeaderSegmentCache(batch.segments@[i]));
    }
    if storage.filter_segments.contains_key(id) && storage.filter_segments[id].state
        == SegmentState::Dirty {
        let list = models(batch.filter_segments@);
        assert(list.contains(storage.filter_segments[id]));
        let i = choose|i: int| 0 <= i < list.len() && list[i] == storage.filter_segments[id];
        assert(commands[batch.segments@.len() + i] == WorkerCommand::SaveFilterHeaderSegmentCache(
            batch.filter_segments@[i],
        ));
    }
}

/// Whatever the background worker reports, no header changes, and a segment that has changed stays
/// to be saved.
pub proof fn law_notifications_keep_changes(
    storage: StorageModel,
    notifications: Seq<WorkerNotification>,
    id: u32,
)
    ensures
        ({
            let after = with_notifications(storage, notifications);
            &&& after == (StorageModel {
                segments: after.segments,
                filter_segments: after.filter_segments,
                ..storage
            })
            &&& after.segments.contains_key(id) == storage.segments.contains_key(id)
            &&& after.filter_segments.contains_key(id) == storage.filter_segments.contains_key(id)
            &&& after.segments[id].headers == storage.segments[id].headers
            &&& after.filter_segments[id].headers == storage.filter_segments[id].headers
            &&& storage.segments[id].state == SegmentState::Dirty ==> after.segments[id]
                == storage.segments[id]
            &&& storage.filter_segments[id].state == SegmentState::Dirty
                ==> after.filter_segments[id] == storage.filter_segments[id]
        }),
    decreases notifications.len(),
{
    if notifications.len() > 0 {
        law_notifications_keep_changes(storage, notifications.drop_last(), id);
    }
}

} // verus!
