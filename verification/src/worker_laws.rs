//! What the background worker writes and reports.

use vstd::prelude::*;

use crate::encoding::double_word_at;
use crate::error::StorageResult;
use crate::headers::{BlockHeader, FilterHeader};
use crate::index::HeaderHashIndex;
use crate::index_laws::{is_entry_at, lemma_index_bytes};
use crate::name_laws::{is_numbered, law_segment_paths};
use crate::segment_laws::{
    are_block_headers, are_filter_headers, lemma_block_file, lemma_filter_file, valid_headers,
};
use crate::segments::SegmentCache;
use crate::worker::{WorkerAction, WorkerCommand, WorkerNotification};

verus! {

/// The worker writes all filter headers of a segment to the segment's file.
pub proof fn law_worker_saves_filter_headers(
    cache: SegmentCache<FilterHeader>,
    action: StorageResult<WorkerAction>,
)
    requires
        call_ensures(
            WorkerCommand::action,
            (&WorkerCommand::SaveFilterHeaderSegmentCache(cache),),
            action,
        ),
    ensures
        action matches Ok(WorkerAction::Write(file)) && are_filter_headers(
            file.bytes@,
            cache.headers@,
        ) && is_numbered(
            file.path@,
            "filters/filter_segment_"@,
            cache.segment_id as int,
            ".dat"@,
        ),
{
    let file = action->Ok_0->Write_0;
    lemma_filter_file(cache.headers@);
    law_segment_paths(cache.segment_id, file.path, file.path, file.path);
}

/// The worker writes all block headers of a segment, but those that fill up, to the segment's file.
pub proof fn law_worker_saves_block_headers(
    cache: SegmentCache<BlockHeader>,
    action: StorageResult<WorkerAction>,
)
    requires
        call_ensures(
            WorkerCommand::action,
            (&WorkerCommand::SaveBlockHeaderSegmentCache(cache),),
            action,
        ),
    ensures
        action matches Ok(WorkerAction::Write(file)) && are_block_headers(
            file.bytes@,
            valid_headers(cache.headers@),
        ) && is_numbered(file.path@, "headers/segment_"@, cache.segment_id as int, ".dat"@),
{
    let file = action->Ok_0->Write_0;
    lemma_block_file(cache.headers@);
    law_segment_paths(cache.segment_id, file.path, file.path, file.path);
}

/// The worker writes all entries of the index to the index file.
pub proof fn law_worker_saves_index(
    index: HeaderHashIndex,
    action: StorageResult<WorkerAction>,
    i: int,
)
    requires
        call_ensures(WorkerCommand::action, (&WorkerCommand::SaveIndex { index },), action),
        8 + 44 * index.entries@.len() <= u64::MAX,
    ensures
        action matches Ok(WorkerAction::Write(file)) && {
            &&& file.path@ == "headers/index.dat"@
            &&& file.bytes@.len() == 8 + 44 * index.entries@.len()
            &&& double_word_at(file.bytes@, 0) == index.entries@.len()
            &&& 0 <= i < index.entries@.len() ==> is_entry_at(
                file.bytes@,
                8 + 44 * i,
                index.entries@[i].hash.bytes@,
                index.entries@[i].height,
            )
        },
{
    lemma_index_bytes(&index, i);
}

/// The worker stops at the command to stop alone.
pub proof fn law_worker_stops(command: WorkerCommand, action: StorageResult<WorkerAction>)
    requires
        call_ensures(WorkerCommand::action, (&command,), action),
    ensures
        action is Ok,
        action->Ok_0 is Stop <==> command is Shutdown,
{
}

/// A save that succeeded is reported, a segment with what was saved. Nothing else is reported.
pub proof fn law_worker_reports(
    command: WorkerCommand,
    saved: bool,
    notification: Option<WorkerNotification>,
)
    requires
        call_ensures(WorkerCommand::notification, (command, saved), notification),
    ensures
        notification is Some <==> saved && !(command is Shutdown),
        saved && command is SaveIndex ==> notification->0 is IndexSaved,
        command matches WorkerCommand::SaveBlockHeaderSegmentCache(cache) ==> saved ==> (
        notification->0 matches WorkerNotification::BlockHeaderSegmentCacheSaved(reported)
            && reported == cache),
        command matches WorkerCommand::SaveFilterHeaderSegmentCache(cache) ==> saved ==> (
        notification->0 matches WorkerNotification::BlockFilterSegmentCacheSaved(reported)
            && reported == cache),
{
}

} // verus!
