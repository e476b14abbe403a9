//! What storing filter headers does to each segment, and how the changes get to disk.

use vstd::prelude::*;

use crate::encoding::filled_hash;
use crate::filters::{
    offset_of, segment_of, with_filter_headers, with_header_put, zero_filter_header,
    FilterHeaderCursor, StoreStep,
};
use crate::headers::FilterHeader;
use crate::manager::{DiskStorageManager, SaveBatch, StorageModel};
use crate::memory_laws::{
    index_handed_over, lemma_handed_over, lemma_notifications, saving_began,
};
use crate::segments::{SegmentCache, SegmentModel};
use crate::worker::WorkerNotification;

verus! {

/// The greater of two numbers.
pub open spec fn greater(a: int, b: int) -> int {
    if a >= b {
        a
    } else {
        b
    }
}

/// The lesser of two numbers.
pub open spec fn lesser(a: int, b: int) -> int {
    if a <= b {
        a
    } else {
        b
    }
}

/// The height of the first place of a segment.
pub open spec fn segment_start(sync_base_height: u32, id: u32) -> int {
    sync_base_height + id * 50_000
}

/// Where a run of heights that begins at `first` begins in a segment.
pub open spec fn run_from(sync_base_height: u32, first: int, id: u32) -> int {
    greater(first, segment_start(sync_base_height, id)) - segment_start(sync_base_height, id)
}

/// Where a run of heights that ends before `end` ends in a segment.
pub open spec fn run_to(sync_base_height: u32, end: int, id: u32) -> int {
    lesser(end, segment_start(sync_base_height, id) + 50_000) - segment_start(
        sync_base_height,
        id,
    )
}

/// Whether a run of heights has a part in a segment.
pub open spec fn run_touches(sync_base_height: u32, first: int, end: int, id: u32) -> bool {
    run_from(sync_base_height, first, id) < run_to(sync_base_height, end, id)
}

/// Whether a filter header has no byte but 0.
pub open spec fn is_zero(header: FilterHeader) -> bool {
    forall|i: int| 0 <= i < 32 ==> #[trigger] header.bytes@[i] == 0
}

/// Whether a segment holds a run of filter headers at its heights: each one at its place, those
/// before and behind as they were, and zeros in places that had none. Each one that went behind
/// the end counts as one more valid header.
pub open spec fn holds_run(
    before: SegmentModel<FilterHeader>,
    after: SegmentModel<FilterHeader>,
    sync_base_height: u32,
    first: int,
    headers: Seq<FilterHeader>,
    now: u64,
    id: u32,
) -> bool {
    let end = first + headers.len();
    let from = run_from(sync_base_height, first, id);
    let to = run_to(sync_base_height, end, id);
    let len = before.headers.len() as int;
    let appended = greater(0, to - greater(from, len));
    &&& after.segment_id == before.segment_id
    &&& after.headers.len() == greater(len, to)
    &&& forall|offset: int|
        #![trigger after.headers[offset]]
        0 <= offset < after.headers.len() ==> if from <= offset < to {
            after.headers[offset] == headers[segment_start(sync_base_height, id) + offset - first]
        } else if offset < len {
            after.headers[offset] == before.headers[offset]
        } else {
            is_zero(after.headers[offset])
        }
    &&& before.valid_count + appended <= usize::MAX ==> after.valid_count == before.valid_count
        + appended
    &&& after.last_accessed == now
}

proof fn lemma_run_stored(
    segments: Map<u32, SegmentModel<FilterHeader>>,
    sync_base_height: u32,
    first: u32,
    headers: Seq<FilterHeader>,
    now: u64,
    id: u32,
)
    requires
        first + headers.len() <= u32::MAX,
    ensures
        ({
            let after = with_filter_headers(segments, sync_base_height, first, headers, now);
            if run_touches(sync_base_height, first as int, first + headers.len(), id) {
                &&& after.contains_key(id)
                &&& holds_run(
                    segments[id],
                    after[id],
                    sync_base_height,
                    first as int,
                    headers,
                    now,
                    id,
                )
                &&& after[id].state is Dirty
                &&& after[id].last_saved == segments[id].last_saved
            } else {
                after.contains_key(id) == segments.contains_key(id) && after[id] == segments[id]
            }
        }),
    decreases headers.len(),
{
    let base = sync_base_height;
    if headers.len() > 0 {
        let front = headers.drop_last();
        lemma_run_stored(segments, base, first, front, now, id);
        let middle = with_filter_headers(segments, base, first, front, now);
        let after = with_filter_headers(segments, base, first, headers, now);
        let height = (first + headers.len() - 1) as u32;
        let start = segment_start(base, id);
        let from = run_from(base, first as int, id);
        let to = run_to(base, first + headers.len(), id);
        if height >= base {
            let own = segment_of(base, height);
            let offset = offset_of(base, height);
            assert(own * 50_000 + offset == height - base && 0 <= offset < 50_000);
            if own == id {
                assert(to == offset + 1);
                assert(run_to(base, first + front.len(), id) == offset);
                let a = middle[id].headers;
                let b = after[id].headers;
                assert(b == with_header_put(a, offset, headers.last()));
                assert(zero_filter_header() == (FilterHeader {
                    bytes: filled_hash(0),
                }));
                assert(is_zero(zero_filter_header()));
                assert forall|k: int| #![trigger b[k]] 0 <= k < b.len() implies if from <= k < to {
                    b[k] == headers[start + k - first]
                } else if k < segments[id].headers.len() {
                    b[k] == segments[id].headers[k]
                } else {
                    is_zero(b[k])
                } by {
                    if k < a.len() && k != offset {
                        assert(b[k] == a[k]);
                        if from <= k < offset {
                            assert(front[start + k - first] == headers[start + k - first]);
                        }
                    }
                }
            } else {
                assert(run_to(base, first + front.len(), id) == to || (to <= 0 && run_to(
                    base,
                    first + front.len(),
                    id,
                ) <= 0));
                if run_touches(base, first as int, first + headers.len(), id) {
                    let a = after[id].headers;
                    assert forall|k: int| #![trigger a[k]] 0 <= k < a.len() implies if from <= k
                        < to {
                        a[k] == headers[start + k - first]
                    } else if k < segments[id].headers.len() {
                        a[k] == segments[id].headers[k]
                    } else {
                        is_zero(a[k])
                    } by {
                        if from <= k < to {
                            assert(front[start + k - first] == headers[start + k - first]);
                        }
                    }
                }
            }
        } else {
            assert(to <= 0);
        }
    }
}

/// Whether a list has a copy of a segment with the given filter headers.
pub open spec fn has_copy(
    list: Seq<SegmentCache<FilterHeader>>,
    id: u32,
    headers: Seq<FilterHeader>,
) -> bool {
    exists|k: int|
        0 <= k < list.len() && (#[trigger] list[k]).segment_id == id && list[k].headers@ == headers
}

/// The filter header segments that a step hands to the background worker.
pub open spec fn handed_segments(
    step: StoreStep,
    worker_running: bool,
) -> Option<Seq<SegmentCache<FilterHeader>>> {
    match step {
        StoreStep::Stored(Some(batch)) if worker_running => Some(batch.filter_segments@),
        _ => None,
    }
}

/// Whether the copies of a list are those of segments that are being saved, with all their filter
/// headers, each once.
pub open spec fn copies_of_saving(
    list: Seq<SegmentCache<FilterHeader>>,
    segments: Map<u32, SegmentModel<FilterHeader>>,
) -> bool {
    &&& forall|k: int|
        0 <= k < list.len() ==> {
            let id = (#[trigger] list[k]).segment_id;
            segments.contains_key(id) && segments[id].state is Saving && segments[id].headers
                == list[k].headers@
        }
    &&& forall|k: int, l: int|
        0 <= k < l < list.len() ==> (#[trigger] list[k]).segment_id != (
        #[trigger] list[l]).segment_id
}

/// Filter headers that are stored stand at the places of their heights, whatever segments these are
/// in, and no other place changes. A segment that took some of them in is dirty, whatever state it
/// was in before, or is handed to the background worker by the same step with all of them.
pub proof fn law_filter_headers_are_stored(
    storage: &mut DiskStorageManager,
    headers: &[FilterHeader],
    cursor: &mut FilterHeaderCursor,
    now: u64,
    step: StoreStep,
    id: u32,
)
    requires
        call_ensures(
            DiskStorageManager::store_filter_headers,
            (storage, headers, cursor, now),
            step,
        ),
        old(storage).wf(),
        old(cursor).stored <= headers@.len(),
        old(cursor).next_height + (headers@.len() - old(cursor).stored) <= u32::MAX,
        old(storage)@.index.dom().len() <= usize::MAX,
    ensures
        ({
            let base = old(storage).sync_base_height;
            let first = old(cursor).next_height as int;
            let end = final(cursor).next_height as int;
            let run = headers@.subrange(old(cursor).stored as int, final(cursor).stored as int);
            let before = old(storage)@.filter_segments;
            let after = final(storage)@.filter_segments;
            let handed = handed_segments(step, old(storage).worker_running);
            &&& end - first == final(cursor).stored - old(cursor).stored
            &&& handed matches Some(list) ==> copies_of_saving(list, after)
            &&& after.contains_key(id) == before.contains_key(id)
            &&& if run_touches(base, first, end, id) {
                &&& before.contains_key(id)
                &&& holds_run(before[id], after[id], base, first, run, now, id)
                &&& match handed {
                    Some(list) => {
                        &&& after[id].state is Saving
                        &&& after[id].last_saved == now
                        &&& has_copy(list, id, after[id].headers)
                    },
                    None => after[id].state is Dirty && after[id].last_saved
                        == before[id].last_saved,
                }
            } else if handed is Some && before.contains_key(id) && before[id].state is Dirty {
                &&& after[id].headers == before[id].headers
                &&& after[id].state is Saving
                &&& has_copy(handed->0, id, after[id].headers)
            } else {
                before.contains_key(id) ==> after[id] == before[id]
            }
        }),
{
    let base = old(storage).sync_base_height;
    let first = old(cursor).next_height;
    let end = final(cursor).next_height as int;
    let run = headers@.subrange(old(cursor).stored as int, final(cursor).stored as int);
    let before = old(storage)@.filter_segments;
    let middle = with_filter_headers(before, base, first, run, now);
    lemma_run_stored(before, base, first, run, now, id);
    if run_touches(base, first as int, end, id) {
        let height = greater(first as int, segment_start(base, id)) as u32;
        assert(height - base - id * 50_000 == run_from(base, first as int, id));
        assert(segment_of(base, height) == id);
        assert(before.contains_key(id));
    }
    assert(before.contains_key(id) ==> before[id].segment_id == id);
    if let StoreStep::Stored(Some(batch)) = step {
        let stored = StorageModel {
            filter_segments: middle,
            filter_tip: final(storage)@.filter_tip,
            ..old(storage)@
        };
        lemma_handed_over(stored, final(storage)@, batch, now, id);
        let after = final(storage)@.filter_segments;
        let list = batch.filter_segments@;
        if old(storage).worker_running {
            assert forall|k: int| 0 <= k < list.len() implies {
                let own = (#[trigger] list[k]).segment_id;
                after.contains_key(own) && after[own].state is Saving && after[own].headers
                    == list[k].headers@
            } by {
                lemma_handed_over(stored, final(storage)@, batch, now, list[k].segment_id);
            }
        }
        if old(storage).worker_running && middle.contains_key(id) && middle[id].state is Dirty {
            let k = choose|k: int|
                0 <= k < batch.filter_segments@.len() && (#[trigger] batch.filter_segments@[k])@
                    == middle[id];
            assert(batch.filter_segments@[k].segment_id == id);
            assert(batch.filter_segments@[k].headers@ == after[id].headers);
        }
    }
}

/// All of a run is stored unless a segment is missing: the one with the next height, which is then
/// asked for. Once all is stored, the last height is the filter tip, and changes are handed over if
/// there were 1,000 filter headers or the next height is a multiple of 1,000.
pub proof fn law_storing_ends(
    storage: &mut DiskStorageManager,
    headers: &[FilterHeader],
    cursor: &mut FilterHeaderCursor,
    now: u64,
    step: StoreStep,
    id: u32,
)
    requires
        call_ensures(
            DiskStorageManager::store_filter_headers,
            (storage, headers, cursor, now),
            step,
        ),
        old(storage)@.index.dom().len() <= usize::MAX,
    ensures
        ({
            let base = old(storage).sync_base_height;
            let next = final(cursor).next_height;
            let before = old(storage)@;
            let after = final(storage)@;
            &&& step matches StoreStep::NeedSegment(needed) ==> {
                &&& final(cursor).stored < headers@.len()
                &&& next >= base
                &&& needed == (next - base) / 50_000
                &&& !before.filter_segments.contains_key(needed)
                &&& after.filter_tip == before.filter_tip
            }
            &&& step matches StoreStep::Stored(batch) ==> {
                &&& final(cursor).stored == headers@.len()
                &&& headers@.len() > 0 && next > 0 ==> after.filter_tip == Some((next - 1) as u32)
                &&& headers@.len() == 0 ==> after.filter_tip == before.filter_tip
                &&& batch is Some <==> headers@.len() >= 1000 || next % 1000 == 0
            }
            &&& after.sync_base_height == before.sync_base_height
            &&& after.index == before.index
            &&& after.tip == before.tip
            &&& after.filter_data_segments == before.filter_data_segments
            &&& after.filter_data_tip == before.filter_data_tip
            &&& after.worker_running == before.worker_running
            &&& match step {
                StoreStep::Stored(Some(batch)) if before.worker_running => {
                    &&& saving_began(before.segments, after.segments, batch.segments@, now, id)
                    &&& index_handed_over(before, after, batch)
                },
                _ => after.segments == before.segments && after.last_index_save_count
                    == before.last_index_save_count,
            }
        }),
{
    if let StoreStep::Stored(Some(batch)) = step {
        let stored = StorageModel {
            filter_segments: with_filter_headers(
                old(storage)@.filter_segments,
                old(storage).sync_base_height,
                old(cursor).next_height,
                headers@.subrange(old(cursor).stored as int, final(cursor).stored as int),
                now,
            ),
            filter_tip: final(storage)@.filter_tip,
            ..old(storage)@
        };
        lemma_handed_over(stored, final(storage)@, batch, now, id);
    }
}

/// Storing begins above the filter tip, or at the base height where there is no tip yet.
pub proof fn law_storing_begins(storage: &DiskStorageManager, cursor: FilterHeaderCursor)
    requires
        call_ensures(DiskStorageManager::begin_filter_headers, (storage,), cursor),
    ensures
        cursor.stored == 0,
        storage.cached_filter_tip_height matches Some(tip) ==> cursor.next_height == tip + 1,
        storage.cached_filter_tip_height is None ==> cursor.next_height
            == storage.sync_base_height,
{
}

/// Filter headers that are stored get to the background worker: by the step that stores them, or by
/// the next time that changes are handed over, whatever saves are reported in between. A save that
/// began before does not count for them.
pub proof fn law_stored_headers_reach_the_worker(
    storage: &mut DiskStorageManager,
    headers: &[FilterHeader],
    cursor: &mut FilterHeaderCursor,
    now: u64,
    step: StoreStep,
    reported: &mut DiskStorageManager,
    notifications: &Vec<WorkerNotification>,
    saved: &mut DiskStorageManager,
    later: u64,
    batch: SaveBatch,
    id: u32,
)
    requires
        call_ensures(
            DiskStorageManager::store_filter_headers,
            (storage, headers, cursor, now),
            step,
        ),
        old(storage).wf(),
        old(cursor).stored <= headers@.len(),
        old(cursor).next_height + (headers@.len() - old(cursor).stored) <= u32::MAX,
        old(storage)@.index.dom().len() <= usize::MAX,
        old(storage).worker_running,
        *old(reported) == *final(storage),
        call_ensures(
            DiskStorageManager::process_worker_notifications,
            (reported, notifications),
            (),
        ),
        *old(saved) == *final(reported),
        call_ensures(DiskStorageManager::save_dirty_segments_cache, (saved, later), batch),
        run_touches(
            old(storage).sync_base_height,
            old(cursor).next_height as int,
            final(cursor).next_height as int,
            id,
        ),
    ensures
        ({
            let stored = final(storage)@.filter_segments[id].headers;
            &&& final(saved)@.filter_segments[id].headers == stored
            &&& match handed_segments(step, true) {
                Some(list) => has_copy(list, id, stored),
                None => has_copy(batch.filter_segments@, id, stored),
            }
        }),
{
    law_filter_headers_are_stored(storage, headers, cursor, now, step, id);
    law_storing_ends(storage, headers, cursor, now, step, id);
    lemma_notifications(old(reported)@, notifications@, id);
    let before = old(saved)@;
    assert(before.index == old(storage)@.index);
    lemma_handed_over(before, final(saved)@, batch, later, id);
    if handed_segments(step, true) is None {
        let k = choose|k: int|
            0 <= k < batch.filter_segments@.len() && (#[trigger] batch.filter_segments@[k])@
                == before.filter_segments[id];
        assert(before.filter_segments[id].segment_id == id);
        assert(batch.filter_segments@[k].segment_id == id);
    }
}

} // verus!
