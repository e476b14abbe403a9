//! Filter headers and compact filters.
//!
//! A function that needs a segment which is not in memory asks for it, and goes on once the
//! segment is there.

use std::ops::Range;

use vstd::prelude::*;

use crate::encoding::filled_hash;
use crate::filter_data::{
    find_in_file, has_filter, with_filter, FilterDataIndexEntry, FilterDataSegment, FilterLookup,
};
use crate::headers::FilterHeader;
use crate::manager::{
    saves_changes, with_changes_handed_over, DiskStorageManager, SaveBatch, StorageModel,
};
use crate::names::{filter_data_segment_path, filter_data_segment_path_text};
use crate::segment_map::{keyed_by_id, SegmentMap};
use crate::segments::{padded, SegmentModel, SegmentState};
use crate::worker::WorkerCommand;
use crate::HEADERS_PER_SEGMENT;

verus! {

broadcast use vstd::std_specs::hash::group_hash_axioms;

/// Where a height stands, counted from the first place of the first segment.
///
/// After a sync from a checkpoint, that is relative to the height of the checkpoint. A height below
/// the checkpoint has its place behind all others, so that every height has a place of its own.
pub open spec fn storage_index(sync_base_height: u32, height: u32) -> u32 {
    if height >= sync_base_height {
        (height - sync_base_height) as u32
    } else {
        (height - sync_base_height + 0x1_0000_0000) as u32
    }
}

/// The segment that holds a height.
pub open spec fn segment_of(sync_base_height: u32, height: u32) -> u32 {
    storage_index(sync_base_height, height) / HEADERS_PER_SEGMENT
}

/// Where a height stands in its segment.
pub open spec fn offset_of(sync_base_height: u32, height: u32) -> int {
    storage_index(sync_base_height, height) as int % HEADERS_PER_SEGMENT as int
}

fn to_storage_index(sync_base_height: u32, height: u32) -> (index: u32)
    ensures
        index == storage_index(sync_base_height, height),
{
    if height >= sync_base_height {
        height - sync_base_height
    } else {
        height + (u32::MAX - sync_base_height) + 1
    }
}

/// The filter header that fills up segments.
pub open spec fn zero_filter_header() -> FilterHeader {
    FilterHeader { bytes: filled_hash(0) }
}

/// Filter headers of a segment after one was put at its place. The places before it that have none
/// are filled up.
pub open spec fn with_header_put(
    headers: Seq<FilterHeader>,
    offset: int,
    header: FilterHeader,
) -> Seq<FilterHeader> {
    padded(headers, (offset + 1) as nat, zero_filter_header()).update(offset, header)
}

/// A segment after a filter header was stored in it. A header at the end is one more valid header;
/// those that fill up the places before it are not.
pub open spec fn with_filter_header(
    segment: SegmentModel<FilterHeader>,
    offset: int,
    header: FilterHeader,
    now: u64,
) -> SegmentModel<FilterHeader> {
    let headers = with_header_put(segment.headers, offset, header);
    SegmentModel {
        headers,
        valid_count: if offset >= segment.headers.len() && segment.valid_count < usize::MAX {
            (segment.valid_count + 1) as usize
        } else {
            segment.valid_count
        },
        state: SegmentState::Dirty,
        last_accessed: now,
        ..segment
    }
}

/// Segments after filter headers were stored one above the other, the first one at `first`. Those
/// below the checkpoint are left out.
pub open spec fn with_filter_headers(
    segments: Map<u32, SegmentModel<FilterHeader>>,
    sync_base_height: u32,
    first: u32,
    headers: Seq<FilterHeader>,
    now: u64,
) -> Map<u32, SegmentModel<FilterHeader>>
    decreases headers.len(),
{
    if headers.len() == 0 {
        segments
    } else {
        let before = with_filter_headers(
            segments,
            sync_base_height,
            first,
            headers.drop_last(),
            now,
        );
        let height = (first + headers.len() - 1) as u32;
        let id = segment_of(sync_base_height, height);
        if height < sync_base_height {
            before
        } else {
            before.insert(
                id,
                with_filter_header(
                    before[id],
                    offset_of(sync_base_height, height),
                    headers.last(),
                    now,
                ),
            )
        }
    }
}

/// Whether the segments of the heights from `from` on and before `to` are in memory, as far as the
/// heights are not below the checkpoint.
pub open spec fn segments_loaded(
    segments: Map<u32, SegmentModel<FilterHeader>>,
    sync_base_height: u32,
    from: u32,
    to: u32,
) -> bool {
    forall|height: u32|
        from <= height < to && height >= sync_base_height ==> segments.contains_key(
            #[trigger] segment_of(sync_base_height, height),
        )
}

/// The height at which the next filter header is stored.
pub open spec fn next_filter_height(sync_base_height: u32, filter_tip: Option<u32>) -> int {
    match filter_tip {
        Some(tip) => tip + 1,
        None => sync_base_height as int,
    }
}

/// How far a run of filter headers has been stored.
#[derive(Debug)]
pub struct FilterHeaderCursor {
    /// The height of the next filter header.
    pub next_height: u32,
    /// Number of filter headers that have been stored.
    pub stored: usize,
}

/// What came of storing something.
#[derive(Debug)]
pub enum StoreStep {
    /// The segment that has to be in memory first.
    NeedSegment(u32),
    /// All is stored. What has to be saved now is handed to the background worker.
    Stored(Option<SaveBatch>),
}

/// Whether a step stored everything: it hands changes over exactly if a save is due.
pub open spec fn stored_and_saved(
    step: StoreStep,
    stored: StorageModel,
    save_due: bool,
    now: u64,
    after: StorageModel,
) -> bool {
    &&& step matches StoreStep::Stored(batch)
    &&& if save_due {
        batch matches Some(b) && saves_changes(b, stored) && after == with_changes_handed_over(
            stored,
            now,
        )
    } else {
        batch is None && after == stored
    }
}

fn store_in_segment(
    segments: &mut SegmentMap<FilterHeader>,
    segment_id: u32,
    offset: usize,
    header: FilterHeader,
    now: u64,
)
    requires
        keyed_by_id(old(segments)@),
        old(segments)@.contains_key(segment_id),
        offset < usize::MAX,
    ensures
        final(segments)@ == old(segments)@.insert(
            segment_id,
            with_filter_header(old(segments)@[segment_id], offset as int, header, now),
        ),
{
    if let Some(mut segment) = segments.remove(segment_id) {
        let ghost before = segment@;
        if offset >= segment.headers.len() {
            let zero = FilterHeader { bytes: [0; 32] };
            segment.headers.resize(offset + 1, zero);
            if segment.valid_count < usize::MAX {
                segment.valid_count = segment.valid_count + 1;
            }
        }
        assert(segment.headers@ =~= padded(
            before.headers,
            (offset + 1) as nat,
            zero_filter_header(),
        ));
        segment.headers.set(offset, header);
        segment.state = SegmentState::Dirty;
        segment.last_accessed = now;
        segments.insert(segment);
    }
    assert(segments@ =~= old(segments)@.insert(
        segment_id,
        with_filter_header(old(segments)@[segment_id], offset as int, header, now),
    ));
}

impl DiskStorageManager {
    /// Begins to store filter headers above the filter tip, or from the checkpoint on.
    pub fn begin_filter_headers(&self) -> (cursor: FilterHeaderCursor)
        requires
            self.cached_filter_tip_height != Some(u32::MAX),
        ensures
            cursor.next_height == next_filter_height(self.sync_base_height, self@.filter_tip),
            cursor.stored == 0,
    {
        let next_height: u32 = match self.cached_filter_tip_height {
            Some(tip) => tip + 1,
            None => if self.sync_base_height > 0 {
                self.sync_base_height
            } else {
                0
            },
        };
        FilterHeaderCursor { next_height, stored: 0 }
    }

    /// Store filter headers.
    ///
    /// Goes on where `cursor` is, up to a segment that is not in memory or to the end. At the end
    /// the last filter header is the filter tip, and changes are saved if there were 1,000 filter
    /// headers or the next height is a multiple of 1,000. A filter header below the checkpoint,
    /// which should not come up in normal operation, is left out.
    pub fn store_filter_headers(
        &mut self,
        headers: &[FilterHeader],
        cursor: &mut FilterHeaderCursor,
        now: u64,
    ) -> (step: StoreStep)
        requires
            old(self).wf(),
            old(cursor).stored <= headers@.len(),
            old(cursor).next_height + (headers@.len() - old(cursor).stored) <= u32::MAX,
        ensures
            final(self).wf(),
            old(cursor).stored <= final(cursor).stored <= headers@.len(),
            final(cursor).next_height - old(cursor).next_height == final(cursor).stored - old(
                cursor,
            ).stored,
            segments_loaded(
                old(self)@.filter_segments,
                old(self).sync_base_height,
                old(cursor).next_height,
                final(cursor).next_height,
            ),
            ({
                let stored = StorageModel {
                    filter_segments: with_filter_headers(
                        old(self)@.filter_segments,
                        old(self).sync_base_height,
                        old(cursor).next_height,
                        headers@.subrange(
                            old(cursor).stored as int,
                            final(cursor).stored as int,
                        ),
                        now,
                    ),
                    ..old(self)@
                };
                let next = final(cursor).next_height;
                if final(cursor).stored < headers@.len() {
                    let id = segment_of(old(self).sync_base_height, next);
                    &&& step == StoreStep::NeedSegment(id)
                    &&& next >= old(self).sync_base_height
                    &&& !old(self)@.filter_segments.contains_key(id)
                    &&& final(self)@ == stored
                } else {
                    stored_and_saved(
                        step,
                        StorageModel {
                            filter_tip: if headers@.len() > 0 && next > 0 {
                                Some((next - 1) as u32)
                            } else {
                                stored.filter_tip
                            },
                            ..stored
                        },
                        headers@.len() >= 1000 || next % 1000 == 0,
                        now,
                        final(self)@,
                    )
                }
            }),
    {
        let ghost base = self.sync_base_height;
        let ghost before = self@;
        let ghost first = cursor.next_height;
        let ghost from = cursor.stored as int;
        while cursor.stored < headers.len()
            invariant
                self.wf(),
                base == self.sync_base_height,
                before == old(self)@,
                first == old(cursor).next_height,
                from == old(cursor).stored,
                from <= cursor.stored <= headers.len(),
                cursor.next_height - first == cursor.stored - from,
                first + (headers.len() - from) <= u32::MAX,
                segments_loaded(before.filter_segments, base, first, cursor.next_height),
                self@ == (StorageModel {
                    filter_segments: with_filter_headers(
                        before.filter_segments,
                        base,
                        first,
                        headers@.subrange(from, cursor.stored as int),
                        now,
                    ),
                    ..before
                }),
                self@.filter_segments.dom() == before.filter_segments.dom(),
            decreases headers.len() - cursor.stored,
        {
            let storage_index: u32 = to_storage_index(self.sync_base_height, cursor.next_height);
            let segment_id: u32 = Self::get_segment_id(storage_index);
            let offset: usize = Self::get_segment_offset(storage_index);
            assert(segment_id == segment_of(base, cursor.next_height));
            let ghost height = cursor.next_height;
            if cursor.next_height >= self.sync_base_height {
                if !self.active_filter_segments.contains(segment_id) {
                    assert(!before.filter_segments.dom().contains(segment_id));
                    return StoreStep::NeedSegment(segment_id);
                }
                store_in_segment(
                    &mut self.active_filter_segments,
                    segment_id,
                    offset,
                    headers[cursor.stored],
                    now,
                );
            }
            cursor.next_height = cursor.next_height + 1;
            cursor.stored = cursor.stored + 1;
            proof {
                let run = headers@.subrange(from, cursor.stored as int);
                assert(run.drop_last() =~= headers@.subrange(from, cursor.stored - 1));
                assert(run.last() == headers@[cursor.stored - 1]);
                assert(self@.filter_segments.dom() =~= before.filter_segments.dom());
                assert(height >= base ==> before.filter_segments.dom().contains(segment_id));
                assert(self@ =~= (StorageModel {
                    filter_segments: with_filter_headers(
                        before.filter_segments,
                        base,
                        first,
                        run,
                        now,
                    ),
                    ..before
                }));
            }
        }
        if headers.len() > 0 && cursor.next_height > 0 {
            self.cached_filter_tip_height = Some(cursor.next_height - 1);
        }
        if headers.len() >= 1000 || cursor.next_height % 1000 == 0 {
            StoreStep::Stored(Some(self.save_dirty_segments_cache(now)))
        } else {
            StoreStep::Stored(None)
        }
    }
}


/// The filter headers of each segment.
pub open spec fn headers_of(segments: Map<u32, SegmentModel<FilterHeader>>) -> Map<
    u32,
    Seq<FilterHeader>,
> {
    segments.map_values(|segment: SegmentModel<FilterHeader>| segment.headers)
}

/// The filter header of a height, if its segment has one. Below the checkpoint there is none.
pub open spec fn filter_header_at(
    headers: Map<u32, Seq<FilterHeader>>,
    sync_base_height: u32,
    height: u32,
) -> Option<FilterHeader> {
    let segment = headers[segment_of(sync_base_height, height)];
    let offset = offset_of(sync_base_height, height);
    if height >= sync_base_height && offset < segment.len() {
        Some(segment[offset])
    } else {
        None
    }
}

/// What came of reading something.
#[derive(Debug)]
pub enum ReadStep<T> {
    /// The segment that has to be in memory first.
    NeedSegment(u32),
    /// What was read.
    Ready(T),
}

/// The first height of a range that is not below the checkpoint.
pub open spec fn range_first(sync_base_height: u32, range: Range<u32>) -> u32 {
    if range.start >= sync_base_height {
        range.start
    } else {
        sync_base_height
    }
}

/// Whether a range holds no height from the checkpoint on.
pub open spec fn range_is_empty(sync_base_height: u32, range: Range<u32>) -> bool {
    range_first(sync_base_height, range) >= range.end
}

/// Where a range that is not empty begins in the segments.
pub open spec fn range_start(sync_base_height: u32, range: Range<u32>) -> u32 {
    storage_index(sync_base_height, range_first(sync_base_height, range))
}

/// Where the last height of a range that is not empty stands in the segments.
pub open spec fn range_last(sync_base_height: u32, range: Range<u32>) -> u32 {
    storage_index(sync_base_height, (range.end - 1) as u32)
}

/// Where the part of a range begins that a segment holds.
pub open spec fn part_start(segment_id: u32, start: u32) -> int {
    if segment_id == start / HEADERS_PER_SEGMENT {
        start as int % HEADERS_PER_SEGMENT as int
    } else {
        0
    }
}

/// Where the part of a range ends that a segment with `len` headers holds.
pub open spec fn part_end(segment_id: u32, last: u32, len: nat) -> int {
    if segment_id == last / HEADERS_PER_SEGMENT {
        last as int % HEADERS_PER_SEGMENT as int + 1
    } else {
        len as int
    }
}

/// What a segment contributes to a range: its part, or nothing if it does not have all of it.
pub open spec fn range_part(
    headers: Seq<FilterHeader>,
    segment_id: u32,
    start: u32,
    last: u32,
) -> Seq<FilterHeader> {
    let from = part_start(segment_id, start);
    let to = part_end(segment_id, last, headers.len());
    if from < headers.len() && to <= headers.len() {
        headers.subrange(from, to)
    } else {
        Seq::empty()
    }
}

/// What the segments from `from` on and before `to` contribute to a range.
pub open spec fn range_parts(
    headers: Map<u32, Seq<FilterHeader>>,
    start: u32,
    last: u32,
    from: int,
    to: int,
) -> Seq<FilterHeader>
    decreases to - from,
{
    if from >= to {
        Seq::empty()
    } else {
        range_parts(headers, start, last, from, to - 1) + range_part(
            headers[(to - 1) as u32],
            (to - 1) as u32,
            start,
            last,
        )
    }
}

/// Whether the segments from `from` on and before `to` are in memory.
pub open spec fn ids_loaded(
    segments: Map<u32, SegmentModel<FilterHeader>>,
    from: int,
    to: int,
) -> bool {
    forall|id: u32| from <= id < to ==> #[trigger] segments.contains_key(id)
}

/// How far a range of filter headers has been read.
#[derive(Debug)]
pub struct FilterRangeCursor {
    /// The next segment to read from.
    pub next_segment: u32,
    /// The filter headers that have been read.
    pub headers: Vec<FilterHeader>,
}

fn to_range_first(sync_base_height: u32, range: &Range<u32>) -> (first: u32)
    ensures
        first == range_first(sync_base_height, *range),
{
    if range.start >= sync_base_height {
        range.start
    } else {
        sync_base_height
    }
}

impl DiskStorageManager {
    /// Begins to read a range of heights.
    pub fn begin_filter_range(&self, range: &Range<u32>) -> (cursor: FilterRangeCursor)
        ensures
            cursor.next_segment == range_start(self.sync_base_height, *range) / HEADERS_PER_SEGMENT,
            cursor.headers@.len() == 0,
    {
        let first: u32 = to_range_first(self.sync_base_height, range);
        let start: u32 = to_storage_index(self.sync_base_height, first);
        FilterRangeCursor { next_segment: Self::get_segment_id(start), headers: Vec::new() }
    }

    /// Load filter headers for a blockchain height range.
    ///
    /// Goes on where `cursor` is, up to a segment that is not in memory, which is returned, or to
    /// the end. Then the cursor holds the filter headers. Heights below the checkpoint have none.
    pub fn load_filter_headers(
        &self,
        range: &Range<u32>,
        cursor: &mut FilterRangeCursor,
    ) -> (needed: Option<u32>)
        ensures
            range.start >= range.end ==> final(cursor).headers@ == old(cursor).headers@
                && needed is None,
            range_is_empty(self.sync_base_height, *range) ==> *final(cursor) == *old(cursor)
                && needed is None,
            !range_is_empty(self.sync_base_height, *range) ==> {
                let start = range_start(self.sync_base_height, *range);
                let last = range_last(self.sync_base_height, *range);
                let from = old(cursor).next_segment as int;
                let to = final(cursor).next_segment as int;
                let end = last as int / HEADERS_PER_SEGMENT as int + 1;
                &&& from <= to && (to <= end || to == from)
                &&& ids_loaded(self@.filter_segments, from, to)
                &&& final(cursor).headers@ == old(cursor).headers@ + range_parts(
                    headers_of(self@.filter_segments),
                    start,
                    last,
                    from,
                    to,
                )
                &&& if to < end {
                    needed == Some(to as u32) && !self@.filter_segments.contains_key(to as u32)
                } else {
                    needed is None
                }
            },
    {
        let first: u32 = to_range_first(self.sync_base_height, range);
        if first >= range.end {
            return None;
        }
        let start: u32 = to_storage_index(self.sync_base_height, first);
        let last: u32 = to_storage_index(self.sync_base_height, range.end - 1);
        let start_segment: u32 = Self::get_segment_id(start);
        let end_segment: u32 = Self::get_segment_id(last);
        let ghost from = cursor.next_segment as int;
        let ghost headers = headers_of(self@.filter_segments);
        assert(cursor.headers@ =~= old(cursor).headers@ + Seq::<FilterHeader>::empty());
        while cursor.next_segment <= end_segment
            invariant
                headers == headers_of(self@.filter_segments),
                !range_is_empty(self.sync_base_height, *range),
                start == range_start(self.sync_base_height, *range),
                last == range_last(self.sync_base_height, *range),
                start <= last,
                start_segment == start / HEADERS_PER_SEGMENT,
                end_segment == last / HEADERS_PER_SEGMENT,
                from == old(cursor).next_segment,
                from <= cursor.next_segment,
                cursor.next_segment <= end_segment + 1 || cursor.next_segment == from,
                ids_loaded(self@.filter_segments, from, cursor.next_segment as int),
                cursor.headers@ == old(cursor).headers@ + range_parts(
                    headers,
                    start,
                    last,
                    from,
                    cursor.next_segment as int,
                ),
            decreases end_segment + 1 - cursor.next_segment,
        {
            let segment_id: u32 = cursor.next_segment;
            match self.active_filter_segments.get(segment_id) {
                Some(segment) => {
                    let start_idx: usize = if segment_id == start_segment {
                        Self::get_segment_offset(start)
                    } else {
                        0
                    };
                    let end_idx: usize = if segment_id == end_segment {
                        Self::get_segment_offset(last) + 1
                    } else {
                        segment.headers.len()
                    };
                    let ghost before = cursor.headers@;
                    if start_idx < segment.headers.len() && end_idx <= segment.headers.len() {
                        assert(start_idx <= end_idx);
                        let mut i: usize = start_idx;
                        while i < end_idx
                            invariant
                                start_idx <= i <= end_idx <= segment.headers.len(),
                                cursor.next_segment == segment_id,
                                cursor.headers@ == before + segment.headers@.subrange(
                                    start_idx as int,
                                    i as int,
                                ),
                            decreases end_idx - i,
                        {
                            cursor.headers.push(segment.headers[i]);
                            i += 1;
                            assert(cursor.headers@ =~= before + segment.headers@.subrange(
                                start_idx as int,
                                i as int,
                            ));
                        }
                    }
                    assert(headers[segment_id] == segment.headers@);
                    assert(cursor.headers@ =~= before + range_part(
                        segment.headers@,
                        segment_id,
                        start,
                        last,
                    ));
                    cursor.next_segment = segment_id + 1;
                    assert(cursor.headers@ =~= old(cursor).headers@ + range_parts(
                        headers,
                        start,
                        last,
                        from,
                        segment_id + 1,
                    ));
                },
                None => {
                    return Some(segment_id);
                },
            }
        }
        None
    }

    /// Get a filter header at a specific blockchain height.
    pub fn get_filter_header(&self, blockchain_height: u32) -> (step: ReadStep<
        Option<FilterHeader>,
    >)
        ensures
            ({
                let id = segment_of(self.sync_base_height, blockchain_height);
                if blockchain_height >= self.sync_base_height
                    && !self@.filter_segments.contains_key(id) {
                    step == ReadStep::<Option<FilterHeader>>::NeedSegment(id)
                } else {
                    step == ReadStep::Ready(
                        filter_header_at(
                            headers_of(self@.filter_segments),
                            self.sync_base_height,
                            blockchain_height,
                        ),
                    )
                }
            }),
    {
        if blockchain_height < self.sync_base_height {
            return ReadStep::Ready(None);
        }
        let storage_index: u32 = to_storage_index(self.sync_base_height, blockchain_height);
        let segment_id: u32 = Self::get_segment_id(storage_index);
        let offset: usize = Self::get_segment_offset(storage_index);
        match self.active_filter_segments.get(segment_id) {
            Some(segment) => if offset < segment.headers.len() {
                ReadStep::Ready(Some(segment.headers[offset]))
            } else {
                ReadStep::Ready(None)
            },
            None => ReadStep::NeedSegment(segment_id),
        }
    }

    /// Get the blockchain height of the filter tip.
    pub fn get_filter_tip_height(&self) -> (height: Option<u32>)
        ensures
            height == self@.filter_tip,
    {
        self.cached_filter_tip_height
    }

    /// Get the blockchain height of the filter data tip.
    pub fn get_filter_data_tip_height(&self) -> (height: Option<u32>)
        ensures
            height == self@.filter_data_tip,
    {
        self.cached_filter_data_tip_height
    }
}


/// The greater of a height and a tip, if there is one.
pub open spec fn raised_tip(tip: Option<u32>, height: u32) -> Option<u32> {
    match tip {
        Some(t) if height <= t => tip,
        _ => Some(height),
    }
}

/// A manager after a compact filter was stored.
pub open spec fn with_stored_filter(
    storage: StorageModel,
    height: u32,
    filter: Seq<u8>,
    now: u64,
) -> StorageModel {
    let id = segment_of(storage.sync_base_height, height);
    let offset = offset_of(storage.sync_base_height, height) as usize;
    StorageModel {
        filter_data_segments: storage.filter_data_segments.insert(
            id,
            with_filter(storage.filter_data_segments[id], offset, filter, now),
        ),
        filter_data_tip: raised_tip(storage.filter_data_tip, height),
        ..storage
    }
}

/// Whether a lookup tells the truth of a compact filter: one in the cache is returned, and others
/// are to be read from the segment's file, if there is one. Where memory does not know the filter,
/// the index in the file does.
pub open spec fn looked_up(
    storage: StorageModel,
    height: u32,
    file_exists: bool,
    lookup: FilterLookup,
) -> bool {
    let id = segment_of(storage.sync_base_height, height);
    let offset = offset_of(storage.sync_base_height, height) as usize;
    let segment = storage.filter_data_segments[id];
    let known = storage.filter_data_segments.contains_key(id) && has_filter(segment.index, offset);
    if known && segment.filters.contains_key(offset) {
        lookup matches FilterLookup::Cached(filter) && filter@ == segment.filters[offset]
    } else if !file_exists {
        lookup == FilterLookup::Absent
    } else if known {
        lookup == (FilterLookup::ReadData {
            offset: segment.index[offset as int].offset,
            data_offset: segment.file_data_offset,
            length: segment.index[offset as int].length,
        })
    } else {
        lookup == FilterLookup::ReadIndex
    }
}

impl DiskStorageManager {
    /// Get the segment ID of compact filters for a given height.
    pub fn get_filter_segment_id(height: u32) -> (segment_id: u32)
        ensures
            segment_id == height / HEADERS_PER_SEGMENT,
    {
        height / HEADERS_PER_SEGMENT
    }

    /// Get the offset within a segment of compact filters for a given height.
    pub fn get_filter_segment_offset(height: u32) -> (offset: usize)
        ensures
            offset == height % HEADERS_PER_SEGMENT,
    {
        (height % HEADERS_PER_SEGMENT) as usize
    }

    /// Takes a segment of compact filters into memory.
    pub fn place_filter_data_segment(&mut self, segment: FilterDataSegment)
        requires
            old(self).wf(),
        ensures
            final(self).wf(),
            final(self)@ == (StorageModel {
                filter_data_segments: old(self)@.filter_data_segments.insert(
                    segment.segment_id,
                    segment@,
                ),
                ..old(self)@
            }),
    {
        let id: u32 = segment.segment_id;
        self.active_filter_data_segments.insert(id, segment);
        assert(self@.filter_data_segments =~= old(self)@.filter_data_segments.insert(id, segment@));
    }

    /// Store a compact filter using segmented storage.
    ///
    /// The filter data tip is raised to its height, and changes are saved if the height is a
    /// multiple of 100.
    pub fn store_filter(&mut self, height: u32, filter: &[u8], now: u64) -> (step: StoreStep)
        requires
            old(self).wf(),
            ({
                let id = segment_of(old(self).sync_base_height, height);
                old(self)@.filter_data_segments.contains_key(id) ==> old(
                    self,
                )@.filter_data_segments[id].current_data_size + filter@.len() <= u64::MAX
            }),
        ensures
            final(self).wf(),
            ({
                let id = segment_of(old(self).sync_base_height, height);
                if old(self)@.filter_data_segments.contains_key(id) {
                    stored_and_saved(
                        step,
                        with_stored_filter(old(self)@, height, filter@, now),
                        height % 100 == 0,
                        now,
                        final(self)@,
                    )
                } else {
                    step == StoreStep::NeedSegment(id) && final(self)@ == old(self)@
                }
            }),
    {
        let storage_index: u32 = to_storage_index(self.sync_base_height, height);
        let segment_id: u32 = Self::get_filter_segment_id(storage_index);
        let offset: usize = Self::get_filter_segment_offset(storage_index);
        let ghost segments = self@.filter_data_segments;
        match self.active_filter_data_segments.remove(&segment_id) {
            Some(mut segment) => {
                assert(segments[segment_id] == segment@);
                segment.store(offset, filter, now);
                self.active_filter_data_segments.insert(segment_id, segment);
            },
            None => {
                assert(self@.filter_data_segments =~= segments);
                return StoreStep::NeedSegment(segment_id);
            },
        }
        let raised: bool = match self.cached_filter_data_tip_height {
            Some(tip) => height > tip,
            None => true,
        };
        if raised {
            self.cached_filter_data_tip_height = Some(height);
        }
        assert(self@.filter_data_segments =~= with_stored_filter(
            old(self)@,
            height,
            filter@,
            now,
        ).filter_data_segments);
        assert(self@ =~= with_stored_filter(old(self)@, height, filter@, now));
        if height % 100 == 0 {
            StoreStep::Stored(Some(self.save_dirty_segments_cache(now)))
        } else {
            StoreStep::Stored(None)
        }
    }

    /// The segment with the compact filter of a height.
    pub fn filter_data_segment_of(&self, height: u32) -> (segment_id: u32)
        ensures
            segment_id == segment_of(self.sync_base_height, height),
    {
        Self::get_filter_segment_id(to_storage_index(self.sync_base_height, height))
    }

    /// Path of the file with the compact filter of a height, below the storage directory.
    pub fn filter_data_path(&self, height: u32) -> (path: String)
        ensures
            path@ == filter_data_segment_path(segment_of(self.sync_base_height, height)),
    {
        filter_data_segment_path_text(self.filter_data_segment_of(height))
    }

    /// Load a compact filter using segmented storage, or tell where in the segment's file it is.
    pub fn load_filter(&self, height: u32, file_exists: bool) -> (lookup: FilterLookup)
        ensures
            looked_up(self@, height, file_exists, lookup),
    {
        let storage_index: u32 = to_storage_index(self.sync_base_height, height);
        let segment_id: u32 = Self::get_filter_segment_id(storage_index);
        let offset: usize = Self::get_filter_segment_offset(storage_index);
        if let Some(segment) = self.active_filter_data_segments.get(&segment_id) {
            if offset < segment.index.len() && segment.index[offset].length > 0 {
                if let Some(filter) = segment.filters.get(&offset) {
                    return FilterLookup::Cached(vstd::slice::slice_to_vec(filter.as_slice()));
                }
                if file_exists {
                    return FilterLookup::ReadData {
                        offset: segment.index[offset].offset,
                        data_offset: segment.file_data_offset,
                        length: segment.index[offset].length,
                    };
                }
            }
        }
        if file_exists {
            FilterLookup::ReadIndex
        } else {
            FilterLookup::Absent
        }
    }

    /// Looks up a compact filter in the index of its segment's file.
    pub fn load_filter_from_file(
        &self,
        height: u32,
        index: &Vec<FilterDataIndexEntry>,
        data_offset: u64,
    ) -> (lookup: FilterLookup)
        ensures
            ({
                let offset = offset_of(self.sync_base_height, height) as usize;
                lookup == if has_filter(index@, offset) {
                    FilterLookup::ReadData {
                        offset: index@[offset as int].offset,
                        data_offset,
                        length: index@[offset as int].length,
                    }
                } else {
                    FilterLookup::Absent
                }
            }),
    {
        let storage_index: u32 = to_storage_index(self.sync_base_height, height);
        find_in_file(index, data_offset, Self::get_filter_segment_offset(storage_index))
    }

    /// Clear all filter data.
    ///
    /// The background worker is stopped with the command that is returned, and has to be started
    /// again after the files are gone.
    pub fn clear_filters(&mut self) -> (command: Option<WorkerCommand>)
        requires
            old(self).wf(),
        ensures
            final(self).wf(),
            final(self)@ == (StorageModel {
                filter_segments: Map::empty(),
                filter_data_segments: Map::empty(),
                filter_tip: None,
                filter_data_tip: None,
                worker_running: false,
                ..old(self)@
            }),
            command == if old(self).worker_running {
                Some(WorkerCommand::Shutdown)
            } else {
                None
            },
    {
        let command = self.stop_worker();
        self.active_filter_segments.clear();
        self.active_filter_data_segments.clear();
        self.cached_filter_tip_height = None;
        self.cached_filter_data_tip_height = None;
        assert(self@ =~= (StorageModel {
            filter_segments: Map::empty(),
            filter_data_segments: Map::empty(),
            filter_tip: None,
            filter_data_tip: None,
            worker_running: false,
            ..old(self)@
        }));
        command
    }
}

} // verus!
