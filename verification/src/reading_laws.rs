//! What is read of filter headers, and what becomes of compact filters.

use std::ops::Range;

use vstd::prelude::*;

use crate::encoding::{
    double_word_at, le_u32, le_u64, lemma_le_u32_injective, lemma_le_u64_injective, word_at,
};
use crate::error::{StorageError, StorageResult};
use crate::filter_data::{
    begins_with_index, count_filters, entry_bytes, find_in_file, has_no_index,
    load_filter_data_index, with_filter, FilterDataFile, FilterDataIndexEntry, FilterDataModel,
    FilterDataSegment, FilterLookup,
};
use crate::filter_laws::{law_range_reading_resumes, law_stored_filter_found};
use crate::filters::{
    headers_of, offset_of, range_last, range_part, range_parts, range_start, segment_of,
    with_stored_filter, FilterRangeCursor, ReadStep, StoreStep,
};
use crate::headers::FilterHeader;
use crate::index_laws::{lemma_double_word_range, lemma_word_range};
use crate::manager::{DiskStorageManager, StorageModel};
use crate::memory_laws::{index_handed_over, lemma_handed_over, saving_began};
use crate::name_laws::{is_numbered, law_segment_paths};
use crate::segments::SegmentModel;
use crate::storing_laws::{greater, lesser};
use crate::worker::WorkerCommand;

verus! {

/// A height is in the segment that its distance makes up with 50,000 for each segment, at the place
/// that is left.
pub proof fn law_heights_and_segments(
    height: u32,
    segment_id: u32,
    offset: usize,
    filter_segment_id: u32,
    filter_offset: usize,
)
    requires
        call_ensures(DiskStorageManager::get_segment_id, (height,), segment_id),
        call_ensures(DiskStorageManager::get_segment_offset, (height,), offset),
        call_ensures(DiskStorageManager::get_filter_segment_id, (height,), filter_segment_id),
        call_ensures(DiskStorageManager::get_filter_segment_offset, (height,), filter_offset),
    ensures
        segment_id * 50_000 + offset == height,
        offset < 50_000,
        filter_segment_id * 50_000 + filter_offset == height,
        filter_offset < 50_000,
{
}

/// A filter header is read from the place of its height, if there is one. Below the base height
/// there is none. A segment is asked for exactly if it holds the height and is not in memory.
pub proof fn law_filter_header_is_read(
    storage: &DiskStorageManager,
    height: u32,
    step: ReadStep<Option<FilterHeader>>,
)
    requires
        call_ensures(DiskStorageManager::get_filter_header, (storage, height), step),
    ensures
        ({
            let base = storage.sync_base_height;
            let segments = storage@.filter_segments;
            let id = ((height - base) / 50_000) as u32;
            let offset = (height - base) % 50_000;
            if height < base {
                step matches ReadStep::Ready(header) && header is None
            } else if !segments.contains_key(id) {
                step matches ReadStep::NeedSegment(needed) && needed == id
            } else {
                step matches ReadStep::Ready(header) && {
                    &&& header is Some <==> offset < segments[id].headers.len()
                    &&& header matches Some(h) ==> h == segments[id].headers[offset]
                }
            }
        }),
{
}

/// The tips are those that are kept.
pub proof fn law_tips_are_told(
    storage: &DiskStorageManager,
    tip: Option<u32>,
    data_tip: Option<u32>,
)
    ensures
        call_ensures(DiskStorageManager::get_filter_tip_height, (storage,), tip) ==> tip
            == storage.cached_filter_tip_height,
        call_ensures(DiskStorageManager::get_filter_data_tip_height, (storage,), data_tip)
            ==> data_tip == storage.cached_filter_data_tip_height,
{
}

/// Where the first height of a range from the base height on stands.
pub open spec fn range_begin(sync_base_height: u32, range: Range<u32>) -> int {
    greater(range.start as int, sync_base_height as int) - sync_base_height
}

/// Where a range from the base height on ends.
pub open spec fn range_end(sync_base_height: u32, range: Range<u32>) -> int {
    range.end - sync_base_height
}

/// Whether the segments from `from` on and before `to` hold their part of what is from one place on
/// and before another: those that are not last are full, and the last one reaches far enough.
pub open spec fn segments_hold(
    segments: Map<u32, SegmentModel<FilterHeader>>,
    end: int,
    from: int,
    to: int,
) -> bool {
    forall|id: u32|
        from <= id < to ==> {
            let len = (#[trigger] segments[id]).headers.len();
            if (id + 1) * 50_000 < end {
                len == 50_000
            } else {
                end - id * 50_000 <= len
            }
        }
}

proof fn lemma_range_pieces(
    headers: Map<u32, Seq<FilterHeader>>,
    segments: Map<u32, SegmentModel<FilterHeader>>,
    start: u32,
    last: u32,
    from: int,
    to: int,
)
    requires
        start <= last,
        start as int / 50_000 <= from < to <= last as int / 50_000 + 1,
        segments_hold(segments, last + 1, from, to),
        forall|id: u32| from <= id < to ==> #[trigger] headers[id] == segments[id].headers,
    ensures
        ({
            let begin = greater(start as int, from * 50_000);
            let parts = range_parts(headers, start, last, from, to);
            &&& parts.len() == lesser(last + 1, to * 50_000) - begin
            &&& forall|i: int|
                0 <= i < parts.len() ==> #[trigger] parts[i] == segments[((begin + i)
                    / 50_000) as u32].headers[(begin + i) % 50_000]
        }),
    decreases to - from,
{
    let begin = greater(start as int, from * 50_000);
    let id = (to - 1) as u32;
    let parts = range_parts(headers, start, last, from, to);
    let before = range_parts(headers, start, last, from, to - 1);
    let part = range_part(headers[id], id, start, last);
    assert(headers[id] == segments[id].headers);
    assert(segments_hold(segments, last + 1, from, to - 1));
    if from < to - 1 {
        lemma_range_pieces(headers, segments, start, last, from, to - 1);
    } else {
        assert(before.len() == 0);
    }
    assert(parts == before + part);
    assert forall|i: int| 0 <= i < parts.len() implies #[trigger] parts[i] == segments[((begin + i)
        / 50_000) as u32].headers[(begin + i) % 50_000] by {
        if i < before.len() {
            assert(parts[i] == before[i]);
        } else {
            assert(parts[i] == part[i - before.len()]);
            assert((begin + i) / 50_000 == id);
        }
    }
}

/// A piece of a range is read in order and without a gap: the filter headers of all heights of the
/// range, from the base height on, that are in the segments from the cursor's to the one where
/// reading stops. It stops at the first segment that is not in memory, which is asked for, or
/// behind the last one of the range.
pub proof fn law_piece_of_range_is_read(
    storage: &DiskStorageManager,
    range: &Range<u32>,
    cursor: &mut FilterRangeCursor,
    needed: Option<u32>,
    i: int,
)
    requires
        call_ensures(DiskStorageManager::load_filter_headers, (storage, range, cursor), needed),
        range_begin(storage.sync_base_height, *range) < range_end(
            storage.sync_base_height,
            *range,
        ),
        range_begin(storage.sync_base_height, *range) / 50_000 <= old(cursor).next_segment <= (
        range_end(storage.sync_base_height, *range) - 1) / 50_000 + 1,
        segments_hold(
            storage@.filter_segments,
            range_end(storage.sync_base_height, *range),
            old(cursor).next_segment as int,
            final(cursor).next_segment as int,
        ),
    ensures
        ({
            let begin = range_begin(storage.sync_base_height, *range);
            let end = range_end(storage.sync_base_height, *range);
            let from = old(cursor).next_segment as int;
            let to = final(cursor).next_segment as int;
            let first = greater(begin, from * 50_000);
            let had = old(cursor).headers@;
            let has = final(cursor).headers@;
            let segments = storage@.filter_segments;
            &&& from <= to <= (end - 1) / 50_000 + 1
            &&& needed is Some <==> to < (end - 1) / 50_000 + 1
            &&& needed matches Some(id) ==> id == to && !segments.contains_key(id)
            &&& from <= i < to ==> segments.contains_key(i as u32)
            &&& has.len() == had.len() + greater(0, lesser(end, to * 50_000) - first)
            &&& 0 <= i < had.len() ==> has[i] == had[i]
            &&& had.len() <= i < has.len() ==> {
                let place = first + i - had.len();
                has[i] == segments[(place / 50_000) as u32].headers[place % 50_000]
            }
        }),
{
    let base = storage.sync_base_height;
    let begin = range_begin(base, *range);
    let end = range_end(base, *range);
    let start = begin as u32;
    let last = (end - 1) as u32;
    let from = old(cursor).next_segment as int;
    let to = final(cursor).next_segment as int;
    assert(range_start(base, *range) == start);
    assert(range_last(base, *range) == last);
    assert(from <= i < to ==> storage@.filter_segments.contains_key(i as u32));
    if from < to {
        assert forall|id: u32| from <= id < to implies #[trigger] headers_of(
            storage@.filter_segments,
        )[id] == storage@.filter_segments[id].headers by {
            assert(storage@.filter_segments.contains_key(id));
        }
        lemma_range_pieces(
            headers_of(storage@.filter_segments),
            storage@.filter_segments,
            start,
            last,
            from,
            to,
        );
    }
}

/// What one segment gives to a range: the filter headers from the place of the first height on, if
/// that is in the segment, and up to the place of the last one, if that is. A segment that is too
/// short for one of these gives nothing.
pub proof fn law_segment_gives_its_part(
    storage: &DiskStorageManager,
    range: &Range<u32>,
    cursor: &mut FilterRangeCursor,
    needed: Option<u32>,
)
    requires
        call_ensures(DiskStorageManager::load_filter_headers, (storage, range, cursor), needed),
        range_begin(storage.sync_base_height, *range) < range_end(
            storage.sync_base_height,
            *range,
        ),
        final(cursor).next_segment == old(cursor).next_segment + 1,
    ensures
        ({
            let begin = range_begin(storage.sync_base_height, *range);
            let last = range_end(storage.sync_base_height, *range) - 1;
            let id = old(cursor).next_segment;
            let headers = storage@.filter_segments[id].headers;
            let from = if id == begin / 50_000 {
                begin % 50_000
            } else {
                0
            };
            let to = if id == last / 50_000 {
                last % 50_000 + 1
            } else {
                headers.len() as int
            };
            final(cursor).headers@ == old(cursor).headers@ + if from < headers.len() && to
                <= headers.len() {
                headers.subrange(from, to)
            } else {
                Seq::empty()
            }
        }),
{
    let base = storage.sync_base_height;
    let start = range_start(base, *range);
    let last = range_last(base, *range);
    assert(start == range_begin(base, *range));
    assert(last == range_end(base, *range) - 1);
    let id = old(cursor).next_segment as int;
    let headers = headers_of(storage@.filter_segments);
    assert(storage@.filter_segments.contains_key(id as u32));
    assert(range_parts(headers, start, last, id, id).len() == 0);
    assert(range_parts(headers, start, last, id, id + 1) =~= range_part(
        headers[id as u32],
        id as u32,
        start,
        last,
    ));
}

/// Reading several segments at once gives what reading them one after the other gives.
pub proof fn law_segments_give_their_parts_in_turn(
    storage: &DiskStorageManager,
    range: &Range<u32>,
    one: &mut FilterRangeCursor,
    needed_by_one: Option<u32>,
    two: &mut FilterRangeCursor,
    needed_by_two: Option<u32>,
    all: &mut FilterRangeCursor,
    needed: Option<u32>,
)
    requires
        call_ensures(DiskStorageManager::load_filter_headers, (storage, range, one), needed_by_one),
        call_ensures(DiskStorageManager::load_filter_headers, (storage, range, two), needed_by_two),
        call_ensures(DiskStorageManager::load_filter_headers, (storage, range, all), needed),
        range_begin(storage.sync_base_height, *range) < range_end(
            storage.sync_base_height,
            *range,
        ),
        *old(two) == *final(one),
        *old(all) == *old(one),
        final(all).next_segment == final(two).next_segment,
    ensures
        final(all).headers@ == final(two).headers@,
{
    let base = storage.sync_base_height;
    let headers = headers_of(storage@.filter_segments);
    law_range_reading_resumes(
        headers,
        range_start(base, *range),
        range_last(base, *range),
        old(one).next_segment as int,
        final(one).next_segment as int,
        final(two).next_segment as int,
    );
    assert(final(two).headers@ =~= final(all).headers@);
}

/// Reading a range begins with nothing read, at the segment of its first height from the base
/// height on. A range without such a height gives nothing and asks for nothing.
pub proof fn law_range_begins(
    storage: &DiskStorageManager,
    range: &Range<u32>,
    begun: FilterRangeCursor,
    cursor: &mut FilterRangeCursor,
    needed: Option<u32>,
)
    ensures
        call_ensures(DiskStorageManager::begin_filter_range, (storage, range), begun) ==> {
            &&& begun.headers@.len() == 0
            &&& begun.next_segment == range_begin(storage.sync_base_height, *range) / 50_000
        },
        call_ensures(DiskStorageManager::load_filter_headers, (storage, range, cursor), needed) && (
        range.start >= range.end || range.end <= storage.sync_base_height) ==> {
            &&& needed is None
            &&& final(cursor).headers@ == old(cursor).headers@
        },
{
}

/// Where the compact filter of a height stands: at its distance from the base height, or behind all
/// others if it is below the base height.
pub open spec fn filter_place(sync_base_height: u32, height: u32) -> int {
    if height >= sync_base_height {
        height - sync_base_height
    } else {
        height - sync_base_height + 0x1_0000_0000
    }
}

/// Entries of filters that are there.
pub open spec fn stored_entries(index: Seq<FilterDataIndexEntry>) -> Seq<FilterDataIndexEntry> {
    index.filter(|entry: FilterDataIndexEntry| entry.length > 0)
}

proof fn lemma_count(index: Seq<FilterDataIndexEntry>)
    ensures
        count_filters(index) == stored_entries(index).len(),
    decreases index.len(),
{
    reveal(Seq::filter);
    if index.len() > 0 {
        lemma_count(index.drop_last());
    }
}

/// The segment and the file of a compact filter are those of its place.
pub proof fn law_filter_data_place(
    storage: &DiskStorageManager,
    height: u32,
    id: u32,
    path: String,
)
    ensures
        call_ensures(DiskStorageManager::filter_data_segment_of, (storage, height), id) ==> id
            == filter_place(storage.sync_base_height, height) / 50_000,
        call_ensures(DiskStorageManager::filter_data_path, (storage, height), path) ==> is_numbered(
            path@,
            "filters/filter_data_segment_"@,
            filter_place(storage.sync_base_height, height) / 50_000,
            ".seg"@,
        ),
{
    let id = segment_of(storage.sync_base_height, height);
    law_segment_paths(id, path, path, path);
}

/// Whether a segment has taken in a compact filter: behind the data that it had, with an entry that
/// leads there, and in memory. All other entries and filters are as they were, and places before it
/// that had none have an empty entry.
pub open spec fn took_in(
    before: FilterDataModel,
    after: FilterDataModel,
    offset: int,
    filter: Seq<u8>,
    now: u64,
) -> bool {
    let len = before.index.len() as int;
    &&& after.segment_id == before.segment_id
    &&& after.index.len() == greater(len, offset + 1)
    &&& after.index[offset].offset == before.current_data_size
    &&& after.index[offset].length == filter.len()
    &&& forall|i: int|
        #![trigger after.index[i]]
        0 <= i < after.index.len() && i != offset ==> if i < len {
            after.index[i] == before.index[i]
        } else {
            after.index[i].offset == 0 && after.index[i].length == 0
        }
    &&& after.filters.contains_key(offset as usize)
    &&& after.filters[offset as usize] == filter
    &&& forall|i: usize|
        #![trigger after.filters.contains_key(i)]
        #![trigger after.filters[i]]
        i != offset ==> after.filters.contains_key(i) == before.filters.contains_key(i)
            && after.filters[i] == before.filters[i]
    &&& after.current_data_size == before.current_data_size + filter.len()
    &&& after.file_data_offset == before.file_data_offset
    &&& after.filter_count == stored_entries(after.index).len()
    &&& after.state is Dirty
    &&& after.last_accessed == now
}

proof fn lemma_took_in(segment: FilterDataModel, offset: usize, filter: Seq<u8>, now: u64)
    requires
        offset < usize::MAX,
        filter.len() <= u32::MAX,
        segment.current_data_size + filter.len() <= u64::MAX,
    ensures
        took_in(
            segment,
            with_filter(segment, offset, filter, now),
            offset as int,
            filter,
            now,
        ),
{
    let after = with_filter(segment, offset, filter, now);
    lemma_count(after.index);
}

/// A segment of compact filters takes a filter in behind its data.
pub proof fn law_segment_takes_filter_in(
    segment: &mut FilterDataSegment,
    offset: usize,
    filter: &[u8],
    now: u64,
)
    requires
        call_ensures(FilterDataSegment::store, (segment, offset, filter, now), ()),
        offset < usize::MAX,
        filter@.len() <= u32::MAX,
        old(segment).current_data_size + filter@.len() <= u64::MAX,
    ensures
        took_in(old(segment)@, final(segment)@, offset as int, filter@, now),
{
    lemma_took_in(old(segment)@, offset, filter@, now);
}

/// A new segment of compact filters is clean and has none of them in memory, and counts those of
/// its index.
pub proof fn law_new_filter_data_segment(
    segment_id: u32,
    index: Vec<FilterDataIndexEntry>,
    current_data_size: u64,
    file_data_offset: u64,
    now: u64,
    segment: FilterDataSegment,
    offset: usize,
    entry: FilterDataIndexEntry,
)
    ensures
        call_ensures(
            FilterDataSegment::new,
            (segment_id, index, current_data_size, file_data_offset, now),
            segment,
        ) ==> {
            &&& segment.segment_id == segment_id
            &&& segment.index@ == index@
            &&& !segment@.filters.contains_key(offset)
            &&& segment.current_data_size == current_data_size
            &&& segment.file_data_offset == file_data_offset
            &&& segment.filter_count == stored_entries(index@).len()
            &&& segment.state is Clean
            &&& segment.last_accessed == now
        },
        call_ensures(<FilterDataIndexEntry as Default>::default, (), entry) ==> entry.offset == 0
            && entry.length == 0,
{
    lemma_count(index@);
}

/// A compact filter is taken in by the segment of its place, which is asked for if it is not in
/// memory. The filter data tip is then the greater of what it was and the height. Changes of header
/// segments are handed over if the height is a multiple of 100, and nothing else changes.
pub proof fn law_filter_is_stored(
    storage: &mut DiskStorageManager,
    height: u32,
    filter: &[u8],
    now: u64,
    step: StoreStep,
    other: u32,
)
    requires
        call_ensures(DiskStorageManager::store_filter, (storage, height, filter, now), step),
        filter@.len() <= u32::MAX,
        ({
            let id = (filter_place(old(storage).sync_base_height, height) / 50_000) as u32;
            old(storage)@.filter_data_segments.contains_key(id) ==> old(
                storage,
            )@.filter_data_segments[id].current_data_size + filter@.len() <= u64::MAX
        }),
        old(storage)@.index.dom().len() <= usize::MAX,
    ensures
        ({
            let base = old(storage).sync_base_height;
            let id = (filter_place(base, height) / 50_000) as u32;
            let offset = filter_place(base, height) % 50_000;
            let before = old(storage)@;
            let after = final(storage)@;
            &&& before.filter_data_segments.contains_key(id) <==> step is Stored
            &&& step matches StoreStep::NeedSegment(needed) ==> needed == id && after == before
            &&& step matches StoreStep::Stored(batch) ==> {
                &&& after.filter_data_segments.contains_key(id)
                &&& took_in(
                    before.filter_data_segments[id],
                    after.filter_data_segments[id],
                    offset,
                    filter@,
                    now,
                )
                &&& other != id ==> after.filter_data_segments.contains_key(other)
                    == before.filter_data_segments.contains_key(other)
                    && after.filter_data_segments[other] == before.filter_data_segments[other]
                &&& after.filter_data_tip == Some(
                    match before.filter_data_tip {
                        Some(tip) => greater(tip as int, height as int) as u32,
                        None => height,
                    },
                )
                &&& after.filter_tip == before.filter_tip
                &&& after.sync_base_height == before.sync_base_height
                &&& after.index == before.index
                &&& after.tip == before.tip
                &&& after.worker_running == before.worker_running
                &&& batch is Some <==> height % 100 == 0
                &&& match batch {
                    Some(handed) if before.worker_running => {
                        &&& saving_began(
                            before.segments,
                            after.segments,
                            handed.segments@,
                            now,
                            other,
                        )
                        &&& saving_began(
                            before.filter_segments,
                            after.filter_segments,
                            handed.filter_segments@,
                            now,
                            other,
                        )
                        &&& index_handed_over(before, after, handed)
                    },
                    _ => {
                        &&& after.segments == before.segments
                        &&& after.filter_segments == before.filter_segments
                        &&& after.last_index_save_count == before.last_index_save_count
                    },
                }
            }
        }),
{
    let base = old(storage).sync_base_height;
    let id = (filter_place(base, height) / 50_000) as u32;
    let offset = (filter_place(base, height) % 50_000) as usize;
    assert(segment_of(base, height) == id);
    assert(offset_of(base, height) == offset);
    let before = old(storage)@;
    if before.filter_data_segments.contains_key(id) {
        lemma_took_in(before.filter_data_segments[id], offset, filter@, now);
        let stored = with_stored_filter(before, height, filter@, now);
        if let StoreStep::Stored(Some(batch)) = step {
            lemma_handed_over(stored, final(storage)@, batch, now, other);
        }
    }
}

/// The data of a segment's compact filters, one behind the other as they came, holds a filter that
/// was taken in where its entry leads, and the others where they were.
pub proof fn law_entry_leads_to_its_filter(
    before: FilterDataModel,
    after: FilterDataModel,
    data: Seq<u8>,
    offset: int,
    filter: Seq<u8>,
    now: u64,
    other: int,
)
    requires
        took_in(before, after, offset, filter, now),
        data.len() == before.current_data_size,
        0 <= offset,
    ensures
        ({
            let grown = data + filter;
            let entry = after.index[offset];
            &&& after.current_data_size == grown.len()
            &&& grown.subrange(entry.offset as int, entry.offset + entry.length) == filter
            &&& 0 <= other < before.index.len() && other != offset && before.index[other].offset
                + before.index[other].length <= data.len() ==> {
                let kept = after.index[other];
                &&& kept == before.index[other]
                &&& grown.subrange(kept.offset as int, kept.offset + kept.length) == data.subrange(
                    kept.offset as int,
                    kept.offset + kept.length,
                )
            }
        }),
{
    let grown = data + filter;
    let entry = after.index[offset];
    assert(grown.subrange(entry.offset as int, entry.offset + entry.length) =~= filter);
    if 0 <= other < before.index.len() && other != offset && before.index[other].offset
        + before.index[other].length <= data.len() {
        let kept = after.index[other];
        assert(kept == before.index[other]);
        assert(grown.subrange(kept.offset as int, kept.offset + kept.length) =~= data.subrange(
            kept.offset as int,
            kept.offset + kept.length,
        ));
    }
}

/// Whether a lookup leads to the data of an entry.
pub open spec fn leads_to(
    lookup: FilterLookup,
    entry: FilterDataIndexEntry,
    file_offset: u64,
) -> bool {
    lookup matches FilterLookup::ReadData { offset, data_offset, length } && offset == entry.offset
        && data_offset == file_offset && length == entry.length
}

/// A compact filter is looked up at its place. One that has an entry is returned if it is in
/// memory, and otherwise the lookup leads to the data of exactly this entry in the file. Where
/// memory has no entry, the file's own index is asked. Without a file, only memory counts.
pub proof fn law_filter_is_looked_up(
    storage: &DiskStorageManager,
    height: u32,
    file_exists: bool,
    lookup: FilterLookup,
)
    requires
        call_ensures(DiskStorageManager::load_filter, (storage, height, file_exists), lookup),
    ensures
        ({
            let place = filter_place(storage.sync_base_height, height);
            let id = (place / 50_000) as u32;
            let offset = place % 50_000;
            let segment = storage@.filter_data_segments[id];
            let has_entry = storage@.filter_data_segments.contains_key(id) && offset
                < segment.index.len() && segment.index[offset].length != 0;
            if has_entry && segment.filters.contains_key(offset as usize) {
                lookup matches FilterLookup::Cached(filter) && filter@
                    == segment.filters[offset as usize]
            } else if !file_exists {
                lookup is Absent
            } else if has_entry {
                leads_to(lookup, segment.index[offset], segment.file_data_offset)
            } else {
                lookup is ReadIndex
            }
        }),
{
}

/// A compact filter is looked up in the index of a file at its place: the lookup leads to the data
/// of exactly its entry, and a filter without an entry, or with an empty one, is not there.
pub proof fn law_filter_is_looked_up_in_file(
    storage: &DiskStorageManager,
    height: u32,
    index: &Vec<FilterDataIndexEntry>,
    file_offset: u64,
    lookup: FilterLookup,
    offset: usize,
    found: FilterLookup,
)
    ensures
        call_ensures(
            DiskStorageManager::load_filter_from_file,
            (storage, height, index, file_offset),
            lookup,
        ) ==> {
            let place = filter_place(storage.sync_base_height, height) % 50_000;
            if place < index@.len() && index@[place].length != 0 {
                leads_to(lookup, index@[place], file_offset)
            } else {
                lookup is Absent
            }
        },
        call_ensures(find_in_file, (index, file_offset, offset), found) ==> if offset < index@.len()
            && index@[offset as int].length != 0 {
            leads_to(found, index@[offset as int], file_offset)
        } else {
            found is Absent
        },
{
}

/// A compact filter whose segment was loaded from its file is found alike through memory and
/// through the index of the file, as long as it is not in memory itself.
pub proof fn law_memory_and_file_lead_alike(
    storage: &DiskStorageManager,
    height: u32,
    index: &Vec<FilterDataIndexEntry>,
    file_offset: u64,
    through_memory: FilterLookup,
    through_file: FilterLookup,
)
    requires
        call_ensures(DiskStorageManager::load_filter, (storage, height, true), through_memory),
        call_ensures(
            DiskStorageManager::load_filter_from_file,
            (storage, height, index, file_offset),
            through_file,
        ),
        ({
            let place = filter_place(storage.sync_base_height, height);
            let id = (place / 50_000) as u32;
            let segments = storage@.filter_data_segments;
            &&& segments.contains_key(id)
            &&& segments[id].index == index@
            &&& segments[id].file_data_offset == file_offset
            &&& !segments[id].filters.contains_key((place % 50_000) as usize)
        }),
    ensures
        through_file is ReadData ==> through_memory == through_file,
        through_file is ReadData <==> through_memory is ReadData,
{
}

/// A compact filter that was stored is found in memory, unless it is empty.
pub proof fn law_stored_filter_is_found(
    storage: &mut DiskStorageManager,
    height: u32,
    filter: &[u8],
    now: u64,
    step: StoreStep,
    file_exists: bool,
    lookup: FilterLookup,
)
    requires
        call_ensures(DiskStorageManager::store_filter, (storage, height, filter, now), step),
        step is Stored,
        0 < filter@.len() <= u32::MAX,
        call_ensures(
            DiskStorageManager::load_filter,
            (&*final(storage), height, file_exists),
            lookup,
        ),
    ensures
        lookup matches FilterLookup::Cached(found) && found@ == filter@,
{
    law_stored_filter_found(
        old(storage)@,
        height,
        filter@,
        now,
        file_exists,
        lookup,
    );
}

/// A segment of compact filters that is placed in memory is there, and nothing else changes.
pub proof fn law_filter_data_segment_placed(
    storage: &mut DiskStorageManager,
    segment: FilterDataSegment,
    other: u32,
)
    requires
        call_ensures(DiskStorageManager::place_filter_data_segment, (storage, segment), ()),
    ensures
        ({
            let before = old(storage)@;
            let after = final(storage)@;
            &&& after.filter_data_segments.contains_key(segment.segment_id)
            &&& after.filter_data_segments[segment.segment_id] == segment@
            &&& other != segment.segment_id ==> after.filter_data_segments.contains_key(other)
                == before.filter_data_segments.contains_key(other)
                && after.filter_data_segments[other] == before.filter_data_segments[other]
            &&& after == (StorageModel {
                filter_data_segments: after.filter_data_segments,
                ..before
            })
        }),
{
}

/// Clearing leaves no segment of filter headers or compact filters in memory and no tip of either.
/// The background worker is stopped, and what concerns block headers is as it was.
pub proof fn law_filters_are_cleared(
    storage: &mut DiskStorageManager,
    command: Option<WorkerCommand>,
    id: u32,
)
    requires
        call_ensures(DiskStorageManager::clear_filters, (storage,), command),
    ensures
        ({
            let before = old(storage)@;
            let after = final(storage)@;
            &&& !after.filter_segments.contains_key(id)
            &&& !after.filter_data_segments.contains_key(id)
            &&& after.filter_tip is None
            &&& after.filter_data_tip is None
            &&& !after.worker_running
            &&& command is Some <==> before.worker_running
            &&& command matches Some(c) ==> c is Shutdown
            &&& after.segments == before.segments
            &&& after.index == before.index
            &&& after.tip == before.tip
            &&& after.sync_base_height == before.sync_base_height
            &&& after.last_index_save_count == before.last_index_save_count
        }),
{
}

/// The index of compact filters is read from a file with enough bytes for as many entries as its
/// first eight bytes tell, 12 for each: where the filter begins in the data, and its length. The
/// data is what comes behind.
pub proof fn law_filter_index_is_read(
    content: &[u8],
    result: StorageResult<FilterDataFile>,
    i: int,
)
    requires
        call_ensures(load_filter_data_index, (content,), result),
        content@.len() <= u64::MAX,
    ensures
        result is Ok <==> content@.len() >= 8 && 8 + 12 * double_word_at(content@, 0)
            <= content@.len(),
        result matches Err(error) ==> (error matches StorageError::ReadFailed(text) && text@
            == "Filter index is cut short"@),
        result matches Ok(file) ==> {
            &&& file.index@.len() == double_word_at(content@, 0)
            &&& file.data_offset == 8 + 12 * file.index@.len()
            &&& file.data_offset + file.data_size == content@.len()
            &&& 0 <= i < file.index@.len() ==> file.index@[i].offset == double_word_at(
                content@,
                8 + 12 * i,
            ) && file.index@[i].length == word_at(content@, 16 + 12 * i)
        },
{
    let bytes = content@;
    match result {
        Ok(file) => {
            let len = file.index@.len();
            lemma_double_word_range(bytes, 0);
            lemma_le_u64_injective(len as u64, double_word_at(bytes, 0) as u64);
            if 0 <= i < len {
                lemma_filter_entry(bytes, file.index@[i], i);
            }
        },
        Err(_) => {
            if bytes.len() >= 8 && 8 + 12 * double_word_at(bytes, 0) <= bytes.len() {
                lemma_filter_index(bytes);
            }
        },
    }
}

proof fn lemma_filter_entry(bytes: Seq<u8>, entry: FilterDataIndexEntry, i: int)
    requires
        0 <= i,
        20 + 12 * i <= bytes.len(),
        entry_bytes(entry) == bytes.subrange(8 + 12 * i, 20 + 12 * i),
    ensures
        entry.offset == double_word_at(bytes, 8 + 12 * i),
        entry.length == word_at(bytes, 16 + 12 * i),
{
    let at = 8 + 12 * i;
    let e = entry_bytes(entry);
    lemma_double_word_range(bytes, at);
    lemma_word_range(bytes, at + 8);
    assert(le_u64(entry.offset) =~= e.subrange(0, 8));
    assert(e.subrange(0, 8) =~= bytes.subrange(at, at + 8));
    lemma_le_u64_injective(entry.offset, double_word_at(bytes, at) as u64);
    let word = seq![bytes[at + 8], bytes[at + 9], bytes[at + 10], bytes[at + 11]];
    assert(e[8] == bytes[at + 8] && e[9] == bytes[at + 9] && e[10] == bytes[at + 10] && e[11]
        == bytes[at + 11]);
    assert(le_u32(entry.length) =~= word) by {
        let length = le_u32(entry.length);
        assert(length[0] == e[8] && length[1] == e[9] && length[2] == e[10] && length[3] == e[11]);
    }
    lemma_le_u32_injective(entry.length, word_at(bytes, at + 8) as u32);
}

proof fn lemma_filter_index(bytes: Seq<u8>)
    requires
        8 <= bytes.len() <= u64::MAX,
        8 + 12 * double_word_at(bytes, 0) <= bytes.len(),
    ensures
        !has_no_index(bytes),
{
    lemma_double_word_range(bytes, 0);
    let index = Seq::new(
        double_word_at(bytes, 0) as nat,
        |k: int|
            FilterDataIndexEntry {
                offset: double_word_at(bytes, 8 + 12 * k) as u64,
                length: word_at(bytes, 16 + 12 * k) as u32,
            },
    );
    assert forall|k: int| 0 <= k < index.len() implies entry_bytes(#[trigger] index[k])
        == bytes.subrange(8 + 12 * k, 20 + 12 * k) by {
        lemma_double_word_range(bytes, 8 + 12 * k);
        lemma_word_range(bytes, 16 + 12 * k);
        assert(entry_bytes(index[k]) =~= bytes.subrange(8 + 12 * k, 20 + 12 * k));
    }
    assert(begins_with_index(bytes, index));
}

} // verus!
