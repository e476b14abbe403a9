//! What holds of filter headers and compact filters over several operations.

use std::ops::Range;

use vstd::prelude::*;

use crate::filter_data::{has_filter, FilterDataModel, FilterLookup};
use crate::filters::{
    filter_header_at, headers_of, looked_up, next_filter_height, offset_of, range_first,
    range_is_empty, range_last, range_part, range_parts, range_start, segment_of, storage_index,
    with_filter_headers, with_header_put, with_stored_filter,
};
use crate::headers::FilterHeader;
use crate::manager::StorageModel;
use crate::metadata::with_filter_tip_of;
use crate::segment_map::{with_placed, with_save_completed, with_saves_started};
use crate::segments::{
    file_after_eviction, law_decoding_unique, law_saved_filter_segment_is_on_disk, on_disk,
    SegmentModel, SegmentState,
};
use crate::HEADERS_PER_SEGMENT;

verus! {

/// Every height from the base height on is given back by its segment and its offset there.
pub proof fn law_height_has_its_place(sync_base_height: u32, height: u32)
    requires
        height >= sync_base_height,
    ensures
        segment_of(sync_base_height, height) * HEADERS_PER_SEGMENT + offset_of(
            sync_base_height,
            height,
        ) + sync_base_height == height,
        0 <= offset_of(sync_base_height, height) < HEADERS_PER_SEGMENT,
{
}

/// Different heights have different places, whether or not they are below the base height.
pub proof fn law_places_differ(sync_base_height: u32, height: u32, other: u32)
    requires
        height != other,
    ensures
        segment_of(sync_base_height, height) != segment_of(sync_base_height, other) || offset_of(
            sync_base_height,
            height,
        ) != offset_of(sync_base_height, other),
{
    assert(storage_index(sync_base_height, height) != storage_index(sync_base_height, other));
}

/// The segments of filter headers, in memory and in files.
#[verifier::ext_equal]
pub struct FilterStore {
    pub segments: Map<u32, SegmentModel<FilterHeader>>,
    pub files: Map<u32, Seq<u8>>,
}

/// The file of a segment, if there is one.
pub open spec fn file_of(files: Map<u32, Seq<u8>>, id: u32) -> Option<Seq<u8>> {
    if files.contains_key(id) {
        Some(files[id])
    } else {
        None
    }
}

/// The filter headers that are read from a file.
pub open spec fn read_back(file: Option<Seq<u8>>) -> Seq<FilterHeader> {
    choose|headers: Seq<FilterHeader>| on_disk(file, headers)
}

impl FilterStore {
    /// The filter headers of each segment: those in memory, or else those of its file.
    pub open spec fn contents(self) -> Map<u32, Seq<FilterHeader>> {
        Map::total(
            |id: u32|
                if self.segments.contains_key(id) {
                    self.segments[id].headers
                } else {
                    read_back(file_of(self.files, id))
                },
        )
    }

    /// Whether every clean segment in memory is up to date on disk.
    pub open spec fn clean_on_disk(self) -> bool {
        forall|id: u32| #[trigger]
            self.segments.contains_key(id) && self.segments[id].state == SegmentState::Clean
                ==> on_disk(file_of(self.files, id), self.segments[id].headers)
    }

    /// The store after a segment was placed in memory and another one left it.
    pub open spec fn placed(
        self,
        evicted: Option<u32>,
        loaded: SegmentModel<FilterHeader>,
    ) -> FilterStore {
        FilterStore {
            segments: with_placed(self.segments, evicted, loaded),
            files: match evicted {
                Some(id) => match file_after_eviction(file_of(self.files, id), self.segments[id]) {
                    Some(bytes) => self.files.insert(id, bytes),
                    None => self.files,
                },
                None => self.files,
            },
        }
    }

    /// The store after a run of filter headers was stored in memory.
    pub open spec fn stored(
        self,
        sync_base_height: u32,
        first: u32,
        headers: Seq<FilterHeader>,
        now: u64,
    ) -> FilterStore {
        FilterStore {
            segments: with_filter_headers(self.segments, sync_base_height, first, headers, now),
            files: self.files,
        }
    }

    /// Whether the segments of a run of heights are in memory.
    pub open spec fn has_segments_of(self, sync_base_height: u32, first: int, end: int) -> bool {
        forall|height: u32|
            first <= height < end && height >= sync_base_height ==> self.segments.contains_key(
                #[trigger] segment_of(sync_base_height, height),
            )
    }
}

/// Whether one store came from another without a change to what is stored.
pub open spec fn keeps(before: FilterStore, after: FilterStore) -> bool {
    after.contents() == before.contents() && (before.clean_on_disk() ==> after.clean_on_disk())
}

proof fn lemma_read_back(file: Option<Seq<u8>>, headers: Seq<FilterHeader>)
    requires
        on_disk(file, headers),
    ensures
        read_back(file) == headers,
{
    let read = read_back(file);
    match file {
        Some(bytes) => law_decoding_unique(bytes, read, headers),
        None => assert(read =~= headers),
    }
}

/// Loading a segment, and evicting another one for it, keeps the filter headers of every segment,
/// if every clean segment in memory is up to date on disk.
pub proof fn law_placing_keeps_headers(
    store: FilterStore,
    evicted: Option<u32>,
    loaded: SegmentModel<FilterHeader>,
)
    requires
        evicted matches Some(id) ==> store.segments.contains_key(id),
        store.clean_on_disk(),
        !store.segments.contains_key(loaded.segment_id),
        on_disk(file_of(store.files, loaded.segment_id), loaded.headers),
    ensures
        keeps(store, store.placed(evicted, loaded)),
{
    let after = store.placed(evicted, loaded);
    lemma_read_back(file_of(store.files, loaded.segment_id), loaded.headers);
    if let Some(id) = evicted {
        let segment = store.segments[id];
        law_saved_filter_segment_is_on_disk(segment.headers);
        assert(on_disk(file_of(after.files, id), segment.headers));
        lemma_read_back(file_of(after.files, id), segment.headers);
    }
    assert forall|id: u32| after.contents()[id] == store.contents()[id] by {
        if Some(id) != evicted {
            assert(file_of(after.files, id) == file_of(store.files, id));
        }
    }
    assert(after.contents() =~= store.contents());
    assert forall|id: u32| #[trigger]
        after.segments.contains_key(id) && after.segments[id].state
            == SegmentState::Clean implies on_disk(
        file_of(after.files, id),
        after.segments[id].headers,
    ) by {
        if id != loaded.segment_id {
            assert(store.segments.contains_key(id));
        }
        assert(file_of(after.files, id) == file_of(store.files, id));
    }
}

/// Handing changes to the background worker keeps the filter headers of every segment.
pub proof fn law_handing_over_keeps_headers(store: FilterStore, now: u64)
    ensures
        keeps(
            store,
            FilterStore { segments: with_saves_started(store.segments, now), files: store.files },
        ),
{
    let after = FilterStore {
        segments: with_saves_started(store.segments, now),
        files: store.files,
    };
    assert(after.contents() =~= store.contents());
    assert forall|id: u32| #[trigger]
        after.segments.contains_key(id) && after.segments[id].state == SegmentState::Clean
            && store.clean_on_disk() implies on_disk(
        file_of(after.files, id),
        after.segments[id].headers,
    ) by {
        assert(store.segments.contains_key(id));
    }
}

/// Writing the file of a segment in memory keeps the filter headers of every segment, if a clean
/// segment is written as it is.
pub proof fn law_writing_keeps_headers(store: FilterStore, id: u32, bytes: Seq<u8>)
    requires
        store.segments.contains_key(id),
        store.segments[id].state == SegmentState::Clean ==> on_disk(
            Some(bytes),
            store.segments[id].headers,
        ),
    ensures
        keeps(
            store,
            FilterStore { segments: store.segments, files: store.files.insert(id, bytes) },
        ),
{
    let after = FilterStore { segments: store.segments, files: store.files.insert(id, bytes) };
    assert forall|other: u32| after.contents()[other] == store.contents()[other] by {
        if other != id {
            assert(file_of(after.files, other) == file_of(store.files, other));
        }
    }
    assert(after.contents() =~= store.contents());
    assert forall|other: u32| #[trigger]
        after.segments.contains_key(other) && after.segments[other].state == SegmentState::Clean
            && store.clean_on_disk() implies on_disk(
        file_of(after.files, other),
        after.segments[other].headers,
    ) by {
        assert(store.segments.contains_key(other));
    }
}

/// A save that is reported keeps the filter headers of every segment, if the segment that was being
/// saved is on disk.
pub proof fn law_completing_keeps_headers(store: FilterStore, id: u32)
    requires
        store.segments.contains_key(id) && store.segments[id].state == SegmentState::Saving
            ==> on_disk(file_of(store.files, id), store.segments[id].headers),
    ensures
        keeps(
            store,
            FilterStore { segments: with_save_completed(store.segments, id), files: store.files },
        ),
{
    let after = FilterStore {
        segments: with_save_completed(store.segments, id),
        files: store.files,
    };
    assert(after.contents() =~= store.contents());
    assert forall|other: u32| #[trigger]
        after.segments.contains_key(other) && after.segments[other].state == SegmentState::Clean
            && store.clean_on_disk() implies on_disk(
        file_of(after.files, other),
        after.segments[other].headers,
    ) by {
        assert(store.segments.contains_key(other));
    }
}

/// What is stored after a run of filter headers was stored, the first one at `first`.
pub open spec fn with_run(
    contents: Map<u32, Seq<FilterHeader>>,
    sync_base_height: u32,
    first: u32,
    headers: Seq<FilterHeader>,
) -> Map<u32, Seq<FilterHeader>>
    decreases headers.len(),
{
    if headers.len() == 0 {
        contents
    } else {
        let before = with_run(contents, sync_base_height, first, headers.drop_last());
        let height = (first + headers.len() - 1) as u32;
        let id = segment_of(sync_base_height, height);
        if height < sync_base_height {
            before
        } else {
            before.insert(
                id,
                with_header_put(before[id], offset_of(sync_base_height, height), headers.last()),
            )
        }
    }
}

/// Storing a run in memory changes what is stored in the same way, wherever the other segments
/// are.
pub proof fn law_storing_changes_contents(
    store: FilterStore,
    sync_base_height: u32,
    first: u32,
    headers: Seq<FilterHeader>,
    now: u64,
)
    requires
        first + headers.len() - 1 <= u32::MAX,
        store.has_segments_of(sync_base_height, first as int, first + headers.len()),
    ensures
        store.stored(sync_base_height, first, headers, now).contents() == with_run(
            store.contents(),
            sync_base_height,
            first,
            headers,
        ),
        store.stored(sync_base_height, first, headers, now).segments.dom() == store.segments.dom(),
        store.clean_on_disk() ==> store.stored(
            sync_base_height,
            first,
            headers,
            now,
        ).clean_on_disk(),
    decreases headers.len(),
{
    if headers.len() > 0 {
        let front = headers.drop_last();
        law_storing_changes_contents(store, sync_base_height, first, front, now);
        let before = store.stored(sync_base_height, first, front, now);
        let after = store.stored(sync_base_height, first, headers, now);
        let height = (first + headers.len() - 1) as u32;
        let id = segment_of(sync_base_height, height);
        if height >= sync_base_height {
            assert(before.segments.dom().contains(id));
            assert(after.segments.dom() =~= store.segments.dom());
            assert(after.contents() =~= with_run(
                store.contents(),
                sync_base_height,
                first,
                headers,
            ));
            assert forall|other: u32| #[trigger]
                after.segments.contains_key(other) && after.segments[other].state
                    == SegmentState::Clean && store.clean_on_disk() implies on_disk(
                file_of(after.files, other),
                after.segments[other].headers,
            ) by {
                assert(before.segments.contains_key(other));
            }
        } else {
            assert(after =~= before);
        }
    } else {
        assert(store.stored(sync_base_height, first, headers, now) =~= store);
    }
}

/// Storing a run in two parts comes to the same as storing it at once.
pub proof fn law_storing_resumes(
    contents: Map<u32, Seq<FilterHeader>>,
    sync_base_height: u32,
    first: u32,
    stored: Seq<FilterHeader>,
    rest: Seq<FilterHeader>,
)
    requires
        first + stored.len() + rest.len() <= u32::MAX,
    ensures
        with_run(
            with_run(contents, sync_base_height, first, stored),
            sync_base_height,
            (first + stored.len()) as u32,
            rest,
        ) == with_run(contents, sync_base_height, first, stored + rest),
    decreases rest.len(),
{
    if rest.len() == 0 {
        assert(stored + rest =~= stored);
    } else {
        law_storing_resumes(contents, sync_base_height, first, stored, rest.drop_last());
        assert((stored + rest).drop_last() =~= stored + rest.drop_last());
    }
}

/// A moment while a run is stored: the store, and how many filter headers of the run are in it.
pub struct StoreMoment {
    pub store: FilterStore,
    pub stored: int,
}

/// Whether a piece of a run was stored from one moment to the next.
pub open spec fn stores_piece(
    before: StoreMoment,
    after: StoreMoment,
    sync_base_height: u32,
    first: u32,
    headers: Seq<FilterHeader>,
    now: u64,
) -> bool {
    &&& before.stored <= after.stored <= headers.len()
    &&& before.store.has_segments_of(
        sync_base_height,
        first + before.stored,
        first + after.stored,
    )
    &&& after.store == before.store.stored(
        sync_base_height,
        (first + before.stored) as u32,
        headers.subrange(before.stored, after.stored),
        now,
    )
}

/// Whether moments follow one another while a run is stored: each time a piece of the run is stored
/// at some time, or something happens that keeps what is stored.
pub open spec fn is_store_run(
    moments: Seq<StoreMoment>,
    sync_base_height: u32,
    first: u32,
    headers: Seq<FilterHeader>,
    times: Seq<u64>,
) -> bool {
    &&& moments.len() == times.len() + 1
    &&& moments[0].stored == 0
    &&& moments[0].store.clean_on_disk()
    &&& forall|i: int|
        #![trigger times[i]]
        0 <= i < times.len() ==> {
            ||| stores_piece(
                moments[i],
                moments[i + 1],
                sync_base_height,
                first,
                headers,
                times[i],
            )
            ||| keeps(moments[i].store, moments[i + 1].store) && moments[i + 1].stored
                == moments[i].stored
        }
}

/// A run that is stored in any number of pieces, with segments loaded, evicted and saved in
/// between, comes to the same as storing it at once.
pub proof fn law_run_in_pieces(
    moments: Seq<StoreMoment>,
    sync_base_height: u32,
    first: u32,
    headers: Seq<FilterHeader>,
    times: Seq<u64>,
    i: int,
)
    requires
        is_store_run(moments, sync_base_height, first, headers, times),
        first + headers.len() <= u32::MAX,
        0 <= i < moments.len(),
    ensures
        0 <= moments[i].stored <= headers.len(),
        moments[i].store.contents() == with_run(
            moments[0].store.contents(),
            sync_base_height,
            first,
            headers.take(moments[i].stored),
        ),
        moments[i].store.clean_on_disk(),
    decreases i,
{
    if i == 0 {
        assert(headers.take(0).len() == 0);
    } else {
        law_run_in_pieces(moments, sync_base_height, first, headers, times, i - 1);
        let before = moments[i - 1];
        let after = moments[i];
        let now = times[i - 1];
        if stores_piece(before, after, sync_base_height, first, headers, now) {
            let piece = headers.subrange(before.stored, after.stored);
            law_storing_changes_contents(
                before.store,
                sync_base_height,
                (first + before.stored) as u32,
                piece,
                now,
            );
            law_storing_resumes(
                moments[0].store.contents(),
                sync_base_height,
                first,
                headers.take(before.stored),
                piece,
            );
            assert(headers.take(before.stored) + piece =~= headers.take(after.stored));
        }
    }
}

/// A run of filter headers is read back at all its heights, also across segments.
pub proof fn law_stored_filter_headers_read_back(
    contents: Map<u32, Seq<FilterHeader>>,
    sync_base_height: u32,
    first: u32,
    headers: Seq<FilterHeader>,
    i: int,
)
    requires
        first + headers.len() - 1 <= u32::MAX,
        0 <= i < headers.len(),
        first + i >= sync_base_height,
    ensures
        filter_header_at(
            with_run(contents, sync_base_height, first, headers),
            sync_base_height,
            (first + i) as u32,
        ) == Some(headers[i]),
    decreases headers.len(),
{
    let front = headers.drop_last();
    let height = (first + i) as u32;
    let last = (first + headers.len() - 1) as u32;
    law_height_has_its_place(sync_base_height, height);
    law_height_has_its_place(sync_base_height, last);
    if i < headers.len() - 1 {
        law_stored_filter_headers_read_back(contents, sync_base_height, first, front, i);
        assert(front[i] == headers[i]);
    }
}

/// Storing filter headers leaves those of other heights as they are.
pub proof fn law_other_filter_headers_unchanged(
    contents: Map<u32, Seq<FilterHeader>>,
    sync_base_height: u32,
    first: u32,
    headers: Seq<FilterHeader>,
    height: u32,
)
    requires
        first + headers.len() - 1 <= u32::MAX,
        height < first || first + headers.len() <= height,
        filter_header_at(contents, sync_base_height, height) is Some,
    ensures
        filter_header_at(
            with_run(contents, sync_base_height, first, headers),
            sync_base_height,
            height,
        ) == filter_header_at(contents, sync_base_height, height),
    decreases headers.len(),
{
    if headers.len() > 0 {
        let last = (first + headers.len() - 1) as u32;
        law_other_filter_headers_unchanged(
            contents,
            sync_base_height,
            first,
            headers.drop_last(),
            height,
        );
        if last >= sync_base_height {
            law_height_has_its_place(sync_base_height, height);
            law_height_has_its_place(sync_base_height, last);
        }
    }
}

/// What is read from memory is what is stored.
pub proof fn law_memory_holds_what_is_stored(
    store: FilterStore,
    sync_base_height: u32,
    height: u32,
)
    requires
        height >= sync_base_height ==> store.segments.contains_key(
            segment_of(sync_base_height, height),
        ),
    ensures
        filter_header_at(headers_of(store.segments), sync_base_height, height) == filter_header_at(
            store.contents(),
            sync_base_height,
            height,
        ),
{
}

/// The filter tip after `count` more filter headers were stored.
pub open spec fn tip_after(sync_base_height: u32, tip: Option<u32>, count: nat) -> Option<u32> {
    if count > 0 {
        Some((next_filter_height(sync_base_height, tip) + count - 1) as u32)
    } else {
        tip
    }
}

/// How a run of filter headers is cut into calls does not matter, neither to what is stored nor to
/// the filter tip.
pub proof fn law_cut_does_not_matter(
    contents: Map<u32, Seq<FilterHeader>>,
    sync_base_height: u32,
    tip: Option<u32>,
    a: Seq<FilterHeader>,
    b: Seq<FilterHeader>,
)
    requires
        next_filter_height(sync_base_height, tip) + a.len() + b.len() <= u32::MAX,
    ensures
        ({
            let next = next_filter_height(sync_base_height, tip) as u32;
            let tip_between = tip_after(sync_base_height, tip, a.len());
            &&& with_run(
                with_run(contents, sync_base_height, next, a),
                sync_base_height,
                next_filter_height(sync_base_height, tip_between) as u32,
                b,
            ) == with_run(contents, sync_base_height, next, a + b)
            &&& tip_after(sync_base_height, tip_between, b.len()) == tip_after(
                sync_base_height,
                tip,
                (a + b).len(),
            )
        }),
{
    let next = next_filter_height(sync_base_height, tip) as u32;
    law_storing_resumes(contents, sync_base_height, next, a, b);
}

/// Whether a filter header is found at a height exactly if the height is neither below the base
/// height nor above the filter tip.
pub open spec fn filled_to_tip(
    contents: Map<u32, Seq<FilterHeader>>,
    sync_base_height: u32,
    tip: Option<u32>,
) -> bool {
    forall|height: u32| #[trigger]
        filter_header_at(contents, sync_base_height, height) is Some <==> sync_base_height <= height
            && (tip matches Some(t) && height <= t)
}

/// Storing filter headers above the tip keeps the filter headers from the base height to the tip
/// complete, and changes none of those that were there.
pub proof fn law_storing_keeps_filled(
    contents: Map<u32, Seq<FilterHeader>>,
    sync_base_height: u32,
    tip: Option<u32>,
    headers: Seq<FilterHeader>,
)
    requires
        filled_to_tip(contents, sync_base_height, tip),
        next_filter_height(sync_base_height, tip) + headers.len() <= u32::MAX,
    ensures
        ({
            let next = next_filter_height(sync_base_height, tip) as u32;
            let after = with_run(contents, sync_base_height, next, headers);
            &&& filled_to_tip(
                after,
                sync_base_height,
                tip_after(sync_base_height, tip, headers.len()),
            )
            &&& forall|height: u32|
                height < next ==> #[trigger] filter_header_at(after, sync_base_height, height)
                    == filter_header_at(contents, sync_base_height, height)
        }),
    decreases headers.len(),
{
    let base = sync_base_height;
    let next = next_filter_height(base, tip) as u32;
    let after = with_run(contents, base, next, headers);
    let new_tip = tip_after(base, tip, headers.len());
    if headers.len() > 0 {
        let front = headers.drop_last();
        law_storing_keeps_filled(contents, base, tip, front);
        let before = with_run(contents, base, next, front);
        let old_tip = tip_after(base, tip, front.len());
        let last = (next + headers.len() - 1) as u32;
        if last >= base {
            let id = segment_of(base, last);
            let offset = offset_of(base, last);
            law_height_has_its_place(base, last);
            assert(filter_header_at(before, base, last) is None);
            assert(before[id].len() <= offset);
            if offset > 0 {
                let below = (last - 1) as u32;
                assert(below >= base);
                law_height_has_its_place(base, below);
                assert(filter_header_at(before, base, below) is Some);
                assert(before[id].len() >= offset);
            }
            assert forall|height: u32| height != last implies #[trigger] filter_header_at(
                after,
                base,
                height,
            ) == filter_header_at(before, base, height) by {
                if height >= base {
                    law_height_has_its_place(base, height);
                }
            }
            assert forall|height: u32| #[trigger]
                filter_header_at(after, base, height) is Some <==> base <= height && (
            new_tip matches Some(t) && height <= t) by {
                if height != last {
                    assert(filter_header_at(after, base, height) == filter_header_at(
                        before,
                        base,
                        height,
                    ));
                }
            }
            assert forall|height: u32| height < next implies #[trigger] filter_header_at(
                after,
                base,
                height,
            ) == filter_header_at(contents, base, height) by {
                assert(filter_header_at(after, base, height) == filter_header_at(
                    before,
                    base,
                    height,
                ));
            }
        } else {
            assert(after == before);
            assert forall|height: u32| #[trigger]
                filter_header_at(after, base, height) is Some <==> base <= height && (
            new_tip matches Some(t) && height <= t) by {
                assert(filter_header_at(before, base, height) is Some <==> base <= height && (
                old_tip matches Some(t) && height <= t));
            }
        }
    } else {
        assert forall|height: u32| #[trigger]
            filter_header_at(after, base, height) is Some <==> base <= height && (
        new_tip matches Some(t) && height <= t) by {
            assert(filter_header_at(contents, base, height) is Some <==> base <= height && (
            tip matches Some(t) && height <= t));
        }
    }
}

/// A run of filter headers that is stored above the filter tip, in any number of pieces and with
/// segments loaded, evicted and saved in between, is read back at all its heights. Afterwards there
/// are filter headers exactly from the base height to the new tip, and those below the run are as
/// before.
pub proof fn law_run_is_read_back(
    moments: Seq<StoreMoment>,
    sync_base_height: u32,
    tip: Option<u32>,
    headers: Seq<FilterHeader>,
    times: Seq<u64>,
    height: u32,
)
    requires
        next_filter_height(sync_base_height, tip) + headers.len() <= u32::MAX,
        is_store_run(
            moments,
            sync_base_height,
            next_filter_height(sync_base_height, tip) as u32,
            headers,
            times,
        ),
        moments.last().stored == headers.len(),
        filled_to_tip(moments[0].store.contents(), sync_base_height, tip),
    ensures
        ({
            let next = next_filter_height(sync_base_height, tip);
            let before = moments[0].store.contents();
            let after = moments.last().store.contents();
            &&& filled_to_tip(
                after,
                sync_base_height,
                tip_after(sync_base_height, tip, headers.len()),
            )
            &&& next <= height < next + headers.len() && height >= sync_base_height
                ==> filter_header_at(after, sync_base_height, height) == Some(
                headers[height - next],
            )
            &&& height < next ==> filter_header_at(after, sync_base_height, height)
                == filter_header_at(before, sync_base_height, height)
        }),
{
    let next = next_filter_height(sync_base_height, tip) as u32;
    let before = moments[0].store.contents();
    law_run_in_pieces(moments, sync_base_height, next, headers, times, moments.len() - 1);
    assert(headers.take(headers.len() as int) =~= headers);
    law_storing_keeps_filled(before, sync_base_height, tip, headers);
    if next <= height < next + headers.len() && height >= sync_base_height {
        law_stored_filter_headers_read_back(
            before,
            sync_base_height,
            next,
            headers,
            height - next,
        );
    }
}

/// Whether no segment holds more filter headers than it has places.
pub open spec fn fits(contents: Map<u32, Seq<FilterHeader>>) -> bool {
    forall|id: u32| (#[trigger] contents[id]).len() <= HEADERS_PER_SEGMENT
}

/// Storing filter headers does not put more of them in a segment than it has places.
pub proof fn law_storing_keeps_fitting(
    contents: Map<u32, Seq<FilterHeader>>,
    sync_base_height: u32,
    first: u32,
    headers: Seq<FilterHeader>,
)
    requires
        fits(contents),
    ensures
        fits(with_run(contents, sync_base_height, first, headers)),
    decreases headers.len(),
{
    if headers.len() > 0 {
        let front = headers.drop_last();
        law_storing_keeps_fitting(contents, sync_base_height, first, front);
        let before = with_run(contents, sync_base_height, first, front);
        let after = with_run(contents, sync_base_height, first, headers);
        let height = (first + headers.len() - 1) as u32;
        let id = segment_of(sync_base_height, height);
        assert forall|other: u32| (#[trigger] after[other]).len() <= HEADERS_PER_SEGMENT by {
            assert(before[other].len() <= HEADERS_PER_SEGMENT);
            assert(before[id].len() <= HEADERS_PER_SEGMENT);
        }
    }
}

/// Whether the segments hold all filter headers of a range and no more than they have places.
spec fn holds_range(headers: Map<u32, Seq<FilterHeader>>, start: u32, last: u32) -> bool {
    &&& forall|id: u32|
        start / HEADERS_PER_SEGMENT <= id < last / HEADERS_PER_SEGMENT ==> (
        #[trigger] headers[id]).len() == HEADERS_PER_SEGMENT
    &&& headers[last / HEADERS_PER_SEGMENT].len() > last as int % HEADERS_PER_SEGMENT as int
}

proof fn lemma_range_parts(
    headers: Map<u32, Seq<FilterHeader>>,
    start: u32,
    last: u32,
    to: int,
)
    requires
        start <= last,
        holds_range(headers, start, last),
        start / HEADERS_PER_SEGMENT < to <= last as int / HEADERS_PER_SEGMENT as int + 1,
    ensures
        ({
            let from = start as int / HEADERS_PER_SEGMENT as int;
            let parts = range_parts(headers, start, last, from, to);
            &&& parts.len() == if to <= last / HEADERS_PER_SEGMENT {
                to * HEADERS_PER_SEGMENT - start
            } else {
                last + 1 - start
            }
            &&& forall|i: int|
                0 <= i < parts.len() ==> #[trigger] parts[i] == headers[((start + i)
                    / HEADERS_PER_SEGMENT as int) as u32][(start + i) % HEADERS_PER_SEGMENT as int]
        }),
    decreases to,
{
    let from = start as int / HEADERS_PER_SEGMENT as int;
    let id = (to - 1) as u32;
    let parts = range_parts(headers, start, last, from, to);
    let before = range_parts(headers, start, last, from, to - 1);
    let part = range_part(headers[id], id, start, last);
    assert(parts == before + part);
    if from < to - 1 {
        lemma_range_parts(headers, start, last, to - 1);
    }
    assert forall|i: int| 0 <= i < parts.len() implies #[trigger] parts[i] == headers[((start + i)
        / HEADERS_PER_SEGMENT as int) as u32][(start + i) % HEADERS_PER_SEGMENT as int] by {
        if i < before.len() {
            assert(parts[i] == before[i]);
        } else {
            assert(parts[i] == part[i - before.len()]);
        }
    }
}

/// What reading a range gives.
pub open spec fn range_read(
    contents: Map<u32, Seq<FilterHeader>>,
    sync_base_height: u32,
    range: Range<u32>,
) -> Seq<FilterHeader> {
    if range_is_empty(sync_base_height, range) {
        Seq::empty()
    } else {
        let start = range_start(sync_base_height, range);
        let last = range_last(sync_base_height, range);
        range_parts(
            contents,
            start,
            last,
            start as int / HEADERS_PER_SEGMENT as int,
            last as int / HEADERS_PER_SEGMENT as int + 1,
        )
    }
}

/// Reading a range that does not go beyond the filter tip gives, in order, what reading each of its
/// heights from the base height on gives.
pub proof fn law_range_is_its_heights(
    contents: Map<u32, Seq<FilterHeader>>,
    sync_base_height: u32,
    tip: u32,
    range: Range<u32>,
    i: int,
)
    requires
        fits(contents),
        filled_to_tip(contents, sync_base_height, Some(tip)),
        range.end <= tip + 1,
    ensures
        ({
            let first = range_first(sync_base_height, range);
            let read = range_read(contents, sync_base_height, range);
            &&& read.len() == if first < range.end {
                range.end - first
            } else {
                0
            }
            &&& 0 <= i < read.len() ==> filter_header_at(
                contents,
                sync_base_height,
                (first + i) as u32,
            ) == Some(read[i])
        }),
{
    let first = range_first(sync_base_height, range);
    if first < range.end {
        let start = range_start(sync_base_height, range);
        let last = range_last(sync_base_height, range);
        let end_segment = last / HEADERS_PER_SEGMENT;
        assert(filter_header_at(contents, sync_base_height, (range.end - 1) as u32) is Some);
        assert forall|id: u32| start / HEADERS_PER_SEGMENT <= id < end_segment implies (
        #[trigger] contents[id]).len() == HEADERS_PER_SEGMENT by {
            let height = (sync_base_height + id * HEADERS_PER_SEGMENT + HEADERS_PER_SEGMENT
                - 1) as u32;
            assert(sync_base_height + id * HEADERS_PER_SEGMENT + HEADERS_PER_SEGMENT - 1
                < range.end);
            assert(storage_index(sync_base_height, height) == id * HEADERS_PER_SEGMENT
                + HEADERS_PER_SEGMENT - 1);
            assert(segment_of(sync_base_height, height) == id);
            assert(filter_header_at(contents, sync_base_height, height) is Some);
        }
        lemma_range_parts(contents, start, last, last as int / HEADERS_PER_SEGMENT as int + 1);
        if 0 <= i < range.end - first {
            let height = (first + i) as u32;
            assert(storage_index(sync_base_height, height) == start + i);
            assert(filter_header_at(contents, sync_base_height, height) is Some);
        }
    }
}

/// Reading a range segment by segment comes to the same as reading it at once.
pub proof fn law_range_reading_resumes(
    headers: Map<u32, Seq<FilterHeader>>,
    start: u32,
    last: u32,
    from: int,
    mid: int,
    to: int,
)
    requires
        from <= mid <= to,
    ensures
        range_parts(headers, start, last, from, mid) + range_parts(headers, start, last, mid, to)
            == range_parts(headers, start, last, from, to),
    decreases to - mid,
{
    let read = range_parts(headers, start, last, from, mid);
    if mid == to {
        assert(read + range_parts(headers, start, last, mid, to) =~= read);
    } else {
        law_range_reading_resumes(headers, start, last, from, mid, to - 1);
        assert(read + range_parts(headers, start, last, mid, to) =~= range_parts(
            headers,
            start,
            last,
            from,
            to,
        ));
    }
}

proof fn lemma_same_parts(
    a: Map<u32, Seq<FilterHeader>>,
    b: Map<u32, Seq<FilterHeader>>,
    start: u32,
    last: u32,
    from: int,
    to: int,
)
    requires
        0 <= from,
        to <= u32::MAX,
        forall|id: u32| from <= id < to ==> #[trigger] a[id] == b[id],
    ensures
        range_parts(a, start, last, from, to) == range_parts(b, start, last, from, to),
    decreases to - from,
{
    if from < to {
        lemma_same_parts(a, b, start, last, from, to - 1);
        assert(a[(to - 1) as u32] == b[(to - 1) as u32]);
    }
}

/// A moment while a range is read: the store, the next segment, and what has been read.
pub struct ReadMoment {
    pub store: FilterStore,
    pub next_segment: int,
    pub read: Seq<FilterHeader>,
}

/// Whether a piece of a range was read from one moment to the next.
pub open spec fn reads_piece(
    before: ReadMoment,
    after: ReadMoment,
    start: u32,
    last: u32,
) -> bool {
    &&& after.store == before.store
    &&& before.next_segment <= after.next_segment <= u32::MAX
    &&& forall|id: u32|
        before.next_segment <= id < after.next_segment
            ==> #[trigger] before.store.segments.contains_key(id)
    &&& after.read == before.read + range_parts(
        headers_of(before.store.segments),
        start,
        last,
        before.next_segment,
        after.next_segment,
    )
}

/// Whether moments follow one another while a range is read: each time a piece of the range is
/// read, or something happens that keeps what is stored.
pub open spec fn is_range_run(moments: Seq<ReadMoment>, start: u32, last: u32) -> bool {
    &&& moments.len() > 0
    &&& moments[0].next_segment == start as int / HEADERS_PER_SEGMENT as int
    &&& moments[0].read.len() == 0
    &&& forall|i: int|
        #![trigger moments[i]]
        0 < i < moments.len() ==> {
            ||| reads_piece(moments[i - 1], moments[i], start, last)
            ||| keeps(moments[i - 1].store, moments[i].store) && moments[i].next_segment
                == moments[i - 1].next_segment && moments[i].read == moments[i - 1].read
        }
}

/// A range that is read in any number of pieces, with segments loaded and evicted in between, is
/// read as it was stored when the reading began.
pub proof fn law_range_in_pieces(
    moments: Seq<ReadMoment>,
    sync_base_height: u32,
    range: Range<u32>,
    i: int,
)
    requires
        !range_is_empty(sync_base_height, range),
        is_range_run(
            moments,
            range_start(sync_base_height, range),
            range_last(sync_base_height, range),
        ),
        0 <= i < moments.len(),
    ensures
        moments[i].store.contents() == moments[0].store.contents(),
        moments[0].next_segment <= moments[i].next_segment,
        moments[i].read == range_parts(
            moments[0].store.contents(),
            range_start(sync_base_height, range),
            range_last(sync_base_height, range),
            moments[0].next_segment,
            moments[i].next_segment,
        ),
        moments[i].next_segment == range_last(sync_base_height, range) as int
            / HEADERS_PER_SEGMENT as int + 1 ==> moments[i].read == range_read(
            moments[0].store.contents(),
            sync_base_height,
            range,
        ),
    decreases i,
{
    let start = range_start(sync_base_height, range);
    let last = range_last(sync_base_height, range);
    let contents = moments[0].store.contents();
    if i == 0 {
        assert(moments[0].read =~= Seq::empty());
    } else {
        law_range_in_pieces(moments, sync_base_height, range, i - 1);
        let before = moments[i - 1];
        let after = moments[i];
        if reads_piece(before, after, start, last) {
            let from = before.next_segment;
            let to = after.next_segment;
            assert forall|id: u32| from <= id < to implies #[trigger] headers_of(
                before.store.segments,
            )[id] == contents[id] by {
                assert(before.store.segments.contains_key(id));
            }
            lemma_same_parts(headers_of(before.store.segments), contents, start, last, from, to);
            law_range_reading_resumes(contents, start, last, moments[0].next_segment, from, to);
        }
    }
}

/// A range that does not go beyond the filter tip, read in any number of pieces, gives the filter
/// header of each of its heights from the base height on, in order.
pub proof fn law_range_is_read_back(
    moments: Seq<ReadMoment>,
    sync_base_height: u32,
    tip: u32,
    range: Range<u32>,
    i: int,
)
    requires
        !range_is_empty(sync_base_height, range),
        is_range_run(
            moments,
            range_start(sync_base_height, range),
            range_last(sync_base_height, range),
        ),
        moments.last().next_segment == range_last(sync_base_height, range) as int
            / HEADERS_PER_SEGMENT as int + 1,
        fits(moments[0].store.contents()),
        filled_to_tip(moments[0].store.contents(), sync_base_height, Some(tip)),
        range.end <= tip + 1,
    ensures
        ({
            let first = range_first(sync_base_height, range);
            let read = moments.last().read;
            &&& read.len() == range.end - first
            &&& 0 <= i < read.len() ==> filter_header_at(
                moments[0].store.contents(),
                sync_base_height,
                (first + i) as u32,
            ) == Some(read[i])
        }),
{
    law_range_in_pieces(moments, sync_base_height, range, moments.len() - 1);
    law_range_is_its_heights(moments[0].store.contents(), sync_base_height, tip, range, i);
}

/// A compact filter that was stored is found in memory, unless it is empty.
pub proof fn law_stored_filter_found(
    storage: StorageModel,
    height: u32,
    filter: Seq<u8>,
    now: u64,
    file_exists: bool,
    lookup: FilterLookup,
)
    requires
        filter.len() as u32 > 0,
        looked_up(with_stored_filter(storage, height, filter, now), height, file_exists, lookup),
    ensures
        lookup matches FilterLookup::Cached(found) && found@ == filter,
{
    let id = segment_of(storage.sync_base_height, height);
    let offset = offset_of(storage.sync_base_height, height) as usize;
    let after = with_stored_filter(storage, height, filter, now);
    assert(after.filter_data_segments[id].index[offset as int].length == filter.len() as u32);
}

/// Storing a compact filter does not change what is found at another height.
pub proof fn law_other_filters_unchanged(
    storage: StorageModel,
    height: u32,
    filter: Seq<u8>,
    now: u64,
    other: u32,
    file_exists: bool,
    lookup: FilterLookup,
)
    requires
        storage.filter_data_segments.contains_key(segment_of(storage.sync_base_height, height)),
        height != other,
    ensures
        looked_up(with_stored_filter(storage, height, filter, now), other, file_exists, lookup)
            <==> looked_up(storage, other, file_exists, lookup),
{
    let base = storage.sync_base_height;
    let id = segment_of(base, height);
    let offset = offset_of(base, height) as usize;
    let other_offset = offset_of(base, other) as usize;
    let before = storage.filter_data_segments[id];
    let after = with_stored_filter(storage, height, filter, now).filter_data_segments[id];
    law_places_differ(base, height, other);
    if segment_of(base, other) == id {
        assert(other_offset != offset);
        assert(has_filter(after.index, other_offset) == has_filter(before.index, other_offset));
        if has_filter(before.index, other_offset) {
            assert(after.index[other_offset as int] == before.index[other_offset as int]);
        }
    }
}

/// After all filters are gone from memory and disk, no compact filter and no filter header is
/// found: the filter headers are complete up to a tip that is not there.
pub proof fn law_cleared_filters_gone(
    cleared: StorageModel,
    store: FilterStore,
    height: u32,
    lookup: FilterLookup,
)
    requires
        cleared.filter_data_segments == Map::<u32, FilterDataModel>::empty(),
        looked_up(cleared, height, false, lookup),
        store.segments == Map::<u32, SegmentModel<FilterHeader>>::empty(),
        store.files == Map::<u32, Seq<u8>>::empty(),
    ensures
        lookup == FilterLookup::Absent,
        filled_to_tip(store.contents(), cleared.sync_base_height, None),
        fits(store.contents()),
        store.clean_on_disk(),
{
    assert forall|id: u32| (#[trigger] store.contents()[id]).len() == 0 by {
        let none = Seq::<FilterHeader>::empty();
        assert(on_disk(file_of(store.files, id), none));
        lemma_read_back(file_of(store.files, id), none);
    }
}

/// The filter tip is found again in the last segment, if the filter headers up to it are complete.
pub proof fn law_filter_tip_found_again(storage: StorageModel, store: FilterStore, tip: u32)
    requires
        tip >= storage.sync_base_height,
        tip < u32::MAX,
        filled_to_tip(store.contents(), storage.sync_base_height, Some(tip)),
        fits(store.contents()),
        store.segments == storage.filter_segments,
        store.segments.contains_key(segment_of(storage.sync_base_height, tip)),
    ensures
        with_filter_tip_of(
            storage,
            segment_of(storage.sync_base_height, tip),
        ).filter_tip == Some(tip),
{
    let base = storage.sync_base_height;
    let id = segment_of(base, tip);
    law_height_has_its_place(base, tip);
    assert(filter_header_at(store.contents(), base, tip) is Some);
    assert(store.contents()[id] == storage.filter_segments[id].headers);
    assert(store.contents()[id].len() <= HEADERS_PER_SEGMENT);
    if offset_of(base, tip) < HEADERS_PER_SEGMENT - 1 {
        let above = (tip + 1) as u32;
        law_height_has_its_place(base, above);
        assert(filter_header_at(store.contents(), base, above) is None);
        assert(segment_of(base, above) == id);
    }
}

} // verus!
