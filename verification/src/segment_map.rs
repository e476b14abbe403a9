//! The segments that are kept in memory.

use std::collections::HashMap;

use vstd::prelude::*;
use vstd::std_specs::iter::IteratorSpec;

use crate::headers::Persistable;
use crate::segments::{file_bytes, SegmentCache, SegmentFile, SegmentModel, SegmentState};
use crate::MAX_ACTIVE_SEGMENTS;

verus! {

broadcast use vstd::std_specs::hash::group_hash_axioms;

/// Segments in memory, each under its number.
#[derive(Debug)]
pub struct SegmentMap<H: Persistable> {
    pub segments: HashMap<u32, SegmentCache<H>>,
}

impl<H: Persistable> View for SegmentMap<H> {
    type V = Map<u32, SegmentModel<H>>;

    open spec fn view(&self) -> Map<u32, SegmentModel<H>> {
        self.segments@.map_values(|cache: SegmentCache<H>| cache@)
    }
}

/// Whether each segment stands under its own number.
pub open spec fn keyed_by_id<H>(segments: Map<u32, SegmentModel<H>>) -> bool {
    forall|id: u32| #[trigger] segments.contains_key(id) ==> segments[id].segment_id == id
}

/// What the caches of a list hold.
pub open spec fn models<H: Persistable>(caches: Seq<SegmentCache<H>>) -> Seq<SegmentModel<H>> {
    caches.map_values(|cache: SegmentCache<H>| cache@)
}

/// Whether a list holds exactly the dirty segments, each once.
pub open spec fn lists_dirty<H>(
    list: Seq<SegmentModel<H>>,
    segments: Map<u32, SegmentModel<H>>,
) -> bool {
    &&& forall|i: int|
        0 <= i < list.len() ==> {
            &&& segments.contains_key((#[trigger] list[i]).segment_id)
            &&& segments[list[i].segment_id] == list[i]
            &&& list[i].state == SegmentState::Dirty
        }
    &&& forall|i: int, j: int|
        0 <= i < j < list.len() ==> (#[trigger] list[i]).segment_id != (
        #[trigger] list[j]).segment_id
    &&& forall|id: u32| #[trigger]
        segments.contains_key(id) && segments[id].state == SegmentState::Dirty
            ==> list.contains(segments[id])
}

/// The segments after the dirty ones were handed to the background worker.
pub open spec fn with_saves_started<H>(
    segments: Map<u32, SegmentModel<H>>,
    now: u64,
) -> Map<u32, SegmentModel<H>> {
    segments.map_values(
        |segment: SegmentModel<H>|
            if segment.state == SegmentState::Dirty {
                SegmentModel { state: SegmentState::Saving, last_saved: now, ..segment }
            } else {
                segment
            },
    )
}

/// The segments after the background worker reported a segment as saved: one that was being
/// saved is clean, unless it has changed in the meantime.
pub open spec fn with_save_completed<H>(
    segments: Map<u32, SegmentModel<H>>,
    segment_id: u32,
) -> Map<u32, SegmentModel<H>> {
    if segments.contains_key(segment_id) && segments[segment_id].state == SegmentState::Saving {
        segments.insert(
            segment_id,
            SegmentModel { state: SegmentState::Clean, ..segments[segment_id] },
        )
    } else {
        segments
    }
}

/// Whether no segment was accessed before the given one.
pub open spec fn least_recently_accessed<H>(
    segments: Map<u32, SegmentModel<H>>,
    segment_id: u32,
) -> bool {
    &&& segments.contains_key(segment_id)
    &&& forall|id: u32| #[trigger]
        segments.contains_key(id) ==> segments[segment_id].last_accessed
            <= segments[id].last_accessed
}

/// The segments after one came into memory, in place of the one that left.
pub open spec fn with_placed<H>(
    segments: Map<u32, SegmentModel<H>>,
    evicted: Option<u32>,
    segment: SegmentModel<H>,
) -> Map<u32, SegmentModel<H>> {
    match evicted {
        Some(id) => segments.remove(id),
        None => segments,
    }.insert(segment.segment_id, segment)
}

/// A segment that leaves memory.
#[derive(Debug)]
pub struct Eviction {
    pub segment_id: u32,
    /// The file that has to be written first.
    pub file: Option<SegmentFile>,
}

impl<H: Persistable> SegmentMap<H> {
    /// No segments.
    pub fn new() -> (map: Self)
        ensures
            map@ == Map::<u32, SegmentModel<H>>::empty(),
    {
        let map = SegmentMap { segments: HashMap::new() };
        assert(map@ =~= Map::<u32, SegmentModel<H>>::empty());
        map
    }

    /// Number of segments.
    pub fn len(&self) -> (len: usize)
        ensures
            len == self@.dom().len(),
    {
        assert(self@.dom() =~= self.segments@.dom());
        self.segments.len()
    }

    /// Whether a segment is in memory.
    pub fn contains(&self, segment_id: u32) -> (contains: bool)
        ensures
            contains == self@.contains_key(segment_id),
    {
        self.segments.contains_key(&segment_id)
    }

    /// A segment, if it is in memory.
    pub fn get(&self, segment_id: u32) -> (segment: Option<&SegmentCache<H>>)
        ensures
            match segment {
                Some(cache) => self@.contains_key(segment_id) && cache@ == self@[segment_id],
                None => !self@.contains_key(segment_id),
            },
    {
        self.segments.get(&segment_id)
    }

    /// Puts a segment under its number.
    pub fn insert(&mut self, cache: SegmentCache<H>)
        ensures
            final(self)@ == old(self)@.insert(cache.segment_id, cache@),
    {
        let id: u32 = cache.segment_id;
        self.segments.insert(id, cache);
        assert(self@ =~= old(self)@.insert(id, cache@));
    }

    /// Takes a segment out of memory.
    pub fn remove(&mut self, segment_id: u32) -> (segment: Option<SegmentCache<H>>)
        ensures
            final(self)@ == old(self)@.remove(segment_id),
            match segment {
                Some(cache) => old(self)@.contains_key(segment_id) && cache@ == old(
                    self,
                )@[segment_id],
                None => !old(self)@.contains_key(segment_id),
            },
    {
        let segment = self.segments.remove(&segment_id);
        assert(self@ =~= old(self)@.remove(segment_id));
        segment
    }

    /// Drops all segments.
    pub fn clear(&mut self)
        ensures
            final(self)@ == Map::<u32, SegmentModel<H>>::empty(),
    {
        self.segments.clear();
        assert(self@ =~= Map::<u32, SegmentModel<H>>::empty());
    }

    /// The numbers of all segments, in no particular order.
    pub fn ids(&self) -> (ids: Vec<u32>)
        ensures
            ids@.to_set() == self@.dom(),
            ids@.no_duplicates(),
    {
        let mut ids: Vec<u32> = Vec::new();
        let ghost keys = self.segments.keys().remaining();
        for id in it: self.segments.keys()
            invariant
                it.seq() == keys,
                ids@ == it.seq().take(it.index() as int).unref(),
        {
            ids.push(*id);
            assert(ids@ =~= it.seq().take(it.index() + 1).unref());
        }
        assert(ids@ =~= keys.unref());
        assert(self@.dom() =~= self.segments@.dom());
        ids
    }

    /// Copies the dirty segments for the background worker and marks them as being saved.
    pub fn process_segments(&mut self, now: u64) -> (to_save: Vec<SegmentCache<H>>)
        requires
            keyed_by_id(old(self)@),
        ensures
            lists_dirty(models(to_save@), old(self)@),
            final(self)@ == with_saves_started(old(self)@, now),
    {
        let ids = self.ids();
        let mut to_save: Vec<SegmentCache<H>> = Vec::new();
        let mut i: usize = 0;
        let ghost before = self@;
        while i < ids.len()
            invariant
                i <= ids.len(),
                ids@.no_duplicates(),
                ids@.to_set() == before.dom(),
                keyed_by_id(before),
                self@.dom() == before.dom(),
                forall|j: int|
                    0 <= j < i ==> self@[#[trigger] ids@[j]] == with_saves_started(
                        before,
                        now,
                    )[ids@[j]],
                forall|j: int|
                    i <= j < ids@.len() ==> self@[#[trigger] ids@[j]] == before[ids@[j]],
                forall|k: int|
                    0 <= k < to_save@.len() ==> {
                        &&& before.contains_key((#[trigger] to_save@[k])@.segment_id)
                        &&& before[to_save@[k]@.segment_id] == to_save@[k]@
                        &&& to_save@[k]@.state == SegmentState::Dirty
                        &&& ids@.take(i as int).contains(to_save@[k]@.segment_id)
                    },
                forall|k: int, l: int|
                    0 <= k < l < to_save@.len() ==> (#[trigger] to_save@[k])@.segment_id != (
                    #[trigger] to_save@[l])@.segment_id,
                forall|j: int|
                    0 <= j < i && before[#[trigger] ids@[j]].state == SegmentState::Dirty
                        ==> models(to_save@).contains(before[ids@[j]]),
            decreases ids.len() - i,
        {
            let id: u32 = ids[i];
            let ghost saved_before = to_save@;
            assert(ids@.to_set().contains(id));
            assert(!ids@.take(i as int).contains(id));
            if let Some(mut segment) = self.remove(id) {
                if segment.state == SegmentState::Dirty {
                    to_save.push(segment.clone());
                    segment.state = SegmentState::Saving;
                    segment.last_saved = now;
                    assert(models(to_save@).last() == before[id]);
                }
                self.insert(segment);
            }
            i += 1;
            proof {
                assert(self@.dom() =~= before.dom());
                assert(ids@.take(i as int).last() == id);
                assert(ids@.take(i as int).drop_last() =~= ids@.take(i - 1));
                assert forall|k: int| 0 <= k < saved_before.len() implies ids@.take(
                    i as int,
                ).contains((#[trigger] saved_before[k])@.segment_id) by {
                    let seen = ids@.take(i - 1);
                    let w = choose|w: int|
                        0 <= w < seen.len() && seen[w] == saved_before[k]@.segment_id;
                    assert(ids@.take(i as int)[w] == saved_before[k]@.segment_id);
                }
                assert forall|j: int|
                    0 <= j < i && before[#[trigger] ids@[j]].state
                        == SegmentState::Dirty implies models(to_save@).contains(
                    before[ids@[j]],
                ) by {
                    if j < i - 1 {
                        let w = choose|w: int|
                            0 <= w < models(saved_before).len() && models(saved_before)[w]
                                == before[ids@[j]];
                        assert(models(to_save@)[w] == before[ids@[j]]);
                    }
                }
            }
        }
        proof {
            assert(self@ =~= with_saves_started(before, now)) by {
                assert forall|id: u32| #[trigger] before.contains_key(id) implies self@[id]
                    == with_saves_started(before, now)[id] by {
                    assert(ids@.to_set().contains(id));
                    let j = choose|j: int| 0 <= j < ids@.len() && ids@[j] == id;
                    assert(self@[ids@[j]] == with_saves_started(before, now)[ids@[j]]);
                }
            }
            assert forall|id: u32| #[trigger]
                before.contains_key(id) && before[id].state
                    == SegmentState::Dirty implies models(to_save@).contains(before[id]) by {
                assert(ids@.to_set().contains(id));
                let j = choose|j: int| 0 <= j < ids@.len() && ids@[j] == id;
                assert(before[ids@[j]].state == SegmentState::Dirty);
            }
        }
        to_save
    }

    /// Notes that the background worker has saved a segment.
    pub fn save_completed(&mut self, segment_id: u32)
        requires
            keyed_by_id(old(self)@),
        ensures
            final(self)@ == with_save_completed(old(self)@, segment_id),
    {
        if let Some(mut segment) = self.remove(segment_id) {
            if segment.state == SegmentState::Saving {
                segment.state = SegmentState::Clean;
            }
            self.insert(segment);
        }
        assert(self@ =~= with_save_completed(old(self)@, segment_id));
    }

    /// The segment that was not accessed for the longest time, if there is no room for another.
    fn eviction_candidate(&self) -> (segment_id: Option<u32>)
        ensures
            match segment_id {
                Some(id) => self@.dom().len() >= MAX_ACTIVE_SEGMENTS && least_recently_accessed(
                    self@,
                    id,
                ),
                None => self@.dom().len() < MAX_ACTIVE_SEGMENTS,
            },
    {
        if self.len() < MAX_ACTIVE_SEGMENTS {
            return None;
        }
        let ids = self.ids();
        let mut oldest: u32 = 0;
        let mut oldest_access: u64 = 0;
        let mut found: bool = false;
        let mut i: usize = 0;
        while i < ids.len()
            invariant
                i <= ids.len(),
                ids@.to_set() == self@.dom(),
                found == (i > 0),
                found ==> self@.contains_key(oldest) && self@[oldest].last_accessed
                    == oldest_access,
                forall|j: int|
                    0 <= j < i ==> oldest_access <= self@[#[trigger] ids@[j]].last_accessed,
            decreases ids.len() - i,
        {
            let id: u32 = ids[i];
            assert(ids@.to_set().contains(id));
            if let Some(segment) = self.get(id) {
                if !found || segment.last_accessed < oldest_access {
                    oldest = id;
                    oldest_access = segment.last_accessed;
                    found = true;
                }
            }
            i += 1;
        }
        proof {
            if ids@.len() == 0 {
                assert(self@.dom() =~= Set::empty());
            }
            assert forall|id: u32| #[trigger] self@.contains_key(id) implies oldest_access
                <= self@[id].last_accessed by {
                assert(ids@.to_set().contains(id));
                let j = choose|j: int| 0 <= j < ids@.len() && ids@[j] == id;
                assert(oldest_access <= self@[ids@[j]].last_accessed);
            }
        }
        Some(oldest)
    }

    /// The segment that has to leave memory before another one comes in, and the file to write
    /// before it does, if there is no room.
    pub fn eviction(&self) -> (eviction: Option<Eviction>)
        requires
            keyed_by_id(self@),
        ensures
            match eviction {
                Some(e) => {
                    &&& self@.dom().len() >= MAX_ACTIVE_SEGMENTS
                    &&& least_recently_accessed(self@, e.segment_id)
                    &&& if self@[e.segment_id].state == SegmentState::Clean {
                        e.file is None
                    } else {
                        e.file matches Some(file) && file.path@ == H::disk_path(e.segment_id)
                            && file.bytes@ == file_bytes(self@[e.segment_id].headers)
                    }
                },
                None => self@.dom().len() < MAX_ACTIVE_SEGMENTS,
            },
    {
        match self.eviction_candidate() {
            Some(segment_id) => match self.get(segment_id) {
                Some(segment) => Some(Eviction { segment_id, file: segment.evict() }),
                None => None,
            },
            None => None,
        }
    }

    /// Takes a segment that was loaded into memory, in place of the one that left.
    pub fn place(&mut self, evicted: Option<u32>, cache: SegmentCache<H>)
        requires
            old(self)@.dom().len() <= MAX_ACTIVE_SEGMENTS,
            match evicted {
                Some(id) => old(self)@.contains_key(id),
                None => old(self)@.dom().len() < MAX_ACTIVE_SEGMENTS,
            },
        ensures
            final(self)@ == with_placed(old(self)@, evicted, cache@),
            final(self)@.dom().len() <= MAX_ACTIVE_SEGMENTS,
    {
        assert(self@.dom() =~= self.segments@.dom());
        if let Some(id) = evicted {
            self.remove(id);
        }
        self.insert(cache);
    }
}

/// A segment that has changed since its save began stays dirty when the save completes, and the
/// headers of all segments stay as they are: no change is taken for saved.
pub proof fn law_changes_stay_dirty<H>(
    segments: Map<u32, SegmentModel<H>>,
    saved_id: u32,
    segment_id: u32,
)
    requires
        segments.contains_key(segment_id),
    ensures
        ({
            let after = with_save_completed(segments, saved_id);
            &&& after.dom() == segments.dom()
            &&& after[segment_id].headers == segments[segment_id].headers
            &&& segments[segment_id].state == SegmentState::Dirty ==> after[segment_id]
                == segments[segment_id]
            &&& after[segment_id].state == SegmentState::Clean && segments[segment_id].state
                != SegmentState::Clean ==> segment_id == saved_id && segments[segment_id].state
                == SegmentState::Saving
        }),
{
    let after = with_save_completed(segments, saved_id);
    assert(after.dom() =~= segments.dom());
}

/// Handing changes to the background worker leaves no dirty segment and keeps all headers.
pub proof fn law_no_dirty_segment_left<H>(
    segments: Map<u32, SegmentModel<H>>,
    now: u64,
    segment_id: u32,
)
    requires
        segments.contains_key(segment_id),
    ensures
        ({
            let after = with_saves_started(segments, now);
            &&& after.dom() == segments.dom()
            &&& after[segment_id].headers == segments[segment_id].headers
            &&& after[segment_id].state != SegmentState::Dirty
        }),
{
    assert(with_saves_started(segments, now).dom() =~= segments.dom());
}

} // verus!
