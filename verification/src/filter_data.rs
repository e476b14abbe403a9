//! Segments of compact filters.

use std::collections::HashMap;

use vstd::prelude::*;
use vstd::string::*;

use crate::encoding::{
    le_u32, le_u64, lemma_le_u32_injective, lemma_le_u64_injective, read_u32, read_u64,
};
use crate::error::{StorageError, StorageResult};
use crate::segments::{padded, SegmentState};

verus! {

broadcast use vstd::std_specs::hash::group_hash_axioms;

/// Where the data of a compact filter is in its segment. A filter that is not there has no length.
#[derive(Clone, Copy, Debug, PartialEq, Eq)]
pub struct FilterDataIndexEntry {
    pub offset: u64,
    pub length: u32,
}

/// The entry of a filter that is not there.
pub open spec fn no_filter() -> FilterDataIndexEntry {
    FilterDataIndexEntry { offset: 0, length: 0 }
}

impl Default for FilterDataIndexEntry {
    fn default() -> (entry: Self)
        ensures
            entry == no_filter(),
    {
        FilterDataIndexEntry { offset: 0, length: 0 }
    }
}

/// The bytes of an entry.
pub open spec fn entry_bytes(entry: FilterDataIndexEntry) -> Seq<u8> {
    le_u64(entry.offset) + le_u32(entry.length)
}

/// Whether a segment's file begins with an index: the number of entries, and the entries one after
/// the other.
pub open spec fn begins_with_index(content: Seq<u8>, index: Seq<FilterDataIndexEntry>) -> bool {
    &&& 8 + 12 * index.len() <= content.len()
    &&& le_u64(index.len() as u64) == content.subrange(0, 8)
    &&& forall|i: int|
        0 <= i < index.len() ==> entry_bytes(#[trigger] index[i]) == content.subrange(
            8 + 12 * i,
            20 + 12 * i,
        )
}

/// Whether a segment's file begins with no index.
pub open spec fn has_no_index(content: Seq<u8>) -> bool {
    forall|index: Seq<FilterDataIndexEntry>| !#[trigger] begins_with_index(content, index)
}

/// What a segment's file tells of its compact filters.
#[derive(Debug)]
pub struct FilterDataFile {
    pub index: Vec<FilterDataIndexEntry>,
    /// Where the data begins, behind the index.
    pub data_offset: u64,
    /// Number of bytes of the data.
    pub data_size: u64,
}

/// Decodes the index of a segment's file.
pub fn load_filter_data_index(content: &[u8]) -> (result: StorageResult<FilterDataFile>)
    ensures
        match result {
            Ok(file) => {
                &&& begins_with_index(content@, file.index@)
                &&& file.data_offset == 8 + 12 * file.index@.len()
                &&& file.data_offset + file.data_size == content@.len()
            },
            Err(error) => {
                &&& error matches StorageError::ReadFailed(text)
                &&& text@ == "Filter index is cut short"@
                &&& has_no_index(content@)
            },
        },
{
    let len: u64 = content.len() as u64;
    if len >= 8 {
        let count: u64 = read_u64(content, 0);
        if count <= (len - 8) / 12 {
            let mut index: Vec<FilterDataIndexEntry> = Vec::new();
            let mut at: usize = 8;
            while index.len() < count as usize
                invariant
                    content.len() == len,
                    8 + 12 * count <= len,
                    index@.len() <= count,
                    at == 8 + 12 * index@.len(),
                    forall|i: int|
                        0 <= i < index@.len() ==> entry_bytes(#[trigger] index@[i])
                            == content@.subrange(8 + 12 * i, 20 + 12 * i),
                decreases count - index@.len(),
            {
                let entry = FilterDataIndexEntry {
                    offset: read_u64(content, at),
                    length: read_u32(content, at + 8),
                };
                assert(entry_bytes(entry) =~= content@.subrange(at as int, at + 12));
                index.push(entry);
                at += 12;
            }
            let data_offset: u64 = 8 + 12 * count;
            return Ok(FilterDataFile { index, data_offset, data_size: len - data_offset });
        }
        proof {
            assert forall|index: Seq<FilterDataIndexEntry>| !#[trigger] begins_with_index(
                content@,
                index,
            ) by {
                if begins_with_index(content@, index) {
                    lemma_le_u64_injective(index.len() as u64, count);
                }
            }
        }
    }
    Err(StorageError::ReadFailed("Filter index is cut short".to_owned()))
}

/// A file determines the index that is read from it.
pub proof fn law_filter_index_unique(
    content: Seq<u8>,
    a: Seq<FilterDataIndexEntry>,
    b: Seq<FilterDataIndexEntry>,
)
    requires
        content.len() <= u64::MAX,
        begins_with_index(content, a),
        begins_with_index(content, b),
    ensures
        a == b,
{
    lemma_le_u64_injective(a.len() as u64, b.len() as u64);
    assert forall|i: int| 0 <= i < a.len() implies a[i] == b[i] by {
        let bytes = content.subrange(8 + 12 * i, 20 + 12 * i);
        assert(entry_bytes(a[i]) == bytes && entry_bytes(b[i]) == bytes);
        assert(le_u64(a[i].offset) =~= bytes.subrange(0, 8));
        assert(le_u64(b[i].offset) =~= bytes.subrange(0, 8));
        assert(le_u32(a[i].length) =~= bytes.subrange(8, 12));
        assert(le_u32(b[i].length) =~= bytes.subrange(8, 12));
        lemma_le_u64_injective(a[i].offset, b[i].offset);
        lemma_le_u32_injective(a[i].length, b[i].length);
    }
    assert(a =~= b);
}

/// In-memory cache for a segment of compact filters.
#[derive(Debug)]
pub struct FilterDataSegment {
    pub segment_id: u32,
    /// Where each filter of the segment is.
    pub index: Vec<FilterDataIndexEntry>,
    /// The filters whose data is in memory, under their offsets in the segment.
    pub filters: HashMap<usize, Vec<u8>>,
    /// Number of bytes of all data of the segment.
    pub current_data_size: u64,
    /// Where the data begins in the segment's file.
    pub file_data_offset: u64,
    /// Number of filters that are there.
    pub filter_count: usize,
    pub state: SegmentState,
    pub last_accessed: u64,
}

/// What a [`FilterDataSegment`] holds.
#[verifier::ext_equal]
pub struct FilterDataModel {
    pub segment_id: u32,
    pub index: Seq<FilterDataIndexEntry>,
    pub filters: Map<usize, Seq<u8>>,
    pub current_data_size: u64,
    pub file_data_offset: u64,
    pub filter_count: nat,
    pub state: SegmentState,
    pub last_accessed: u64,
}

impl View for FilterDataSegment {
    type V = FilterDataModel;

    open spec fn view(&self) -> FilterDataModel {
        FilterDataModel {
            segment_id: self.segment_id,
            index: self.index@,
            filters: self.filters@.map_values(|filter: Vec<u8>| filter@),
            current_data_size: self.current_data_size,
            file_data_offset: self.file_data_offset,
            filter_count: self.filter_count as nat,
            state: self.state,
            last_accessed: self.last_accessed,
        }
    }
}

/// Number of filters that are there.
pub open spec fn count_filters(index: Seq<FilterDataIndexEntry>) -> nat
    decreases index.len(),
{
    if index.len() == 0 {
        0
    } else {
        count_filters(index.drop_last()) + if index.last().length > 0 {
            1nat
        } else {
            0nat
        }
    }
}

/// Whether an index has a filter.
pub open spec fn has_filter(index: Seq<FilterDataIndexEntry>, offset: usize) -> bool {
    offset < index.len() && index[offset as int].length > 0
}

/// The index of a segment after a filter was stored at its end.
pub open spec fn index_with_filter(
    segment: FilterDataModel,
    offset: usize,
    length: u32,
) -> Seq<FilterDataIndexEntry> {
    padded(segment.index, offset as nat + 1, no_filter()).update(
        offset as int,
        FilterDataIndexEntry { offset: segment.current_data_size, length },
    )
}

/// A segment after a filter was stored in it.
pub open spec fn with_filter(
    segment: FilterDataModel,
    offset: usize,
    filter: Seq<u8>,
    now: u64,
) -> FilterDataModel {
    let index = index_with_filter(segment, offset, filter.len() as u32);
    FilterDataModel {
        index,
        filters: segment.filters.insert(offset, filter),
        current_data_size: (segment.current_data_size + filter.len()) as u64,
        filter_count: count_filters(index),
        state: SegmentState::Dirty,
        last_accessed: now,
        ..segment
    }
}

/// What is known of a filter before its segment's file is read.
#[derive(Debug)]
pub enum FilterLookup {
    /// The filter.
    Cached(Vec<u8>),
    /// The filter is not in the cache, and its data is in the segment's file.
    ReadData { offset: u64, data_offset: u64, length: u32 },
    /// The index in the segment's file tells.
    ReadIndex,
    /// There is no such filter.
    Absent,
}

fn count_stored(index: &Vec<FilterDataIndexEntry>) -> (count: usize)
    ensures
        count == count_filters(index@),
{
    let mut count: usize = 0;
    let mut i: usize = 0;
    while i < index.len()
        invariant
            i <= index.len(),
            count <= i,
            count == count_filters(index@.take(i as int)),
        decreases index.len() - i,
    {
        if index[i].length > 0 {
            count += 1;
        }
        i += 1;
        assert(index@.take(i as int).drop_last() =~= index@.take(i - 1));
    }
    assert(index@.take(i as int) =~= index@);
    count
}

/// Looks a filter up in the index of its segment's file.
pub fn find_in_file(
    index: &Vec<FilterDataIndexEntry>,
    data_offset: u64,
    offset: usize,
) -> (lookup: FilterLookup)
    ensures
        lookup == if has_filter(index@, offset) {
            FilterLookup::ReadData {
                offset: index@[offset as int].offset,
                data_offset,
                length: index@[offset as int].length,
            }
        } else {
            FilterLookup::Absent
        },
{
    if offset < index.len() && index[offset].length > 0 {
        FilterLookup::ReadData {
            offset: index[offset].offset,
            data_offset,
            length: index[offset].length,
        }
    } else {
        FilterLookup::Absent
    }
}

impl FilterDataSegment {
    /// A segment with the filters of its file, none of them in memory. Without a file, the index
    /// and the sizes are empty.
    pub fn new(
        segment_id: u32,
        index: Vec<FilterDataIndexEntry>,
        current_data_size: u64,
        file_data_offset: u64,
        now: u64,
    ) -> (segment: Self)
        ensures
            segment@ == (FilterDataModel {
                segment_id,
                index: index@,
                filters: Map::empty(),
                current_data_size,
                file_data_offset,
                filter_count: count_filters(index@),
                state: SegmentState::Clean,
                last_accessed: now,
            }),
    {
        let filter_count: usize = count_stored(&index);
        let segment = FilterDataSegment {
            segment_id,
            index,
            filters: HashMap::new(),
            current_data_size,
            file_data_offset,
            filter_count,
            state: SegmentState::Clean,
            last_accessed: now,
        };
        assert(segment@.filters =~= Map::empty());
        segment
    }

    /// Stores a filter behind the data of the segment.
    pub fn store(&mut self, offset: usize, filter: &[u8], now: u64)
        requires
            offset < usize::MAX,
            old(self).current_data_size + filter@.len() <= u64::MAX,
        ensures
            final(self)@ == with_filter(old(self)@, offset, filter@, now),
    {
        while self.index.len() <= offset
            invariant
                offset < usize::MAX,
                self.index@.len() <= padded(old(self).index@, offset as nat + 1, no_filter()).len(),
                self.index@ == padded(old(self).index@, self.index@.len(), no_filter()),
                self.index@.len() >= old(self).index@.len(),
                *self == (FilterDataSegment { index: self.index, ..*old(self) }),
            decreases offset + 1 - self.index.len(),
        {
            let ghost before = self.index@;
            self.index.push(FilterDataIndexEntry::default());
            assert(self.index@ =~= padded(old(self).index@, before.len() + 1, no_filter()));
        }
        assert(self.index@ =~= padded(old(self).index@, offset as nat + 1, no_filter()));
        let data_offset: u64 = self.current_data_size;
        let length: u32 =
            #[verifier::truncate]
            (filter.len() as u32);
        self.index.set(offset, FilterDataIndexEntry { offset: data_offset, length });
        let data: Vec<u8> = vstd::slice::slice_to_vec(filter);
        self.filters.insert(offset, data);
        self.current_data_size = self.current_data_size + filter.len() as u64;
        self.filter_count = count_stored(&self.index);
        self.state = SegmentState::Dirty;
        self.last_accessed = now;
        assert(self@.filters =~= old(self)@.filters.insert(offset, filter@));
    }
}

} // verus!
