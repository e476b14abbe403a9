use dash_spv_storage::error::StorageError;
use dash_spv_storage::filter_data::{
    load_filter_data_index, FilterDataIndexEntry, FilterDataSegment, FilterLookup,
};
use dash_spv_storage::filters::{ReadStep, StoreStep};
use dash_spv_storage::headers::FilterHeader;
use dash_spv_storage::manager::{DiskStorageManager, SaveBatch};
use dash_spv_storage::segments::{SegmentCache, SegmentState};
use dash_spv_storage::worker::WorkerCommand;
use dash_spv_storage::MAX_ACTIVE_SEGMENTS;

fn header(n: u32) -> FilterHeader {
    let mut bytes = [0x11; 32];
    bytes[..4].copy_from_slice(&n.to_le_bytes());
    FilterHeader { bytes }
}

fn headers(first: u32, count: u32) -> Vec<FilterHeader> {
    (first..first + count).map(header).collect()
}

fn zero() -> FilterHeader {
    FilterHeader { bytes: [0; 32] }
}

/// A storage whose segments leave memory to a list of files.
struct Storage {
    manager: DiskStorageManager,
    files: Vec<(u32, Vec<u8>)>,
    now: u64,
}

impl Storage {
    fn new(sync_base_height: u32) -> Self {
        let mut manager = DiskStorageManager::new();
        manager.start_worker();
        manager.restore_sync_base_height(Some(sync_base_height));
        Storage { manager, files: Vec::new(), now: 0 }
    }

    fn load(&mut self, id: u32) {
        self.now += 1;
        let file = self.files.iter().rev().find(|f| f.0 == id).map(|f| f.1.clone());
        let cache = SegmentCache::load_filter_header_cache(id, file.as_deref(), self.now);
        let eviction = self.manager.active_filter_segments.eviction();
        let evicted = eviction.as_ref().map(|e| e.segment_id);
        if let Some(eviction) = eviction {
            if let Some(file) = eviction.file {
                self.files.push((eviction.segment_id, file.bytes));
            }
        }
        self.manager.place_filter_segment(evicted, cache);
    }

    fn store(&mut self, run: &[FilterHeader]) -> Option<SaveBatch> {
        let mut cursor = self.manager.begin_filter_headers();
        loop {
            self.now += 1;
            match self.manager.store_filter_headers(run, &mut cursor, self.now) {
                StoreStep::NeedSegment(id) => self.load(id),
                StoreStep::Stored(batch) => return batch,
            }
        }
    }

    fn get(&mut self, height: u32) -> Option<FilterHeader> {
        loop {
            match self.manager.get_filter_header(height) {
                ReadStep::NeedSegment(id) => self.load(id),
                ReadStep::Ready(header) => return header,
            }
        }
    }

    fn range(&mut self, start: u32, end: u32) -> Vec<FilterHeader> {
        let range = start..end;
        let mut cursor = self.manager.begin_filter_range(&range);
        loop {
            match self.manager.load_filter_headers(&range, &mut cursor) {
                Some(id) => self.load(id),
                None => return cursor.headers,
            }
        }
    }
}

#[test]
fn segment_ids_and_offsets() {
    assert_eq!(DiskStorageManager::get_segment_id(0), 0);
    assert_eq!(DiskStorageManager::get_segment_id(49_999), 0);
    assert_eq!(DiskStorageManager::get_segment_id(50_000), 1);
    assert_eq!(DiskStorageManager::get_segment_id(u32::MAX), 85_899);
    assert_eq!(DiskStorageManager::get_segment_offset(49_999), 49_999);
    assert_eq!(DiskStorageManager::get_segment_offset(50_000), 0);
    assert_eq!(DiskStorageManager::get_segment_offset(u32::MAX), 17_295);
    assert_eq!(DiskStorageManager::get_filter_segment_id(100_001), 2);
    assert_eq!(DiskStorageManager::get_filter_segment_offset(100_001), 1);
}

#[test]
fn stored_filter_headers_are_read_back() {
    let mut storage = Storage::new(0);
    assert!(storage.store(&headers(0, 3)).is_none());
    assert_eq!(storage.manager.get_filter_tip_height(), Some(2));
    assert!(storage.store(&headers(3, 2)).is_none());
    assert_eq!(storage.manager.get_filter_tip_height(), Some(4));
    for height in 0..5 {
        assert_eq!(storage.get(height), Some(header(height)));
    }
    assert_eq!(storage.get(5), None);
    assert_eq!(storage.range(1, 4), headers(1, 3));
    let segment = storage.manager.active_filter_segments.get(0).unwrap();
    assert_eq!(segment.state, SegmentState::Dirty);
}

#[test]
fn filter_headers_cross_segments() {
    let mut storage = Storage::new(0);
    storage.store(&headers(0, 50_000));
    storage.store(&headers(50_000, 60_003));
    assert_eq!(storage.manager.get_filter_tip_height(), Some(110_002));
    assert_eq!(storage.get(49_999), Some(header(49_999)));
    assert_eq!(storage.get(50_000), Some(header(50_000)));
    assert_eq!(storage.get(100_000), Some(header(100_000)));
    assert_eq!(storage.range(49_998, 50_002), headers(49_998, 4));
    assert_eq!(storage.range(10, 110_003), headers(10, 109_993));
}

#[test]
fn segments_that_left_memory_come_back() {
    let mut storage = Storage::new(0);
    let mut next = 0;
    for _ in 0..MAX_ACTIVE_SEGMENTS + 2 {
        storage.store(&headers(next, 50_000));
        next += 50_000;
    }
    assert_eq!(storage.manager.active_filter_segments.len(), MAX_ACTIVE_SEGMENTS);
    assert!(!storage.manager.active_filter_segments.contains(0));
    assert_eq!(storage.get(7), Some(header(7)));
    assert_eq!(storage.manager.active_filter_segments.len(), MAX_ACTIVE_SEGMENTS);
    assert_eq!(storage.range(0, next), headers(0, next));
}

#[test]
fn a_checkpoint_is_where_storage_begins() {
    let mut storage = Storage::new(800_000);
    storage.store(&headers(0, 3));
    assert_eq!(storage.manager.get_filter_tip_height(), Some(800_002));
    assert_eq!(storage.get(800_001), Some(header(1)));
    assert_eq!(storage.get(799_999), None);
    assert_eq!(storage.get(1), None);
    assert_eq!(storage.get(800_003), None);
    assert_eq!(storage.range(800_001, 800_003), headers(1, 2));
    assert_eq!(storage.range(799_990, 800_002), headers(0, 2));
    assert!(storage.manager.active_filter_segments.contains(0));
}

#[test]
fn gaps_are_filled_with_zeros() {
    let mut storage = Storage::new(0);
    storage.manager.cached_filter_tip_height = Some(4);
    storage.store(&headers(5, 1));
    assert_eq!(storage.get(4), Some(zero()));
    assert_eq!(storage.get(5), Some(header(5)));
    let segment = storage.manager.active_filter_segments.get(0).unwrap();
    assert_eq!((segment.headers.len(), segment.valid_count), (6, 1));
    storage.store(&headers(6, 2));
    storage.manager.cached_filter_tip_height = Some(5);
    storage.store(&headers(6, 1));
    let segment = storage.manager.active_filter_segments.get(0).unwrap();
    assert_eq!((segment.headers.len(), segment.valid_count), (8, 3));
}

#[test]
fn changes_are_saved_every_thousand_filter_headers() {
    let mut storage = Storage::new(0);
    assert!(storage.store(&headers(0, 999)).is_none());
    let batch = storage.store(&headers(999, 1)).unwrap();
    assert_eq!(batch.filter_segments.len(), 1);
    assert_eq!(batch.filter_segments[0].headers, headers(0, 1000));
    let segment = storage.manager.active_filter_segments.get(0).unwrap();
    assert_eq!(segment.state, SegmentState::Saving);
    assert!(storage.store(&headers(1000, 1)).is_none());
    assert!(storage.store(&headers(1001, 1000)).is_some());
}

#[test]
fn storing_nothing_at_the_start() {
    let mut storage = Storage::new(0);
    assert!(storage.store(&[]).is_some());
    assert_eq!(storage.manager.get_filter_tip_height(), None);
    let mut storage = Storage::new(1001);
    assert!(storage.store(&[]).is_none());
    assert_eq!(storage.manager.get_filter_tip_height(), None);
    storage.store(&headers(0, 2));
    assert!(storage.store(&[]).is_none());
    assert_eq!(storage.manager.get_filter_tip_height(), Some(1002));
}

#[test]
fn empty_ranges_have_no_headers() {
    let mut storage = Storage::new(0);
    storage.store(&headers(0, 1));
    assert_eq!(storage.range(0, 0), vec![]);
    storage.store(&headers(1, 9));
    assert_eq!(storage.range(0, 0), vec![]);
    assert_eq!(storage.range(5, 5), vec![]);
    assert_eq!(storage.range(5, 3), vec![]);
    assert_eq!(storage.range(60_000, 10), vec![]);

    let mut storage = Storage::new(100);
    storage.store(&headers(0, 3));
    assert_eq!(storage.range(100, 100), vec![]);
    assert_eq!(storage.range(102, 101), vec![]);
}

#[test]
fn heights_below_the_checkpoint_have_no_headers() {
    let mut storage = Storage::new(100);
    storage.store(&headers(0, 3));
    assert_eq!(storage.range(0, 1), vec![]);
    assert_eq!(storage.range(0, 100), vec![]);
    assert_eq!(storage.range(0, 101), headers(0, 1));
    assert_eq!(storage.range(0, 103), headers(0, 3));
    assert_eq!(storage.get(0), None);
}

#[test]
fn headers_below_the_checkpoint_take_no_place_of_others() {
    let mut storage = Storage::new(100);
    storage.manager.cached_filter_tip_height = Some(97);
    storage.store(&headers(98, 4));
    assert_eq!(storage.manager.get_filter_tip_height(), Some(101));
    assert_eq!(storage.get(99), None);
    assert_eq!(storage.get(100), Some(header(100)));
    assert_eq!(storage.get(101), Some(header(101)));
    assert_eq!(storage.get(102), None);
    assert_eq!(storage.get(198), None);
    let segment = storage.manager.active_filter_segments.get(0).unwrap();
    assert_eq!((segment.headers.len(), segment.valid_count), (2, 2));
}

#[test]
fn ranges_beyond_the_tip() {
    let mut storage = Storage::new(0);
    storage.store(&headers(0, 10));
    assert_eq!(storage.range(8, 10), headers(8, 2));
    assert_eq!(storage.range(8, 11), vec![]);
    assert_eq!(storage.range(10, 12), vec![]);
}

#[test]
fn how_a_run_is_cut_does_not_matter() {
    let mut whole = Storage::new(700);
    whole.store(&headers(0, 60_000));
    let mut cut = Storage::new(700);
    cut.store(&headers(0, 0));
    cut.store(&headers(0, 49_999));
    for id in 20..20 + MAX_ACTIVE_SEGMENTS as u32 {
        cut.load(id);
    }
    cut.store(&headers(49_999, 2));
    cut.store(&headers(50_001, 9_999));
    assert_eq!(cut.manager.get_filter_tip_height(), whole.manager.get_filter_tip_height());
    assert_eq!(cut.range(700, 60_700), whole.range(700, 60_700));
    assert_eq!(cut.range(700, 60_700), headers(0, 60_000));
    assert_eq!(cut.get(60_700), None);
}

#[test]
fn compact_filters_are_stored_and_found() {
    let mut storage = Storage::new(0);
    let manager = &mut storage.manager;
    assert!(matches!(manager.store_filter(50_007, &[1, 2, 3], 1), StoreStep::NeedSegment(1)));
    assert_eq!(manager.get_filter_data_tip_height(), None);
    manager.place_filter_data_segment(FilterDataSegment::new(1, vec![], 0, 0, 1));
    assert!(matches!(manager.store_filter(50_007, &[1, 2, 3], 2), StoreStep::Stored(None)));
    assert!(matches!(manager.store_filter(50_005, &[4, 5], 3), StoreStep::Stored(None)));
    assert_eq!(manager.get_filter_data_tip_height(), Some(50_007));

    match manager.load_filter(50_007, true) {
        FilterLookup::Cached(filter) => assert_eq!(filter, vec![1, 2, 3]),
        _ => panic!("the filter is not in memory"),
    }
    match manager.load_filter(50_005, false) {
        FilterLookup::Cached(filter) => assert_eq!(filter, vec![4, 5]),
        _ => panic!("the filter is not in memory"),
    }
    let segment = &manager.active_filter_data_segments[&1];
    assert_eq!(segment.index.len(), 8);
    assert_eq!(segment.index[4], FilterDataIndexEntry { offset: 0, length: 0 });
    assert_eq!(segment.index[7], FilterDataIndexEntry { offset: 0, length: 3 });
    assert_eq!(segment.index[5], FilterDataIndexEntry { offset: 3, length: 2 });
    assert_eq!(segment.current_data_size, 5);
    assert_eq!(segment.filter_count, 2);
    assert_eq!(segment.state, SegmentState::Dirty);
    assert_eq!(segment.last_accessed, 3);
}

#[test]
fn compact_filters_are_relative_to_the_checkpoint() {
    let mut storage = Storage::new(700_000);
    let manager = &mut storage.manager;
    manager.place_filter_data_segment(FilterDataSegment::new(0, vec![], 0, 0, 1));
    assert!(matches!(manager.store_filter(700_001, &[9], 2), StoreStep::Stored(None)));
    assert!(matches!(manager.load_filter(700_001, true), FilterLookup::Cached(_)));
    assert_eq!(manager.filter_data_segment_of(700_001), 0);
    assert_eq!(manager.filter_data_segment_of(750_000), 1);
    assert_eq!(manager.filter_data_path(700_001), "filters/filter_data_segment_0000.seg");
    assert_eq!(manager.filter_data_path(699_999), "filters/filter_data_segment_85899.seg");
}

#[test]
fn compact_filters_below_the_checkpoint_take_no_place_of_others() {
    let mut storage = Storage::new(100);
    let manager = &mut storage.manager;
    manager.place_filter_data_segment(FilterDataSegment::new(0, vec![], 0, 0, 1));
    assert!(matches!(manager.store_filter(105, &[9], 2), StoreStep::Stored(None)));
    assert!(matches!(manager.load_filter(5, false), FilterLookup::Absent));
    assert!(matches!(manager.store_filter(5, &[7], 3), StoreStep::NeedSegment(85_899)));
    manager.place_filter_data_segment(FilterDataSegment::new(85_899, vec![], 0, 0, 1));
    assert!(matches!(manager.store_filter(5, &[7], 3), StoreStep::Stored(None)));
    for (height, data) in [(5, 7), (105, 9)] {
        match manager.load_filter(height, false) {
            FilterLookup::Cached(filter) => assert_eq!(filter, vec![data]),
            _ => panic!("the filter is not in memory"),
        }
    }
}

#[test]
fn changes_are_saved_at_every_hundredth_filter() {
    let mut storage = Storage::new(0);
    storage.store(&headers(0, 3));
    let manager = &mut storage.manager;
    manager.place_filter_data_segment(FilterDataSegment::new(0, vec![], 0, 0, 1));
    match manager.store_filter(200, &[1], 9) {
        StoreStep::Stored(Some(batch)) => assert_eq!(batch.filter_segments.len(), 1),
        _ => panic!("nothing was saved"),
    }
}

#[test]
fn an_empty_filter_is_not_found() {
    let mut storage = Storage::new(0);
    let manager = &mut storage.manager;
    manager.place_filter_data_segment(FilterDataSegment::new(0, vec![], 0, 0, 1));
    manager.store_filter(3, &[], 2);
    assert!(matches!(manager.load_filter(3, false), FilterLookup::Absent));
    assert_eq!(manager.active_filter_data_segments[&0].filter_count, 0);
}

#[test]
fn filters_on_disk_are_pointed_to() {
    let mut storage = Storage::new(0);
    let manager = &mut storage.manager;
    let index = vec![
        FilterDataIndexEntry { offset: 0, length: 4 },
        FilterDataIndexEntry::default(),
        FilterDataIndexEntry { offset: 4, length: 6 },
    ];
    assert!(matches!(manager.load_filter(2, true), FilterLookup::ReadIndex));
    assert!(matches!(manager.load_filter(2, false), FilterLookup::Absent));
    assert!(matches!(
        manager.load_filter_from_file(2, &index, 40),
        FilterLookup::ReadData { offset: 4, data_offset: 40, length: 6 }
    ));
    assert!(matches!(manager.load_filter_from_file(1, &index, 40), FilterLookup::Absent));
    assert!(matches!(manager.load_filter_from_file(3, &index, 40), FilterLookup::Absent));

    manager.place_filter_data_segment(FilterDataSegment::new(0, index, 10, 40, 1));
    assert_eq!(manager.active_filter_data_segments[&0].filter_count, 2);
    assert!(matches!(
        manager.load_filter(2, true),
        FilterLookup::ReadData { offset: 4, data_offset: 40, length: 6 }
    ));
    assert!(matches!(manager.load_filter(2, false), FilterLookup::Absent));
    assert!(matches!(manager.load_filter(1, true), FilterLookup::ReadIndex));
    manager.store_filter(1, &[7], 2);
    assert_eq!(
        manager.active_filter_data_segments[&0].index[1],
        FilterDataIndexEntry { offset: 10, length: 1 }
    );
}

#[test]
fn filter_index_of_a_file() {
    let mut content = vec![2, 0, 0, 0, 0, 0, 0, 0];
    content.extend_from_slice(&[1, 2, 0, 0, 0, 0, 0, 0, 3, 0, 0, 0]);
    content.extend_from_slice(&[4, 2, 0, 0, 0, 0, 0, 0, 5, 6, 0, 0]);
    content.extend_from_slice(&[9; 7]);
    let file = load_filter_data_index(&content).unwrap();
    assert_eq!(
        file.index,
        vec![
            FilterDataIndexEntry { offset: 0x201, length: 3 },
            FilterDataIndexEntry { offset: 0x204, length: 0x605 },
        ]
    );
    assert_eq!((file.data_offset, file.data_size), (32, 7));
    assert_eq!(load_filter_data_index(&[0; 8]).unwrap().index, vec![]);
}

#[test]
fn a_filter_index_that_is_cut_short() {
    let mut content = vec![2, 0, 0, 0, 0, 0, 0, 0];
    content.extend_from_slice(&[0; 23]);
    for bytes in [&content[..], &content[..7], &[][..], &[0xFF; 40][..]] {
        match load_filter_data_index(bytes) {
            Err(StorageError::ReadFailed(text)) => assert_eq!(text, "Filter index is cut short"),
            _ => panic!("a damaged index was read"),
        }
    }
}

#[test]
fn cleared_filters_are_gone() {
    let mut storage = Storage::new(0);
    storage.store(&headers(0, 1));
    storage.manager.place_filter_data_segment(FilterDataSegment::new(0, vec![], 0, 0, 1));
    storage.manager.store_filter(7, &[1], 1);
    assert_eq!(storage.manager.get_filter_data_tip_height(), Some(7));
    assert!(matches!(storage.manager.clear_filters(), Some(WorkerCommand::Shutdown)));
    assert!(!storage.manager.worker_running);
    assert_eq!(storage.manager.get_filter_tip_height(), None);
    assert_eq!(storage.manager.get_filter_data_tip_height(), None);
    assert_eq!(storage.get(0), None);
    assert!(matches!(storage.manager.load_filter(7, false), FilterLookup::Absent));
    assert!(storage.manager.clear_filters().is_none());
}

#[test]
fn a_filter_tip_is_found_again() {
    let mut storage = Storage::new(0);
    storage.store(&headers(0, 50_002));
    let file = storage.manager.active_filter_segments.get(1).unwrap().save();
    let cache = SegmentCache::load_filter_header_cache(1, Some(&file.bytes), 1);
    let names = vec!["filter_segment_0000.dat".to_string(), "filter_segment_0001.dat".to_string()];
    let plan =
        dash_spv_storage::metadata::MetadataPlan::new(true, Some(&vec![]), Some(&names));
    let mut reopened = DiskStorageManager::new();
    reopened.load_segment_metadata(&plan, &vec![], None, None, Some(cache));
    assert_eq!(reopened.get_filter_tip_height(), storage.manager.get_filter_tip_height());
}
