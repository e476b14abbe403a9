use dash_spv_storage::error::StorageError;
use dash_spv_storage::headers::{BlockHash, BlockHeader, FilterHeader};
use dash_spv_storage::index::HeaderHashIndex;
use dash_spv_storage::index_file::save_index_to_disk;
use dash_spv_storage::manager::DiskStorageManager;
use dash_spv_storage::metadata::{MetadataPlan, StorageDirectory};
use dash_spv_storage::segments::{save_header_segments, SegmentCache};

fn names(list: &[&str]) -> Vec<String> {
    list.iter().map(|name| name.to_string()).collect()
}

fn hash(n: u8) -> BlockHash {
    BlockHash { bytes: [n; 32] }
}

fn block_headers(count: usize) -> Vec<BlockHeader> {
    vec![
        BlockHeader {
            version: 1,
            prev_blockhash: hash(1),
            merkle_root: [2; 32],
            time: 3,
            bits: 4,
            nonce: 5,
        };
        count
    ]
}

fn plan(tip: Option<u32>, filter_tip: Option<u32>) -> MetadataPlan {
    MetadataPlan { rebuild: vec![], tip_segment: tip, filter_tip_segment: filter_tip }
}

#[test]
fn directories_and_their_errors() {
    assert_eq!(StorageDirectory::Base.relative_path(), "");
    assert_eq!(StorageDirectory::Headers.relative_path(), "headers");
    assert_eq!(StorageDirectory::Filters.relative_path(), "filters");
    assert_eq!(StorageDirectory::State.relative_path(), "state");
    let text = |directory: StorageDirectory| match directory.creation_error("full") {
        StorageError::WriteFailed(text) => text,
        StorageError::ReadFailed(_) => panic!("nothing was read"),
    };
    assert_eq!(text(StorageDirectory::Base), "Failed to create directory: full");
    assert_eq!(text(StorageDirectory::Headers), "Failed to create headers directory: full");
    assert_eq!(text(StorageDirectory::Filters), "Failed to create filters directory: full");
    assert_eq!(text(StorageDirectory::State), "Failed to create state directory: full");
}

#[test]
fn a_plan_sorts_segments_and_finds_the_last() {
    let headers = names(&[
        "segment_0002.dat",
        "index.dat",
        "segment_0000.dat",
        "segment_0010.dat",
        ".segment_0011.dat.1.2.tmp",
        "segment_0001.dat",
    ]);
    let filters = names(&["filter_segment_0001.dat", "filter_segment_0000.dat"]);
    let made = MetadataPlan::new(false, Some(&headers), Some(&filters));
    assert_eq!(made.rebuild, vec![0, 1, 2, 10]);
    assert_eq!(made.tip_segment, Some(10));
    assert_eq!(made.filter_tip_segment, Some(1));

    let made = MetadataPlan::new(true, Some(&headers), None);
    assert!(made.rebuild.is_empty());
    assert_eq!(made.tip_segment, Some(10));
    assert_eq!(made.filter_tip_segment, None);
}

#[test]
fn a_segment_that_occurs_twice_is_read_twice() {
    let headers = names(&["segment_10001.dat", "segment_0500.dat", "segment_1000.dat"]);
    let made = MetadataPlan::new(false, Some(&headers), None);
    assert_eq!(made.rebuild, vec![500, 1000, 1000]);
}

#[test]
fn there_is_nothing_to_read_without_files() {
    let filters = names(&["filter_segment_0001.dat"]);
    let made = MetadataPlan::new(false, None, Some(&filters));
    assert!(made.rebuild.is_empty());
    assert_eq!((made.tip_segment, made.filter_tip_segment), (None, None));
    let made = MetadataPlan::new(false, Some(&vec![]), Some(&vec![]));
    assert!(made.rebuild.is_empty());
    assert_eq!((made.tip_segment, made.filter_tip_segment), (None, None));
}

#[test]
fn an_index_file_is_taken_in() {
    let mut index = HeaderHashIndex::new();
    index.insert(hash(7), 70);
    let bytes = save_index_to_disk(&index).unwrap();
    let mut storage = DiskStorageManager::new();
    assert!(!storage.load_index(None));
    assert!(!storage.load_index(Some(&bytes[..20])));
    assert_eq!(storage.header_hash_index.len(), 0);
    assert!(storage.load_index(Some(&bytes)));
    assert_eq!(storage.header_hash_index.get(&hash(7)), Some(70));
}

#[test]
fn the_index_is_rebuilt_from_segments() {
    let mut storage = DiskStorageManager::new();
    let rebuild =
        MetadataPlan { rebuild: vec![0, 1, 2], tip_segment: None, filter_tip_segment: None };
    let segments = vec![Some(vec![hash(1), hash(2)]), None, Some(vec![hash(3), hash(1)])];
    storage.load_segment_metadata(&rebuild, &segments, Some(700_000), None, None);
    assert_eq!(storage.header_hash_index.len(), 3);
    assert_eq!(storage.header_hash_index.get(&hash(2)), Some(700_001));
    assert_eq!(storage.header_hash_index.get(&hash(3)), Some(800_000));
    assert_eq!(storage.header_hash_index.get(&hash(1)), Some(800_001));

    let mut storage = DiskStorageManager::new();
    storage.load_segment_metadata(&rebuild, &segments, None, None, None);
    assert_eq!(storage.header_hash_index.get(&hash(2)), Some(1));

    let mut storage = DiskStorageManager::new();
    storage.restore_sync_base_height(Some(600_000));
    storage.load_segment_metadata(&rebuild, &segments, None, None, None);
    assert_eq!(storage.header_hash_index.get(&hash(2)), Some(1));
    assert_eq!(storage.header_hash_index.get(&hash(3)), Some(100_000));
    assert_eq!(storage.sync_base_height, 600_000);
}

#[test]
fn tips_come_from_the_last_segments() {
    let blocks = save_header_segments(&block_headers(3));
    let filters = save_header_segments(&vec![FilterHeader { bytes: [1; 32] }; 5]);
    let mut storage = DiskStorageManager::new();
    storage.load_segment_metadata(
        &plan(Some(2), Some(1)),
        &vec![],
        None,
        Some(SegmentCache::load_block_header_cache(2, Some(&blocks), 1)),
        Some(SegmentCache::load_filter_header_cache(1, Some(&filters), 1)),
    );
    assert_eq!(storage.cached_tip_height, Some(100_002));
    assert_eq!(storage.get_filter_tip_height(), Some(50_004));
    assert!(storage.active_segments.contains(2));
    assert!(storage.active_filter_segments.contains(1));
}

#[test]
fn the_filter_tip_counts_from_the_base_height() {
    let filters = save_header_segments(&vec![FilterHeader { bytes: [1; 32] }; 3]);
    assert_eq!(filters.len(), 96);
    let mut storage = DiskStorageManager::new();
    storage.load_segment_metadata(
        &plan(None, Some(0)),
        &vec![],
        Some(1000),
        None,
        Some(SegmentCache::load_filter_header_cache(0, Some(&filters), 1)),
    );
    assert_eq!(storage.sync_base_height, 1000);
    assert_eq!(storage.get_filter_tip_height(), Some(1002));
    assert_eq!(storage.cached_tip_height, None);
}

#[test]
fn the_base_height_is_restored() {
    let mut storage = DiskStorageManager::new();
    storage.restore_sync_base_height(None);
    assert_eq!(storage.sync_base_height, 0);
    storage.restore_sync_base_height(Some(600_000));
    assert_eq!(storage.sync_base_height, 600_000);
    storage.restore_sync_base_height(None);
    assert_eq!(storage.sync_base_height, 600_000);
}
