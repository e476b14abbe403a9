use dash_spv_storage::headers::{
    create_sentinel_header, BlockHash, BlockHeader, FilterHeader, Persistable,
};
use dash_spv_storage::io::{
    load_filter_headers_from_file, load_headers_from_file, save_filter_segment_to_disk,
    save_segment_to_disk,
};
use dash_spv_storage::segment_map::SegmentMap;
use dash_spv_storage::segments::{
    load_header_segments, save_header_segments, SegmentCache, SegmentState,
};
use dash_spv_storage::{HEADERS_PER_SEGMENT, MAX_ACTIVE_SEGMENTS};

fn block_header(n: u32) -> BlockHeader {
    BlockHeader {
        version: -2,
        prev_blockhash: BlockHash { bytes: [n as u8; 32] },
        merkle_root: [7; 32],
        time: 0x0102_0304,
        bits: 0x207f_ffff,
        nonce: n,
    }
}

fn filter_header(n: u8) -> FilterHeader {
    FilterHeader { bytes: [n; 32] }
}

#[test]
fn block_header_encoding() {
    let mut bytes = Vec::new();
    assert_eq!(block_header(5).persist(&mut bytes), 80);
    let mut expected = vec![0xFE, 0xFF, 0xFF, 0xFF];
    expected.extend_from_slice(&[5; 32]);
    expected.extend_from_slice(&[7; 32]);
    expected.extend_from_slice(&[4, 3, 2, 1]);
    expected.extend_from_slice(&[0xFF, 0xFF, 0x7F, 0x20]);
    expected.extend_from_slice(&[5, 0, 0, 0]);
    assert_eq!(bytes, expected);
    assert_eq!(BlockHeader::consensus_decode(&bytes, 0), Some(block_header(5)));
    assert_eq!(BlockHeader::consensus_decode(&bytes, 1), None);
}

#[test]
fn filter_header_encoding() {
    let mut bytes = vec![1];
    assert_eq!(filter_header(9).persist(&mut bytes), 32);
    assert_eq!(bytes.len(), 33);
    assert_eq!(FilterHeader::consensus_decode(&bytes, 1), Some(filter_header(9)));
}

#[test]
fn sentinel_fields() {
    let sentinel = create_sentinel_header();
    assert_eq!(sentinel.version, i32::MAX);
    assert_eq!(sentinel.prev_blockhash.bytes, [0xFF; 32]);
    assert_eq!(sentinel.merkle_root, [0xFF; 32]);
    assert_eq!(sentinel.time, u32::MAX);
    assert_eq!(sentinel.bits, 0xFFFF_FFFF);
    assert_eq!(sentinel.nonce, u32::MAX);
}

#[test]
fn sentinels_are_not_persisted() {
    let mut bytes = Vec::new();
    assert_eq!(create_sentinel_header().persist(&mut bytes), 0);
    assert!(bytes.is_empty());

    let mut no_sentinel = create_sentinel_header();
    no_sentinel.nonce = 0;
    assert_eq!(no_sentinel.persist(&mut bytes), 80);

    let mut other_root = create_sentinel_header();
    other_root.merkle_root = [0; 32];
    assert_eq!(other_root.persist(&mut bytes), 0);
}

#[test]
fn block_headers_round_trip_without_padding() {
    let headers =
        vec![block_header(1), create_sentinel_header(), block_header(2), create_sentinel_header()];
    let bytes = save_header_segments(&headers);
    assert_eq!(bytes.len(), 160);
    let loaded: Vec<BlockHeader> = load_header_segments(&bytes);
    assert_eq!(loaded, vec![block_header(1), block_header(2)]);
    assert_eq!(save_segment_to_disk(&headers), bytes);
    assert_eq!(load_headers_from_file(&bytes), loaded);
}

#[test]
fn filter_headers_round_trip() {
    let headers = vec![filter_header(1), filter_header(0), filter_header(0xFF)];
    let bytes = save_filter_segment_to_disk(&headers);
    assert_eq!(bytes.len(), 96);
    assert_eq!(load_filter_headers_from_file(&bytes), headers);
}

#[test]
fn a_rest_that_is_no_header_is_ignored() {
    let mut bytes = save_header_segments(&vec![filter_header(3)]);
    bytes.extend_from_slice(&[0; 31]);
    let loaded: Vec<FilterHeader> = load_header_segments(&bytes);
    assert_eq!(loaded, vec![filter_header(3)]);
    let none: Vec<BlockHeader> = load_header_segments(&bytes[..40]);
    assert!(none.is_empty());
}

#[test]
fn block_header_cache_is_padded() {
    let bytes = save_header_segments(&vec![block_header(1), block_header(2)]);
    let cache = SegmentCache::load_block_header_cache(3, Some(&bytes), 17);
    assert_eq!(cache.segment_id, 3);
    assert_eq!(cache.valid_count, 2);
    assert_eq!(cache.headers.len(), HEADERS_PER_SEGMENT as usize);
    assert_eq!(cache.headers[1], block_header(2));
    assert_eq!(cache.headers[2], create_sentinel_header());
    assert_eq!(cache.headers[49_999], create_sentinel_header());
    assert_eq!(cache.state, SegmentState::Clean);
    assert_eq!((cache.last_saved, cache.last_accessed), (17, 17));

    let empty = SegmentCache::load_block_header_cache(4, None, 17);
    assert_eq!(empty.valid_count, 0);
    assert_eq!(empty.headers[0], create_sentinel_header());
}

#[test]
fn filter_header_cache_is_not_padded() {
    let bytes = save_header_segments(&vec![filter_header(1), filter_header(2)]);
    let cache = SegmentCache::load_filter_header_cache(3, Some(&bytes), 17);
    assert_eq!(cache.headers, vec![filter_header(1), filter_header(2)]);
    assert_eq!(cache.valid_count, 2);
    let empty = SegmentCache::load_filter_header_cache(3, None, 17);
    assert!(empty.headers.is_empty());
    assert_eq!(empty.valid_count, 0);
    let three = SegmentCache::load_filter_header_cache(2, Some(&[1; 96]), 17);
    assert_eq!(three.valid_count, 3);
}

#[test]
fn a_segment_reloads_as_it_was_saved() {
    let bytes = save_header_segments(&vec![block_header(1), block_header(2)]);
    let cache = SegmentCache::load_block_header_cache(3, Some(&bytes), 1);
    let file = cache.save();
    assert_eq!(file.path, "headers/segment_0003.dat");
    assert_eq!(file.bytes, bytes);
    let again = SegmentCache::load_block_header_cache(3, Some(&file.bytes), 2);
    assert_eq!(again.headers, cache.headers);
    assert_eq!(again.valid_count, 2);
}

#[test]
fn eviction_saves_what_is_not_clean() {
    let mut cache = SegmentCache::new(8, vec![filter_header(4)], 0, 1);
    assert!(cache.evict().is_none());
    cache.state = SegmentState::Dirty;
    let file = cache.evict().unwrap();
    assert_eq!(file.path, "filters/filter_segment_0008.dat");
    assert_eq!(file.bytes, vec![4; 32]);
    cache.state = SegmentState::Saving;
    assert_eq!(cache.evict().unwrap().bytes, vec![4; 32]);
    let again = SegmentCache::load_filter_header_cache(8, Some(&file.bytes), 2);
    assert_eq!(again.headers, cache.headers);
}

#[test]
fn saving_marks_only_dirty_segments() {
    let mut map: SegmentMap<FilterHeader> = SegmentMap::new();
    for id in 0..3 {
        map.insert(SegmentCache::new(id, vec![filter_header(id as u8)], 0, 1));
    }
    let mut dirty = SegmentCache::new(3, vec![filter_header(3)], 0, 1);
    dirty.state = SegmentState::Dirty;
    map.insert(dirty);

    let to_save = map.process_segments(9);
    assert_eq!(to_save.len(), 1);
    assert_eq!(to_save[0].segment_id, 3);
    assert_eq!(to_save[0].state, SegmentState::Dirty);
    assert_eq!(to_save[0].headers, vec![filter_header(3)]);
    assert_eq!(map.get(3).unwrap().state, SegmentState::Saving);
    assert_eq!(map.get(3).unwrap().last_saved, 9);
    assert_eq!(map.get(0).unwrap().state, SegmentState::Clean);
    assert_eq!(map.get(0).unwrap().last_saved, 1);
    assert!(map.process_segments(10).is_empty());
}

#[test]
fn a_completed_save_cleans_unless_changed() {
    let mut map: SegmentMap<FilterHeader> = SegmentMap::new();
    let mut saving = SegmentCache::new(1, vec![], 0, 1);
    saving.state = SegmentState::Saving;
    map.insert(saving);
    let mut dirty = SegmentCache::new(2, vec![], 0, 1);
    dirty.state = SegmentState::Dirty;
    map.insert(dirty);

    map.save_completed(1);
    map.save_completed(2);
    map.save_completed(3);
    assert_eq!(map.get(1).unwrap().state, SegmentState::Clean);
    assert_eq!(map.get(2).unwrap().state, SegmentState::Dirty);
    assert!(!map.contains(3));
    assert_eq!(map.len(), 2);
}

#[test]
fn the_segment_not_used_for_longest_leaves() {
    let mut map: SegmentMap<FilterHeader> = SegmentMap::new();
    for id in 0..MAX_ACTIVE_SEGMENTS as u32 {
        assert!(map.eviction().is_none());
        let mut cache = SegmentCache::new(id, vec![filter_header(id as u8)], 0, 100);
        cache.last_accessed = if id == 6 { 3 } else { 50 + id as u64 };
        map.insert(cache);
    }
    let eviction = map.eviction().unwrap();
    assert_eq!(eviction.segment_id, 6);
    assert!(eviction.file.is_none());

    let mut leaving = map.remove(6).unwrap();
    leaving.state = SegmentState::Dirty;
    map.insert(leaving);
    let eviction = map.eviction().unwrap();
    assert_eq!(eviction.file.unwrap().bytes, vec![6; 32]);

    map.place(Some(6), SegmentCache::new(77, vec![], 0, 101));
    assert_eq!(map.len(), MAX_ACTIVE_SEGMENTS);
    assert!(map.contains(77));
    assert!(!map.contains(6));
    map.clear();
    assert_eq!(map.len(), 0);
}
