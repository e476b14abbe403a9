use dash_spv_storage::error::StorageError;
use dash_spv_storage::headers::BlockHash;
use dash_spv_storage::index::HeaderHashIndex;
use dash_spv_storage::index_file::{load_index_from_file, save_index_to_disk};

fn hash(n: u32) -> BlockHash {
    let mut bytes = [0xAA; 32];
    bytes[..4].copy_from_slice(&n.to_be_bytes());
    BlockHash { bytes }
}

/// A hash that begins like `hash(n)` and ends otherwise.
fn twin(n: u32) -> BlockHash {
    let mut other = hash(n);
    other.bytes[31] = 1;
    other
}

#[test]
fn index_finds_heights() {
    let mut index = HeaderHashIndex::new();
    assert_eq!(index.len(), 0);
    assert_eq!(index.get(&hash(1)), None);
    index.insert(hash(1), 10);
    index.insert(hash(2), 20);
    index.insert(twin(1), 30);
    assert_eq!(index.len(), 3);
    assert_eq!(index.get(&hash(1)), Some(10));
    assert_eq!(index.get(&twin(1)), Some(30));
    assert_eq!(index.get(&twin(2)), None);
}

#[test]
fn a_later_height_takes_the_place_of_an_earlier_one() {
    let mut index = HeaderHashIndex::new();
    index.insert(hash(1), 10);
    index.insert(hash(2), 20);
    index.insert(hash(1), 11);
    assert_eq!(index.len(), 2);
    assert_eq!(index.get(&hash(1)), Some(11));
    assert_eq!(index.get(&hash(2)), Some(20));
}

#[test]
fn segments_are_indexed_at_their_heights() {
    let mut index = HeaderHashIndex::new();
    index.index_segment(2, &vec![hash(0), hash(1)], 0);
    assert_eq!(index.get(&hash(0)), Some(100_000));
    assert_eq!(index.get(&hash(1)), Some(100_001));

    let mut index = HeaderHashIndex::new();
    index.index_segment(1, &vec![hash(0), hash(1)], 800_000);
    assert_eq!(index.get(&hash(1)), Some(850_001));
}

#[test]
fn a_copy_finds_the_same() {
    let mut index = HeaderHashIndex::new();
    index.insert(hash(1), 10);
    let copy = index.clone();
    index.insert(hash(1), 12);
    assert_eq!(copy.get(&hash(1)), Some(10));
    assert_eq!(copy.len(), 1);
}

#[test]
fn index_file_bytes() {
    let mut index = HeaderHashIndex::new();
    assert_eq!(save_index_to_disk(&index).unwrap(), vec![0; 8]);
    index.insert(hash(1), 0x0102_0304);
    let mut expected = vec![1, 0, 0, 0, 0, 0, 0, 0, 32, 0, 0, 0, 0, 0, 0, 0];
    expected.extend_from_slice(&hash(1).bytes);
    expected.extend_from_slice(&[4, 3, 2, 1]);
    assert_eq!(save_index_to_disk(&index).unwrap(), expected);
}

#[test]
fn index_round_trip() {
    let mut index = HeaderHashIndex::new();
    for n in 0..1000 {
        index.insert(hash(n), n * 3);
    }
    let bytes = save_index_to_disk(&index).unwrap();
    let loaded = load_index_from_file(&bytes).unwrap();
    assert_eq!(loaded.len(), 1000);
    for n in 0..1000 {
        assert_eq!(loaded.get(&hash(n)), Some(n * 3));
    }
    assert_eq!(loaded.get(&hash(1000)), None);
}

#[test]
fn bytes_behind_the_index_are_ignored() {
    let mut index = HeaderHashIndex::new();
    index.insert(hash(1), 5);
    let mut bytes = save_index_to_disk(&index).unwrap();
    bytes.extend_from_slice(b"rest");
    assert_eq!(load_index_from_file(&bytes).unwrap().get(&hash(1)), Some(5));
}

#[test]
fn the_last_of_two_entries_counts() {
    let mut index = HeaderHashIndex::new();
    index.insert(hash(1), 5);
    let one = save_index_to_disk(&index).unwrap();
    let mut bytes = one.clone();
    bytes[0] = 2;
    bytes.extend_from_slice(&one[8..]);
    let end = bytes.len();
    bytes[end - 4] = 6;
    let loaded = load_index_from_file(&bytes).unwrap();
    assert_eq!(loaded.len(), 1);
    assert_eq!(loaded.get(&hash(1)), Some(6));
}

#[test]
fn a_damaged_index_is_an_error() {
    let mut index = HeaderHashIndex::new();
    index.insert(hash(1), 5);
    let bytes = save_index_to_disk(&index).unwrap();
    for content in [&bytes[..0], &bytes[..7], &bytes[..bytes.len() - 1]] {
        match load_index_from_file(content) {
            Err(StorageError::ReadFailed(text)) => {
                assert!(text.starts_with("Failed to deserialize index: "), "{}", text)
            }
            _ => panic!("a damaged index was read"),
        }
    }
}

#[test]
fn a_hash_of_another_length_is_an_error() {
    let mut bytes = vec![1, 0, 0, 0, 0, 0, 0, 0, 31, 0, 0, 0, 0, 0, 0, 0];
    bytes.extend_from_slice(&[7; 31]);
    bytes.extend_from_slice(&[1, 0, 0, 0]);
    assert!(matches!(load_index_from_file(&bytes), Err(StorageError::ReadFailed(_))));
}
