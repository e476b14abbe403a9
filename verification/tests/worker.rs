use dash_spv_storage::headers::{BlockHash, BlockHeader, FilterHeader};
use dash_spv_storage::index::HeaderHashIndex;
use dash_spv_storage::manager::DiskStorageManager;
use dash_spv_storage::segments::{SegmentCache, SegmentFile, SegmentState};
use dash_spv_storage::worker::{WorkerAction, WorkerCommand, WorkerNotification};

fn block_header() -> BlockHeader {
    BlockHeader {
        version: 1,
        prev_blockhash: BlockHash { bytes: [1; 32] },
        merkle_root: [2; 32],
        time: 3,
        bits: 4,
        nonce: 5,
    }
}

fn filter_cache(id: u32, state: SegmentState) -> SegmentCache<FilterHeader> {
    let mut cache = SegmentCache::new(id, vec![FilterHeader { bytes: [id as u8; 32] }], 0, 1);
    cache.state = state;
    cache
}

fn block_cache(id: u32, state: SegmentState) -> SegmentCache<BlockHeader> {
    let mut cache = SegmentCache::new(id, vec![block_header()], 1, 1);
    cache.state = state;
    cache
}

fn written(command: &WorkerCommand) -> SegmentFile {
    match command.action().unwrap() {
        WorkerAction::Write(file) => file,
        WorkerAction::Stop => panic!("the worker stopped"),
    }
}

#[test]
fn commands_write_their_files() {
    let file = written(&WorkerCommand::SaveBlockHeaderSegmentCache(block_cache(
        2,
        SegmentState::Dirty,
    )));
    assert_eq!(file.path, "headers/segment_0002.dat");
    assert_eq!(file.bytes.len(), 80);

    let file = written(&WorkerCommand::SaveFilterHeaderSegmentCache(filter_cache(
        3,
        SegmentState::Dirty,
    )));
    assert_eq!(file.path, "filters/filter_segment_0003.dat");
    assert_eq!(file.bytes, vec![3; 32]);

    let mut index = HeaderHashIndex::new();
    index.insert(BlockHash { bytes: [9; 32] }, 1);
    let file = written(&WorkerCommand::SaveIndex { index });
    assert_eq!(file.path, "headers/index.dat");
    assert_eq!(file.bytes.len(), 8 + 8 + 32 + 4);

    assert!(matches!(WorkerCommand::Shutdown.action(), Ok(WorkerAction::Stop)));
}

#[test]
fn only_successful_saves_are_reported() {
    let command = WorkerCommand::SaveFilterHeaderSegmentCache(filter_cache(3, SegmentState::Dirty));
    match command.notification(true) {
        Some(WorkerNotification::BlockFilterSegmentCacheSaved(cache)) => {
            assert_eq!(cache.segment_id, 3)
        }
        _ => panic!("the save was not reported"),
    }
    let command = WorkerCommand::SaveBlockHeaderSegmentCache(block_cache(4, SegmentState::Dirty));
    match command.notification(true) {
        Some(WorkerNotification::BlockHeaderSegmentCacheSaved(cache)) => {
            assert_eq!(cache.segment_id, 4)
        }
        _ => panic!("the save was not reported"),
    }
    let command = WorkerCommand::SaveIndex { index: HeaderHashIndex::new() };
    assert!(matches!(command.notification(true), Some(WorkerNotification::IndexSaved)));
    let command = WorkerCommand::SaveIndex { index: HeaderHashIndex::new() };
    assert!(command.notification(false).is_none());
    assert!(WorkerCommand::Shutdown.notification(true).is_none());
}

/// Carries out the commands of a queue. Saves to the given path fail.
fn carry_out(queue: Vec<WorkerCommand>, broken: &str) -> (Vec<String>, Vec<WorkerNotification>) {
    let mut files = Vec::new();
    let mut reports = Vec::new();
    for command in queue {
        let saved = match command.action().unwrap() {
            WorkerAction::Write(file) => {
                let saved = file.path != broken;
                if saved {
                    files.push(file.path);
                }
                saved
            }
            WorkerAction::Stop => break,
        };
        reports.extend(command.notification(saved));
    }
    (files, reports)
}

#[test]
fn a_queue_is_carried_out_in_order_up_to_the_shutdown() {
    let filter = |id| {
        WorkerCommand::SaveFilterHeaderSegmentCache(filter_cache(id, SegmentState::Dirty))
    };
    let queue = vec![
        filter(1),
        filter(2),
        WorkerCommand::SaveIndex { index: HeaderHashIndex::new() },
        filter(3),
        WorkerCommand::Shutdown,
        filter(4),
    ];
    let (files, reports) = carry_out(queue, "filters/filter_segment_0002.dat");
    assert_eq!(
        files,
        ["filters/filter_segment_0001.dat", "headers/index.dat", "filters/filter_segment_0003.dat"]
    );
    assert_eq!(reports.len(), 3);
    assert!(matches!(
        &reports[0],
        WorkerNotification::BlockFilterSegmentCacheSaved(cache) if cache.segment_id == 1
    ));
    assert!(matches!(&reports[1], WorkerNotification::IndexSaved));
    assert!(matches!(
        &reports[2],
        WorkerNotification::BlockFilterSegmentCacheSaved(cache) if cache.segment_id == 3
    ));
}

#[test]
fn the_worker_is_stopped_once() {
    let mut storage = DiskStorageManager::new();
    assert!(storage.stop_worker().is_none());
    storage.start_worker();
    assert!(matches!(storage.stop_worker(), Some(WorkerCommand::Shutdown)));
    assert!(storage.stop_worker().is_none());
}

#[test]
fn nothing_is_saved_without_a_worker() {
    let mut storage = DiskStorageManager::new();
    storage.place_filter_segment(None, filter_cache(1, SegmentState::Dirty));
    let batch = storage.save_dirty_segments_cache(5);
    assert!(batch.commands().is_empty());
    assert_eq!(storage.active_filter_segments.get(1).unwrap().state, SegmentState::Dirty);
}

#[test]
fn dirty_segments_and_the_index_are_handed_over() {
    let mut storage = DiskStorageManager::new();
    storage.start_worker();
    storage.place_segment(None, block_cache(0, SegmentState::Dirty));
    storage.place_segment(None, block_cache(1, SegmentState::Clean));
    storage.place_filter_segment(None, filter_cache(2, SegmentState::Dirty));
    storage.place_filter_segment(None, filter_cache(3, SegmentState::Saving));
    storage.header_hash_index.insert(BlockHash { bytes: [9; 32] }, 1);

    let commands = storage.save_dirty_segments_cache(5).commands();
    assert_eq!(commands.len(), 3);
    match &commands[0] {
        WorkerCommand::SaveBlockHeaderSegmentCache(cache) => assert_eq!(cache.segment_id, 0),
        _ => panic!("the block headers are not saved first"),
    }
    match &commands[1] {
        WorkerCommand::SaveFilterHeaderSegmentCache(cache) => {
            assert_eq!(cache.segment_id, 2);
            assert_eq!(cache.headers[0].bytes, [2; 32]);
        }
        _ => panic!("the filter headers are not saved second"),
    }
    match &commands[2] {
        WorkerCommand::SaveIndex { index } => assert_eq!(index.len(), 1),
        _ => panic!("the index is not saved last"),
    }
    assert_eq!(storage.last_index_save_count, 1);
    let segment = storage.active_segments.get(0).unwrap();
    assert_eq!((segment.state, segment.last_saved), (SegmentState::Saving, 5));
    assert_eq!(storage.active_segments.get(1).unwrap().state, SegmentState::Clean);
    assert!(storage.save_dirty_segments_cache(6).commands().is_empty());
}

#[test]
fn the_index_is_saved_after_ten_thousand_new_entries() {
    let mut storage = DiskStorageManager::new();
    storage.start_worker();
    let insert = |storage: &mut DiskStorageManager, n: u32| {
        let mut bytes = [0; 32];
        bytes[..4].copy_from_slice(&n.to_le_bytes());
        storage.header_hash_index.insert(BlockHash { bytes }, n);
    };
    insert(&mut storage, 0);
    assert!(storage.save_dirty_segments_cache(1).index.is_some());
    for n in 1..10_000 {
        insert(&mut storage, n);
    }
    assert!(storage.save_dirty_segments_cache(2).index.is_none());
    assert_eq!(storage.last_index_save_count, 1);
    insert(&mut storage, 10_000);
    assert_eq!(storage.save_dirty_segments_cache(3).index.unwrap().len(), 10_001);
    assert_eq!(storage.last_index_save_count, 10_001);
}

#[test]
fn an_empty_index_counts_as_never_saved() {
    let mut storage = DiskStorageManager::new();
    storage.start_worker();
    assert_eq!(storage.save_dirty_segments_cache(1).index.unwrap().len(), 0);
    assert!(storage.save_dirty_segments_cache(2).index.is_some());
}

#[test]
fn notifications_clean_segments_that_did_not_change() {
    let mut storage = DiskStorageManager::new();
    storage.place_segment(None, block_cache(0, SegmentState::Saving));
    storage.place_segment(None, block_cache(1, SegmentState::Dirty));
    storage.place_filter_segment(None, filter_cache(0, SegmentState::Saving));
    storage.process_worker_notifications(&vec![
        WorkerNotification::IndexSaved,
        WorkerNotification::BlockHeaderSegmentCacheSaved(block_cache(0, SegmentState::Dirty)),
        WorkerNotification::BlockHeaderSegmentCacheSaved(block_cache(1, SegmentState::Dirty)),
        WorkerNotification::BlockHeaderSegmentCacheSaved(block_cache(7, SegmentState::Dirty)),
    ]);
    assert_eq!(storage.active_segments.get(0).unwrap().state, SegmentState::Clean);
    assert_eq!(storage.active_segments.get(1).unwrap().state, SegmentState::Dirty);
    assert!(storage.active_segments.get(7).is_none());
    assert_eq!(storage.active_filter_segments.get(0).unwrap().state, SegmentState::Saving);
    storage.process_worker_notifications(&vec![WorkerNotification::BlockFilterSegmentCacheSaved(
        filter_cache(0, SegmentState::Dirty),
    )]);
    assert_eq!(storage.active_filter_segments.get(0).unwrap().state, SegmentState::Clean);
}
