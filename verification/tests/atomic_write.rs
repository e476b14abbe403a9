use std::collections::BTreeMap;

use dash_spv_storage::atomic_write::AtomicWrite;
use dash_spv_storage::error::{StorageError, StorageResult};

/// The files of a write, and the step that fails.
struct Disk {
    target: Option<Vec<u8>>,
    temp: Option<Vec<u8>>,
    fails_at: &'static str,
    /// Whether the temporary file cannot be removed.
    stuck: bool,
}

impl Disk {
    fn new(target: Option<&[u8]>, fails_at: &'static str) -> Self {
        Disk { target: target.map(|t| t.to_vec()), temp: None, fails_at, stuck: false }
    }

    fn outcome(&self, step: &str) -> Result<(), String> {
        if !step.is_empty() && self.fails_at == step {
            Err("no luck".to_string())
        } else {
            Ok(())
        }
    }

    fn write(&mut self, has_parent: bool, data: &[u8]) -> StorageResult<()> {
        let mut write = AtomicWrite::begin(has_parent);
        loop {
            let outcome = match &write {
                AtomicWrite::CreateParent => self.outcome("create"),
                AtomicWrite::WriteTemp => {
                    let outcome = self.outcome("write");
                    let len = if outcome.is_ok() { data.len() } else { data.len() / 2 };
                    self.temp = Some(data[..len].to_vec());
                    outcome
                }
                AtomicWrite::SyncTemp => self.outcome("sync"),
                AtomicWrite::RemoveTemp(_) => {
                    let outcome = self.outcome(if self.stuck { self.fails_at } else { "" });
                    if outcome.is_ok() {
                        self.temp = None;
                    }
                    outcome
                }
                AtomicWrite::Rename => {
                    let outcome = self.outcome("rename");
                    if outcome.is_ok() {
                        self.target = self.temp.take();
                    }
                    outcome
                }
                AtomicWrite::Finished(_) => break,
            };
            write = write.next(outcome);
        }
        match write {
            AtomicWrite::Finished(result) => result,
            _ => unreachable!(),
        }
    }
}

fn failure(text: &str) -> StorageResult<()> {
    Err(StorageError::WriteFailed(text.to_string()))
}

#[test]
fn a_write_replaces_the_target() {
    let mut disk = Disk::new(Some(b"initial"), "");
    assert_eq!(disk.write(true, b"new content"), Ok(()));
    assert_eq!(disk.target.unwrap(), b"new content");
    assert!(disk.temp.is_none());
}

#[test]
fn a_write_creates_the_target() {
    let mut disk = Disk::new(None, "create");
    assert_eq!(disk.write(false, b"hello world"), Ok(()));
    assert_eq!(disk.target.unwrap(), b"hello world");
    assert!(disk.temp.is_none());
}

#[test]
fn a_directory_that_cannot_be_created_ends_the_write() {
    let mut disk = Disk::new(Some(b"original"), "create");
    assert_eq!(disk.write(true, b"data"), failure("Failed to create directory: no luck"));
    assert_eq!(disk.target.unwrap(), b"original");
    assert!(disk.temp.is_none());
}

#[test]
fn a_failed_write_leaves_the_target_and_no_temp_file() {
    for step in ["write", "sync"] {
        let mut disk = Disk::new(Some(b"original"), step);
        assert_eq!(disk.write(true, b"data"), failure("Failed to write temp file: no luck"));
        assert_eq!(disk.target.unwrap(), b"original");
        assert!(disk.temp.is_none());
    }
}

#[test]
fn a_failed_rename_leaves_the_target_and_no_temp_file() {
    let mut disk = Disk::new(Some(b"original"), "rename");
    assert_eq!(disk.write(true, b"data"), failure("Failed to rename temp file: no luck"));
    assert_eq!(disk.target.unwrap(), b"original");
    assert!(disk.temp.is_none());
}

#[test]
fn a_temp_file_that_cannot_be_removed_does_not_change_the_failure() {
    let mut disk = Disk::new(Some(b"original"), "rename");
    disk.stuck = true;
    assert_eq!(disk.write(true, b"data"), failure("Failed to rename temp file: no luck"));
    assert_eq!(disk.target.unwrap(), b"original");
    assert_eq!(disk.temp.unwrap(), b"data");
}

#[test]
fn a_finished_write_stays_finished() {
    let done = AtomicWrite::Finished(Ok(()));
    assert!(matches!(done.next(Err("late".to_string())), AtomicWrite::Finished(Ok(()))));
}

#[test]
fn other_files_are_left_alone() {
    for fails_at in ["", "rename"] {
        let before = BTreeMap::from([("d/a", b"a".to_vec()), ("d/b", b"b".to_vec())]);
        let mut files = before.clone();
        let mut write = AtomicWrite::begin(true);
        while !matches!(write, AtomicWrite::Finished(_)) {
            let mut outcome = Ok(());
            match &write {
                AtomicWrite::WriteTemp => {
                    files.insert("d/.a.1.2.tmp", b"new".to_vec());
                }
                AtomicWrite::RemoveTemp(_) => {
                    files.remove("d/.a.1.2.tmp");
                }
                AtomicWrite::Rename if fails_at == "rename" => {
                    outcome = Err("is a directory".to_string());
                }
                AtomicWrite::Rename => {
                    let data = files.remove("d/.a.1.2.tmp").unwrap();
                    files.insert("d/a", data);
                }
                _ => {}
            }
            write = write.next(outcome);
        }
        let mut expected = before;
        if fails_at.is_empty() {
            expected.insert("d/a", b"new".to_vec());
        }
        assert_eq!(files, expected);
    }
}
