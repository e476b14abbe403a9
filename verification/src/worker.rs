//! The background worker: what it is told to save, and what it reports.

use vstd::prelude::*;
use vstd::string::*;

use crate::error::StorageResult;
use crate::headers::{BlockHeader, FilterHeader, Persistable};
use crate::index::HeaderHashIndex;
use crate::index_file::{index_file_bytes, save_index_to_disk};
use crate::segments::{file_bytes, SegmentCache, SegmentFile};

verus! {

/// Commands for the background worker.
#[derive(Debug)]
pub enum WorkerCommand {
    SaveBlockHeaderSegmentCache(SegmentCache<BlockHeader>),
    SaveFilterHeaderSegmentCache(SegmentCache<FilterHeader>),
    SaveIndex { index: HeaderHashIndex },
    Shutdown,
}

/// Notifications from the background worker.
#[derive(Debug)]
pub enum WorkerNotification {
    BlockHeaderSegmentCacheSaved(SegmentCache<BlockHeader>),
    BlockFilterSegmentCacheSaved(SegmentCache<FilterHeader>),
    IndexSaved,
}

/// What the background worker does for a command.
#[derive(Debug)]
pub enum WorkerAction {
    /// Write a file.
    Write(SegmentFile),
    /// Take no more commands.
    Stop,
}

/// The path and the bytes of the file that a command saves, if it saves one.
pub open spec fn saved_file(command: WorkerCommand) -> Option<(Seq<char>, Seq<u8>)> {
    match command {
        WorkerCommand::SaveBlockHeaderSegmentCache(cache) => Some(
            (BlockHeader::disk_path(cache.segment_id), file_bytes(cache.headers@)),
        ),
        WorkerCommand::SaveFilterHeaderSegmentCache(cache) => Some(
            (FilterHeader::disk_path(cache.segment_id), file_bytes(cache.headers@)),
        ),
        WorkerCommand::SaveIndex { index } => Some(
            ("headers/index.dat"@, index_file_bytes(index.pairs())),
        ),
        WorkerCommand::Shutdown => None,
    }
}

/// The path of the file that a command saves.
pub open spec fn saved_path(command: WorkerCommand) -> Seq<char> {
    match saved_file(command) {
        Some((path, _)) => path,
        None => Seq::empty(),
    }
}

/// The report on a command whose file was saved.
pub open spec fn report(command: WorkerCommand) -> Option<WorkerNotification> {
    match command {
        WorkerCommand::SaveBlockHeaderSegmentCache(cache) => Some(
            WorkerNotification::BlockHeaderSegmentCacheSaved(cache),
        ),
        WorkerCommand::SaveFilterHeaderSegmentCache(cache) => Some(
            WorkerNotification::BlockFilterSegmentCacheSaved(cache),
        ),
        WorkerCommand::SaveIndex { .. } => Some(WorkerNotification::IndexSaved),
        WorkerCommand::Shutdown => None,
    }
}

impl WorkerCommand {
    /// What the worker does for the command.
    pub fn action(&self) -> (action: StorageResult<WorkerAction>)
        ensures
            action is Ok,
            match saved_file(*self) {
                Some((path, bytes)) => action->Ok_0 matches WorkerAction::Write(file) && file.path@
                    == path && file.bytes@ == bytes,
                None => action->Ok_0 == WorkerAction::Stop,
            },
    {
        match self {
            WorkerCommand::SaveBlockHeaderSegmentCache(cache) => Ok(
                WorkerAction::Write(cache.save()),
            ),
            WorkerCommand::SaveFilterHeaderSegmentCache(cache) => Ok(
                WorkerAction::Write(cache.save()),
            ),
            WorkerCommand::SaveIndex { index } => {
                let bytes = save_index_to_disk(index)?;
                Ok(
                    WorkerAction::Write(
                        SegmentFile { path: "headers/index.dat".to_owned(), bytes },
                    ),
                )
            },
            WorkerCommand::Shutdown => Ok(WorkerAction::Stop),
        }
    }

    /// What the worker reports once it is done with the command. Of a save that failed it reports
    /// nothing.
    pub fn notification(self, saved: bool) -> (notification: Option<WorkerNotification>)
        ensures
            notification == if saved {
                report(self)
            } else {
                None
            },
    {
        if !saved {
            return None;
        }
        match self {
            WorkerCommand::SaveBlockHeaderSegmentCache(cache) => Some(
                WorkerNotification::BlockHeaderSegmentCacheSaved(cache),
            ),
            WorkerCommand::SaveFilterHeaderSegmentCache(cache) => Some(
                WorkerNotification::BlockFilterSegmentCacheSaved(cache),
            ),
            WorkerCommand::SaveIndex { .. } => Some(WorkerNotification::IndexSaved),
            WorkerCommand::Shutdown => None,
        }
    }
}

/// The background worker: the files that it writes to, what it has reported, and whether it takes
/// no more commands.
#[verifier::ext_equal]
pub struct WorkerModel {
    pub files: Map<Seq<char>, Seq<u8>>,
    pub reported: Seq<WorkerNotification>,
    pub stopped: bool,
}

/// The worker after a command, whose file was saved or not. A save that fails leaves the file as it
/// was.
pub open spec fn after_command(
    worker: WorkerModel,
    command: WorkerCommand,
    saved: bool,
) -> WorkerModel {
    if worker.stopped {
        worker
    } else {
        match saved_file(command) {
            Some((path, bytes)) => if saved {
                WorkerModel {
                    files: worker.files.insert(path, bytes),
                    reported: worker.reported.push(report(command)->0),
                    stopped: false,
                }
            } else {
                worker
            },
            None => WorkerModel { stopped: true, ..worker },
        }
    }
}

/// The worker after the commands of a queue, taken one at a time and in order.
pub open spec fn after_queue(
    worker: WorkerModel,
    queue: Seq<WorkerCommand>,
    saved: spec_fn(int) -> bool,
) -> WorkerModel
    decreases queue.len(),
{
    if queue.len() == 0 {
        worker
    } else {
        after_command(
            after_queue(worker, queue.drop_last(), saved),
            queue.last(),
            saved(queue.len() - 1),
        )
    }
}

/// Whether a queue has no command to stop.
pub open spec fn never_stops(queue: Seq<WorkerCommand>) -> bool {
    forall|i: int| 0 <= i < queue.len() ==> #[trigger] queue[i] !is Shutdown
}

/// The reports on the commands of a queue whose files were saved, in order.
pub open spec fn reports(queue: Seq<WorkerCommand>, saved: spec_fn(int) -> bool) -> Seq<
    WorkerNotification,
>
    decreases queue.len(),
{
    if queue.len() == 0 {
        Seq::empty()
    } else {
        let before = reports(queue.drop_last(), saved);
        if saved(queue.len() - 1) {
            before.push(report(queue.last())->0)
        } else {
            before
        }
    }
}

/// What one command does to the model is what the worker does: it writes the file of
/// [`WorkerCommand::action`] and reports [`WorkerCommand::notification`].
pub proof fn law_worker_follows_commands(
    worker: WorkerModel,
    command: WorkerCommand,
    action: StorageResult<WorkerAction>,
    saved: bool,
    notification: Option<WorkerNotification>,
)
    requires
        !worker.stopped,
        call_ensures(WorkerCommand::action, (&command,), action),
        call_ensures(WorkerCommand::notification, (command, saved), notification),
    ensures
        ({
            let after = after_command(worker, command, saved);
            &&& after.stopped <==> action->Ok_0 is Stop
            &&& after.reported == match notification {
                Some(n) => worker.reported.push(n),
                None => worker.reported,
            }
            &&& after.files == match action->Ok_0 {
                WorkerAction::Write(file) if saved => worker.files.insert(file.path@, file.bytes@),
                _ => worker.files,
            }
        }),
{
}

/// Commands are carried out in order, with exactly one report for each command whose save
/// succeeded, in that order. A failed save is not reported and does not keep later commands from
/// running.
pub proof fn law_worker_reports_in_order(
    worker: WorkerModel,
    queue: Seq<WorkerCommand>,
    saved: spec_fn(int) -> bool,
)
    requires
        !worker.stopped,
        never_stops(queue),
    ensures
        after_queue(worker, queue, saved).reported == worker.reported + reports(queue, saved),
        !after_queue(worker, queue, saved).stopped,
    decreases queue.len(),
{
    if queue.len() > 0 {
        let front = queue.drop_last();
        assert(never_stops(front)) by {
            assert forall|i: int| 0 <= i < front.len() implies #[trigger] front[i] !is Shutdown by {
                assert(queue[i] !is Shutdown);
            }
        }
        law_worker_reports_in_order(worker, front, saved);
        assert(queue[queue.len() - 1] !is Shutdown);
    }
    assert(after_queue(worker, queue, saved).reported =~= worker.reported + reports(queue, saved));
}

/// Every command that was sent before the worker stops is carried out: the file of a save that
/// succeeded is there, unless a later one replaced it.
pub proof fn law_commands_are_carried_out(
    worker: WorkerModel,
    queue: Seq<WorkerCommand>,
    saved: spec_fn(int) -> bool,
    i: int,
)
    requires
        !worker.stopped,
        never_stops(queue),
        0 <= i < queue.len(),
        saved(i),
        forall|j: int|
            i < j < queue.len() && saved(j) ==> saved_path(#[trigger] queue[j]) != saved_path(
                queue[i],
            ),
    ensures
        ({
            let files = after_queue(worker, queue, saved).files;
            &&& files.contains_key(saved_path(queue[i]))
            &&& saved_file(queue[i]) == Some((saved_path(queue[i]), files[saved_path(queue[i])]))
        }),
    decreases queue.len(),
{
    let front = queue.drop_last();
    assert(never_stops(front)) by {
        assert forall|j: int| 0 <= j < front.len() implies #[trigger] front[j] !is Shutdown by {
            assert(queue[j] !is Shutdown);
        }
    }
    law_worker_reports_in_order(worker, front, saved);
    assert(queue[queue.len() - 1] !is Shutdown);
    if i < queue.len() - 1 {
        assert(front[i] == queue[i]);
        assert forall|j: int| i < j < front.len() && saved(j) implies saved_path(
            #[trigger] front[j],
        ) != saved_path(front[i]) by {
            assert(front[j] == queue[j]);
        }
        law_commands_are_carried_out(worker, front, saved, i);
    }
}

/// The worker stops at the command to stop, after all commands that were sent before it, and
/// carries out none that was sent after it.
pub proof fn law_nothing_runs_after_shutdown(
    worker: WorkerModel,
    sent: Seq<WorkerCommand>,
    later: Seq<WorkerCommand>,
    saved: spec_fn(int) -> bool,
)
    ensures
        after_queue(worker, sent.push(WorkerCommand::Shutdown) + later, saved) == (WorkerModel {
            stopped: true,
            ..after_queue(worker, sent, saved)
        }),
    decreases later.len(),
{
    let stopping = sent.push(WorkerCommand::Shutdown);
    if later.len() == 0 {
        assert(stopping + later =~= stopping);
        assert(stopping.drop_last() =~= sent);
    } else {
        law_nothing_runs_after_shutdown(worker, sent, later.drop_last(), saved);
        assert((stopping + later).drop_last() =~= stopping + later.drop_last());
    }
}

} // verus!
