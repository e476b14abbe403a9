//! Atomic writes: a temporary file is written and synced, and then takes the target's name.

use vstd::prelude::*;
use vstd::string::*;

use crate::error::{StorageError, StorageResult};

verus! {

/// What an atomic write has to do next.
///
/// The caller performs the step and tells [`AtomicWrite::next`] how it went.
#[derive(Debug)]
pub enum AtomicWrite {
    /// Create the directory of the target.
    CreateParent,
    /// Write the data to the temporary file.
    WriteTemp,
    /// Sync the temporary file to disk.
    SyncTemp,
    /// Remove the temporary file, and then end with the given failure.
    RemoveTemp(String),
    /// Give the temporary file the target's name.
    Rename,
    /// Nothing, with this result.
    Finished(StorageResult<()>),
}

fn failure(what: &str, reason: &str) -> (text: String)
    ensures
        text@ == what@ + reason@,
{
    let mut text = what.to_owned();
    text.append(reason);
    text
}

impl AtomicWrite {
    /// Whether the write has ended with a failure that is described in this way.
    pub open spec fn failed_with(self, text: Seq<char>) -> bool {
        self matches AtomicWrite::Finished(result) && result matches Err(error) && error
            matches StorageError::WriteFailed(message) && message@ == text
    }

    /// Whether the write is about to clean up after a failure that is described in this way.
    pub open spec fn cleans_up_after(self, text: Seq<char>) -> bool {
        self matches AtomicWrite::RemoveTemp(message) && message@ == text
    }

    /// The first step of a write. A target without a directory needs none to be created.
    pub fn begin(has_parent: bool) -> (first: Self)
        ensures
            first == if has_parent {
                AtomicWrite::CreateParent
            } else {
                AtomicWrite::WriteTemp
            },
    {
        if has_parent {
            AtomicWrite::CreateParent
        } else {
            AtomicWrite::WriteTemp
        }
    }

    /// The step that follows this one, which succeeded or failed for the given reason.
    pub fn next(self, outcome: Result<(), String>) -> (following: Self)
        ensures
            match (self, outcome) {
                (AtomicWrite::CreateParent, Ok(_)) => following == AtomicWrite::WriteTemp,
                (AtomicWrite::CreateParent, Err(reason)) => following.failed_with(
                    "Failed to create directory: "@ + reason@,
                ),
                (AtomicWrite::WriteTemp, Ok(_)) => following == AtomicWrite::SyncTemp,
                (AtomicWrite::WriteTemp, Err(reason)) => following.cleans_up_after(
                    "Failed to write temp file: "@ + reason@,
                ),
                (AtomicWrite::SyncTemp, Ok(_)) => following == AtomicWrite::Rename,
                (AtomicWrite::SyncTemp, Err(reason)) => following.cleans_up_after(
                    "Failed to write temp file: "@ + reason@,
                ),
                (AtomicWrite::RemoveTemp(text), _) => following.failed_with(text@),
                (AtomicWrite::Rename, Ok(_)) => following == AtomicWrite::Finished(Ok(())),
                (AtomicWrite::Rename, Err(reason)) => following.cleans_up_after(
                    "Failed to rename temp file: "@ + reason@,
                ),
                (AtomicWrite::Finished(_), _) => following == self,
            },
    {
        match (self, outcome) {
            (AtomicWrite::CreateParent, Ok(_)) => AtomicWrite::WriteTemp,
            (AtomicWrite::CreateParent, Err(reason)) => AtomicWrite::Finished(
                Err(
                    StorageError::WriteFailed(
                        failure("Failed to create directory: ", reason.as_str()),
                    ),
                ),
            ),
            (AtomicWrite::WriteTemp, Ok(_)) => AtomicWrite::SyncTemp,
            (AtomicWrite::WriteTemp, Err(reason)) => AtomicWrite::RemoveTemp(
                failure("Failed to write temp file: ", reason.as_str()),
            ),
            (AtomicWrite::SyncTemp, Ok(_)) => AtomicWrite::Rename,
            (AtomicWrite::SyncTemp, Err(reason)) => AtomicWrite::RemoveTemp(
                failure("Failed to write temp file: ", reason.as_str()),
            ),
            (AtomicWrite::RemoveTemp(text), _) => AtomicWrite::Finished(
                Err(StorageError::WriteFailed(text)),
            ),
            (AtomicWrite::Rename, Ok(_)) => AtomicWrite::Finished(Ok(())),
            (AtomicWrite::Rename, Err(reason)) => AtomicWrite::RemoveTemp(
                failure("Failed to rename temp file: ", reason.as_str()),
            ),
            (AtomicWrite::Finished(result), _) => AtomicWrite::Finished(result),
        }
    }
}

/// A write goes on to the next step only after a step that succeeded: it renames only what was
/// written and synced, and succeeds only after the rename. Whatever fails once there may be a
/// temporary file is followed by its removal, and that by the end.
pub proof fn law_steps_follow_success(
    step: AtomicWrite,
    outcome: Result<(), String>,
    following: AtomicWrite,
    has_parent: bool,
    first: AtomicWrite,
)
    ensures
        call_ensures(AtomicWrite::begin, (has_parent,), first) ==> (first is CreateParent
            <==> has_parent) && (first is WriteTemp <==> !has_parent),
        call_ensures(AtomicWrite::next, (step, outcome), following) ==> {
            &&& !(following is CreateParent)
            &&& following is WriteTemp <==> step is CreateParent && outcome is Ok
            &&& following is SyncTemp <==> step is WriteTemp && outcome is Ok
            &&& following is Rename <==> step is SyncTemp && outcome is Ok
            &&& following is RemoveTemp <==> outcome is Err && (step is WriteTemp
                || step is SyncTemp || step is Rename)
            &&& following is Finished && following->Finished_0 is Ok <==> (step is Rename
                && outcome is Ok) || (step is Finished && step->Finished_0 is Ok)
        },
{
}

/// A write that fails tells which step failed and why, whether or not the temporary file could be
/// removed.
pub proof fn law_failures_are_told(
    step: AtomicWrite,
    reason: String,
    following: AtomicWrite,
    removal: Result<(), String>,
    last: AtomicWrite,
)
    requires
        call_ensures(AtomicWrite::next, (step, Err(reason)), following),
        call_ensures(AtomicWrite::next, (following, removal), last),
        !(step is Finished),
        !(step is RemoveTemp),
    ensures
        last matches AtomicWrite::Finished(Err(StorageError::WriteFailed(text))) && {
            let what = text@.take(text@.len() - reason@.len());
            &&& text@.len() >= reason@.len()
            &&& text@.skip(text@.len() - reason@.len()) == reason@
            &&& step is CreateParent ==> what == "Failed to create directory: "@
            &&& step is WriteTemp || step is SyncTemp ==> what == "Failed to write temp file: "@
            &&& step is Rename ==> what == "Failed to rename temp file: "@
        },
{
    let text = last->Finished_0->Err_0->WriteFailed_0@;
    let what = if step is CreateParent {
        "Failed to create directory: "@
    } else if step is Rename {
        "Failed to rename temp file: "@
    } else {
        "Failed to write temp file: "@
    };
    assert(text == what + reason@);
    assert(text.take(text.len() - reason@.len()) =~= what);
    assert(text.skip(text.len() - reason@.len()) =~= reason@);
}

/// A file system: the files with their contents, and the directories, under their paths.
#[verifier::ext_equal]
pub struct FileSystem {
    pub files: Map<Seq<char>, Seq<u8>>,
    pub directories: Set<Seq<char>>,
}

/// The paths of a write: the target, and the temporary file that takes its name.
pub struct WritePaths {
    pub target: Seq<char>,
    pub temp: Seq<char>,
}

/// The file at a path, if there is one.
pub open spec fn file_at(system: FileSystem, path: Seq<char>) -> Option<Seq<u8>> {
    if system.files.contains_key(path) {
        Some(system.files[path])
    } else {
        None
    }
}

/// Whether a path leads through a directory.
pub open spec fn is_ancestor(directory: Seq<char>, path: Seq<char>) -> bool {
    exists|i: int|
        0 <= i < path.len() && #[trigger] path[i] == '/' && directory == path.take(i)
}

/// Whether the directories are the same but for new ones that a path leads through.
pub open spec fn only_ancestors_created(
    before: FileSystem,
    after: FileSystem,
    path: Seq<char>,
) -> bool {
    &&& before.directories.subset_of(after.directories)
    &&& forall|directory: Seq<char>| #[trigger]
        after.directories.contains(directory) && !before.directories.contains(directory)
            ==> is_ancestor(directory, path)
}

/// What a step may do to the file system. Creating directories can stop halfway, a write that
/// fails can leave anything in the temporary file, and a removal that fails can leave it there.
pub open spec fn step_effect(
    step: AtomicWrite,
    succeeded: bool,
    paths: WritePaths,
    data: Seq<u8>,
    before: FileSystem,
    after: FileSystem,
) -> bool {
    match step {
        AtomicWrite::CreateParent => after.files == before.files && only_ancestors_created(
            before,
            after,
            paths.target,
        ),
        AtomicWrite::WriteTemp => {
            &&& after.directories == before.directories
            &&& after.files.remove(paths.temp) == before.files.remove(paths.temp)
            &&& succeeded ==> file_at(after, paths.temp) == Some(data)
        },
        AtomicWrite::RemoveTemp(_) => {
            &&& after.directories == before.directories
            &&& after.files.remove(paths.temp) == before.files.remove(paths.temp)
            &&& succeeded ==> file_at(after, paths.temp) is None
        },
        AtomicWrite::Rename => if succeeded {
            &&& after.directories == before.directories
            &&& before.files.contains_key(paths.temp)
            &&& after.files == before.files.remove(paths.temp).insert(
                paths.target,
                before.files[paths.temp],
            )
        } else {
            after == before
        },
        AtomicWrite::SyncTemp | AtomicWrite::Finished(_) => after == before,
    }
}

/// What holds of the file system before a step, against the one that the write began with: up to
/// the rename only the temporary file is new, and a write that succeeded has replaced the target
/// whole and left no temporary file.
pub open spec fn step_invariant(
    step: AtomicWrite,
    paths: WritePaths,
    data: Seq<u8>,
    start: FileSystem,
    system: FileSystem,
) -> bool {
    &&& only_ancestors_created(start, system, paths.target)
    &&& match step {
        AtomicWrite::CreateParent | AtomicWrite::WriteTemp => system.files == start.files,
        AtomicWrite::SyncTemp | AtomicWrite::Rename => system.files == start.files.insert(
            paths.temp,
            data,
        ),
        AtomicWrite::RemoveTemp(_) | AtomicWrite::Finished(Err(_)) => system.files.remove(
            paths.temp,
        ) == start.files,
        AtomicWrite::Finished(Ok(_)) => system.files == start.files.insert(paths.target, data),
    }
}

/// Each step of a write keeps [`step_invariant`], however it ends, and no write ends with a
/// temporary file in place unless its removal fails.
pub proof fn law_atomic_write(
    step: AtomicWrite,
    outcome: Result<(), String>,
    following: AtomicWrite,
    paths: WritePaths,
    data: Seq<u8>,
    start: FileSystem,
    before: FileSystem,
    after: FileSystem,
)
    requires
        call_ensures(AtomicWrite::next, (step, outcome), following),
        paths.temp != paths.target,
        !start.files.contains_key(paths.temp),
        step_invariant(step, paths, data, start, before),
        step_effect(step, outcome is Ok, paths, data, before, after),
    ensures
        step_invariant(following, paths, data, start, after),
        step !is Finished && following is Finished ==> file_at(after, paths.temp) is None || (
        step is RemoveTemp && outcome is Err),
{
    assert(start.files.remove(paths.temp) =~= start.files);
    assert(start.files.insert(paths.temp, data).remove(paths.temp) =~= start.files);
    if step is WriteTemp && outcome is Ok {
        let rest = after.files.remove(paths.temp);
        assert(after.files =~= rest.insert(paths.temp, data));
    }
}

/// A moment of a write: the step that comes next, and the file system before it.
pub struct WriteMoment {
    pub step: AtomicWrite,
    pub system: FileSystem,
}

/// Whether moments follow one another as the steps and their outcomes say, with a temporary file
/// that was not there before.
pub open spec fn is_write(
    moments: Seq<WriteMoment>,
    outcomes: Seq<Result<(), String>>,
    has_parent: bool,
    paths: WritePaths,
    data: Seq<u8>,
) -> bool {
    &&& moments.len() == outcomes.len() + 1
    &&& call_ensures(AtomicWrite::begin, (has_parent,), moments[0].step)
    &&& paths.temp != paths.target
    &&& !moments[0].system.files.contains_key(paths.temp)
    &&& forall|i: int|
        #![trigger outcomes[i]]
        0 <= i < outcomes.len() ==> {
            &&& moments[i].step !is Finished
            &&& call_ensures(
                AtomicWrite::next,
                (moments[i].step, outcomes[i]),
                moments[i + 1].step,
            )
            &&& step_effect(
                moments[i].step,
                outcomes[i] is Ok,
                paths,
                data,
                moments[i].system,
                moments[i + 1].system,
            )
        }
}

/// At every moment of a write the target holds its original contents or all of the new data, and
/// every file but the target and the temporary file is as it was. The only new directories are
/// missing ones that the target's path leads through.
///
/// A write that succeeded has changed the target alone, which holds the new data. A write that
/// failed is a write failure and has changed no file. No temporary file remains, unless its removal
/// failed.
pub proof fn law_write_is_atomic(
    moments: Seq<WriteMoment>,
    outcomes: Seq<Result<(), String>>,
    has_parent: bool,
    paths: WritePaths,
    data: Seq<u8>,
    i: int,
)
    requires
        is_write(moments, outcomes, has_parent, paths, data),
        0 <= i < moments.len(),
    ensures
        ({
            let start = moments[0].system;
            let system = moments[i].system;
            let original = file_at(start, paths.target);
            let target = file_at(system, paths.target);
            &&& target == original || target == Some(data)
            &&& forall|path: Seq<char>|
                path != paths.target && path != paths.temp ==> #[trigger] file_at(system, path)
                    == file_at(start, path)
            &&& only_ancestors_created(start, system, paths.target)
            &&& match moments[i].step {
                AtomicWrite::Finished(Ok(_)) => system.files == start.files.insert(
                    paths.target,
                    data,
                ),
                AtomicWrite::Finished(Err(error)) => {
                    &&& error is WriteFailed
                    &&& target == original
                    &&& system.files == start.files || (system.files.remove(paths.temp)
                        == start.files && moments[i - 1].step is RemoveTemp && outcomes[i
                        - 1] is Err)
                },
                _ => target == original,
            }
        }),
{
    let start = moments[0].system;
    let system = moments[i].system;
    lemma_write_invariant(moments, outcomes, has_parent, paths, data, i);
    if i > 0 {
        lemma_write_invariant(moments, outcomes, has_parent, paths, data, i - 1);
        assert(outcomes[i - 1] == outcomes[i - 1]);
        law_atomic_write(
            moments[i - 1].step,
            outcomes[i - 1],
            moments[i].step,
            paths,
            data,
            start,
            moments[i - 1].system,
            system,
        );
    }
    let rest = system.files.remove(paths.temp);
    assert forall|path: Seq<char>| path != paths.temp implies #[trigger] file_at(system, path) == (
    if rest.contains_key(path) {
        Some(rest[path])
    } else {
        None
    }) by {}
    assert(start.files.remove(paths.temp) =~= start.files);
    assert(start.files.insert(paths.temp, data).remove(paths.temp) =~= start.files);
    if file_at(system, paths.temp) is None {
        assert(rest =~= system.files);
    }
}

proof fn lemma_write_invariant(
    moments: Seq<WriteMoment>,
    outcomes: Seq<Result<(), String>>,
    has_parent: bool,
    paths: WritePaths,
    data: Seq<u8>,
    i: int,
)
    requires
        is_write(moments, outcomes, has_parent, paths, data),
        0 <= i < moments.len(),
    ensures
        step_invariant(moments[i].step, paths, data, moments[0].system, moments[i].system),
    decreases i,
{
    if i > 0 {
        lemma_write_invariant(moments, outcomes, has_parent, paths, data, i - 1);
        law_atomic_write(
            moments[i - 1].step,
            outcomes[i - 1],
            moments[i].step,
            paths,
            data,
            moments[0].system,
            moments[i - 1].system,
            moments[i].system,
        );
    }
}

} // verus!
