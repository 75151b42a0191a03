//! Publishing a staged directory in place of an output directory, as a
//! state machine: a missing output is simply replaced by the staging
//! directory; an existing one is first moved aside to a reserved backup, the
//! staging directory is renamed into place, and the backup is removed only
//! once that rename succeeded. When it fails, the backup is renamed back.
//! The driver performs the renames and removals and reports their outcome.

use vstd::prelude::*;

verus! {

/// Why publishing failed.
#[derive(Clone, Debug, Eq, PartialEq)]
pub enum PublishError {
    /// There was no output, and the staging directory could not be renamed
    /// to it.
    PublishFailed,
    /// The existing output could not be moved aside to the backup.
    MoveAsideFailed { backup: String },
    /// The staging directory could not be renamed into place; the previous
    /// output was put back.
    Restored,
    /// The staging directory could not be renamed into place, and the
    /// previous output could not be put back either: it remains at `backup`.
    RestoreFailed { backup: String },
}

/// What the driver of a publication reports.
#[derive(Clone, Debug, Eq, PartialEq)]
pub enum PublishEvent {
    /// Whether something exists at the output path.
    Checked { exists: bool },
    /// A backup path beside the output was reserved (and is free).
    BackupReserved { path: String },
    /// The requested rename succeeded.
    Renamed,
    /// The requested rename failed.
    RenameFailed,
    /// The requested removal was done; its outcome does not matter.
    Removed,
}

/// What a publication asks of its driver next.
#[derive(Clone, Debug, Eq, PartialEq)]
pub enum PublishAction {
    /// Find out whether something exists at the output path.
    CheckOutput,
    /// Rename the staging directory to the output path.
    RenameStagingToOutput,
    /// Reserve a free backup path beside the output.
    ReserveBackup,
    /// Rename the output to the backup path.
    RenameOutputTo { backup: String },
    /// Rename the backup back to the output path.
    RenameBackupToOutput { backup: String },
    /// Remove the backup, whatever the outcome.
    RemoveBackup { backup: String },
    /// Remove the staging directory, whatever the outcome.
    RemoveStaging,
    /// The staging directory is the output now.
    Finish,
    /// Publishing failed.
    Fail(PublishError),
}

/// Where a publication stands.
#[derive(Clone, Debug, Eq, PartialEq)]
pub enum PublishPhase {
    /// Waiting to learn whether the output exists.
    Checking,
    /// There was no output; waiting for the staging directory's rename.
    Placing,
    /// Waiting for a reserved backup path.
    Reserving,
    /// Waiting for the output to be moved to `backup`.
    MovingAside { backup: String },
    /// The output is at `backup`; waiting for the staging directory's
    /// rename into place.
    Replacing { backup: String },
    /// The staging directory's rename failed; waiting for the backup to be
    /// renamed back.
    Restoring { backup: String },
    /// The staging directory is in place; waiting for the backup's removal.
    Cleaning,
    /// Waiting for the staging directory's removal, after which the
    /// publication fails with `error`.
    Discarding { error: PublishError },
    /// Finished or failed.
    Done,
}

/// A publication in progress.
pub struct PublishState {
    pub phase: PublishPhase,
}

/// How a publication moves on when its driver reports `event`.
pub open spec fn publish_step_spec(
    before: PublishState,
    event: PublishEvent,
    after: PublishState,
    action: PublishAction,
) -> bool {
    match (before.phase, event) {
        (PublishPhase::Checking, PublishEvent::Checked { exists }) => if exists {
            after.phase == PublishPhase::Reserving && action == PublishAction::ReserveBackup
        } else {
            after.phase == PublishPhase::Placing && action == PublishAction::RenameStagingToOutput
        },
        (PublishPhase::Placing, PublishEvent::Renamed) => after.phase == PublishPhase::Done && action
            == PublishAction::Finish,
        (PublishPhase::Placing, PublishEvent::RenameFailed) => after.phase == PublishPhase::Done && action
            == PublishAction::Fail(PublishError::PublishFailed),
        (PublishPhase::Reserving, PublishEvent::BackupReserved { path }) => after.phase
            == (PublishPhase::MovingAside { backup: path }) && action == (PublishAction::RenameOutputTo {
            backup: path,
        }),
        (PublishPhase::MovingAside { backup }, PublishEvent::Renamed) => after.phase == (PublishPhase::Replacing {
            backup,
        }) && action == PublishAction::RenameStagingToOutput,
        (PublishPhase::MovingAside { backup }, PublishEvent::RenameFailed) => after.phase == PublishPhase::Done
            && action == PublishAction::Fail(PublishError::MoveAsideFailed { backup }),
        (PublishPhase::Replacing { backup }, PublishEvent::Renamed) => after.phase == PublishPhase::Cleaning
            && action == (PublishAction::RemoveBackup { backup }),
        (PublishPhase::Replacing { backup }, PublishEvent::RenameFailed) => after.phase
            == (PublishPhase::Restoring { backup }) && action == (PublishAction::RenameBackupToOutput { backup }),
        (PublishPhase::Restoring { backup }, PublishEvent::Renamed) => after.phase == (PublishPhase::Discarding {
            error: PublishError::Restored,
        }) && action == PublishAction::RemoveStaging,
        (PublishPhase::Restoring { backup }, PublishEvent::RenameFailed) => after.phase
            == (PublishPhase::Discarding { error: PublishError::RestoreFailed { backup } }) && action
            == PublishAction::RemoveStaging,
        (PublishPhase::Cleaning, PublishEvent::Removed) => after.phase == PublishPhase::Done && action
            == PublishAction::Finish,
        (PublishPhase::Discarding { error }, PublishEvent::Removed) => after.phase == PublishPhase::Done
            && action == PublishAction::Fail(error),
        _ => after.phase == PublishPhase::Done && action == PublishAction::Fail(PublishError::PublishFailed),
    }
}

impl PublishState {
    /// Starts a publication: it first asks whether the output exists.
    pub fn start() -> (res: (PublishState, PublishAction))
        ensures
            res.0.phase == PublishPhase::Checking,
            res.1 == PublishAction::CheckOutput,
    {
        (PublishState { phase: PublishPhase::Checking }, PublishAction::CheckOutput)
    }

    /// Moves the publication on by the outcome of the work it asked for.
    pub fn step(self, event: PublishEvent) -> (res: (PublishState, PublishAction))
        ensures
            publish_step_spec(self, event, res.0, res.1),
            res.1 is RemoveBackup ==> self.phase is Replacing && event == PublishEvent::Renamed,
            res.1 is Finish ==> (self.phase is Placing && event == PublishEvent::Renamed) || self.phase is Cleaning,
            self.phase matches PublishPhase::Replacing { backup } ==> (event == PublishEvent::RenameFailed ==> res.1
                == (PublishAction::RenameBackupToOutput { backup })),
            self.phase matches PublishPhase::Restoring { backup } ==> (event == PublishEvent::RenameFailed
                ==> res.0.phase == (PublishPhase::Discarding { error: PublishError::RestoreFailed { backup } })),
    {
        let done = PublishState { phase: PublishPhase::Done };
        match (self.phase, event) {
            (PublishPhase::Checking, PublishEvent::Checked { exists }) => if exists {
                (PublishState { phase: PublishPhase::Reserving }, PublishAction::ReserveBackup)
            } else {
                (PublishState { phase: PublishPhase::Placing }, PublishAction::RenameStagingToOutput)
            },
            (PublishPhase::Placing, PublishEvent::Renamed) => (done, PublishAction::Finish),
            (PublishPhase::Placing, PublishEvent::RenameFailed) => (
                done,
                PublishAction::Fail(PublishError::PublishFailed),
            ),
            (PublishPhase::Reserving, PublishEvent::BackupReserved { path }) => {
                let backup = path.clone();
                (
                    PublishState { phase: PublishPhase::MovingAside { backup: path } },
                    PublishAction::RenameOutputTo { backup },
                )
            },
            (PublishPhase::MovingAside { backup }, PublishEvent::Renamed) => (
                PublishState { phase: PublishPhase::Replacing { backup } },
                PublishAction::RenameStagingToOutput,
            ),
            (PublishPhase::MovingAside { backup }, PublishEvent::RenameFailed) => (
                done,
                PublishAction::Fail(PublishError::MoveAsideFailed { backup }),
            ),
            (PublishPhase::Replacing { backup }, PublishEvent::Renamed) => (
                PublishState { phase: PublishPhase::Cleaning },
                PublishAction::RemoveBackup { backup },
            ),
            (PublishPhase::Replacing { backup }, PublishEvent::RenameFailed) => {
                let copy = backup.clone();
                (
                    PublishState { phase: PublishPhase::Restoring { backup } },
                    PublishAction::RenameBackupToOutput { backup: copy },
                )
            },
            (PublishPhase::Restoring { backup: _ }, PublishEvent::Renamed) => (
                PublishState { phase: PublishPhase::Discarding { error: PublishError::Restored } },
                PublishAction::RemoveStaging,
            ),
            (PublishPhase::Restoring { backup }, PublishEvent::RenameFailed) => (
                PublishState { phase: PublishPhase::Discarding { error: PublishError::RestoreFailed { backup } } },
                PublishAction::RemoveStaging,
            ),
            (PublishPhase::Cleaning, PublishEvent::Removed) => (done, PublishAction::Finish),
            (PublishPhase::Discarding { error }, PublishEvent::Removed) => (done, PublishAction::Fail(error)),
            (_, _) => (done, PublishAction::Fail(PublishError::PublishFailed)),
        }
    }
}

/// A run of a publication: `actions[0]` and `states[0]` come from `start`,
/// `events[k]` answers `actions[k]`, and each step follows
/// `publish_step_spec`.
pub open spec fn publish_run(states: Seq<PublishState>, events: Seq<PublishEvent>, actions: Seq<PublishAction>) -> bool {
    &&& states.len() == actions.len()
    &&& events.len() + 1 == actions.len()
    &&& states[0].phase == PublishPhase::Checking
    &&& actions[0] == PublishAction::CheckOutput
    &&& forall|k: int|
        0 <= k < events.len() ==> publish_step_spec(#[trigger] states[k], events[k], states[k + 1], actions[k + 1])
}

/// In any run, the backup is removed only after the old output was moved
/// to it and, right before, the staging directory was renamed into place.
pub proof fn lemma_backup_removed_only_after_replacement(
    states: Seq<PublishState>,
    events: Seq<PublishEvent>,
    actions: Seq<PublishAction>,
    i: int,
)
    requires
        publish_run(states, events, actions),
        0 <= i < actions.len(),
        actions[i] is RemoveBackup,
    ensures
        i >= 3,
        actions[i - 1] == PublishAction::RenameStagingToOutput,
        events[i - 1] == PublishEvent::Renamed,
        actions[i - 2] == (PublishAction::RenameOutputTo { backup: actions[i]->RemoveBackup_backup }),
        events[i - 2] == PublishEvent::Renamed,
{
    assert(i > 0);
    let k = i - 1;
    assert(publish_step_spec(states[k], events[k], states[k + 1], actions[k + 1]));
    let b = actions[i]->RemoveBackup_backup;
    assert(states[k].phase == (PublishPhase::Replacing { backup: b }) && events[k] == PublishEvent::Renamed);
    assert(k > 0);
    let j = k - 1;
    assert(publish_step_spec(states[j], events[j], states[j + 1], actions[j + 1]));
    assert(states[j].phase == (PublishPhase::MovingAside { backup: b }) && events[j] == PublishEvent::Renamed);
    assert(j > 0);
    let h = j - 1;
    assert(publish_step_spec(states[h], events[h], states[h + 1], actions[h + 1]));
}

/// When the staging directory cannot be put in place after the old output
/// was moved aside, the backup is renamed back; if that fails too, the
/// staging directory is removed and the publication fails naming the
/// backup, where the old output remains.
pub proof fn lemma_failed_restore_names_backup(
    s0: PublishState,
    s1: PublishState,
    a1: PublishAction,
    s2: PublishState,
    a2: PublishAction,
    s3: PublishState,
    a3: PublishAction,
    backup: String,
)
    requires
        s0.phase == (PublishPhase::Replacing { backup }),
        publish_step_spec(s0, PublishEvent::RenameFailed, s1, a1),
        publish_step_spec(s1, PublishEvent::RenameFailed, s2, a2),
        publish_step_spec(s2, PublishEvent::Removed, s3, a3),
    ensures
        a1 == (PublishAction::RenameBackupToOutput { backup }),
        a2 == PublishAction::RemoveStaging,
        a3 == PublishAction::Fail(PublishError::RestoreFailed { backup }),
{
}

} // verus!
