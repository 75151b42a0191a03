use chnroute::fetch::{body_read_limit, check_body_length, check_response_head, ResponseError};
use chnroute::publish::{PublishAction, PublishError, PublishEvent, PublishState};

/// Runs a publication, answering each action from `outcomes` (the result
/// of each rename, in order) and recording the actions.
fn publish(exists: bool, renames: &[bool]) -> Vec<PublishAction> {
    let mut renames = renames.iter();
    let (mut state, mut action) = PublishState::start();
    let mut seen = Vec::new();
    loop {
        seen.push(action.clone());
        let event = match &action {
            PublishAction::CheckOutput => PublishEvent::Checked { exists },
            PublishAction::ReserveBackup => PublishEvent::BackupReserved { path: ".dist.backup-1".to_owned() },
            PublishAction::RenameStagingToOutput
            | PublishAction::RenameOutputTo { .. }
            | PublishAction::RenameBackupToOutput { .. } => {
                if *renames.next().unwrap() {
                    PublishEvent::Renamed
                } else {
                    PublishEvent::RenameFailed
                }
            },
            PublishAction::RemoveBackup { .. } | PublishAction::RemoveStaging => PublishEvent::Removed,
            PublishAction::Finish | PublishAction::Fail(_) => return seen,
        };
        let (next, next_action) = state.step(event);
        state = next;
        action = next_action;
    }
}

fn backup() -> String {
    ".dist.backup-1".to_owned()
}

#[test]
fn publishes_into_a_missing_output() {
    assert_eq!(
        publish(false, &[true]),
        vec![PublishAction::CheckOutput, PublishAction::RenameStagingToOutput, PublishAction::Finish]
    );
    assert_eq!(
        publish(false, &[false]).last().unwrap(),
        &PublishAction::Fail(PublishError::PublishFailed)
    );
}

#[test]
fn replaces_an_existing_output_and_then_removes_the_backup() {
    assert_eq!(
        publish(true, &[true, true]),
        vec![
            PublishAction::CheckOutput,
            PublishAction::ReserveBackup,
            PublishAction::RenameOutputTo { backup: backup() },
            PublishAction::RenameStagingToOutput,
            PublishAction::RemoveBackup { backup: backup() },
            PublishAction::Finish,
        ]
    );
}

#[test]
fn puts_the_old_output_back_when_the_new_one_cannot_be_placed() {
    let actions = publish(true, &[true, false, true]);
    assert_eq!(actions[4], PublishAction::RenameBackupToOutput { backup: backup() });
    assert_eq!(actions[5], PublishAction::RemoveStaging);
    assert_eq!(actions[6], PublishAction::Fail(PublishError::Restored));
    assert!(!actions.iter().any(|action| matches!(action, PublishAction::RemoveBackup { .. })));
}

#[test]
fn names_the_backup_when_the_old_output_cannot_be_put_back() {
    let actions = publish(true, &[true, false, false]);
    assert_eq!(actions.last().unwrap(), &PublishAction::Fail(PublishError::RestoreFailed { backup: backup() }));
    assert!(!actions.iter().any(|action| matches!(action, PublishAction::RemoveBackup { .. })));
    let actions = publish(true, &[false]);
    assert_eq!(actions.last().unwrap(), &PublishAction::Fail(PublishError::MoveAsideFailed { backup: backup() }));
}

#[test]
fn checks_responses_against_the_size_limit() {
    assert_eq!(check_response_head(200, Some(10), 10), Ok(()));
    assert_eq!(check_response_head(204, None, 10), Ok(()));
    assert_eq!(check_response_head(200, Some(11), 10), Err(ResponseError::TooLarge));
    assert_eq!(check_response_head(404, Some(11), 10), Err(ResponseError::Status(404)));
    assert_eq!(check_response_head(302, None, 10), Err(ResponseError::Status(302)));
    assert_eq!(body_read_limit(10), 11);
    assert_eq!(check_body_length(10, 10), Ok(()));
    assert_eq!(check_body_length(11, 10), Err(ResponseError::TooLarge));
}
