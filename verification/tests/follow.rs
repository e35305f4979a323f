use rust_a_log::follow::{
    after_probe, after_reopen, check_truncation, replaced, FileId, FollowAction, PathProbe,
    Reopened,
};

fn id(device: u64, inode: u64) -> Option<FileId> {
    Some(FileId { device, inode })
}

#[test]
fn replacement_needs_two_different_identities() {
    assert!(replaced(id(1, 2), id(1, 3)));
    assert!(replaced(id(1, 2), id(2, 2)));
    assert!(!replaced(id(1, 2), id(1, 2)));
    assert!(!replaced(None, id(1, 2)));
    assert!(!replaced(id(1, 2), None));
    assert!(!replaced(None, None));
}

#[test]
fn truncation_below_the_position_restarts_and_drops_the_partial_record() {
    let mut pending = b"[ERROR] unfin".to_vec();
    assert!(!check_truncation(100, 100, &mut pending));
    assert_eq!(pending, b"[ERROR] unfin");
    assert!(!check_truncation(200, 100, &mut pending));
    assert_eq!(pending, b"[ERROR] unfin");
    assert!(check_truncation(0, 100, &mut pending));
    assert!(pending.is_empty());
}

#[test]
fn path_probe_decides_between_waiting_and_reopening() {
    assert_eq!(after_probe(id(1, 2), PathProbe::Found(id(1, 2))), FollowAction::Wait);
    assert_eq!(after_probe(id(1, 2), PathProbe::Found(id(1, 9))), FollowAction::Reopen);
    assert_eq!(after_probe(None, PathProbe::Found(None)), FollowAction::Wait);
    assert_eq!(after_probe(id(1, 2), PathProbe::NotFound), FollowAction::Wait);
    assert_eq!(after_probe(id(1, 2), PathProbe::Failed), FollowAction::Fail);
}

#[test]
fn reopening_switches_files_and_drops_the_old_partial_record() {
    let mut pending = b"old".to_vec();
    assert_eq!(after_reopen(Reopened::NotFound, &mut pending), FollowAction::Wait);
    assert_eq!(pending, b"old");
    assert_eq!(after_reopen(Reopened::Failed, &mut pending), FollowAction::Fail);
    assert_eq!(
        after_reopen(Reopened::NotRegularFile, &mut pending),
        FollowAction::RejectNotRegular
    );
    assert_eq!(pending, b"old");
    assert_eq!(after_reopen(Reopened::RegularFile, &mut pending), FollowAction::Resume);
    assert!(pending.is_empty());
}
