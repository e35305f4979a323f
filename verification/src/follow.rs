//! The decisions of following a file that grows, is truncated, or is
//! replaced. The caller polls the file system and reports what it saw; these
//! functions say what to do next.
use vstd::prelude::*;

verus! {

/// The identity of a file on its file system (device and inode).
#[derive(Clone, Copy, Debug, PartialEq, Eq, Structural)]
pub struct FileId {
    pub device: u64,
    pub inode: u64,
}

/// The file at the path is another file than the one being read. Without
/// file identities (where the platform gives none) a replacement cannot be
/// seen.
pub open spec fn is_replaced(previous: Option<FileId>, current: Option<FileId>) -> bool {
    match (previous, current) {
        (Some(p), Some(c)) => p != c,
        _ => false,
    }
}

/// Whether the file at the path replaced the one being read.
pub fn replaced(previous: Option<FileId>, current: Option<FileId>) -> (r: bool)
    ensures
        r == is_replaced(previous, current),
{
    match (previous, current) {
        (Some(p), Some(c)) => p != c,
        _ => false,
    }
}

/// Checks the open file for truncation below the read position. When it
/// shrank below it, reading restarts at the beginning and the incomplete
/// record read before is dropped. Returns whether to restart.
pub fn check_truncation(file_len: u64, position: u64, pending: &mut Vec<u8>) -> (restart: bool)
    ensures
        restart == (file_len < position),
        restart ==> final(pending)@ == Seq::<u8>::empty(),
        !restart ==> final(pending)@ == old(pending)@,
{
    if file_len < position {
        pending.clear();
        true
    } else {
        false
    }
}

/// What looking up the path gave.
#[derive(Clone, Copy, Debug, PartialEq, Eq, Structural)]
pub enum PathProbe {
    /// A file is there, with its identity where the platform gives one.
    Found(Option<FileId>),
    /// Nothing is there (a rotation may be under way).
    NotFound,
    /// The lookup failed otherwise.
    Failed,
}

/// What opening the path again gave.
#[derive(Clone, Copy, Debug, PartialEq, Eq, Structural)]
pub enum Reopened {
    /// A regular file.
    RegularFile,
    /// Something that is not a regular file.
    NotRegularFile,
    /// Nothing is there any more.
    NotFound,
    /// Opening failed otherwise.
    Failed,
}

/// What the follower does next.
#[derive(Clone, Copy, Debug, PartialEq, Eq, Structural)]
pub enum FollowAction {
    /// Keep the current file and wait before polling again.
    Wait,
    /// Open the path again: another file replaced the one being read.
    Reopen,
    /// Read the newly opened file from its beginning, without waiting.
    Resume,
    /// Stop with the error of the last file system call.
    Fail,
    /// Stop: the path names something that is not a regular file.
    RejectNotRegular,
}

/// The action after looking up the path while reading the file `current`.
pub open spec fn probe_action(current: Option<FileId>, probe: PathProbe) -> FollowAction {
    match probe {
        PathProbe::Found(id) => if is_replaced(current, id) {
            FollowAction::Reopen
        } else {
            FollowAction::Wait
        },
        PathProbe::NotFound => FollowAction::Wait,
        PathProbe::Failed => FollowAction::Fail,
    }
}

/// Decides what to do after looking up the path. A missing path keeps the old
/// handle, so a file that is being rotated is still drained.
pub fn after_probe(current: Option<FileId>, probe: PathProbe) -> (action: FollowAction)
    ensures
        action == probe_action(current, probe),
{
    match probe {
        PathProbe::Found(id) => if replaced(current, id) {
            FollowAction::Reopen
        } else {
            FollowAction::Wait
        },
        PathProbe::NotFound => FollowAction::Wait,
        PathProbe::Failed => FollowAction::Fail,
    }
}

/// The action after opening the path again.
pub open spec fn reopen_action(result: Reopened) -> FollowAction {
    match result {
        Reopened::RegularFile => FollowAction::Resume,
        Reopened::NotRegularFile => FollowAction::RejectNotRegular,
        Reopened::NotFound => FollowAction::Wait,
        Reopened::Failed => FollowAction::Fail,
    }
}

/// Decides what to do after opening the path again. Switching to the new
/// file drops the incomplete record of the old one.
pub fn after_reopen(result: Reopened, pending: &mut Vec<u8>) -> (action: FollowAction)
    ensures
        action == reopen_action(result),
        action == FollowAction::Resume ==> final(pending)@ == Seq::<u8>::empty(),
        action != FollowAction::Resume ==> final(pending)@ == old(pending)@,
{
    match result {
        Reopened::RegularFile => {
            pending.clear();
            FollowAction::Resume
        },
        Reopened::NotRegularFile => FollowAction::RejectNotRegular,
        Reopened::NotFound => FollowAction::Wait,
        Reopened::Failed => FollowAction::Fail,
    }
}

} // verus!
