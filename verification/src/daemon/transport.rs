//! What an error of the transport means, and what stands in the way of a bind.
//! The transport is a socket or a pipe that only the user can open.

use vstd::prelude::*;

use crate::daemon::paths::Platform;

verus! {

/// What kind of error the transport gave.
#[derive(Debug, Clone, Copy, PartialEq, Eq, Structural)]
pub enum ErrorKind {
    NotFound,
    ConnectionRefused,
    PermissionDenied,
    Other,
}

/// Windows' code for a file that is not there: no such pipe.
pub const ERROR_FILE_NOT_FOUND: i32 = 2;

/// Windows' code for a pipe whose every instance is in use.
pub const ERROR_PIPE_BUSY: i32 = 231;

/// Whether nothing is listening: the sign to start a daemon, where any other
/// error is one that a new daemon would not mend.
pub fn is_not_running(kind: ErrorKind, os_error: Option<i32>, platform: Platform) -> (r: bool)
    ensures
        r == (kind is NotFound || kind is ConnectionRefused || platform is Windows && os_error
            == Some(2i32)),
{
    matches!(kind, ErrorKind::NotFound | ErrorKind::ConnectionRefused) || matches!(
        platform,
        Platform::Windows
    ) && match os_error {
        Some(code) => code == ERROR_FILE_NOT_FOUND,
        None => false,
    }
}

/// Whether to try again to open a pipe: it is busy, and there is time left.
pub fn tries_again(os_error: Option<i32>, now_ms: u64, deadline_ms: u64) -> (r: bool)
    ensures
        r == (os_error == Some(231i32) && now_ms < deadline_ms),
{
    match os_error {
        Some(code) => code == ERROR_PIPE_BUSY && now_ms < deadline_ms,
        None => false,
    }
}

/// What to do before a socket is bound.
#[derive(Debug, Clone, Copy, PartialEq, Eq, Structural)]
pub enum BeforeBind {
    /// Nothing is there.
    Bind,
    /// What is there was left by a daemon that is gone: remove it.
    Remove,
    /// A daemon is listening.
    Refuse,
}

/// What to do before a socket is bound, from whether there is one and whether it
/// answers.
pub fn before_bind(present: bool, answers: bool) -> (r: BeforeBind)
    ensures
        r == if !present {
            BeforeBind::Bind
        } else if answers {
            BeforeBind::Refuse
        } else {
            BeforeBind::Remove
        },
{
    if !present {
        BeforeBind::Bind
    } else if answers {
        BeforeBind::Refuse
    } else {
        BeforeBind::Remove
    }
}

} // verus!
