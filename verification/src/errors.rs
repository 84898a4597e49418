//! The error taxonomy of the workspace subsystem.

use vstd::prelude::*;

verus! {

/// A failure reported to the collaborator (UI/shell) layer.
///
/// `Cancelled` is the normal outcome of a declined picker dialog, not a
/// fault. `NotFound` means path resolution failed. `InvalidDirectory`
/// means a tree was requested for a path that is not a directory.
/// `IoError` carries the text of an underlying OS failure.
/// `WatchSetupError` means a filesystem watch could not be installed.
#[derive(Debug)]
pub enum WsError {
    Cancelled,
    NotFound,
    InvalidDirectory,
    IoError(String),
    WatchSetupError,
}

impl WsError {
    /// A short stable label for each variant, for display by the shell.
    pub fn label(&self) -> (r: &'static str)
        ensures
            r@ == self.label_spec(),
    {
        match self {
            WsError::Cancelled => "cancelled",
            WsError::NotFound => "not found",
            WsError::InvalidDirectory => "invalid directory",
            WsError::IoError(_) => "io error",
            WsError::WatchSetupError => "watch setup error",
        }
    }

    pub open spec fn label_spec(&self) -> Seq<char> {
        match self {
            WsError::Cancelled => "cancelled"@,
            WsError::NotFound => "not found"@,
            WsError::InvalidDirectory => "invalid directory"@,
            WsError::IoError(_) => "io error"@,
            WsError::WatchSetupError => "watch setup error"@,
        }
    }
}

} // verus!
