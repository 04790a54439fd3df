//! The ways in which a run can fail. Every one of them ends the run.

use vstd::prelude::*;

verus! {

/// Why a run failed.
#[derive(Clone, Copy, Debug, PartialEq, Eq, Structural)]
pub enum ErrorKind {
    /// The configuration is not usable: no destination, a command without a
    /// program name, or a compression level outside 1 to 9.
    Configuration,
    /// The configured command could not be started.
    Spawn,
    /// Reading from the source failed.
    IoRead,
    /// The sink could not take or write a line.
    IoWrite,
    /// The sink could not be flushed and closed.
    Finalize,
    /// The child process did not end with success.
    ChildExit,
}

impl ErrorKind {
    /// A short text for the user.
    pub fn describe(self) -> (text: &'static str)
        ensures
            text@ == match self {
                ErrorKind::Configuration => "invalid configuration"@,
                ErrorKind::Spawn => "failed to execute command"@,
                ErrorKind::IoRead => "failed to read from the source"@,
                ErrorKind::IoWrite => "failed to write to the destination"@,
                ErrorKind::Finalize => "failed to finish the destination"@,
                ErrorKind::ChildExit => "the command did not exit successfully"@,
            },
    {
        match self {
            ErrorKind::Configuration => "invalid configuration",
            ErrorKind::Spawn => "failed to execute command",
            ErrorKind::IoRead => "failed to read from the source",
            ErrorKind::IoWrite => "failed to write to the destination",
            ErrorKind::Finalize => "failed to finish the destination",
            ErrorKind::ChildExit => "the command did not exit successfully",
        }
    }
}

} // verus!
