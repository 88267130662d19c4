//! What can go wrong between a command line and a running job.

use vstd::prelude::*;

verus! {

/// The failures of the shell. Most of them come out of the step functions of
/// a pipeline; a line that does not parse, and what goes wrong in a child
/// after the fork, are for the host to name.
#[derive(Debug, Clone, Copy, PartialEq, Eq, Structural)]
pub enum Error {
    /// The line is not a pipeline of the grammar.
    ParseFailure,
    /// A program name or an argument holds a NUL character.
    NullInArgument,
    /// `fork` failed.
    ForkFailed,
    /// `pipe` failed.
    PipeFailed,
    /// `dup2` failed in a child.
    DupFailed,
    /// `execvp` failed in a child.
    ExecFailed,
    /// A redirection's file could not be opened in a child.
    OpenFailed,
    /// `setpgid` failed, for another reason than a child that has already
    /// become its program.
    SetpgidFailed,
    /// `tcsetpgrp` failed.
    TcsetpgrpFailed,
    /// `waitpid` failed.
    WaitFailed,
    /// A pipe's descriptor could not be closed in the shell.
    CloseFailed,
    /// An endpoint was put into a slot that cannot hold it.
    InvalidEndpoint,
}

impl Error {
    /// The text of this failure, as a diagnostic shows it.
    pub open spec fn text(self) -> Seq<char> {
        match self {
            Error::ParseFailure => "parse failure"@,
            Error::NullInArgument => "NUL in program name or argument"@,
            Error::ForkFailed => "fork failed"@,
            Error::PipeFailed => "pipe failed"@,
            Error::DupFailed => "dup2 failed"@,
            Error::ExecFailed => "exec failed"@,
            Error::OpenFailed => "open failed"@,
            Error::SetpgidFailed => "setpgid failed"@,
            Error::TcsetpgrpFailed => "tcsetpgrp failed"@,
            Error::WaitFailed => "waitpid failed"@,
            Error::CloseFailed => "close failed"@,
            Error::InvalidEndpoint => "invalid endpoint"@,
        }
    }

    /// A one-line description of this failure.
    pub fn describe(&self) -> (line: String)
        ensures
            line@ == self.text(),
    {
        let text: &str = match self {
            Error::ParseFailure => "parse failure",
            Error::NullInArgument => "NUL in program name or argument",
            Error::ForkFailed => "fork failed",
            Error::PipeFailed => "pipe failed",
            Error::DupFailed => "dup2 failed",
            Error::ExecFailed => "exec failed",
            Error::OpenFailed => "open failed",
            Error::SetpgidFailed => "setpgid failed",
            Error::TcsetpgrpFailed => "tcsetpgrp failed",
            Error::WaitFailed => "waitpid failed",
            Error::CloseFailed => "close failed",
            Error::InvalidEndpoint => "invalid endpoint",
        };
        text.to_owned()
    }
}

} // verus!
