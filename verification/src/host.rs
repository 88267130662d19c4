//! The conversation between the shell's core and the program that hosts it.
//!
//! The core decides; the host acts. A step function of the core returns a
//! [`Request`], the host performs it and calls the step function again with
//! its [`Reply`].

use vstd::prelude::*;
use crate::error::Error;
use crate::signal::{Disposition, TtySignal};

verus! {

/// A change of state of a child, as `waitpid` reports it.
#[derive(Debug, Clone, Copy, PartialEq, Eq, Structural)]
pub enum Reaped {
    /// The child with this pid has exited.
    Exited(i32),
    /// The child with this pid was stopped by a signal.
    Stopped(i32),
    /// The child with this pid was killed by a signal.
    Signaled(i32),
}

impl Reaped {
    /// The pid of the child that the report is about.
    pub open spec fn pid(self) -> i32 {
        match self {
            Reaped::Exited(pid) => pid,
            Reaped::Stopped(pid) => pid,
            Reaped::Signaled(pid) => pid,
        }
    }

    /// The pid of the child that the report is about.
    pub fn child(&self) -> (pid: i32)
        ensures
            pid == self.pid(),
    {
        match self {
            Reaped::Exited(pid) => *pid,
            Reaped::Stopped(pid) => *pid,
            Reaped::Signaled(pid) => *pid,
        }
    }
}

/// What the host reports back after a request.
#[derive(Debug, Clone, Copy, PartialEq, Eq, Structural)]
pub enum Reply {
    /// Nothing was requested yet: the first call of a step function.
    Start,
    /// The request was carried out and there is nothing to hand back.
    Done,
    /// A pipe was made; these are its two descriptors.
    Pipe { read: i32, write: i32 },
    /// `fork` returned in the shell with this pid of the child.
    Child(i32),
    /// `waitpid` returned this report.
    Reaped(Reaped),
    /// The call failed because the system denied permission (`EACCES`).
    Denied,
    /// The call failed for any other reason.
    Failed,
}

/// What a step function asks the host to do next.
#[derive(Debug, Clone, Copy, PartialEq, Eq, Structural)]
pub enum Request {
    /// Give a terminal signal this disposition in the shell.
    Policy(TtySignal, Disposition),
    /// Make a pipe.
    Pipe,
    /// Fork. The child then carries out the steps that the command at `index`
    /// gives for the group `pgid`; the shell answers with the child's pid.
    Fork { index: usize, pgid: i32 },
    /// In the shell, put the process `pid` into the group `pgid`; a `pgid` of
    /// zero makes `pid` the leader of a new group.
    SetGroup { pid: i32, pgid: i32 },
    /// Close this descriptor in the shell.
    Close(i32),
    /// Make the group `pgid` the terminal's foreground group.
    Foreground(i32),
    /// Make the shell's own group the terminal's foreground group again.
    Reclaim,
    /// Wait for a change of state of any child in the group `pgid`, stops
    /// included.
    Reap(i32),
    /// The launch is over: every command runs.
    Spawned,
    /// The wait is over: no command is running any more.
    Settled,
    /// The operation is over and has failed.
    Failed(Error),
}

impl Request {
    /// Whether this request ends an operation, leaving the host nothing to do.
    pub open spec fn is_final(self) -> bool {
        self is Spawned || self is Settled || self is Failed
    }

    /// Whether this request ends an operation, leaving the host nothing to do.
    pub fn ends(&self) -> (yes: bool)
        ensures
            yes == self.is_final(),
    {
        match self {
            Request::Spawned => true,
            Request::Settled => true,
            Request::Failed(_) => true,
            _ => false,
        }
    }
}

/// One thing that a freshly forked child does before it becomes its program.
#[derive(Debug, PartialEq)]
pub enum ChildStep {
    /// Give a terminal signal this disposition.
    Policy(TtySignal, Disposition),
    /// Put the child itself into the group `pgid`; zero makes the child the
    /// leader of a new group.
    JoinGroup(i32),
    /// Duplicate the open descriptor `fd` onto `onto`, then close `fd`.
    Adopt { fd: i32, onto: i32 },
    /// Open the file at `path` for reading, duplicate the descriptor onto
    /// `onto`, then close the descriptor that the open gave.
    Read { path: String, onto: i32 },
    /// Create the file at `path`, or truncate it, open it for writing,
    /// duplicate the descriptor onto `onto`, then close the descriptor that
    /// the open gave.
    Write { path: String, onto: i32 },
    /// Replace the child by the program `argv[0]`, found along the search
    /// path, with the arguments `argv`. Should that fail, the child says why
    /// on its standard error and exits with [`EXEC_FAILURE_STATUS`].
    Exec(Vec<String>),
}

/// The exit status of a child that could not become its program.
pub const EXEC_FAILURE_STATUS: i32 = 0;

/// The mathematical value of a [`ChildStep`].
#[verifier::ext_equal]
pub enum ChildStepView {
    Policy(TtySignal, Disposition),
    JoinGroup(i32),
    Adopt { fd: i32, onto: i32 },
    Read { path: Seq<char>, onto: i32 },
    Write { path: Seq<char>, onto: i32 },
    Exec(Seq<Seq<char>>),
}

/// The character sequences of a sequence of strings.
pub open spec fn texts(strings: Seq<String>) -> Seq<Seq<char>> {
    Seq::new(strings.len(), |i: int| strings[i]@)
}

impl View for ChildStep {
    type V = ChildStepView;

    open spec fn view(&self) -> ChildStepView {
        match self {
            ChildStep::Policy(signal, disposition) => ChildStepView::Policy(*signal, *disposition),
            ChildStep::JoinGroup(pgid) => ChildStepView::JoinGroup(*pgid),
            ChildStep::Adopt { fd, onto } => ChildStepView::Adopt { fd: *fd, onto: *onto },
            ChildStep::Read { path, onto } => ChildStepView::Read { path: path@, onto: *onto },
            ChildStep::Write { path, onto } => ChildStepView::Write { path: path@, onto: *onto },
            ChildStep::Exec(argv) => ChildStepView::Exec(texts(argv@)),
        }
    }
}

/// The mathematical values of a list of steps.
pub open spec fn steps(plan: Seq<ChildStep>) -> Seq<ChildStepView> {
    Seq::new(plan.len(), |i: int| plan[i]@)
}

} // verus!
