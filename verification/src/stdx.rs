//! Where a process reads its standard input from, or writes its standard
//! output to.

use vstd::prelude::*;

verus! {

/// Descriptor number of standard input.
pub const STDIN_FILENO: i32 = 0;

/// Descriptor number of standard output.
pub const STDOUT_FILENO: i32 = 1;

/// One end of a process's standard stream.
#[derive(Debug, PartialEq)]
pub enum StdX {
    /// An open descriptor of a pipe, made by the launcher.
    Pipe(i32),
    /// A file, named by its path.
    Redirect(String),
    /// The standard error that the shell itself has.
    StdErr,
    /// The standard input that the shell itself has.
    StdIn,
    /// The standard output that the shell itself has.
    StdOut,
}

/// The mathematical value of a [`StdX`]: the same cases, the path as a
/// sequence of characters.
#[verifier::ext_equal]
pub enum StdXView {
    Pipe(i32),
    Redirect(Seq<char>),
    StdErr,
    StdIn,
    StdOut,
}

impl StdXView {
    /// What a standard-input slot may hold: anything but the two inherited
    /// output streams.
    pub open spec fn fits_stdin(self) -> bool {
        !(self is StdOut) && !(self is StdErr)
    }

    /// What a standard-output slot may hold: anything but inherited input and
    /// inherited error.
    pub open spec fn fits_stdout(self) -> bool {
        !(self is StdIn) && !(self is StdErr)
    }
}

impl View for StdX {
    type V = StdXView;

    open spec fn view(&self) -> StdXView {
        match self {
            StdX::Pipe(fd) => StdXView::Pipe(*fd),
            StdX::Redirect(path) => StdXView::Redirect(path@),
            StdX::StdErr => StdXView::StdErr,
            StdX::StdIn => StdXView::StdIn,
            StdX::StdOut => StdXView::StdOut,
        }
    }
}

impl Clone for StdX {
    fn clone(&self) -> (copy: Self)
        ensures
            copy@ == self@,
    {
        match self {
            StdX::Pipe(fd) => StdX::Pipe(*fd),
            StdX::Redirect(path) => StdX::Redirect(path.clone()),
            StdX::StdErr => StdX::StdErr,
            StdX::StdIn => StdX::StdIn,
            StdX::StdOut => StdX::StdOut,
        }
    }
}

impl StdX {
    /// Whether this endpoint may stand in a standard-input slot.
    pub fn fits_stdin(&self) -> (ok: bool)
        ensures
            ok == self@.fits_stdin(),
    {
        match self {
            StdX::StdOut => false,
            StdX::StdErr => false,
            _ => true,
        }
    }

    /// Whether this endpoint may stand in a standard-output slot.
    pub fn fits_stdout(&self) -> (ok: bool)
        ensures
            ok == self@.fits_stdout(),
    {
        match self {
            StdX::StdIn => false,
            StdX::StdErr => false,
            _ => true,
        }
    }
}

} // verus!
