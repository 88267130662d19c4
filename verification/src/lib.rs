//! The core of a small job-control shell, with its behaviour stated and proved.
//!
//! A command line is parsed into a [`pipeline::Pipeline`] of
//! [`command::Command`]s; [`grammar`] says what a line means and [`canon`]
//! proves that the parser reads back what the writer writes.
//!
//! The library itself never touches a descriptor, a process or the terminal.
//! Launching a pipeline, waiting for it and keeping it in the foreground are
//! step functions: each takes the [`host::Reply`] to the request made last and
//! returns the next [`host::Request`], which the program around the library
//! carries out. [`shell::Shell`] is the supervisor above them: it takes the
//! lines that the user types and keeps the jobs.
//!
//! [`runs`] holds what is proved of whole runs of the step functions, whatever
//! the host replies: that a launch which succeeds has started every command in
//! order and in one group, that it never leaks a descriptor of a pipe, and
//! that the terminal always comes back to the shell. [`script`] writes the
//! launch out as the list of what is asked for, command by command, and proves
//! that the step function asks for exactly that when the host can do it.

pub mod stdx;
pub mod error;
pub mod signal;
pub mod host;
pub mod command;
pub mod grammar;
pub mod canon;
pub mod numeral;
pub mod pipeline;
pub mod runs;
pub mod script;
pub mod shell;
