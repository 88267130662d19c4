//! The dispositions of the terminal's signals, in the shell and in its
//! children.

use vstd::prelude::*;

verus! {

/// The signals that a terminal sends to the processes attached to it.
#[derive(Debug, Clone, Copy, PartialEq, Eq, Structural)]
pub enum TtySignal {
    /// Interrupt from the keyboard (`SIGINT`).
    Int,
    /// Quit from the keyboard (`SIGQUIT`).
    Quit,
    /// Stop typed at the terminal (`SIGTSTP`).
    Tstp,
    /// Terminal input for a background process (`SIGTTIN`).
    Ttin,
    /// Terminal output for a background process (`SIGTTOU`).
    Ttou,
}

/// What a process does when a signal arrives.
#[derive(Debug, Clone, Copy, PartialEq, Eq, Structural)]
pub enum Disposition {
    /// The signal is dropped.
    Ignore,
    /// The system's own action for the signal.
    Default,
}

/// The five terminal signals, in the order in which a policy sets them.
pub open spec fn tty_signals() -> Seq<TtySignal> {
    seq![TtySignal::Int, TtySignal::Quit, TtySignal::Tstp, TtySignal::Ttin, TtySignal::Ttou]
}

/// The policy that gives every terminal signal the disposition `d`.
pub open spec fn policy(d: Disposition) -> Seq<(TtySignal, Disposition)> {
    Seq::new(5, |i: int| (tty_signals()[i], d))
}

/// The two signal policies of a job-control shell.
pub struct Signal {}

impl Signal {
    /// The policy that gives every terminal signal the disposition `d`.
    fn all(d: Disposition) -> (settings: Vec<(TtySignal, Disposition)>)
        ensures
            settings@ == policy(d),
    {
        let mut settings: Vec<(TtySignal, Disposition)> = Vec::new();
        settings.push((TtySignal::Int, d));
        settings.push((TtySignal::Quit, d));
        settings.push((TtySignal::Tstp, d));
        settings.push((TtySignal::Ttin, d));
        settings.push((TtySignal::Ttou, d));
        assert(settings@ =~= policy(d));
        settings
    }

    /// The policy of a child, set right after `fork`: every terminal signal
    /// gets its default disposition back, so that the program behaves as any
    /// program at a terminal does.
    pub fn default() -> (settings: Vec<(TtySignal, Disposition)>)
        ensures
            settings@ == policy(Disposition::Default),
    {
        Signal::all(Disposition::Default)
    }

    /// The policy of the shell itself, set once at start: every terminal signal
    /// is ignored, so that neither an interrupt meant for a job nor terminal
    /// traffic of a background group stops the shell.
    pub fn ignore() -> (settings: Vec<(TtySignal, Disposition)>)
        ensures
            settings@ == policy(Disposition::Ignore),
    {
        Signal::all(Disposition::Ignore)
    }
}

} // verus!
