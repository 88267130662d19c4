//! A single invocation of a program: what was asked for on the command line,
//! and what has become of the process since.

use vstd::prelude::*;
use crate::error::Error;
use crate::grammar::{lemma_parsed_fresh, read_single, single, trim};
use crate::host::{texts, steps, ChildStep, ChildStepView};
use crate::signal::{policy, tty_signals, Disposition, Signal};
use crate::stdx::{StdX, StdXView, STDIN_FILENO, STDOUT_FILENO};

verus! {

/// The life of a command's process, as far as the shell has seen it.
#[derive(Debug, Clone, Copy, PartialEq, Eq, Structural)]
pub enum Status {
    /// The process has exited.
    Completed,
    /// The process has not been reported as anything else yet.
    Running,
    /// The process was stopped by a signal.
    Suspended,
    /// The process was killed by a signal.
    Terminated,
}

/// A program with its arguments, its two standard streams, and the process
/// that runs it.
#[derive(Debug, PartialEq)]
pub struct Command {
    program: String,
    args: Vec<String>,
    stdin: StdX,
    stdout: StdX,
    pid: i32,
    status: Status,
}

/// The mathematical value of a [`Command`].
#[verifier::ext_equal]
pub struct CommandView {
    /// The name of the program.
    pub program: Seq<char>,
    /// The arguments, in the order in which they were given.
    pub args: Seq<Seq<char>>,
    /// Where standard input comes from.
    pub stdin: StdXView,
    /// Where standard output goes to.
    pub stdout: StdXView,
    /// The pid of the process; zero as long as there is none.
    pub pid: i32,
    /// What the shell knows of the process.
    pub status: Status,
}

impl CommandView {
    /// Each slot holds an endpoint that fits it.
    pub open spec fn wf(self) -> bool {
        self.stdin.fits_stdin() && self.stdout.fits_stdout()
    }

    /// No process has been made for the command yet.
    pub open spec fn fresh(self) -> bool {
        self.pid == 0 && self.status == Status::Running
    }

    /// No endpoint is a pipe: standard input is the shell's own or a file, and
    /// so is standard output. This is all that a command line can ask for;
    /// pipes come with the launch.
    pub open spec fn unpiped(self) -> bool {
        &&& self.stdin is StdIn || self.stdin is Redirect
        &&& self.stdout is StdOut || self.stdout is Redirect
    }

    /// The program name or one of the arguments holds a NUL character.
    pub open spec fn has_nul(self) -> bool {
        self.program.contains('\0') || exists|i: int|
            0 <= i < self.args.len() && (#[trigger] self.args[i]).contains('\0')
    }

    /// The command as `program` alone: no arguments, inherited streams, no
    /// process.
    pub open spec fn bare(program: Seq<char>) -> CommandView {
        CommandView {
            program,
            args: Seq::empty(),
            stdin: StdXView::StdIn,
            stdout: StdXView::StdOut,
            pid: 0,
            status: Status::Running,
        }
    }

    /// The argument vector that the program is started with: its own name,
    /// then the arguments.
    pub open spec fn argv(self) -> Seq<Seq<char>> {
        seq![self.program] + self.args
    }
}

/// The first `n` steps of a child: the terminal signals, one after the other,
/// get their default dispositions back.
pub open spec fn policy_steps(n: nat) -> Seq<ChildStepView> {
    Seq::new(n, |i: int| ChildStepView::Policy(tty_signals()[i], Disposition::Default))
}

/// What a child does for its standard input.
pub open spec fn input_steps(stdin: StdXView) -> Seq<ChildStepView> {
    match stdin {
        StdXView::Pipe(fd) => seq![ChildStepView::Adopt { fd, onto: STDIN_FILENO }],
        StdXView::Redirect(path) => seq![ChildStepView::Read { path, onto: STDIN_FILENO }],
        _ => Seq::empty(),
    }
}

/// What a child does for its standard output.
pub open spec fn output_steps(stdout: StdXView) -> Seq<ChildStepView> {
    match stdout {
        StdXView::Pipe(fd) => seq![ChildStepView::Adopt { fd, onto: STDOUT_FILENO }],
        StdXView::Redirect(path) => seq![ChildStepView::Write { path, onto: STDOUT_FILENO }],
        _ => Seq::empty(),
    }
}

/// Everything that the child of `command` does, in order, once it has been
/// forked for the group `pgid`: the terminal signals get their default
/// dispositions back, the child joins the group, standard input and standard
/// output are bound, and the program takes over.
pub open spec fn child_steps(command: CommandView, pgid: i32) -> Seq<ChildStepView> {
    policy_steps(5) + seq![ChildStepView::JoinGroup(pgid)]
        + input_steps(command.stdin)
        + output_steps(command.stdout)
        + seq![ChildStepView::Exec(command.argv())]
}

impl View for Command {
    type V = CommandView;

    closed spec fn view(&self) -> CommandView {
        CommandView {
            program: self.program@,
            args: texts(self.args@),
            stdin: self.stdin@,
            stdout: self.stdout@,
            pid: self.pid,
            status: self.status,
        }
    }
}

/// The mathematical values of a list of commands.
pub open spec fn views(commands: Seq<Command>) -> Seq<CommandView> {
    Seq::new(commands.len(), |i: int| commands[i]@)
}

/// Whether a NUL character occurs in `text`.
fn holds_nul(text: &str) -> (found: bool)
    ensures
        found == text@.contains('\0'),
{
    let mut found: bool = false;
    for c in it: text.chars()
        invariant
            it.seq() == text@,
            found == it.seq().take(it.index() as int).contains('\0'),
    {
        proof {
            let before = it.seq().take(it.index() as int);
            let after = it.seq().take(it.index() as int + 1);
            assert(after =~= before.push(c));
            assert(after.contains('\0') == (before.contains('\0') || c == '\0')) by {
                if before.contains('\0') {
                    let k = choose|k: int| 0 <= k < before.len() && before[k] == '\0';
                    assert(after[k] == '\0');
                }
                if c == '\0' {
                    assert(after[after.len() - 1] == '\0');
                }
            }
        }
        if c == '\0' {
            found = true;
        }
    }
    assert(text@.take(text@.len() as int) =~= text@);
    found
}

/// Whether a NUL character occurs in one of the strings of `list`.
fn any_holds_nul(list: &Vec<String>) -> (found: bool)
    ensures
        found == exists|i: int| 0 <= i < list@.len() && (#[trigger] texts(list@)[i]).contains('\0'),
{
    let mut i: usize = 0;
    while i < list.len()
        invariant
            i <= list.len(),
            forall|k: int| 0 <= k < i ==> !(#[trigger] texts(list@)[k]).contains('\0'),
        decreases list.len() - i,
    {
        if holds_nul(list[i].as_str()) {
            assert(texts(list@)[i as int].contains('\0'));
            return true;
        }
        i += 1;
    }
    false
}

impl Clone for Command {
    fn clone(&self) -> (copy: Self)
        ensures
            copy@ == self@,
    {
        proof {
            use_type_invariant(self);
        }
        let mut args: Vec<String> = Vec::new();
        let mut i: usize = 0;
        while i < self.args.len()
            invariant
                i <= self.args.len(),
                args.len() == i,
                forall|k: int| 0 <= k < i ==> args@[k]@ == self.args@[k]@,
            decreases self.args.len() - i,
        {
            args.push(self.args[i].clone());
            i += 1;
        }
        assert(texts(args@) =~= texts(self.args@));
        Command {
            program: self.program.clone(),
            args,
            stdin: self.stdin.clone(),
            stdout: self.stdout.clone(),
            pid: self.pid,
            status: self.status,
        }
    }
}

impl Command {
    /// What holds of every command: each slot holds an endpoint that fits it.
    #[verifier::type_invariant]
    pub open spec fn inv(&self) -> bool {
        self@.wf()
    }

    /// The command that runs `program` without arguments, on the shell's own
    /// standard streams.
    pub fn new(program: &str) -> (command: Self)
        ensures
            command@ == CommandView::bare(program@),
    {
        let command = Command {
            program: program.to_owned(),
            args: Vec::new(),
            stdin: StdX::StdIn,
            stdout: StdX::StdOut,
            pid: 0,
            status: Status::Running,
        };
        assert(command@.args =~= Seq::empty());
        command
    }

    /// Adds one argument after those already there.
    pub fn arg(&mut self, a: &str) -> (this: &mut Self)
        ensures
            *final(self) == *final(this),
            this@ == (CommandView { args: old(self)@.args.push(a@), ..old(self)@ }),
    {
        proof {
            use_type_invariant(&*self);
        }
        let mut args: Vec<String> = Vec::new();
        std::mem::swap(&mut self.args, &mut args);
        args.push(a.to_owned());
        self.args = args;
        assert(texts(self.args@) =~= texts(old(self).args@).push(a@));
        self
    }

    /// Adds the arguments of `v`, in their order, after those already there.
    pub fn args(&mut self, v: Vec<&str>) -> (this: &mut Self)
        ensures
            *final(self) == *final(this),
            this@ == (CommandView {
                args: old(self)@.args + Seq::new(v@.len(), |i: int| v@[i]@),
                ..old(self)@
            }),
    {
        proof {
            use_type_invariant(&*self);
        }
        let mut args: Vec<String> = Vec::new();
        std::mem::swap(&mut self.args, &mut args);
        let mut i: usize = 0;
        while i < v.len()
            invariant
                i <= v.len(),
                texts(args@) == texts(old(self).args@) + Seq::new(i as nat, |k: int| v@[k]@),
            decreases v.len() - i,
        {
            let ghost before = args@;
            args.push(v[i].to_owned());
            assert(texts(args@) =~= texts(before).push(v@[i as int]@));
            assert(texts(before).push(v@[i as int]@) =~= texts(old(self).args@) + Seq::new(
                (i + 1) as nat,
                |k: int| v@[k]@,
            ));
            i += 1;
        }
        self.args = args;
        self
    }

    /// Records the pid of the command's process.
    pub fn pid(&mut self, p: i32) -> (this: &mut Self)
        ensures
            *final(self) == *final(this),
            this@ == (CommandView { pid: p, ..old(self)@ }),
    {
        proof {
            use_type_invariant(&*self);
        }
        self.pid = p;
        self
    }

    /// Records what has become of the command's process.
    pub fn status(&mut self, s: Status) -> (this: &mut Self)
        ensures
            *final(self) == *final(this),
            this@ == (CommandView { status: s, ..old(self)@ }),
    {
        proof {
            use_type_invariant(&*self);
        }
        self.status = s;
        self
    }

    /// Binds standard input to an endpoint that fits the slot.
    pub(crate) fn set_stdin(&mut self, stdx: StdX)
        requires
            stdx@.fits_stdin(),
        ensures
            final(self)@ == (CommandView { stdin: stdx@, ..old(self)@ }),
    {
        proof {
            use_type_invariant(&*self);
        }
        self.stdin = stdx;
    }

    /// Binds standard output to an endpoint that fits the slot.
    pub(crate) fn set_stdout(&mut self, stdx: StdX)
        requires
            stdx@.fits_stdout(),
        ensures
            final(self)@ == (CommandView { stdout: stdx@, ..old(self)@ }),
    {
        proof {
            use_type_invariant(&*self);
        }
        self.stdout = stdx;
    }

    /// Binds standard input. An endpoint that does not fit the slot, the
    /// shell's standard output or standard error, is refused with
    /// [`Error::InvalidEndpoint`] and the command stays as it was.
    pub fn stdin(&mut self, stdx: StdX) -> (outcome: Result<&mut Self, Error>)
        ensures
            stdx@.fits_stdin() <==> outcome is Ok,
            outcome matches Ok(this) ==> *final(self) == *final(this) && this@ == (CommandView {
                stdin: stdx@,
                ..old(self)@
            }),
            outcome matches Err(e) ==> e == Error::InvalidEndpoint && *final(self) == *old(self),
    {
        proof {
            use_type_invariant(&*self);
        }
        if stdx.fits_stdin() {
            self.stdin = stdx;
            Ok(self)
        } else {
            Err(Error::InvalidEndpoint)
        }
    }

    /// Binds standard output. An endpoint that does not fit the slot, the
    /// shell's standard input or standard error, is refused with
    /// [`Error::InvalidEndpoint`] and the command stays as it was.
    pub fn stdout(&mut self, stdx: StdX) -> (outcome: Result<&mut Self, Error>)
        ensures
            stdx@.fits_stdout() <==> outcome is Ok,
            outcome matches Ok(this) ==> *final(self) == *final(this) && this@ == (CommandView {
                stdout: stdx@,
                ..old(self)@
            }),
            outcome matches Err(e) ==> e == Error::InvalidEndpoint && *final(self) == *old(self),
    {
        proof {
            use_type_invariant(&*self);
        }
        if stdx.fits_stdout() {
            self.stdout = stdx;
            Ok(self)
        } else {
            Err(Error::InvalidEndpoint)
        }
    }

    /// Reads a line that consists of exactly one command of the grammar,
    /// white space at its two ends aside. The command that comes back has no
    /// process yet, and no pipe as an endpoint.
    pub fn parse(command: &str) -> (found: Option<Self>)
        ensures
            match single(trim(command@)) {
                Some(c) => found matches Some(read) && read@ == c,
                None => found is None,
            },
            found matches Some(read) ==> read@.fresh() && read@.unpiped(),
    {
        proof {
            lemma_parsed_fresh(trim(command@));
        }
        read_single(command)
    }

    /// Whether the program name or one of the arguments holds a NUL
    /// character.
    pub fn has_nul(&self) -> (yes: bool)
        ensures
            yes == self@.has_nul(),
    {
        holds_nul(self.program.as_str()) || any_holds_nul(&self.args)
    }

    /// What the child that is to run this command does once it has been forked
    /// for the group `pgid`, step by step. Nothing is started here: the steps
    /// are for the child to carry out. A program name or an argument with a NUL
    /// character in it cannot be handed to a program, and is refused with
    /// [`Error::NullInArgument`].
    pub fn spawn(&self, pgid: i32) -> (plan: Result<Vec<ChildStep>, Error>)
        ensures
            self@.has_nul() <==> plan is Err,
            plan matches Err(e) ==> e == Error::NullInArgument,
            plan matches Ok(p) ==> steps(p@) == child_steps(self@, pgid),
    {
        if self.has_nul() {
            return Err(Error::NullInArgument);
        }
        let settings = Signal::default();
        let mut plan: Vec<ChildStep> = Vec::new();
        let mut i: usize = 0;
        while i < settings.len()
            invariant
                settings@ == policy(Disposition::Default),
                i <= 5,
                steps(plan@) == policy_steps(i as nat),
            decreases 5 - i,
        {
            let ghost before = steps(plan@);
            let setting = settings[i];
            plan.push(ChildStep::Policy(setting.0, setting.1));
            assert(setting == (tty_signals()[i as int], Disposition::Default));
            assert(steps(plan@) =~= before.push(
                ChildStepView::Policy(tty_signals()[i as int], Disposition::Default),
            ));
            assert(steps(plan@) =~= policy_steps((i + 1) as nat));
            i += 1;
        }
        let ghost signals = steps(plan@);
        plan.push(ChildStep::JoinGroup(pgid));
        assert(steps(plan@) =~= signals + seq![ChildStepView::JoinGroup(pgid)]);
        let ghost grouped = steps(plan@);
        match &self.stdin {
            StdX::Pipe(fd) => {
                plan.push(ChildStep::Adopt { fd: *fd, onto: STDIN_FILENO });
            },
            StdX::Redirect(path) => {
                plan.push(ChildStep::Read { path: path.clone(), onto: STDIN_FILENO });
            },
            _ => {},
        }
        assert(steps(plan@) =~= grouped + input_steps(self@.stdin));
        let ghost fed = steps(plan@);
        match &self.stdout {
            StdX::Pipe(fd) => {
                plan.push(ChildStep::Adopt { fd: *fd, onto: STDOUT_FILENO });
            },
            StdX::Redirect(path) => {
                plan.push(ChildStep::Write { path: path.clone(), onto: STDOUT_FILENO });
            },
            _ => {},
        }
        assert(steps(plan@) =~= fed + output_steps(self@.stdout));
        let ghost bound = steps(plan@);
        let mut argv: Vec<String> = Vec::new();
        argv.push(self.program.clone());
        let mut k: usize = 0;
        while k < self.args.len()
            invariant
                k <= self.args.len(),
                texts(argv@) == seq![self.program@] + texts(self.args@).take(k as int),
            decreases self.args.len() - k,
        {
            let ghost before = texts(argv@);
            argv.push(self.args[k].clone());
            assert(texts(argv@) =~= before.push(self.args@[k as int]@));
            assert(texts(self.args@).take(k + 1) =~= texts(self.args@).take(k as int).push(
                self.args@[k as int]@,
            ));
            assert(texts(argv@) =~= seq![self.program@] + texts(self.args@).take(k + 1));
            k += 1;
        }
        assert(texts(self.args@).take(self.args@.len() as int) =~= texts(self.args@));
        plan.push(ChildStep::Exec(argv));
        assert(steps(plan@) =~= bound + seq![ChildStepView::Exec(self@.argv())]);
        Ok(plan)
    }

    /// Whether the process has exited.
    pub fn is_completed(&self) -> (yes: bool)
        ensures
            yes == (self@.status == Status::Completed),
    {
        self.status == Status::Completed
    }

    /// Whether the process is stopped.
    pub fn is_suspended(&self) -> (yes: bool)
        ensures
            yes == (self@.status == Status::Suspended),
    {
        self.status == Status::Suspended
    }

    /// Whether the process was killed by a signal.
    pub fn is_terminated(&self) -> (yes: bool)
        ensures
            yes == (self@.status == Status::Terminated),
    {
        self.status == Status::Terminated
    }

    /// Whether the process is still to be waited for.
    pub fn is_running(&self) -> (yes: bool)
        ensures
            yes == (self@.status == Status::Running),
    {
        self.status == Status::Running
    }

    /// The name of the program.
    pub fn get_program(&self) -> (program: &str)
        ensures
            program@ == self@.program,
    {
        self.program.as_str()
    }

    /// The arguments.
    pub fn get_args(&self) -> (args: &Vec<String>)
        ensures
            texts(args@) == self@.args,
    {
        &self.args
    }

    /// Where standard input comes from.
    pub fn get_stdin(&self) -> (stdin: &StdX)
        ensures
            stdin@ == self@.stdin,
            stdin@.fits_stdin(),
    {
        proof {
            use_type_invariant(self);
        }
        &self.stdin
    }

    /// Where standard output goes to.
    pub fn get_stdout(&self) -> (stdout: &StdX)
        ensures
            stdout@ == self@.stdout,
            stdout@.fits_stdout(),
    {
        proof {
            use_type_invariant(self);
        }
        &self.stdout
    }

    /// The pid of the process, zero as long as there is none.
    pub fn get_pid(&self) -> (pid: i32)
        ensures
            pid == self@.pid,
    {
        self.pid
    }

    /// What the shell knows of the process.
    pub fn get_status(&self) -> (status: Status)
        ensures
            status == self@.status,
    {
        self.status
    }
}

} // verus!
