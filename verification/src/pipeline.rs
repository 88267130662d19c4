//! A job: one or more commands, each feeding the next, run as one process
//! group.

use vstd::prelude::*;
use crate::canon::{
    canonical, canonical_command, command_text, is_canonical, lemma_background_mark,
    lemma_round_trip, pipeline_text, rest_text, write_command,
};
use crate::command::{views, Command, CommandView, Status};
use crate::error::Error;
use crate::grammar::{lemma_parsed_fresh, pipeline, read_pipeline, trim};
use crate::host::{Reaped, Reply, Request};
use crate::numeral::{digits, numeral, write_digits, write_numeral};
use crate::stdx::{StdX, StdXView};

verus! {

/// How far the launch of a pipeline has come.
#[derive(Debug, Clone, Copy, PartialEq, Eq, Structural)]
pub enum Stage {
    /// Nothing has been asked for yet.
    Idle,
    /// A pipe was asked for.
    Piping,
    /// A fork was asked for.
    Forking,
    /// The child's place in the group was asked for.
    Grouping,
    /// The closing of a descriptor was asked for.
    Closing,
    /// The launch is over.
    Over,
}

/// The books of a launch: which command is being started, which descriptors
/// of pipes the shell still holds, and whether something has failed.
#[derive(Debug, Clone, Copy, PartialEq, Eq)]
pub struct Launch {
    /// What the host was last asked for.
    pub stage: Stage,
    /// The index of the command that is being started.
    pub next: usize,
    /// The read end of the pipe before that command, as long as it is open.
    pub carried: Option<i32>,
    /// The read end of the pipe after that command, as long as it is open.
    pub read: Option<i32>,
    /// The write end of the pipe after that command, as long as it is open.
    pub write: Option<i32>,
    /// What has failed; from then on the launch only closes what it holds.
    pub failure: Option<Error>,
}

impl Launch {
    /// The books before a launch: nothing asked for, nothing held.
    pub open spec fn idle() -> Launch {
        Launch {
            stage: Stage::Idle,
            next: 0,
            carried: None,
            read: None,
            write: None,
            failure: None,
        }
    }

    /// The books before a launch.
    pub fn new() -> (books: Launch)
        ensures
            books == Launch::idle(),
    {
        Launch { stage: Stage::Idle, next: 0, carried: None, read: None, write: None, failure: None }
    }

    /// Whether these are the books before a launch.
    pub fn is_idle(&self) -> (yes: bool)
        ensures
            yes == (*self == Launch::idle()),
    {
        let untouched = match self.stage {
            Stage::Idle => true,
            _ => false,
        };
        untouched && self.next == 0 && self.carried.is_none() && self.read.is_none()
            && self.write.is_none() && self.failure.is_none()
    }
}

/// How far the stay of a pipeline in the foreground has come.
#[derive(Debug, Clone, Copy, PartialEq, Eq)]
pub enum Front {
    /// The pipeline is not in the foreground.
    Idle,
    /// The terminal was asked for.
    Handing,
    /// A report on a child was asked for.
    Waiting,
    /// The terminal's return to the shell was asked for; with it comes what
    /// has failed before, if anything.
    Restoring(Option<Error>),
}

/// A pipeline of commands with what the shell knows of it as a job.
#[derive(Debug, PartialEq)]
pub struct Pipeline {
    commands: Vec<Command>,
    background: bool,
    jobid: u32,
    pgid: i32,
    launch: Launch,
    front: Front,
}

/// The mathematical value of a [`Pipeline`].
#[verifier::ext_equal]
pub struct PipelineView {
    /// The commands, first to last.
    pub commands: Seq<CommandView>,
    /// Whether the pipeline was asked to run in the background.
    pub background: bool,
    /// The number of the job; zero as long as it has none.
    pub jobid: u32,
    /// The process group; zero until the first child is there, then its pid.
    pub pgid: i32,
    /// The books of the launch.
    pub launch: Launch,
    /// The state of the stay in the foreground.
    pub front: Front,
}

impl PipelineView {
    /// The pipeline of these commands as a parser or a builder makes it: no
    /// job number, no group, nothing launched.
    pub open spec fn fresh(commands: Seq<CommandView>, background: bool) -> PipelineView {
        PipelineView {
            commands,
            background,
            jobid: 0,
            pgid: 0,
            launch: Launch::idle(),
            front: Front::Idle,
        }
    }

    /// There is a command, and the command that the launch is at exists.
    pub open spec fn wf(self) -> bool {
        &&& 1 <= self.commands.len() <= usize::MAX
        &&& match self.launch.stage {
            Stage::Idle => true,
            Stage::Piping => self.launch.next + 1 < self.commands.len(),
            Stage::Forking => self.launch.next < self.commands.len(),
            Stage::Grouping => self.launch.next < self.commands.len(),
            Stage::Closing => self.launch.next < self.commands.len(),
            Stage::Over => true,
        }
    }

    /// The pids of the commands, first to last.
    pub open spec fn pids(self) -> Seq<i32> {
        Seq::new(self.commands.len(), |i: int| self.commands[i].pid)
    }

    /// Every command has exited.
    pub open spec fn completed(self) -> bool {
        forall|i: int| 0 <= i < self.commands.len() ==> (#[trigger] self.commands[i]).status
            == Status::Completed
    }

    /// At least one command is stopped.
    pub open spec fn suspended(self) -> bool {
        exists|i: int| 0 <= i < self.commands.len() && (#[trigger] self.commands[i]).status
            == Status::Suspended
    }

    /// At least one command is still to be waited for.
    pub open spec fn running(self) -> bool {
        exists|i: int| 0 <= i < self.commands.len() && (#[trigger] self.commands[i]).status
            == Status::Running
    }

    /// One of the commands has the pid `pid`.
    pub open spec fn has_child(self, pid: i32) -> bool {
        exists|i: int| 0 <= i < self.commands.len() && (#[trigger] self.commands[i]).pid == pid
    }

    /// The text of the pipeline.
    pub open spec fn text(self) -> Seq<char> {
        pipeline_text(self.commands, self.background)
    }

    /// The text of the pipeline says all there is to say of it: its commands
    /// are canonical and nothing has happened to it as a job.
    pub open spec fn canonical(self) -> bool {
        &&& canonical(self.commands)
        &&& self.jobid == 0
        &&& self.pgid == 0
        &&& self.launch == Launch::idle()
        &&& self.front == Front::Idle
    }
}

/// What a report on a child makes of the child's command.
pub open spec fn status_after(report: Reaped) -> Status {
    match report {
        Reaped::Exited(_) => Status::Completed,
        Reaped::Stopped(_) => Status::Suspended,
        Reaped::Signaled(_) => Status::Terminated,
    }
}

/// The index of the first command from `from` on that has the pid `pid`; the
/// number of commands where there is none.
pub open spec fn owner_from(commands: Seq<CommandView>, pid: i32, from: int) -> int
    decreases commands.len() - from,
{
    if from < 0 || from >= commands.len() || commands[from].pid == pid {
        from
    } else {
        owner_from(commands, pid, from + 1)
    }
}

impl PipelineView {
    /// The pipeline with other books of the launch.
    pub open spec fn with_launch(self, launch: Launch) -> PipelineView {
        PipelineView { launch, ..self }
    }

    /// The pipeline with another state of the stay in the foreground.
    pub open spec fn with_front(self, front: Front) -> PipelineView {
        PipelineView { front, ..self }
    }

    /// The pipeline with `command` in place of the command at `index`.
    pub open spec fn with_command(self, index: int, command: CommandView) -> PipelineView {
        PipelineView { commands: self.commands.update(index, command), ..self }
    }

    /// A program name or an argument of some command holds a NUL character.
    pub open spec fn has_nul(self) -> bool {
        exists|i: int| 0 <= i < self.commands.len() && (#[trigger] self.commands[i]).has_nul()
    }

    // ----- waiting -----

    /// The pipeline after a report on a child: the first command with the
    /// child's pid has the status that the report gives it.
    pub open spec fn reaped(self, report: Reaped) -> PipelineView {
        let index = owner_from(self.commands, report.pid(), 0);
        if 0 <= index < self.commands.len() {
            self.with_command(
                index,
                CommandView { status: status_after(report), ..self.commands[index] },
            )
        } else {
            self
        }
    }

    /// What a wait asks for next: another report as long as a command is
    /// running, nothing more once none is.
    pub open spec fn wait_request(self) -> Request {
        if self.running() {
            Request::Reap(self.pgid)
        } else {
            Request::Settled
        }
    }

    /// One step of a wait: the pipeline after the host's reply, and the next
    /// request.
    pub open spec fn wait_step(self, reply: Reply) -> (PipelineView, Request) {
        match reply {
            Reply::Start => (self, self.wait_request()),
            Reply::Reaped(report) => (self.reaped(report), self.reaped(report).wait_request()),
            _ => (self, Request::Failed(Error::WaitFailed)),
        }
    }

    // ----- the foreground -----

    /// A step of a stay in the foreground that waits.
    pub open spec fn fg_wait(self, reply: Reply) -> (PipelineView, Request) {
        let (after, request) = self.wait_step(reply);
        match request {
            Request::Reap(pgid) => (after.with_front(Front::Waiting), request),
            Request::Settled => (after.with_front(Front::Restoring(None)), Request::Reclaim),
            Request::Failed(e) => (after.with_front(Front::Restoring(Some(e))), Request::Reclaim),
            _ => (after.with_front(Front::Restoring(Some(Error::WaitFailed))), Request::Reclaim),
        }
    }

    /// One step of a stay in the foreground: the pipeline after the host's
    /// reply, and the next request. The terminal goes to the pipeline's group,
    /// the pipeline is waited for, and the terminal goes back to the shell,
    /// whatever has failed on the way.
    pub open spec fn fg_step(self, reply: Reply) -> (PipelineView, Request) {
        match self.front {
            Front::Idle => (self.with_front(Front::Handing), Request::Foreground(self.pgid)),
            Front::Handing => match reply {
                Reply::Done => self.fg_wait(Reply::Start),
                _ => (
                    self.with_front(Front::Restoring(Some(Error::TcsetpgrpFailed))),
                    Request::Reclaim,
                ),
            },
            Front::Waiting => self.fg_wait(reply),
            Front::Restoring(failure) => (
                self.with_front(Front::Idle),
                match failure {
                    Some(e) => Request::Failed(e),
                    None => match reply {
                        Reply::Done => Request::Settled,
                        _ => Request::Failed(Error::TcsetpgrpFailed),
                    },
                },
            ),
        }
    }

    // ----- the launch -----

    /// Asks for what the command that the launch is at needs first: a pipe,
    /// if another command follows it, else its fork.
    pub open spec fn advance(self) -> (PipelineView, Request) {
        if self.launch.next + 1 < self.commands.len() {
            (self.with_launch(Launch { stage: Stage::Piping, ..self.launch }), Request::Pipe)
        } else {
            (
                self.with_launch(Launch { stage: Stage::Forking, ..self.launch }),
                Request::Fork { index: self.launch.next, pgid: self.pgid },
            )
        }
    }

    /// Goes on after a child has found its group, or a descriptor was closed.
    ///
    /// After a failure, the launch closes what it holds, the write end first
    /// and the carried read end last, and then reports the failure. Without
    /// one, it closes the write end of the pipe after the command and then the
    /// read end of the pipe before it, carries the read end of the pipe after
    /// it over to the next command, and turns to that command; after the last
    /// command the launch is over.
    pub open spec fn settle(self) -> (PipelineView, Request) {
        let l = self.launch;
        match l.failure {
            Some(e) => match l.write {
                Some(fd) => (
                    self.with_launch(Launch { stage: Stage::Closing, write: None, ..l }),
                    Request::Close(fd),
                ),
                None => match l.read {
                    Some(fd) => (
                        self.with_launch(Launch { stage: Stage::Closing, read: None, ..l }),
                        Request::Close(fd),
                    ),
                    None => match l.carried {
                        Some(fd) => (
                            self.with_launch(Launch { stage: Stage::Closing, carried: None, ..l }),
                            Request::Close(fd),
                        ),
                        None => (
                            self.with_launch(Launch { stage: Stage::Over, ..l }),
                            Request::Failed(e),
                        ),
                    },
                },
            },
            None => match l.write {
                Some(fd) => (
                    self.with_launch(Launch { stage: Stage::Closing, write: None, ..l }),
                    Request::Close(fd),
                ),
                None => match l.carried {
                    Some(fd) => (
                        self.with_launch(Launch { stage: Stage::Closing, carried: None, ..l }),
                        Request::Close(fd),
                    ),
                    None => {
                        let moved = Launch {
                            carried: l.read,
                            read: None,
                            next: (l.next + 1) as usize,
                            ..l
                        };
                        if l.next + 1 >= self.commands.len() {
                            (
                                self.with_launch(Launch { stage: Stage::Over, ..moved }),
                                Request::Spawned,
                            )
                        } else {
                            self.with_launch(moved).advance()
                        }
                    },
                },
            },
        }
    }

    /// Gives the launch up for `e`, unless it has been given up already.
    pub open spec fn fail(self, e: Error) -> (PipelineView, Request) {
        let failure = match self.launch.failure {
            Some(first) => first,
            None => e,
        };
        self.with_launch(Launch { failure: Some(failure), ..self.launch }).settle()
    }

    /// The launch after a pipe was made: its write end is the standard output
    /// of the command that the launch is at, its read end the standard input
    /// of the command after it, and the fork of the first of the two is asked
    /// for. What the two commands had for these streams before, a redirection
    /// too, gives way to the pipe.
    pub open spec fn piped(self, read: i32, write: i32) -> (PipelineView, Request) {
        let i = self.launch.next as int;
        let writer = CommandView { stdout: StdXView::Pipe(write), ..self.commands[i] };
        let reader = CommandView { stdin: StdXView::Pipe(read), ..self.commands[i + 1] };
        (
            PipelineView {
                commands: self.commands.update(i, writer).update(i + 1, reader),
                launch: Launch {
                    stage: Stage::Forking,
                    read: Some(read),
                    write: Some(write),
                    ..self.launch
                },
                ..self
            },
            Request::Fork { index: self.launch.next, pgid: self.pgid },
        )
    }

    /// The launch after a fork: the command has its pid, the first child's pid
    /// is the pipeline's group, and the child's place in the group is asked
    /// for.
    pub open spec fn forked(self, pid: i32) -> (PipelineView, Request) {
        let i = self.launch.next as int;
        (
            PipelineView {
                commands: self.commands.update(i, CommandView { pid, ..self.commands[i] }),
                pgid: if self.pgid == 0 {
                    pid
                } else {
                    self.pgid
                },
                launch: Launch { stage: Stage::Grouping, ..self.launch },
                ..self
            },
            Request::SetGroup { pid, pgid: self.pgid },
        )
    }

    /// One step of a launch: the pipeline after the host's reply, and the
    /// next request.
    pub open spec fn spawn_step(self, reply: Reply) -> (PipelineView, Request) {
        match self.launch.stage {
            Stage::Idle => if self.has_nul() {
                (
                    self.with_launch(
                        Launch {
                            stage: Stage::Over,
                            failure: Some(Error::NullInArgument),
                            ..Launch::idle()
                        },
                    ),
                    Request::Failed(Error::NullInArgument),
                )
            } else {
                (PipelineView { pgid: 0, launch: Launch::idle(), ..self }).advance()
            },
            Stage::Piping => match reply {
                Reply::Pipe { read, write } => self.piped(read, write),
                _ => self.fail(Error::PipeFailed),
            },
            Stage::Forking => match reply {
                Reply::Child(pid) => if pid > 0 {
                    self.forked(pid)
                } else {
                    self.fail(Error::ForkFailed)
                },
                _ => self.fail(Error::ForkFailed),
            },
            Stage::Grouping => match reply {
                Reply::Done => self.settle(),
                Reply::Denied => self.settle(),
                _ => self.fail(Error::SetpgidFailed),
            },
            Stage::Closing => match reply {
                Reply::Done => self.settle(),
                _ => self.fail(Error::CloseFailed),
            },
            Stage::Over => (
                self,
                match self.launch.failure {
                    Some(e) => Request::Failed(e),
                    None => Request::Spawned,
                },
            ),
        }
    }
}

/// What a line says as a pipeline: the grammar applied to the trimmed line,
/// `None` where the line is no pipeline.
pub open spec fn parsed(line: Seq<char>) -> Option<PipelineView> {
    match pipeline(trim(line)) {
        Some(said) => Some(PipelineView::fresh(said.commands, said.background)),
        None => None,
    }
}

/// The line that announces a pipeline as a job: its number in brackets, the
/// pid of its group's leader, and the text of its commands.
pub open spec fn announcement(p: PipelineView) -> Seq<char> {
    "["@ + digits(p.jobid as nat) + "]  + "@ + numeral(p.pgid as int) + " suspended  "@
        + pipeline_text(p.commands, false)
}

/// Parsing inverts writing: the canonical text of a pipeline, parsed, is the
/// pipeline.
pub proof fn lemma_parse_inverts_to_line(p: PipelineView)
    requires
        p.canonical(),
    ensures
        parsed(p.text()) == Some(p),
{
    lemma_round_trip(p.commands, p.background);
}

impl View for Pipeline {
    type V = PipelineView;

    closed spec fn view(&self) -> PipelineView {
        PipelineView {
            commands: views(self.commands@),
            background: self.background,
            jobid: self.jobid,
            pgid: self.pgid,
            launch: self.launch,
            front: self.front,
        }
    }
}

impl Pipeline {
    /// What holds of every pipeline: there is a command, and the command
    /// that the launch is at exists.
    #[verifier::type_invariant]
    pub open spec fn inv(&self) -> bool {
        self@.wf()
    }

    /// The pipeline of one command, for the foreground.
    pub fn new(first: Command) -> (pipeline: Self)
        ensures
            pipeline@ == PipelineView::fresh(seq![first@], false),
    {
        proof {
            use_type_invariant(&first);
        }
        let mut commands: Vec<Command> = Vec::new();
        commands.push(first);
        assert(views(commands@) =~= seq![first@]);
        Pipeline {
            commands,
            background: false,
            jobid: 0,
            pgid: 0,
            launch: Launch::new(),
            front: Front::Idle,
        }
    }

    /// The pipeline with one more command at its end, which will read what
    /// the command before it writes.
    pub fn pipe(self, next: Command) -> (longer: Self)
        ensures
            longer@ == (PipelineView { commands: self@.commands.push(next@), ..self@ }),
    {
        proof {
            use_type_invariant(&self);
            use_type_invariant(&next);
        }
        let Pipeline { commands, background, jobid, pgid, launch, front } = self;
        let mut commands = commands;
        let ghost before = views(commands@);
        commands.push(next);
        assert(views(commands@) =~= before.push(next@));
        assert(commands@.len() == commands.len());
        Pipeline { commands, background, jobid, pgid, launch, front }
    }

    /// Says whether the pipeline is to run in the background.
    pub fn background(&mut self, yes: bool) -> (this: &mut Self)
        ensures
            *final(self) == *final(this),
            this@ == (PipelineView { background: yes, ..old(self)@ }),
    {
        proof {
            use_type_invariant(&*self);
        }
        self.background = yes;
        self
    }

    /// Records the process group of the pipeline.
    pub fn pgid(&mut self, p: i32) -> (this: &mut Self)
        ensures
            *final(self) == *final(this),
            this@ == (PipelineView { pgid: p, ..old(self)@ }),
    {
        proof {
            use_type_invariant(&*self);
        }
        self.pgid = p;
        self
    }

    /// Records the number that the shell gives the job.
    pub fn jobid(&mut self, id: u32) -> (this: &mut Self)
        ensures
            *final(self) == *final(this),
            this@ == (PipelineView { jobid: id, ..old(self)@ }),
    {
        proof {
            use_type_invariant(&*self);
        }
        self.jobid = id;
        self
    }

    /// Reads a line as a pipeline. What comes back is as the grammar says,
    /// and fresh: no command has a process, every status is
    /// [`Status::Running`], no endpoint is a pipe, and there is neither a job
    /// number nor a group yet.
    pub fn parse(pipeline: &str) -> (found: Option<Self>)
        ensures
            match parsed(pipeline@) {
                Some(said) => found matches Some(read) && read@ == said,
                None => found is None,
            },
            found matches Some(read) ==> forall|i: int|
                0 <= i < read@.commands.len() ==> (#[trigger] read@.commands[i]).fresh()
                    && read@.commands[i].unpiped(),
    {
        match read_pipeline(pipeline) {
            Some((commands, background)) => {
                proof {
                    lemma_parsed_fresh(trim(pipeline@));
                    assert(commands@.len() == commands.len());
                }
                Some(
                    Pipeline {
                        commands,
                        background,
                        jobid: 0,
                        pgid: 0,
                        launch: Launch::new(),
                        front: Front::Idle,
                    },
                )
            },
            None => None,
        }
    }

    /// The text of the commands: each with its arguments and redirections,
    /// ` | ` between them.
    fn commands_line(&self) -> (text: String)
        ensures
            text@ == pipeline_text(self@.commands, false),
    {
        proof {
            use_type_invariant(self);
            reveal_strlit(" | ");
            assert(" | "@ =~= seq![' ', '|', ' ']);
        }
        let mut text = String::new();
        write_command(&mut text, &self.commands[0]);
        let mut i: usize = 1;
        assert(text@ =~= command_text(self@.commands[0]));
        assert(self@.commands.skip(1) =~= self@.commands.drop_first());
        while i < self.commands.len()
            invariant
                1 <= i <= self.commands.len(),
                " | "@ == seq![' ', '|', ' '],
                text@ + rest_text(self@.commands.skip(i as int), false) == pipeline_text(
                    self@.commands,
                    false,
                ),
            decreases self.commands.len() - i,
        {
            let ghost before = text@;
            let ghost left = self@.commands.skip(i as int);
            text.append(" | ");
            write_command(&mut text, &self.commands[i]);
            proof {
                assert(left[0] == self@.commands[i as int]);
                assert(left.drop_first() =~= self@.commands.skip(i + 1));
                assert(text@ + rest_text(self@.commands.skip(i + 1), false) =~= before + rest_text(
                    left,
                    false,
                ));
            }
            i += 1;
        }
        assert(text@ =~= pipeline_text(self@.commands, false));
        text
    }

    /// The text of the pipeline: its commands with their arguments and
    /// redirections, ` | ` between them, and ` &` at the end if it is for the
    /// background.
    pub fn line(&self) -> (text: String)
        ensures
            text@ == self@.text(),
    {
        let mut text = self.commands_line();
        if self.background {
            proof {
                reveal_strlit(" &");
                assert(" &"@ =~= seq![' ', '&']);
                lemma_background_mark(self@.commands);
            }
            text.append(" &");
        }
        text
    }

    /// The canonical text of the pipeline, where it has one: where every token
    /// is plain, no endpoint is a pipe, and nothing has happened to the
    /// pipeline as a job. Parsing that text gives the pipeline back.
    pub fn to_line(&self) -> (text: Option<String>)
        ensures
            match text {
                Some(line) => self@.canonical() && line@ == self@.text() && parsed(line@) == Some(
                    self@,
                ),
                None => !self@.canonical(),
            },
    {
        proof {
            use_type_invariant(self);
            if self@.canonical() {
                lemma_parse_inverts_to_line(self@);
            }
        }
        let mut i: usize = 0;
        while i < self.commands.len()
            invariant
                i <= self.commands.len(),
                forall|k: int| 0 <= k < i ==> canonical_command(
                    #[trigger] self@.commands[k],
                ),
            decreases self.commands.len() - i,
        {
            if !is_canonical(&self.commands[i]) {
                assert(!canonical_command(self@.commands[i as int]));
                return None;
            }
            i += 1;
        }
        let idle = self.launch.is_idle();
        let away = match self.front {
            Front::Idle => true,
            _ => false,
        };
        if self.jobid == 0 && self.pgid == 0 && idle && away {
            Some(self.line())
        } else {
            None
        }
    }

    /// The line that announces the pipeline as a job:
    /// `[<jobid>]  + <pid> suspended  <command>`, with the pid of the leader of
    /// the pipeline's group and the text of the commands.
    pub fn bg(&self) -> (line: String)
        ensures
            line@ == announcement(self@),
    {
        let mut line = String::new();
        line.append("[");
        write_digits(&mut line, self.jobid as u64);
        line.append("]  + ");
        write_numeral(&mut line, self.pgid);
        line.append(" suspended  ");
        let text = self.commands_line();
        line.append(text.as_str());
        assert(line@ =~= announcement(self@));
        line
    }

    /// One step of a wait for the pipeline's children.
    ///
    /// The first call takes [`Reply::Start`]. As long as a command is running
    /// the request is [`Request::Reap`] for the pipeline's group, and the next
    /// call takes the report; a report makes the command of that child
    /// completed, suspended or terminated. Once no command is running the
    /// request is [`Request::Settled`]. Anything but a report or the start
    /// counts as a failed wait.
    ///
    /// A report is always on a child of this pipeline.
    pub fn wait(&mut self, reply: Reply) -> (request: Request)
        requires
            reply matches Reply::Reaped(report) ==> old(self)@.has_child(report.pid()),
        ensures
            (final(self)@, request) == old(self)@.wait_step(reply),
            request == Request::Settled ==> !final(self)@.running(),
    {
        proof {
            use_type_invariant(&*self);
        }
        match reply {
            Reply::Start => {},
            Reply::Reaped(report) => {
                self.reap(report);
            },
            _ => {
                return Request::Failed(Error::WaitFailed);
            },
        }
        if self.is_running() {
            Request::Reap(self.pgid)
        } else {
            Request::Settled
        }
    }

    /// Takes a report on a child into the books.
    fn reap(&mut self, report: Reaped)
        ensures
            final(self)@ == old(self)@.reaped(report),
    {
        proof {
            use_type_invariant(&*self);
        }
        let (pid, status) = match report {
            Reaped::Exited(pid) => (pid, Status::Completed),
            Reaped::Stopped(pid) => (pid, Status::Suspended),
            Reaped::Signaled(pid) => (pid, Status::Terminated),
        };
        let mut i: usize = 0;
        while i < self.commands.len() && self.commands[i].get_pid() != pid
            invariant
                i <= self.commands.len(),
                *self == *old(self),
                owner_from(self@.commands, pid, 0) == owner_from(self@.commands, pid, i as int),
            decreases self.commands.len() - i,
        {
            i += 1;
        }
        if i < self.commands.len() {
            self.commands[i].status(status);
            assert(self@.commands =~= old(self)@.commands.update(
                i as int,
                CommandView { status, ..old(self)@.commands[i as int] },
            ));
        }
    }

    /// One step of a stay of the pipeline in the foreground.
    ///
    /// The first call takes [`Reply::Start`] and asks for the terminal with
    /// [`Request::Foreground`]. Then the pipeline is waited for as [`wait`]
    /// does it. Whether the wait ends well or not, and even where the terminal
    /// could not be had, [`Request::Reclaim`] comes next; only after it the
    /// stay ends, with [`Request::Settled`] or with the first failure.
    ///
    /// A report is always on a child of this pipeline.
    ///
    /// [`wait`]: Pipeline::wait
    pub fn fg(&mut self, reply: Reply) -> (request: Request)
        requires
            old(self)@.front is Waiting ==> (reply matches Reply::Reaped(report)
                ==> old(self)@.has_child(report.pid())),
        ensures
            (final(self)@, request) == old(self)@.fg_step(reply),
    {
        proof {
            use_type_invariant(&*self);
        }
        match self.front {
            Front::Idle => {
                self.front = Front::Handing;
                Request::Foreground(self.pgid)
            },
            Front::Handing => match reply {
                Reply::Done => self.fg_wait(Reply::Start),
                _ => {
                    self.front = Front::Restoring(Some(Error::TcsetpgrpFailed));
                    Request::Reclaim
                },
            },
            Front::Waiting => self.fg_wait(reply),
            Front::Restoring(failure) => {
                self.front = Front::Idle;
                match failure {
                    Some(e) => Request::Failed(e),
                    None => match reply {
                        Reply::Done => Request::Settled,
                        _ => Request::Failed(Error::TcsetpgrpFailed),
                    },
                }
            },
        }
    }

    /// A step of a stay in the foreground that waits.
    fn fg_wait(&mut self, reply: Reply) -> (request: Request)
        requires
            reply matches Reply::Reaped(report) ==> old(self)@.has_child(report.pid()),
        ensures
            (final(self)@, request) == old(self)@.fg_wait(reply),
    {
        let request = self.wait(reply);
        proof {
            use_type_invariant(&*self);
        }
        match request {
            Request::Reap(pgid) => {
                self.front = Front::Waiting;
                request
            },
            Request::Settled => {
                self.front = Front::Restoring(None);
                Request::Reclaim
            },
            Request::Failed(e) => {
                self.front = Front::Restoring(Some(e));
                Request::Reclaim
            },
            _ => {
                self.front = Front::Restoring(Some(Error::WaitFailed));
                Request::Reclaim
            },
        }
    }

    /// Whether a program name or an argument of some command holds a NUL
    /// character.
    fn any_nul(&self) -> (yes: bool)
        ensures
            yes == self@.has_nul(),
    {
        let mut i: usize = 0;
        while i < self.commands.len()
            invariant
                i <= self.commands.len(),
                forall|k: int| 0 <= k < i ==> !(#[trigger] self@.commands[k]).has_nul(),
            decreases self.commands.len() - i,
        {
            if self.commands[i].has_nul() {
                assert(self@.commands[i as int].has_nul());
                return true;
            }
            i += 1;
        }
        false
    }

    /// Asks for what the command that the launch is at needs first.
    fn advance(&mut self) -> (request: Request)
        requires
            old(self).launch.next < old(self).commands.len(),
        ensures
            (final(self)@, request) == old(self)@.advance(),
    {
        proof {
            use_type_invariant(&*self);
        }
        if self.launch.next + 1 < self.commands.len() {
            self.launch = Launch { stage: Stage::Piping, ..self.launch };
            Request::Pipe
        } else {
            self.launch = Launch { stage: Stage::Forking, ..self.launch };
            Request::Fork { index: self.launch.next, pgid: self.pgid }
        }
    }

    /// Goes on after a child has found its group, or a descriptor was closed.
    fn settle(&mut self) -> (request: Request)
        requires
            old(self).launch.next < old(self).commands.len(),
        ensures
            (final(self)@, request) == old(self)@.settle(),
    {
        proof {
            use_type_invariant(&*self);
        }
        let l = self.launch;
        match l.failure {
            Some(e) => match l.write {
                Some(fd) => {
                    self.launch = Launch { stage: Stage::Closing, write: None, ..l };
                    Request::Close(fd)
                },
                None => match l.read {
                    Some(fd) => {
                        self.launch = Launch { stage: Stage::Closing, read: None, ..l };
                        Request::Close(fd)
                    },
                    None => match l.carried {
                        Some(fd) => {
                            self.launch = Launch { stage: Stage::Closing, carried: None, ..l };
                            Request::Close(fd)
                        },
                        None => {
                            self.launch = Launch { stage: Stage::Over, ..l };
                            Request::Failed(e)
                        },
                    },
                },
            },
            None => match l.write {
                Some(fd) => {
                    self.launch = Launch { stage: Stage::Closing, write: None, ..l };
                    Request::Close(fd)
                },
                None => match l.carried {
                    Some(fd) => {
                        self.launch = Launch { stage: Stage::Closing, carried: None, ..l };
                        Request::Close(fd)
                    },
                    None => {
                        let moved = Launch { carried: l.read, read: None, next: l.next + 1, ..l };
                        if l.next + 1 >= self.commands.len() {
                            self.launch = Launch { stage: Stage::Over, ..moved };
                            Request::Spawned
                        } else {
                            self.launch = Launch { stage: Stage::Forking, ..moved };
                            self.advance()
                        }
                    },
                },
            },
        }
    }

    /// Gives the launch up for `e`, unless it has been given up already.
    fn fail(&mut self, e: Error) -> (request: Request)
        requires
            old(self).launch.next < old(self).commands.len(),
        ensures
            (final(self)@, request) == old(self)@.fail(e),
    {
        proof {
            use_type_invariant(&*self);
        }
        let failure = match self.launch.failure {
            Some(first) => first,
            None => e,
        };
        self.launch = Launch { stage: Stage::Closing, failure: Some(failure), ..self.launch };
        self.settle()
    }

    /// One step of the launch of the pipeline.
    ///
    /// The first call takes [`Reply::Start`]; every later call takes the
    /// host's reply to the request before. For each command but the last a
    /// pipe is asked for, whose ends become that command's standard output
    /// and the next command's standard input; then the command's fork, and
    /// the child's place in the pipeline's group, which is the group of the
    /// first child. A denied `setpgid` is no failure: the child has then
    /// placed itself. After that the shell's own copies of the pipe ends that
    /// the child has taken are closed. [`Request::Spawned`] ends a launch in
    /// which every command was started.
    ///
    /// A program name or an argument with a NUL character ends the launch
    /// before anything is asked for. Any other failure ends it once the pipe
    /// ends that the shell still holds have been closed.
    pub fn spawn(&mut self, reply: Reply) -> (request: Request)
        ensures
            (final(self)@, request) == old(self)@.spawn_step(reply),
    {
        proof {
            use_type_invariant(&*self);
        }
        let idle = Launch::new();
        match self.launch.stage {
            Stage::Idle => {
                if self.any_nul() {
                    self.launch = Launch {
                        stage: Stage::Over,
                        failure: Some(Error::NullInArgument),
                        ..idle
                    };
                    Request::Failed(Error::NullInArgument)
                } else {
                    self.pgid = 0;
                    self.launch = idle;
                    self.advance()
                }
            },
            Stage::Piping => match reply {
                Reply::Pipe { read, write } => {
                    let i = self.launch.next;
                    assert(self@.commands.len() == self.commands.len());
                    let j = i + 1;
                    self.commands[i].set_stdout(StdX::Pipe(write));
                    proof {
                        use_type_invariant(&*self);
                    }
                    self.commands[j].set_stdin(StdX::Pipe(read));
                    self.launch = Launch {
                        stage: Stage::Forking,
                        read: Some(read),
                        write: Some(write),
                        ..self.launch
                    };
                    assert(self@.commands =~= old(self)@.piped(read, write).0.commands);
                    Request::Fork { index: i, pgid: self.pgid }
                },
                _ => self.fail(Error::PipeFailed),
            },
            Stage::Forking => match reply {
                Reply::Child(pid) => {
                    if pid > 0 {
                        let i = self.launch.next;
                        let pgid = self.pgid;
                        self.commands[i].pid(pid);
                        if pgid == 0 {
                            self.pgid = pid;
                        }
                        self.launch = Launch { stage: Stage::Grouping, ..self.launch };
                        assert(self@.commands =~= old(self)@.forked(pid).0.commands);
                        Request::SetGroup { pid, pgid }
                    } else {
                        self.fail(Error::ForkFailed)
                    }
                },
                _ => self.fail(Error::ForkFailed),
            },
            Stage::Grouping => match reply {
                Reply::Done => self.settle(),
                Reply::Denied => self.settle(),
                _ => self.fail(Error::SetpgidFailed),
            },
            Stage::Closing => match reply {
                Reply::Done => self.settle(),
                _ => self.fail(Error::CloseFailed),
            },
            Stage::Over => match self.launch.failure {
                Some(e) => Request::Failed(e),
                None => Request::Spawned,
            },
        }
    }

    /// The number of commands; there is always at least one.
    pub fn len(&self) -> (n: usize)
        ensures
            n == self@.commands.len(),
            n >= 1,
    {
        proof {
            use_type_invariant(self);
        }
        self.commands.len()
    }

    /// The command at `index`.
    pub fn get(&self, index: usize) -> (command: &Command)
        requires
            index < self@.commands.len(),
        ensures
            command@ == self@.commands[index as int],
    {
        &self.commands[index]
    }

    /// Whether the pipeline was asked to run in the background.
    pub fn is_background(&self) -> (yes: bool)
        ensures
            yes == self@.background,
    {
        self.background
    }

    /// The process group, zero until the first child is there.
    pub fn get_pgid(&self) -> (pgid: i32)
        ensures
            pgid == self@.pgid,
    {
        self.pgid
    }

    /// The job number, zero as long as the shell has given none.
    pub fn get_jobid(&self) -> (jobid: u32)
        ensures
            jobid == self@.jobid,
    {
        self.jobid
    }

    /// The books of the launch.
    pub fn get_launch(&self) -> (books: Launch)
        ensures
            books == self@.launch,
    {
        self.launch
    }

    /// The state of the stay in the foreground.
    pub fn get_front(&self) -> (state: Front)
        ensures
            state == self@.front,
    {
        self.front
    }

    /// The pids of the commands, first to last.
    pub fn pids(&self) -> (pids: Vec<i32>)
        ensures
            pids@ == self@.pids(),
    {
        let mut pids: Vec<i32> = Vec::new();
        let mut i: usize = 0;
        while i < self.commands.len()
            invariant
                i <= self.commands.len(),
                pids@ == self@.pids().take(i as int),
            decreases self.commands.len() - i,
        {
            pids.push(self.commands[i].get_pid());
            assert(pids@ =~= self@.pids().take(i + 1));
            i += 1;
        }
        assert(self@.pids().take(i as int) =~= self@.pids());
        pids
    }

    /// Whether every command has exited.
    pub fn is_completed(&self) -> (yes: bool)
        ensures
            yes == self@.completed(),
    {
        let mut i: usize = 0;
        while i < self.commands.len()
            invariant
                i <= self.commands.len(),
                forall|k: int| 0 <= k < i ==> (#[trigger] self@.commands[k]).status
                    == Status::Completed,
            decreases self.commands.len() - i,
        {
            if !self.commands[i].is_completed() {
                assert(self@.commands[i as int].status != Status::Completed);
                return false;
            }
            i += 1;
        }
        true
    }

    /// Whether a command with this status is among the commands.
    fn any_with(&self, status: Status) -> (yes: bool)
        ensures
            yes == exists|i: int|
                0 <= i < self@.commands.len() && (#[trigger] self@.commands[i]).status == status,
    {
        let mut i: usize = 0;
        while i < self.commands.len()
            invariant
                i <= self.commands.len(),
                forall|k: int| 0 <= k < i ==> (#[trigger] self@.commands[k]).status != status,
            decreases self.commands.len() - i,
        {
            if self.commands[i].get_status() == status {
                assert(self@.commands[i as int].status == status);
                return true;
            }
            i += 1;
        }
        false
    }

    /// Whether the pipeline is stopped: at least one command is.
    pub fn is_suspended(&self) -> (yes: bool)
        ensures
            yes == self@.suspended(),
    {
        self.any_with(Status::Suspended)
    }

    /// Whether the pipeline is still to be waited for: at least one command
    /// is.
    pub fn is_running(&self) -> (yes: bool)
        ensures
            yes == self@.running(),
    {
        self.any_with(Status::Running)
    }

    /// Whether one of the commands has the pid `pid`.
    pub fn has_child(&self, pid: i32) -> (yes: bool)
        ensures
            yes == self@.has_child(pid),
    {
        let mut i: usize = 0;
        while i < self.commands.len()
            invariant
                i <= self.commands.len(),
                forall|k: int| 0 <= k < i ==> (#[trigger] self@.commands[k]).pid != pid,
            decreases self.commands.len() - i,
        {
            if self.commands[i].get_pid() == pid {
                assert(self@.commands[i as int].pid == pid);
                return true;
            }
            i += 1;
        }
        false
    }
}

} // verus!
