//! The supervisor: what the shell does with each line, and the jobs it keeps.

use vstd::prelude::*;
use crate::error::Error;
use crate::grammar::{trim, trimmed};
use crate::host::Request;
use crate::pipeline::{announcement, parsed, Pipeline, PipelineView};
use crate::signal::{policy, tty_signals, Disposition, Signal};

verus! {

/// What has happened since the shell's last step.
#[derive(Debug, PartialEq)]
pub enum Event {
    /// The shell has just been set up.
    Start,
    /// A line was written for the user.
    Said,
    /// The user has typed this line.
    Line(String),
    /// There is no more input.
    Closed,
    /// The launch of this pipeline has ended with this request.
    Spawned(Pipeline, Request),
    /// The stay of this pipeline in the foreground has ended with this
    /// request.
    Returned(Pipeline, Request),
}

/// What the shell wants to happen next.
#[derive(Debug, PartialEq)]
pub enum Step {
    /// Write the prompt and read a line.
    Prompt,
    /// Write this line for the user.
    Say(String),
    /// Launch this pipeline: drive [`Pipeline::spawn`] to its end.
    Spawn(Pipeline),
    /// Bring this pipeline to the foreground: drive [`Pipeline::fg`] to its
    /// end.
    Foreground(Pipeline),
    /// Leave, with exit code zero.
    Exit,
}

/// The mathematical value of an [`Event`].
#[verifier::ext_equal]
pub enum EventView {
    Start,
    Said,
    Line(Seq<char>),
    Closed,
    Spawned(PipelineView, Request),
    Returned(PipelineView, Request),
}

/// The mathematical value of a [`Step`].
#[verifier::ext_equal]
pub enum StepView {
    Prompt,
    Say(Seq<char>),
    Spawn(PipelineView),
    Foreground(PipelineView),
    Exit,
}

impl View for Event {
    type V = EventView;

    open spec fn view(&self) -> EventView {
        match self {
            Event::Start => EventView::Start,
            Event::Said => EventView::Said,
            Event::Line(text) => EventView::Line(text@),
            Event::Closed => EventView::Closed,
            Event::Spawned(job, end) => EventView::Spawned(job@, *end),
            Event::Returned(job, end) => EventView::Returned(job@, *end),
        }
    }
}

impl View for Step {
    type V = StepView;

    open spec fn view(&self) -> StepView {
        match self {
            Step::Prompt => StepView::Prompt,
            Step::Say(text) => StepView::Say(text@),
            Step::Spawn(job) => StepView::Spawn(job@),
            Step::Foreground(job) => StepView::Foreground(job@),
            Step::Exit => StepView::Exit,
        }
    }
}

/// The jobs that the shell keeps, and the last job number it has given.
#[derive(Debug, PartialEq)]
pub struct Shell {
    background_jobs: Vec<Pipeline>,
    suspended_jobs: Vec<Pipeline>,
    last_id: u32,
}

/// The mathematical value of a [`Shell`].
#[verifier::ext_equal]
pub struct ShellView {
    /// The pipelines launched in the background, in the order of their
    /// launch.
    pub background_jobs: Seq<PipelineView>,
    /// The pipelines that were stopped in the foreground, in the order in
    /// which they were stopped.
    pub suspended_jobs: Seq<PipelineView>,
    /// The job number given last; zero before the first.
    pub last_id: u32,
}

/// The job numbers of a list never go down, and none is beyond `last`.
pub open spec fn numbered(jobs: Seq<PipelineView>, last: u32) -> bool {
    &&& forall|i: int, j: int|
        0 <= i <= j < jobs.len() ==> (#[trigger] jobs[i]).jobid <= (#[trigger] jobs[j]).jobid
    &&& forall|i: int| 0 <= i < jobs.len() ==> 1 <= (#[trigger] jobs[i]).jobid <= last
}

/// The line that tells the user of a failure.
pub open spec fn diagnostic(e: Error) -> Seq<char> {
    "rotten_sh: "@ + e.text()
}

/// The mathematical values of a list of pipelines.
pub open spec fn job_views(jobs: Seq<Pipeline>) -> Seq<PipelineView> {
    Seq::new(jobs.len(), |i: int| jobs[i]@)
}

/// The first `n` requests of the shell: the terminal signals, one after the
/// other, are to be ignored.
pub open spec fn policy_requests(n: nat) -> Seq<Request> {
    Seq::new(n, |i: int| Request::Policy(tty_signals()[i], Disposition::Ignore))
}

/// What the shell does first of all, in this order: it stops listening to the
/// terminal's signals, makes itself the leader of a process group of its own,
/// and makes that group the terminal's foreground group.
pub open spec fn startup_requests() -> Seq<Request> {
    policy_requests(5) + seq![Request::SetGroup { pid: 0, pgid: 0 }, Request::Reclaim]
}

impl ShellView {
    /// Job numbers are given in rising order.
    pub open spec fn wf(self) -> bool {
        numbered(self.background_jobs, self.last_id) && numbered(self.suspended_jobs, self.last_id)
    }

    /// The number for the next job: one more than the last, as long as there
    /// is one more.
    pub open spec fn next_id(self) -> u32 {
        if self.last_id < u32::MAX {
            (self.last_id + 1) as u32
        } else {
            u32::MAX
        }
    }

    /// Whether the job to resume is the last of the background jobs, rather
    /// than the last of the suspended ones: it is where there is no suspended
    /// job, or the last background job has the higher number.
    pub open spec fn background_is_latest(self) -> bool {
        self.background_jobs.len() > 0 && (self.suspended_jobs.len() == 0
            || self.background_jobs.last().jobid > self.suspended_jobs.last().jobid)
    }

    /// The shell after `job` has joined the background jobs as number `id`.
    pub open spec fn with_background(self, job: PipelineView, id: u32) -> ShellView {
        ShellView {
            background_jobs: self.background_jobs.push(PipelineView { jobid: id, ..job }),
            last_id: id,
            ..self
        }
    }

    /// The shell after `job` has joined the suspended jobs as number `id`.
    pub open spec fn with_suspended(self, job: PipelineView, id: u32) -> ShellView {
        ShellView {
            suspended_jobs: self.suspended_jobs.push(PipelineView { jobid: id, ..job }),
            last_id: id,
            ..self
        }
    }

    /// What the shell does with a line.
    ///
    /// `exit` ends the shell. `fg` brings the job pushed last, be it a
    /// background or a suspended one, to the foreground, and takes it off its
    /// list; without a job the shell says so. Any other line is parsed: a
    /// pipeline is launched, and a line that is none is dropped without a
    /// word.
    pub open spec fn on_line(self, line: Seq<char>) -> (ShellView, StepView) {
        if trim(line) == "exit"@ {
            (self, StepView::Exit)
        } else if trim(line) == "fg"@ {
            if self.background_is_latest() {
                (
                    ShellView { background_jobs: self.background_jobs.drop_last(), ..self },
                    StepView::Foreground(self.background_jobs.last()),
                )
            } else if self.suspended_jobs.len() > 0 {
                (
                    ShellView { suspended_jobs: self.suspended_jobs.drop_last(), ..self },
                    StepView::Foreground(self.suspended_jobs.last()),
                )
            } else {
                (self, StepView::Say("fg: no current job"@))
            }
        } else {
            match parsed(line) {
                Some(job) => (self, StepView::Spawn(job)),
                None => (self, StepView::Prompt),
            }
        }
    }

    /// What the shell does once a launch has ended.
    ///
    /// A pipeline for the background gets the next job number, is announced
    /// and joins the background jobs. A pipeline for the foreground is brought
    /// there. A launch that was refused for a NUL character is dropped like a
    /// line that does not parse; any other failure is told to the user.
    pub open spec fn on_spawned(self, job: PipelineView, end: Request) -> (ShellView, StepView) {
        match end {
            Request::Spawned => if job.background {
                (
                    self.with_background(job, self.next_id()),
                    StepView::Say(announcement(PipelineView { jobid: self.next_id(), ..job })),
                )
            } else {
                (self, StepView::Foreground(job))
            },
            Request::Failed(Error::NullInArgument) => (self, StepView::Prompt),
            Request::Failed(e) => (self, StepView::Say(diagnostic(e))),
            _ => (self, StepView::Prompt),
        }
    }

    /// What the shell does once a stay in the foreground has ended: a
    /// pipeline that is stopped gets the next job number and joins the
    /// suspended jobs, and a failure is told to the user.
    pub open spec fn on_returned(self, job: PipelineView, end: Request) -> (ShellView, StepView) {
        let kept = if job.suspended() {
            self.with_suspended(job, self.next_id())
        } else {
            self
        };
        match end {
            Request::Failed(e) => (kept, StepView::Say(diagnostic(e))),
            _ => (kept, StepView::Prompt),
        }
    }

    /// One step of the shell: the shell after the event, and what it wants
    /// next.
    pub open spec fn run_step(self, event: EventView) -> (ShellView, StepView) {
        match event {
            EventView::Start => (self, StepView::Prompt),
            EventView::Said => (self, StepView::Prompt),
            EventView::Closed => (self, StepView::Exit),
            EventView::Line(line) => self.on_line(line),
            EventView::Spawned(job, end) => self.on_spawned(job, end),
            EventView::Returned(job, end) => self.on_returned(job, end),
        }
    }
}

/// The job that `fg` resumes is the one pushed last: no job that the shell
/// keeps has a higher number.
pub proof fn lemma_resumes_latest(s: ShellView, line: Seq<char>)
    requires
        s.wf(),
        s.on_line(line).1 is Foreground,
    ensures
        forall|i: int|
            0 <= i < s.background_jobs.len() ==> (#[trigger] s.background_jobs[i]).jobid
                <= s.on_line(line).1->Foreground_0.jobid,
        forall|i: int|
            0 <= i < s.suspended_jobs.len() ==> (#[trigger] s.suspended_jobs[i]).jobid
                <= s.on_line(line).1->Foreground_0.jobid,
{
}

/// Job numbers rise: a job that joins a list gets a number that no job in the
/// lists exceeds, and one that is higher than all of them as long as the
/// numbers have not run out. The lists stay in order whatever happens.
pub proof fn lemma_numbers_rise(s: ShellView, event: EventView)
    requires
        s.wf(),
    ensures
        s.run_step(event).0.wf(),
        s.last_id <= s.run_step(event).0.last_id,
        s.last_id < u32::MAX ==> s.next_id() > s.last_id,
{
}

impl View for Shell {
    type V = ShellView;

    closed spec fn view(&self) -> ShellView {
        ShellView {
            background_jobs: job_views(self.background_jobs@),
            suspended_jobs: job_views(self.suspended_jobs@),
            last_id: self.last_id,
        }
    }
}

/// Whether two texts are the same.
fn same(a: &str, b: &str) -> (yes: bool)
    ensures
        yes == (a@ == b@),
{
    a.to_owned() == b.to_owned()
}

impl Shell {
    /// What holds of every shell: its jobs are numbered in rising order.
    #[verifier::type_invariant]
    pub open spec fn inv(&self) -> bool {
        self@.wf()
    }

    /// The shell at its start: it keeps no job and has given no number.
    pub fn new() -> (shell: Self)
        ensures
            shell@ == (ShellView {
                background_jobs: Seq::empty(),
                suspended_jobs: Seq::empty(),
                last_id: 0,
            }),
    {
        let shell = Shell { background_jobs: Vec::new(), suspended_jobs: Vec::new(), last_id: 0 };
        assert(shell@.background_jobs =~= Seq::empty());
        assert(shell@.suspended_jobs =~= Seq::empty());
        shell
    }

    /// What the host is to do before the first step, in this order. Should
    /// one of these fail, the shell cannot work.
    pub fn startup() -> (requests: Vec<Request>)
        ensures
            requests@ == startup_requests(),
    {
        let settings = Signal::ignore();
        let mut requests: Vec<Request> = Vec::new();
        let mut i: usize = 0;
        while i < settings.len()
            invariant
                settings@ == policy(Disposition::Ignore),
                i <= 5,
                requests@ == policy_requests(i as nat),
            decreases 5 - i,
        {
            let setting = settings[i];
            requests.push(Request::Policy(setting.0, setting.1));
            assert(setting == (tty_signals()[i as int], Disposition::Ignore));
            assert(requests@ =~= policy_requests((i + 1) as nat));
            i += 1;
        }
        requests.push(Request::SetGroup { pid: 0, pgid: 0 });
        requests.push(Request::Reclaim);
        assert(requests@ =~= startup_requests());
        requests
    }

    /// The text of the prompt.
    pub fn prompt() -> (text: &'static str)
        ensures
            text@ == "$ "@,
    {
        "$ "
    }

    /// The number of jobs in the background.
    pub fn background_len(&self) -> (n: usize)
        ensures
            n == self@.background_jobs.len(),
    {
        self.background_jobs.len()
    }

    /// The number of suspended jobs.
    pub fn suspended_len(&self) -> (n: usize)
        ensures
            n == self@.suspended_jobs.len(),
    {
        self.suspended_jobs.len()
    }

    /// The number for the next job.
    fn next_id(&self) -> (id: u32)
        ensures
            id == self@.next_id(),
    {
        if self.last_id < u32::MAX {
            self.last_id + 1
        } else {
            u32::MAX
        }
    }

    /// Gives `job` the next number and appends it to the background jobs.
    fn keep_background(&mut self, job: Pipeline)
        ensures
            final(self)@ == old(self)@.with_background(job@, old(self)@.next_id()),
    {
        proof {
            use_type_invariant(&*self);
        }
        let id = self.next_id();
        let mut job = job;
        job.jobid(id);
        let mut jobs: Vec<Pipeline> = Vec::new();
        std::mem::swap(&mut self.background_jobs, &mut jobs);
        assert(job_views(self.background_jobs@) =~= Seq::empty());
        let ghost before = job_views(jobs@);
        jobs.push(job);
        assert(job_views(jobs@) =~= before.push(job@));
        self.last_id = id;
        self.background_jobs = jobs;
    }

    /// Gives `job` the next number and appends it to the suspended jobs.
    fn keep_suspended(&mut self, job: Pipeline)
        ensures
            final(self)@ == old(self)@.with_suspended(job@, old(self)@.next_id()),
    {
        proof {
            use_type_invariant(&*self);
        }
        let id = self.next_id();
        let mut job = job;
        job.jobid(id);
        let mut jobs: Vec<Pipeline> = Vec::new();
        std::mem::swap(&mut self.suspended_jobs, &mut jobs);
        assert(job_views(self.suspended_jobs@) =~= Seq::empty());
        let ghost before = job_views(jobs@);
        jobs.push(job);
        assert(job_views(jobs@) =~= before.push(job@));
        self.last_id = id;
        self.suspended_jobs = jobs;
    }

    /// Takes the last job off a list.
    fn take_last(jobs: &mut Vec<Pipeline>) -> (job: Pipeline)
        requires
            old(jobs)@.len() > 0,
        ensures
            job@ == job_views(old(jobs)@).last(),
            job_views(final(jobs)@) == job_views(old(jobs)@).drop_last(),
    {
        let job = jobs.pop().unwrap();
        assert(job_views(jobs@) =~= job_views(old(jobs)@).drop_last());
        job
    }

    /// What the shell does with a line.
    fn on_line(&mut self, line: &str) -> (step: Step)
        ensures
            (final(self)@, step@) == old(self)@.on_line(line@),
    {
        proof {
            use_type_invariant(&*self);
        }
        let text = trimmed(line);
        if same(text, "exit") {
            return Step::Exit;
        }
        if same(text, "fg") {
            let from_background = self.background_jobs.len() > 0 && (self.suspended_jobs.len() == 0
                || self.background_jobs[self.background_jobs.len() - 1].get_jobid()
                > self.suspended_jobs[self.suspended_jobs.len() - 1].get_jobid());
            if from_background {
                let mut jobs: Vec<Pipeline> = Vec::new();
                std::mem::swap(&mut self.background_jobs, &mut jobs);
                assert(job_views(self.background_jobs@) =~= Seq::empty());
                let job = Shell::take_last(&mut jobs);
                self.background_jobs = jobs;
                return Step::Foreground(job);
            } else if self.suspended_jobs.len() > 0 {
                let mut jobs: Vec<Pipeline> = Vec::new();
                std::mem::swap(&mut self.suspended_jobs, &mut jobs);
                assert(job_views(self.suspended_jobs@) =~= Seq::empty());
                let job = Shell::take_last(&mut jobs);
                self.suspended_jobs = jobs;
                return Step::Foreground(job);
            } else {
                return Step::Say("fg: no current job".to_owned());
            }
        }
        match Pipeline::parse(line) {
            Some(job) => Step::Spawn(job),
            None => Step::Prompt,
        }
    }

    /// The line that tells the user of a failure.
    fn diagnose(e: Error) -> (line: String)
        ensures
            line@ == diagnostic(e),
    {
        let mut line = "rotten_sh: ".to_owned();
        let text = e.describe();
        line.append(text.as_str());
        line
    }

    /// One step of the shell.
    ///
    /// The host calls this first with [`Event::Start`], then each time with
    /// what has come of the step before: the line read after
    /// [`Step::Prompt`], [`Event::Said`] after [`Step::Say`], and the pipeline
    /// with the request that ended its launch or its stay in the foreground
    /// after [`Step::Spawn`] and [`Step::Foreground`]. The jobs that the shell
    /// keeps stay numbered in rising order.
    pub fn run(&mut self, event: Event) -> (step: Step)
        ensures
            (final(self)@, step@) == old(self)@.run_step(event@),
            final(self)@.wf(),
    {
        proof {
            use_type_invariant(&*self);
            lemma_numbers_rise(self@, event@);
        }
        match event {
            Event::Start => Step::Prompt,
            Event::Said => Step::Prompt,
            Event::Closed => Step::Exit,
            Event::Line(line) => self.on_line(line.as_str()),
            Event::Spawned(job, end) => match end {
                Request::Spawned => {
                    if job.is_background() {
                        let ghost id = self@.next_id();
                        let mut announced = job;
                        announced.jobid(self.next_id());
                        let line = announced.bg();
                        self.keep_background(announced);
                        assert(self@ =~= old(self)@.with_background(job@, id));
                        Step::Say(line)
                    } else {
                        Step::Foreground(job)
                    }
                },
                Request::Failed(e) => match e {
                    Error::NullInArgument => Step::Prompt,
                    _ => Step::Say(Shell::diagnose(e)),
                },
                _ => Step::Prompt,
            },
            Event::Returned(job, end) => {
                if job.is_suspended() {
                    self.keep_suspended(job);
                }
                match end {
                    Request::Failed(e) => Step::Say(Shell::diagnose(e)),
                    _ => Step::Prompt,
                }
            },
        }
    }
}

} // verus!
