use rotten_sh::command::Status;
use rotten_sh::error::Error;
use rotten_sh::host::{Reaped, Reply, Request};
use rotten_sh::pipeline::Pipeline;
use rotten_sh::shell::{Event, Shell, Step};
use rotten_sh::signal::{Disposition, TtySignal};

fn spawn(mut job: Pipeline, first_pid: i32) -> Event {
    let mut reply = Reply::Start;
    let mut pid = first_pid;
    let mut fd = 10;
    loop {
        let request = job.spawn(reply);
        reply = match request {
            Request::Pipe => {
                fd += 2;
                Reply::Pipe { read: fd - 2, write: fd - 1 }
            }
            Request::Fork { .. } => {
                pid += 1;
                Reply::Child(pid - 1)
            }
            Request::SetGroup { .. } | Request::Close(_) => Reply::Done,
            _ => return Event::Spawned(job, request),
        };
    }
}

fn foreground(mut job: Pipeline, reports: Vec<Reaped>) -> (Event, Vec<Request>) {
    let mut asked = vec![];
    let mut reports = reports.into_iter();
    let mut reply = Reply::Start;
    loop {
        let request = job.fg(reply);
        asked.push(request);
        reply = match request {
            Request::Foreground(_) | Request::Reclaim => Reply::Done,
            Request::Reap(_) => Reply::Reaped(reports.next().unwrap()),
            _ => return (Event::Returned(job, request), asked),
        };
    }
}

fn job_of(step: Step) -> Pipeline {
    match step {
        Step::Spawn(job) | Step::Foreground(job) => job,
        other => panic!("no job in {:?}", other),
    }
}

#[test]
fn startup_sets_the_policy_then_the_group_then_the_terminal() {
    assert_eq!(
        Shell::startup(),
        vec![
            Request::Policy(TtySignal::Int, Disposition::Ignore),
            Request::Policy(TtySignal::Quit, Disposition::Ignore),
            Request::Policy(TtySignal::Tstp, Disposition::Ignore),
            Request::Policy(TtySignal::Ttin, Disposition::Ignore),
            Request::Policy(TtySignal::Ttou, Disposition::Ignore),
            Request::SetGroup { pid: 0, pgid: 0 },
            Request::Reclaim,
        ]
    );
    assert_eq!(Shell::prompt(), "$ ");
    let shell = Shell::new();
    assert_eq!(shell.background_len(), 0);
    assert_eq!(shell.suspended_len(), 0);
}

#[test]
fn shell_prompts_at_the_start_and_after_saying_something() {
    let mut shell = Shell::new();
    assert_eq!(shell.run(Event::Start), Step::Prompt);
    assert_eq!(shell.run(Event::Said), Step::Prompt);
}

#[test]
fn exit_and_end_of_input_leave_the_shell() {
    let mut shell = Shell::new();
    assert_eq!(shell.run(Event::Line("exit\n".to_string())), Step::Exit);
    assert_eq!(shell.run(Event::Line("  exit  ".to_string())), Step::Exit);
    assert_eq!(shell.run(Event::Closed), Step::Exit);
}

#[test]
fn lines_that_do_not_parse_are_dropped_without_a_word() {
    let mut shell = Shell::new();
    assert_eq!(shell.run(Event::Line("\n".to_string())), Step::Prompt);
    assert_eq!(shell.run(Event::Line("ls |\n".to_string())), Step::Prompt);
    assert_eq!(shell.run(Event::Line("exit now\n".to_string())), Step::Spawn(Pipeline::parse("exit now").unwrap()));
}

#[test]
fn fg_without_a_job_says_so() {
    let mut shell = Shell::new();
    assert_eq!(
        shell.run(Event::Line("fg\n".to_string())),
        Step::Say("fg: no current job".to_string())
    );
}

#[test]
fn foreground_line_runs_and_the_shell_prompts_again() {
    let mut shell = Shell::new();
    let job = job_of(shell.run(Event::Line("ls\n".to_string())));
    assert_eq!(job.len(), 1);
    assert!(!job.is_background());
    let step = shell.run(spawn(job, 100));
    let job = job_of(step);
    assert_eq!(job.get_pgid(), 100);
    let (event, asked) = foreground(job, vec![Reaped::Exited(100)]);
    assert_eq!(
        asked,
        vec![Request::Foreground(100), Request::Reap(100), Request::Reclaim, Request::Settled]
    );
    assert_eq!(shell.run(event), Step::Prompt);
    assert_eq!(shell.background_len(), 0);
    assert_eq!(shell.suspended_len(), 0);
}

#[test]
fn pipeline_in_the_foreground_ends_with_both_commands_completed() {
    let mut shell = Shell::new();
    let job = job_of(shell.run(Event::Line("ls | wc\n".to_string())));
    assert_eq!(job.len(), 2);
    let job = job_of(shell.run(spawn(job, 300)));
    assert_eq!(job.get_pgid(), job.get(0).get_pid());
    let (event, _) = foreground(job, vec![Reaped::Exited(300), Reaped::Exited(301)]);
    match &event {
        Event::Returned(job, end) => {
            assert_eq!(*end, Request::Settled);
            assert_eq!(job.get(0).get_status(), Status::Completed);
            assert_eq!(job.get(1).get_status(), Status::Completed);
            assert_eq!(job.get_pgid(), 300);
        }
        other => panic!("unexpected event {:?}", other),
    }
    assert_eq!(shell.run(event), Step::Prompt);
}

#[test]
fn background_line_is_announced_and_kept() {
    let mut shell = Shell::new();
    let job = job_of(shell.run(Event::Line("sleep 10 &\n".to_string())));
    assert!(job.is_background());
    let event = spawn(job, 500);
    assert_eq!(
        shell.run(event),
        Step::Say("[1]  + 500 suspended  sleep 10".to_string())
    );
    assert_eq!(shell.background_len(), 1);
    assert_eq!(shell.run(Event::Said), Step::Prompt);
}

#[test]
fn fg_brings_the_background_job_to_the_terminal_and_back() {
    let mut shell = Shell::new();
    let job = job_of(shell.run(Event::Line("sleep 10 &\n".to_string())));
    shell.run(spawn(job, 500));
    let job = job_of(shell.run(Event::Line("fg\n".to_string())));
    assert_eq!(shell.background_len(), 0);
    assert_eq!(job.get_jobid(), 1);
    assert_eq!(job.get_pgid(), 500);
    let (event, asked) = foreground(job, vec![Reaped::Exited(500)]);
    assert_eq!(
        asked,
        vec![Request::Foreground(500), Request::Reap(500), Request::Reclaim, Request::Settled]
    );
    assert_eq!(shell.run(event), Step::Prompt);
    assert_eq!(shell.suspended_len(), 0);
}

#[test]
fn stopped_foreground_job_is_kept_as_suspended() {
    let mut shell = Shell::new();
    let job = job_of(shell.run(Event::Line("vi\n".to_string())));
    let job = job_of(shell.run(spawn(job, 70)));
    let (event, _) = foreground(job, vec![Reaped::Stopped(70)]);
    assert_eq!(shell.run(event), Step::Prompt);
    assert_eq!(shell.suspended_len(), 1);
    assert_eq!(shell.background_len(), 0);
}

#[test]
fn fg_resumes_the_job_pushed_last() {
    let mut shell = Shell::new();
    // job 1 in the background
    let job = job_of(shell.run(Event::Line("sleep 1 &\n".to_string())));
    shell.run(spawn(job, 100));
    // job 2 stopped in the foreground
    let job = job_of(shell.run(Event::Line("vi\n".to_string())));
    let job = job_of(shell.run(spawn(job, 200)));
    let (event, _) = foreground(job, vec![Reaped::Stopped(200)]);
    shell.run(event);
    // job 3 in the background
    let job = job_of(shell.run(Event::Line("sleep 3 &\n".to_string())));
    assert_eq!(
        shell.run(spawn(job, 300)),
        Step::Say("[3]  + 300 suspended  sleep 3".to_string())
    );
    assert_eq!((shell.background_len(), shell.suspended_len()), (2, 1));

    let third = job_of(shell.run(Event::Line("fg\n".to_string())));
    assert_eq!((third.get_jobid(), third.get_pgid()), (3, 300));
    let second = job_of(shell.run(Event::Line("fg\n".to_string())));
    assert_eq!((second.get_jobid(), second.get_pgid()), (2, 200));
    let first = job_of(shell.run(Event::Line("fg\n".to_string())));
    assert_eq!((first.get_jobid(), first.get_pgid()), (1, 100));
    assert_eq!(
        shell.run(Event::Line("fg\n".to_string())),
        Step::Say("fg: no current job".to_string())
    );
}

#[test]
fn failed_launch_is_told_to_the_user() {
    let mut shell = Shell::new();
    let mut job = job_of(shell.run(Event::Line("ls | wc\n".to_string())));
    assert_eq!(job.spawn(Reply::Start), Request::Pipe);
    let end = job.spawn(Reply::Failed);
    assert_eq!(end, Request::Failed(Error::PipeFailed));
    assert_eq!(
        shell.run(Event::Spawned(job, end)),
        Step::Say("rotten_sh: pipe failed".to_string())
    );
    assert_eq!(shell.background_len(), 0);
}

#[test]
fn launch_refused_for_a_nul_is_dropped() {
    let mut shell = Shell::new();
    let mut job = job_of(shell.run(Event::Line("ls a\0b\n".to_string())));
    let end = job.spawn(Reply::Start);
    assert_eq!(end, Request::Failed(Error::NullInArgument));
    assert_eq!(shell.run(Event::Spawned(job, end)), Step::Prompt);
}

#[test]
fn failed_stay_in_the_foreground_is_told_to_the_user() {
    let mut shell = Shell::new();
    let job = job_of(shell.run(Event::Line("ls\n".to_string())));
    let mut job = job_of(shell.run(spawn(job, 100)));
    job.fg(Reply::Start);
    job.fg(Reply::Done);
    assert_eq!(job.fg(Reply::Failed), Request::Reclaim);
    let end = job.fg(Reply::Done);
    assert_eq!(
        shell.run(Event::Returned(job, end)),
        Step::Say("rotten_sh: waitpid failed".to_string())
    );
}
