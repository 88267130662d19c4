use rotten_sh::command::{Command, Status};
use rotten_sh::error::Error;
use rotten_sh::host::{Reaped, Reply, Request};
use rotten_sh::pipeline::{Front, Launch, Pipeline, Stage};
use rotten_sh::stdx::StdX;

fn launched(line: &str, first_pid: i32) -> Pipeline {
    let mut p = Pipeline::parse(line).unwrap();
    let mut reply = Reply::Start;
    let mut pid = first_pid;
    let mut fd = 10;
    loop {
        reply = match p.spawn(reply) {
            Request::Pipe => {
                fd += 2;
                Reply::Pipe { read: fd - 2, write: fd - 1 }
            }
            Request::Fork { .. } => {
                pid += 1;
                Reply::Child(pid - 1)
            }
            Request::SetGroup { .. } | Request::Close(_) => Reply::Done,
            Request::Spawned => return p,
            other => panic!("unexpected request {:?}", other),
        };
    }
}

#[test]
fn launch_of_a_single_command() {
    let mut p = Pipeline::parse("ls").unwrap();
    assert_eq!(p.spawn(Reply::Start), Request::Fork { index: 0, pgid: 0 });
    assert_eq!(p.spawn(Reply::Child(100)), Request::SetGroup { pid: 100, pgid: 0 });
    assert_eq!(p.spawn(Reply::Done), Request::Spawned);
    assert_eq!(p.pids(), vec![100]);
    assert_eq!(p.get_pgid(), 100);
    assert_eq!(*p.get(0).get_stdin(), StdX::StdIn);
    assert_eq!(*p.get(0).get_stdout(), StdX::StdOut);
    // a launch that is over stays over
    assert_eq!(p.spawn(Reply::Done), Request::Spawned);
    assert_eq!(p.spawn(Reply::Start), Request::Spawned);
    assert_eq!(p.pids(), vec![100]);
}

#[test]
fn launch_of_two_commands() {
    let mut p = Pipeline::parse("ls | wc").unwrap();
    assert_eq!(p.spawn(Reply::Start), Request::Pipe);
    assert_eq!(
        p.spawn(Reply::Pipe { read: 3, write: 4 }),
        Request::Fork { index: 0, pgid: 0 }
    );
    assert_eq!(*p.get(0).get_stdout(), StdX::Pipe(4));
    assert_eq!(*p.get(1).get_stdin(), StdX::Pipe(3));
    assert_eq!(p.spawn(Reply::Child(200)), Request::SetGroup { pid: 200, pgid: 0 });
    assert_eq!(p.get_pgid(), 200);
    assert_eq!(p.spawn(Reply::Done), Request::Close(4));
    assert_eq!(p.spawn(Reply::Done), Request::Fork { index: 1, pgid: 200 });
    assert_eq!(p.spawn(Reply::Child(201)), Request::SetGroup { pid: 201, pgid: 200 });
    assert_eq!(p.spawn(Reply::Done), Request::Close(3));
    assert_eq!(p.spawn(Reply::Done), Request::Spawned);
    assert_eq!(p.pids(), vec![200, 201]);
    assert_eq!(p.get_pgid(), p.get(0).get_pid());
}

#[test]
fn launch_of_three_commands_closes_every_pipe_end() {
    let mut p = Pipeline::parse("a | b | c").unwrap();
    let mut requests = vec![];
    let mut reply = Reply::Start;
    let mut next_fd = 3;
    let mut next_pid = 50;
    let mut opened = vec![];
    let mut closed = vec![];
    loop {
        let request = p.spawn(reply);
        requests.push(request);
        reply = match request {
            Request::Pipe => {
                opened.push(next_fd);
                opened.push(next_fd + 1);
                next_fd += 2;
                Reply::Pipe { read: next_fd - 2, write: next_fd - 1 }
            }
            Request::Fork { .. } => {
                next_pid += 1;
                Reply::Child(next_pid - 1)
            }
            Request::Close(fd) => {
                closed.push(fd);
                Reply::Done
            }
            Request::SetGroup { .. } => Reply::Done,
            Request::Spawned => break,
            other => panic!("unexpected request {:?}", other),
        };
    }
    assert_eq!(
        requests,
        vec![
            Request::Pipe,
            Request::Fork { index: 0, pgid: 0 },
            Request::SetGroup { pid: 50, pgid: 0 },
            Request::Close(4),
            Request::Pipe,
            Request::Fork { index: 1, pgid: 50 },
            Request::SetGroup { pid: 51, pgid: 50 },
            Request::Close(6),
            Request::Close(3),
            Request::Fork { index: 2, pgid: 50 },
            Request::SetGroup { pid: 52, pgid: 50 },
            Request::Close(5),
            Request::Spawned,
        ]
    );
    opened.sort();
    closed.sort();
    assert_eq!(opened, closed);
    assert_eq!(p.pids(), vec![50, 51, 52]);
    assert_eq!(p.get_pgid(), 50);
    assert_eq!(*p.get(1).get_stdin(), StdX::Pipe(3));
    assert_eq!(*p.get(1).get_stdout(), StdX::Pipe(6));
    assert_eq!(*p.get(2).get_stdin(), StdX::Pipe(5));
}

#[test]
fn pipe_binding_replaces_a_redirection_inside_a_pipeline() {
    let p = launched("ls > a | wc < b", 10);
    assert_eq!(*p.get(0).get_stdout(), StdX::Pipe(11));
    assert_eq!(*p.get(1).get_stdin(), StdX::Pipe(10));
}

#[test]
fn denied_setpgid_is_no_failure() {
    let mut p = Pipeline::parse("ls").unwrap();
    p.spawn(Reply::Start);
    p.spawn(Reply::Child(100));
    assert_eq!(p.spawn(Reply::Denied), Request::Spawned);
    assert_eq!(p.get_pgid(), 100);
}

#[test]
fn failed_setpgid_ends_the_launch() {
    let mut p = Pipeline::parse("ls | wc").unwrap();
    p.spawn(Reply::Start);
    p.spawn(Reply::Pipe { read: 3, write: 4 });
    p.spawn(Reply::Child(100));
    assert_eq!(p.spawn(Reply::Failed), Request::Close(4));
    assert_eq!(p.spawn(Reply::Done), Request::Close(3));
    assert_eq!(p.spawn(Reply::Done), Request::Failed(Error::SetpgidFailed));
    assert_eq!(p.spawn(Reply::Start), Request::Failed(Error::SetpgidFailed));
}

#[test]
fn failed_pipe_ends_the_launch() {
    let mut p = Pipeline::parse("ls | wc").unwrap();
    assert_eq!(p.spawn(Reply::Start), Request::Pipe);
    assert_eq!(p.spawn(Reply::Failed), Request::Failed(Error::PipeFailed));
}

#[test]
fn failed_second_pipe_closes_the_carried_end() {
    let mut p = Pipeline::parse("a | b | c").unwrap();
    p.spawn(Reply::Start);
    p.spawn(Reply::Pipe { read: 3, write: 4 });
    p.spawn(Reply::Child(100));
    assert_eq!(p.spawn(Reply::Done), Request::Close(4));
    assert_eq!(p.spawn(Reply::Done), Request::Pipe);
    assert_eq!(p.spawn(Reply::Failed), Request::Close(3));
    assert_eq!(p.spawn(Reply::Done), Request::Failed(Error::PipeFailed));
}

#[test]
fn failed_fork_closes_the_live_pipe_ends() {
    let mut p = Pipeline::parse("a | b | c").unwrap();
    p.spawn(Reply::Start);
    p.spawn(Reply::Pipe { read: 3, write: 4 });
    p.spawn(Reply::Child(100));
    p.spawn(Reply::Done);
    p.spawn(Reply::Done);
    assert_eq!(
        p.spawn(Reply::Pipe { read: 5, write: 6 }),
        Request::Fork { index: 1, pgid: 100 }
    );
    assert_eq!(p.spawn(Reply::Failed), Request::Close(6));
    assert_eq!(p.spawn(Reply::Done), Request::Close(5));
    // a close that fails does not stop the cleaning up
    assert_eq!(p.spawn(Reply::Failed), Request::Close(3));
    assert_eq!(p.spawn(Reply::Done), Request::Failed(Error::ForkFailed));
    assert_eq!(p.pids(), vec![100, 0, 0]);
}

#[test]
fn fork_must_give_a_positive_pid() {
    let mut p = Pipeline::parse("ls").unwrap();
    p.spawn(Reply::Start);
    assert_eq!(p.spawn(Reply::Child(0)), Request::Failed(Error::ForkFailed));
    let mut q = Pipeline::parse("ls").unwrap();
    q.spawn(Reply::Start);
    assert_eq!(q.spawn(Reply::Child(-1)), Request::Failed(Error::ForkFailed));
    let mut r = Pipeline::parse("ls").unwrap();
    r.spawn(Reply::Start);
    assert_eq!(r.spawn(Reply::Done), Request::Failed(Error::ForkFailed));
}

#[test]
fn failed_close_is_reported_after_cleaning_up() {
    let mut p = Pipeline::parse("ls | wc").unwrap();
    p.spawn(Reply::Start);
    p.spawn(Reply::Pipe { read: 3, write: 4 });
    p.spawn(Reply::Child(100));
    assert_eq!(p.spawn(Reply::Done), Request::Close(4));
    assert_eq!(p.spawn(Reply::Failed), Request::Close(3));
    assert_eq!(p.spawn(Reply::Done), Request::Failed(Error::CloseFailed));
}

#[test]
fn nul_stops_the_launch_before_anything_is_asked_for() {
    let mut bad = Command::new("wc");
    bad.arg("a\0b");
    let mut p = Pipeline::new(Command::new("ls")).pipe(bad);
    assert_eq!(p.spawn(Reply::Start), Request::Failed(Error::NullInArgument));
    assert_eq!(p.spawn(Reply::Start), Request::Failed(Error::NullInArgument));
    assert_eq!(p.pids(), vec![0, 0]);
}

#[test]
fn launch_forgets_a_group_set_before() {
    let mut p = Pipeline::parse("ls").unwrap();
    p.pgid(77);
    assert_eq!(p.spawn(Reply::Start), Request::Fork { index: 0, pgid: 0 });
    p.spawn(Reply::Child(5));
    p.spawn(Reply::Done);
    assert_eq!(p.get_pgid(), 5);
}

#[test]
fn wait_marks_each_child_and_ends_when_none_runs() {
    let mut p = launched("ls | wc", 200);
    assert!(p.is_running());
    assert_eq!(p.wait(Reply::Start), Request::Reap(200));
    assert!(p.has_child(201) && !p.has_child(202));
    assert_eq!(p.wait(Reply::Reaped(Reaped::Exited(201))), Request::Reap(200));
    assert_eq!(p.get(1).get_status(), Status::Completed);
    assert_eq!(p.get(0).get_status(), Status::Running);
    assert!(!p.is_completed());
    assert_eq!(p.wait(Reply::Reaped(Reaped::Exited(200))), Request::Settled);
    assert!(p.is_completed() && !p.is_running() && !p.is_suspended());
    assert_eq!(p.get_pgid(), p.get(0).get_pid());
    assert_eq!(p.wait(Reply::Start), Request::Settled);
}

#[test]
fn wait_knows_stopped_and_killed_children() {
    let mut p = launched("a | b | c", 30);
    assert_eq!(p.wait(Reply::Reaped(Reaped::Stopped(31))), Request::Reap(30));
    assert_eq!(p.wait(Reply::Reaped(Reaped::Signaled(30))), Request::Reap(30));
    assert_eq!(p.wait(Reply::Reaped(Reaped::Exited(32))), Request::Settled);
    assert_eq!(p.get(0).get_status(), Status::Terminated);
    assert_eq!(p.get(1).get_status(), Status::Suspended);
    assert_eq!(p.get(2).get_status(), Status::Completed);
    assert!(p.is_suspended() && !p.is_completed() && !p.is_running());
}

#[test]
fn failed_wait_is_reported() {
    let mut p = launched("ls", 9);
    assert_eq!(p.wait(Reply::Failed), Request::Failed(Error::WaitFailed));
    assert_eq!(p.wait(Reply::Done), Request::Failed(Error::WaitFailed));
    assert_eq!(p.get(0).get_status(), Status::Running);
}

#[test]
fn foreground_hands_the_terminal_over_and_takes_it_back() {
    let mut p = launched("ls | wc", 200);
    assert_eq!(p.fg(Reply::Start), Request::Foreground(200));
    assert_eq!(p.fg(Reply::Done), Request::Reap(200));
    assert_eq!(p.fg(Reply::Reaped(Reaped::Exited(200))), Request::Reap(200));
    assert_eq!(p.fg(Reply::Reaped(Reaped::Exited(201))), Request::Reclaim);
    assert_eq!(p.fg(Reply::Done), Request::Settled);
    assert!(p.is_completed());
    // and once more from the start
    assert_eq!(p.fg(Reply::Start), Request::Foreground(200));
    assert_eq!(p.fg(Reply::Done), Request::Reclaim);
    assert_eq!(p.fg(Reply::Done), Request::Settled);
}

#[test]
fn foreground_takes_the_terminal_back_after_a_failed_wait() {
    let mut p = launched("ls", 7);
    assert_eq!(p.fg(Reply::Start), Request::Foreground(7));
    assert_eq!(p.fg(Reply::Done), Request::Reap(7));
    assert_eq!(p.fg(Reply::Failed), Request::Reclaim);
    assert_eq!(p.fg(Reply::Done), Request::Failed(Error::WaitFailed));
}

#[test]
fn foreground_takes_the_terminal_back_when_it_could_not_be_had() {
    let mut p = launched("ls", 7);
    assert_eq!(p.fg(Reply::Start), Request::Foreground(7));
    assert_eq!(p.fg(Reply::Failed), Request::Reclaim);
    assert_eq!(p.fg(Reply::Done), Request::Failed(Error::TcsetpgrpFailed));
}

#[test]
fn failure_to_take_the_terminal_back_is_reported() {
    let mut p = launched("ls", 7);
    p.fg(Reply::Start);
    p.fg(Reply::Done);
    assert_eq!(p.fg(Reply::Reaped(Reaped::Exited(7))), Request::Reclaim);
    assert_eq!(p.fg(Reply::Failed), Request::Failed(Error::TcsetpgrpFailed));
}

#[test]
fn stopped_job_leaves_the_foreground() {
    let mut p = launched("sleep 10", 40);
    p.fg(Reply::Start);
    p.fg(Reply::Done);
    assert_eq!(p.fg(Reply::Reaped(Reaped::Stopped(40))), Request::Reclaim);
    assert_eq!(p.fg(Reply::Done), Request::Settled);
    assert!(p.is_suspended());
}

#[test]
fn announcement_has_number_group_and_text() {
    let mut p = launched("sleep 10 &", 12345);
    p.jobid(1);
    assert_eq!(p.bg(), "[1]  + 12345 suspended  sleep 10");
    let mut q = Pipeline::parse("ls -la | wc > out").unwrap();
    q.jobid(4294967295).pgid(-7);
    assert_eq!(q.bg(), "[4294967295]  + -7 suspended  ls -la | wc > out");
    let mut r = Pipeline::parse("ls").unwrap();
    r.pgid(2147483647);
    assert_eq!(r.bg(), "[0]  + 2147483647 suspended  ls");
    r.pgid(-2147483648).jobid(1090);
    assert_eq!(r.bg(), "[1090]  + -2147483648 suspended  ls");
}

#[test]
fn builder_and_setters_of_a_pipeline() {
    let mut p = Pipeline::new(Command::new("ls")).pipe(Command::new("wc"));
    assert_eq!(p.len(), 2);
    assert!(!p.is_background());
    p.background(true).pgid(5).jobid(2);
    assert!(p.is_background());
    assert_eq!(p.get_pgid(), 5);
    assert_eq!(p.get_jobid(), 2);
    p.background(false);
    assert!(!p.is_background());
}

#[test]
fn requests_that_end_an_operation() {
    assert!(Request::Spawned.ends());
    assert!(Request::Settled.ends());
    assert!(Request::Failed(Error::WaitFailed).ends());
    assert!(!Request::Pipe.ends());
    assert!(!Request::Reclaim.ends());
    assert!(!Request::Close(3).ends());
    assert!(!Request::Fork { index: 0, pgid: 0 }.ends());
    assert_eq!(Reaped::Exited(4).child(), 4);
    assert_eq!(Reaped::Stopped(5).child(), 5);
    assert_eq!(Reaped::Signaled(6).child(), 6);
}

#[test]
fn books_of_a_launch() {
    let mut p = Pipeline::parse("a | b | c").unwrap();
    assert!(p.get_launch().is_idle());
    assert_eq!(p.get_launch(), Launch::new());
    assert_eq!(p.get_front(), Front::Idle);
    p.spawn(Reply::Start);
    assert_eq!(p.get_launch().stage, Stage::Piping);
    p.spawn(Reply::Pipe { read: 3, write: 4 });
    let books = p.get_launch();
    assert_eq!((books.stage, books.next), (Stage::Forking, 0));
    assert_eq!((books.carried, books.read, books.write), (None, Some(3), Some(4)));
    p.spawn(Reply::Child(100));
    assert_eq!(p.get_launch().stage, Stage::Grouping);
    p.spawn(Reply::Done);
    let books = p.get_launch();
    assert_eq!(books.stage, Stage::Closing);
    assert_eq!((books.carried, books.read, books.write), (None, Some(3), None));
    p.spawn(Reply::Done);
    let books = p.get_launch();
    assert_eq!((books.stage, books.next), (Stage::Piping, 1));
    assert_eq!((books.carried, books.read, books.write), (Some(3), None, None));
    assert!(!books.is_idle());
    p.spawn(Reply::Failed);
    p.spawn(Reply::Done);
    let books = p.get_launch();
    assert_eq!(books.stage, Stage::Over);
    assert_eq!(books.failure, Some(Error::PipeFailed));
    assert_eq!((books.carried, books.read, books.write), (None, None, None));
}

#[test]
fn nothing_is_held_after_a_launch() {
    let p = launched("a | b | c | d", 60);
    let books = p.get_launch();
    assert_eq!(books.stage, Stage::Over);
    assert_eq!(books.failure, None);
    assert_eq!((books.carried, books.read, books.write), (None, None, None));
    assert!(p.pids().iter().all(|pid| *pid > 0));
    assert_eq!(p.get_pgid(), p.get(0).get_pid());
}

#[test]
fn states_of_a_stay_in_the_foreground() {
    let mut p = launched("ls", 7);
    p.fg(Reply::Start);
    assert_eq!(p.get_front(), Front::Handing);
    p.fg(Reply::Done);
    assert_eq!(p.get_front(), Front::Waiting);
    p.fg(Reply::Failed);
    assert_eq!(p.get_front(), Front::Restoring(Some(Error::WaitFailed)));
    p.fg(Reply::Done);
    assert_eq!(p.get_front(), Front::Idle);
}
