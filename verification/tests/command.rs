use rotten_sh::command::{Command, Status};
use rotten_sh::error::Error;
use rotten_sh::host::ChildStep;
use rotten_sh::signal::{Disposition, TtySignal};
use rotten_sh::stdx::StdX;

#[test]
fn test_command_new() {
    assert_eq!(Command::parse("ls"), Some(Command::new("ls")));

    assert_eq!(
        Command::parse("ls -la"),
        Some(Command::new("ls").arg("-la").to_owned())
    );

    assert_eq!(
        Command::parse("rm -rf dir"),
        Some(Command::new("rm").args(vec!["-rf", "dir"]).to_owned())
    );

    assert_eq!(
        Command::parse("ls -la > output.txt"),
        Some(
            Command::new("ls")
                .arg("-la")
                .stdout(StdX::Redirect("output.txt".to_string()))
                .unwrap()
                .to_owned()
        )
    );

    assert_eq!(
        Command::parse("sort -r < input.txt"),
        Some(
            Command::new("sort")
                .arg("-r")
                .stdin(StdX::Redirect("input.txt".to_string()))
                .unwrap()
                .to_owned()
        )
    );

    assert_eq!(
        Command::parse("sort -r < input.txt > output.txt"),
        Some(
            Command::new("sort")
                .arg("-r")
                .stdin(StdX::Redirect("input.txt".to_string()))
                .unwrap()
                .stdout(StdX::Redirect("output.txt".to_string()))
                .unwrap()
                .to_owned()
        )
    );
}

#[test]
fn test_status() {
    assert!(!Command::new("ls").is_completed());
    assert!(Command::new("ls").status(Status::Completed).is_completed());
}

#[test]
fn new_command_is_fresh() {
    let c = Command::new("ls");
    assert_eq!(c.get_program(), "ls");
    assert!(c.get_args().is_empty());
    assert_eq!(*c.get_stdin(), StdX::StdIn);
    assert_eq!(*c.get_stdout(), StdX::StdOut);
    assert_eq!(c.get_pid(), 0);
    assert_eq!(c.get_status(), Status::Running);
    assert!(c.is_running());
}

#[test]
fn arguments_keep_their_order() {
    let mut c = Command::new("cc");
    c.arg("-o").arg("out");
    c.args(vec!["a.c", "b.c"]);
    assert_eq!(
        *c.get_args(),
        vec!["-o".to_string(), "out".to_string(), "a.c".to_string(), "b.c".to_string()]
    );
}

#[test]
fn status_predicates_tell_the_states_apart() {
    let mut c = Command::new("ls");
    c.status(Status::Suspended);
    assert!(c.is_suspended() && !c.is_completed() && !c.is_terminated() && !c.is_running());
    c.status(Status::Terminated);
    assert!(c.is_terminated() && !c.is_suspended());
    c.status(Status::Completed);
    assert!(c.is_completed() && !c.is_terminated());
}

#[test]
fn pid_setter_records_the_pid() {
    let mut c = Command::new("ls");
    c.pid(4711);
    assert_eq!(c.get_pid(), 4711);
}

#[test]
fn stdin_refuses_the_output_streams() {
    let mut c = Command::new("cat");
    assert_eq!(c.stdin(StdX::StdOut).err(), Some(Error::InvalidEndpoint));
    assert_eq!(c.stdin(StdX::StdErr).err(), Some(Error::InvalidEndpoint));
    assert_eq!(c, Command::new("cat"));
}

#[test]
fn stdout_refuses_input_and_error() {
    let mut c = Command::new("cat");
    assert_eq!(c.stdout(StdX::StdIn).err(), Some(Error::InvalidEndpoint));
    assert_eq!(c.stdout(StdX::StdErr).err(), Some(Error::InvalidEndpoint));
    assert_eq!(c, Command::new("cat"));
}

#[test]
fn slots_take_what_fits_them() {
    let mut c = Command::new("cat");
    assert!(c.stdin(StdX::Pipe(5)).is_ok());
    assert!(c.stdout(StdX::Pipe(6)).is_ok());
    assert_eq!(*c.get_stdin(), StdX::Pipe(5));
    assert_eq!(*c.get_stdout(), StdX::Pipe(6));
    assert!(c.stdin(StdX::StdIn).is_ok());
    assert!(c.stdout(StdX::StdOut).is_ok());
    assert!(c.stdin(StdX::Redirect("in".to_string())).is_ok());
    assert!(c.stdout(StdX::Redirect("out".to_string())).is_ok());
    assert_eq!(*c.get_stdin(), StdX::Redirect("in".to_string()));
    assert_eq!(*c.get_stdout(), StdX::Redirect("out".to_string()));
}

#[test]
fn endpoint_fit_is_one_match() {
    assert!(StdX::StdIn.fits_stdin() && !StdX::StdIn.fits_stdout());
    assert!(StdX::StdOut.fits_stdout() && !StdX::StdOut.fits_stdin());
    assert!(!StdX::StdErr.fits_stdin() && !StdX::StdErr.fits_stdout());
    assert!(StdX::Pipe(3).fits_stdin() && StdX::Pipe(3).fits_stdout());
    let file = StdX::Redirect("f".to_string());
    assert!(file.fits_stdin() && file.fits_stdout());
}

#[test]
fn clone_is_equal() {
    let mut c = Command::new("sort");
    c.arg("-r").pid(9).status(Status::Suspended);
    c.stdin(StdX::Redirect("in".to_string())).unwrap();
    c.stdout(StdX::Pipe(4)).unwrap();
    assert_eq!(c.clone(), c);
    assert_eq!(StdX::Redirect("x".to_string()).clone(), StdX::Redirect("x".to_string()));
}

#[test]
fn child_steps_of_a_plain_command() {
    let mut c = Command::new("ls");
    c.arg("-la");
    let plan = c.spawn(0).unwrap();
    assert_eq!(
        plan,
        vec![
            ChildStep::Policy(TtySignal::Int, Disposition::Default),
            ChildStep::Policy(TtySignal::Quit, Disposition::Default),
            ChildStep::Policy(TtySignal::Tstp, Disposition::Default),
            ChildStep::Policy(TtySignal::Ttin, Disposition::Default),
            ChildStep::Policy(TtySignal::Ttou, Disposition::Default),
            ChildStep::JoinGroup(0),
            ChildStep::Exec(vec!["ls".to_string(), "-la".to_string()]),
        ]
    );
}

#[test]
fn child_steps_bind_files_and_pipes() {
    let mut c = Command::new("sort");
    c.stdin(StdX::Redirect("input.txt".to_string())).unwrap();
    c.stdout(StdX::Pipe(7)).unwrap();
    let plan = c.spawn(321).unwrap();
    assert_eq!(plan.len(), 9);
    assert_eq!(plan[5], ChildStep::JoinGroup(321));
    assert_eq!(plan[6], ChildStep::Read { path: "input.txt".to_string(), onto: 0 });
    assert_eq!(plan[7], ChildStep::Adopt { fd: 7, onto: 1 });
    assert_eq!(plan[8], ChildStep::Exec(vec!["sort".to_string()]));

    let mut d = Command::new("wc");
    d.stdin(StdX::Pipe(8)).unwrap();
    d.stdout(StdX::Redirect("output.txt".to_string())).unwrap();
    let plan = d.spawn(321).unwrap();
    assert_eq!(plan[6], ChildStep::Adopt { fd: 8, onto: 0 });
    assert_eq!(plan[7], ChildStep::Write { path: "output.txt".to_string(), onto: 1 });
}

#[test]
fn nul_in_program_or_argument_is_refused() {
    let c = Command::new("l\0s");
    assert!(c.has_nul());
    assert_eq!(c.spawn(0), Err(Error::NullInArgument));
    let mut d = Command::new("ls");
    d.arg("fine").arg("not\0fine");
    assert!(d.has_nul());
    assert_eq!(d.spawn(0), Err(Error::NullInArgument));
    let mut e = Command::new("ls");
    e.arg("fine");
    assert!(!e.has_nul());
    assert!(e.spawn(0).is_ok());
}

#[test]
fn every_error_has_its_text() {
    assert_eq!(Error::ParseFailure.describe(), "parse failure");
    assert_eq!(Error::NullInArgument.describe(), "NUL in program name or argument");
    assert_eq!(Error::ForkFailed.describe(), "fork failed");
    assert_eq!(Error::PipeFailed.describe(), "pipe failed");
    assert_eq!(Error::DupFailed.describe(), "dup2 failed");
    assert_eq!(Error::ExecFailed.describe(), "exec failed");
    assert_eq!(Error::OpenFailed.describe(), "open failed");
    assert_eq!(Error::SetpgidFailed.describe(), "setpgid failed");
    assert_eq!(Error::TcsetpgrpFailed.describe(), "tcsetpgrp failed");
    assert_eq!(Error::WaitFailed.describe(), "waitpid failed");
    assert_eq!(Error::CloseFailed.describe(), "close failed");
    assert_eq!(Error::InvalidEndpoint.describe(), "invalid endpoint");
}
