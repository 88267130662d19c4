use rotten_sh::signal::{Disposition, Signal, TtySignal};

#[test]
fn shell_policy_ignores_the_five_signals() {
    assert_eq!(
        Signal::ignore(),
        vec![
            (TtySignal::Int, Disposition::Ignore),
            (TtySignal::Quit, Disposition::Ignore),
            (TtySignal::Tstp, Disposition::Ignore),
            (TtySignal::Ttin, Disposition::Ignore),
            (TtySignal::Ttou, Disposition::Ignore),
        ]
    );
}

#[test]
fn child_policy_restores_the_five_signals() {
    assert_eq!(
        Signal::default(),
        vec![
            (TtySignal::Int, Disposition::Default),
            (TtySignal::Quit, Disposition::Default),
            (TtySignal::Tstp, Disposition::Default),
            (TtySignal::Ttin, Disposition::Default),
            (TtySignal::Ttou, Disposition::Default),
        ]
    );
}
