use jackynet::commands::{
    after_attempt, kill_allowed, kill_command, main_visibility_plan, pip_plan, proc_path, KillError,
    KillStep, WindowOp,
};

#[test]
fn low_pids_are_refused() {
    assert_eq!(kill_allowed(1), Err(KillError::Refused));
    assert_eq!(kill_allowed(-7), Err(KillError::Refused));
    assert_eq!(kill_allowed(2), Ok(()));
    assert_eq!(KillError::Refused.message(), "refusing to kill pid <= 1");
}

#[test]
fn failure_message_names_the_pid() {
    assert_eq!(
        KillError::Survived(4242).message(),
        "Could not terminate PID 4242 after SIGTERM and SIGKILL attempts. It may be a kernel thread or stuck in uninterruptible sleep."
    );
}

#[test]
fn attempts_escalate() {
    let expected = [
        ("/usr/bin/kill", vec!["-TERM", "99"]),
        ("pkexec", vec!["/usr/bin/kill", "-TERM", "99"]),
        ("/usr/bin/kill", vec!["-KILL", "99"]),
        ("pkexec", vec!["/usr/bin/kill", "-KILL", "99"]),
    ];
    for (i, (prog, args)) in expected.iter().enumerate() {
        let (p, a) = kill_command(99, i);
        assert_eq!(&p, prog);
        assert_eq!(&a, args);
    }
    assert_eq!(after_attempt(0, false), KillStep::Done);
    assert_eq!(after_attempt(0, true), KillStep::Next(1));
    assert_eq!(after_attempt(3, true), KillStep::GiveUp);
    assert_eq!(proc_path(123), "/proc/123");
}

#[test]
fn overlay_window_plans() {
    assert_eq!(pip_plan(true, true, false), vec![WindowOp::HideMain, WindowOp::CreatePip]);
    assert_eq!(pip_plan(true, true, true), vec![WindowOp::HideMain, WindowOp::ShowPip, WindowOp::FocusPip]);
    assert_eq!(pip_plan(false, true, true), vec![WindowOp::ClosePip, WindowOp::ShowMain, WindowOp::FocusMain]);
    assert_eq!(pip_plan(false, false, false), vec![]);
    assert_eq!(main_visibility_plan(true, Some(true)), vec![WindowOp::HideMain]);
    assert_eq!(main_visibility_plan(true, None), vec![WindowOp::ShowMain, WindowOp::FocusMain]);
    assert_eq!(main_visibility_plan(false, Some(true)), vec![]);
}
