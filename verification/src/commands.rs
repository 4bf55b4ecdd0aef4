//! The decisions behind the commands of the user interface: ending a
//! process, and which windows to show, hide or create.

use vstd::prelude::*;
use crate::text::{int_text, padded_decimal_string};

verus! {

broadcast use vstd::string::group_string_axioms;

/// Why a process was not ended.
#[derive(Debug, PartialEq, Eq, Structural)]
pub enum KillError {
    /// pid 0 and 1 (and below) are never signalled.
    Refused,
    /// The process outlived every attempt.
    Survived(i32),
}

/// The message for a refused or failed attempt to end process `pid`.
pub open spec fn kill_error_text(e: KillError) -> Seq<char> {
    match e {
        KillError::Refused => "refusing to kill pid <= 1"@,
        KillError::Survived(pid) => "Could not terminate PID "@ + int_text(pid as int)
            + " after SIGTERM and SIGKILL attempts. It may be a kernel thread or stuck in uninterruptible sleep."@,
    }
}

impl KillError {
    /// The message for the user.
    pub fn message(&self) -> (r: String)
        ensures
            r@ == kill_error_text(*self),
    {
        match self {
            KillError::Refused => String::from_str("refusing to kill pid <= 1"),
            KillError::Survived(pid) => {
                let head = String::from_str("Could not terminate PID ");
                let num = padded_decimal_string(*pid as i64, 0);
                let s = head.concat(num.as_str());
                s.concat(
                    " after SIGTERM and SIGKILL attempts. It may be a kernel thread or stuck in uninterruptible sleep.",
                )
            },
        }
    }
}

/// Whether process `pid` may be signalled at all.
pub fn kill_allowed(pid: i32) -> (r: Result<(), KillError>)
    ensures
        r is Ok <==> pid > 1,
        r is Err ==> r == Err::<(), KillError>(KillError::Refused),
{
    if pid <= 1 {
        Err(KillError::Refused)
    } else {
        Ok(())
    }
}

/// The number of attempts to end a process.
pub const KILL_ATTEMPTS: usize = 4;

/// The milliseconds to wait after a signal before looking again.
pub const KILL_SETTLE_MS: u64 = 250;

/// The signal of attempt `i`: SIGTERM twice, then SIGKILL twice.
pub open spec fn attempt_signal(i: int) -> Seq<char> {
    if i < 2 {
        "-TERM"@
    } else {
        "-KILL"@
    }
}

/// Whether attempt `i` goes through `pkexec`: every second one, so that
/// each signal is tried as the user first and as root after.
pub open spec fn attempt_pkexec(i: int) -> bool {
    i % 2 == 1
}

/// The program and arguments of attempt `i` (0 to 3) to end process `pid`.
pub fn kill_command(pid: i32, i: usize) -> (r: (String, Vec<String>))
    requires
        i < 4,
    ensures
        attempt_pkexec(i as int) ==> r.0@ == "pkexec"@ && r.1@.len() == 3 && r.1@[0]@
            == "/usr/bin/kill"@ && r.1@[1]@ == attempt_signal(i as int) && r.1@[2]@ == int_text(
            pid as int,
        ),
        !attempt_pkexec(i as int) ==> r.0@ == "/usr/bin/kill"@ && r.1@.len() == 2 && r.1@[0]@
            == attempt_signal(i as int) && r.1@[1]@ == int_text(pid as int),
{
    let signal = if i < 2 {
        String::from_str("-TERM")
    } else {
        String::from_str("-KILL")
    };
    let pid_text = padded_decimal_string(pid as i64, 0);
    let mut args: Vec<String> = Vec::new();
    if i % 2 == 1 {
        args.push(String::from_str("/usr/bin/kill"));
        args.push(signal);
        args.push(pid_text);
        (String::from_str("pkexec"), args)
    } else {
        args.push(signal);
        args.push(pid_text);
        (String::from_str("/usr/bin/kill"), args)
    }
}

/// What to do after attempt `i` to end a process.
#[derive(Debug, PartialEq, Eq, Structural)]
pub enum KillStep {
    /// The process is gone.
    Done,
    /// Make attempt number `n`.
    Next(usize),
    /// Give up: the process survived every attempt.
    GiveUp,
}

/// What to do after attempt `i`, `alive` telling whether the process is
/// still there.
pub fn after_attempt(i: usize, alive: bool) -> (r: KillStep)
    requires
        i < 4,
    ensures
        !alive ==> r == KillStep::Done,
        alive && i < 3 ==> r == KillStep::Next((i + 1) as usize),
        alive && i == 3 ==> r == KillStep::GiveUp,
{
    if !alive {
        KillStep::Done
    } else if i + 1 < KILL_ATTEMPTS {
        KillStep::Next(i + 1)
    } else {
        KillStep::GiveUp
    }
}

/// The directory of process `pid` under `/proc`.
pub fn proc_path(pid: i32) -> (r: String)
    ensures
        r@ == "/proc/"@ + int_text(pid as int),
{
    let head = String::from_str("/proc/");
    let num = padded_decimal_string(pid as i64, 0);
    head.concat(num.as_str())
}

/// A change to the windows of the application.
#[derive(Clone, Copy, Debug, PartialEq, Eq, Structural)]
pub enum WindowOp {
    HideMain,
    ShowMain,
    FocusMain,
    CreatePip,
    ShowPip,
    FocusPip,
    ClosePip,
}

/// The changes that turn the overlay on or off, given which windows exist:
/// on hides the main window and shows (creating it if need be) the
/// overlay; off closes the overlay and brings the main window back.
pub open spec fn pip_ops(enabled: bool, main_exists: bool, pip_exists: bool) -> Seq<WindowOp> {
    if enabled {
        (if main_exists {
            seq![WindowOp::HideMain]
        } else {
            Seq::<WindowOp>::empty()
        }) + (if pip_exists {
            seq![WindowOp::ShowPip, WindowOp::FocusPip]
        } else {
            seq![WindowOp::CreatePip]
        })
    } else {
        (if pip_exists {
            seq![WindowOp::ClosePip]
        } else {
            Seq::<WindowOp>::empty()
        }) + (if main_exists {
            seq![WindowOp::ShowMain, WindowOp::FocusMain]
        } else {
            Seq::<WindowOp>::empty()
        })
    }
}

/// The changes that turn the overlay on or off.
pub fn pip_plan(enabled: bool, main_exists: bool, pip_exists: bool) -> (r: Vec<WindowOp>)
    ensures
        r@ == pip_ops(enabled, main_exists, pip_exists),
{
    let mut ops: Vec<WindowOp> = Vec::new();
    if enabled {
        if main_exists {
            ops.push(WindowOp::HideMain);
        }
        if pip_exists {
            ops.push(WindowOp::ShowPip);
            ops.push(WindowOp::FocusPip);
        } else {
            ops.push(WindowOp::CreatePip);
        }
    } else {
        if pip_exists {
            ops.push(WindowOp::ClosePip);
        }
        if main_exists {
            ops.push(WindowOp::ShowMain);
            ops.push(WindowOp::FocusMain);
        }
    }
    assert(ops@ == pip_ops(enabled, main_exists, pip_exists));
    ops
}

/// The changes that show or hide the main window: hide it when it is
/// visible, else show and focus it (also when its state could not be read);
/// nothing without a main window.
pub fn main_visibility_plan(main_exists: bool, visible: Option<bool>) -> (r: Vec<WindowOp>)
    ensures
        !main_exists ==> r@ == Seq::<WindowOp>::empty(),
        main_exists && visible == Some(true) ==> r@ == seq![WindowOp::HideMain],
        main_exists && visible != Some(true) ==> r@ == seq![WindowOp::ShowMain, WindowOp::FocusMain],
{
    let mut ops: Vec<WindowOp> = Vec::new();
    if main_exists {
        match visible {
            Some(true) => ops.push(WindowOp::HideMain),
            _ => {
                ops.push(WindowOp::ShowMain);
                ops.push(WindowOp::FocusMain);
            },
        }
    }
    assert(!main_exists ==> ops@ == Seq::<WindowOp>::empty());
    assert(main_exists && visible == Some(true) ==> ops@ == seq![WindowOp::HideMain]);
    ops
}

} // verus!
