//! The outcome of one `wg`/`wg-quick` run, and how the gateway reads it.
//!
//! Running the tools (a child process inside the WireGuard container) happens
//! outside this crate; what comes back — an exit status, the captured output
//! streams — is judged here.

use vstd::prelude::*;

verus! {

/// A failed tool run: the exit status it ended with (`None` when a signal
/// killed it) and what it wrote to stderr.
#[derive(Debug)]
pub struct CommandError {
    pub status_code: Option<i32>,
    pub stderr: String,
}

/// Judges one tool run: exit status zero hands the caller stdout, anything
/// else is a failure carrying the status and stderr.
pub fn interpret_command(status_code: Option<i32>, stdout: String, stderr: String) -> (r: Result<
    String,
    CommandError,
>)
    ensures
        match r {
            Ok(out) => status_code == Some(0i32) && out == stdout,
            Err(e) => status_code != Some(0i32) && e.status_code == status_code && e.stderr
                == stderr,
        },
{
    match status_code {
        Some(0) => Ok(stdout),
        _ => Err(CommandError { status_code, stderr }),
    }
}

/// Whether the daemon answered at all: `wg show` ran and exited cleanly.
pub fn check_vpn(show_outcome: &Result<String, CommandError>) -> (ok: bool)
    ensures
        ok == (show_outcome is Ok),
{
    show_outcome.is_ok()
}

} // verus!
