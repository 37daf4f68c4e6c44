//! The decisions of the task that keeps the Lua language server running:
//! what to report when it starts, fails to start, or stops.
use vstd::prelude::*;
use crate::integer::{dec_text, push_radix};

verus! {

/// What the supervisor does after an attempt to start the server.
pub enum StartOutcome {
    /// Tell the task waiting for the first start why it failed, and stop.
    ReportFailure(String),
    /// Log this message, wait, queue the messages sent meanwhile, and try again.
    Retry(String),
    /// Tell the task waiting for the first start that the server runs.
    ReportStarted,
    /// Log this message about the restart.
    LogRestart(String),
}

/// Whether the first start is still awaited.
pub struct Supervisor {
    awaiting_first_start: bool,
}

impl Supervisor {
    pub closed spec fn awaiting(&self) -> bool {
        self.awaiting_first_start
    }

    pub fn new() -> (r: Supervisor)
        ensures
            r.awaiting(),
    {
        Supervisor { awaiting_first_start: true }
    }

    /// A start attempt failed with `error`: the first start reports it,
    /// later ones log and retry.
    pub fn start_failed(&mut self, error: String) -> (r: StartOutcome)
        ensures
            final(self).awaiting() == old(self).awaiting(),
            old(self).awaiting() ==> (r matches StartOutcome::ReportFailure(e) && e@ == error@),
            !old(self).awaiting() ==> (r matches StartOutcome::Retry(m) && m@ == "failed to restart LuaLS: "@
                + error@ + "; retrying"@),
    {
        if self.awaiting_first_start {
            StartOutcome::ReportFailure(error)
        } else {
            let mut m = String::from_str("failed to restart LuaLS: ");
            m.append(error.as_str());
            m.append("; retrying");
            StartOutcome::Retry(m)
        }
    }

    /// The server runs again with `open_documents` documents replayed: the
    /// first start is reported, later ones are logged.
    pub fn started(&mut self, open_documents: usize) -> (r: StartOutcome)
        ensures
            !final(self).awaiting(),
            old(self).awaiting() ==> r matches StartOutcome::ReportStarted,
            !old(self).awaiting() ==> (r matches StartOutcome::LogRestart(m) && m@
                == "LuaLS restarted and resynchronized "@ + dec_text(open_documents as nat)
                + " open virtual documents"@),
    {
        if self.awaiting_first_start {
            self.awaiting_first_start = false;
            StartOutcome::ReportStarted
        } else {
            let mut m = String::from_str("LuaLS restarted and resynchronized ");
            push_radix(&mut m, open_documents as u128, 10);
            m.append(" open virtual documents");
            StartOutcome::LogRestart(m)
        }
    }
}

/// How the process ended after a failure.
pub enum ProcessExit {
    /// It exited with this status.
    Exited(String),
    /// Waiting for it failed with this error.
    WaitFailed(String),
    /// It did not exit in time and was killed.
    Killed,
}

pub open spec fn exit_text(exit: ProcessExit) -> Seq<char> {
    match exit {
        ProcessExit::Exited(status) => "; process exited with "@ + status@,
        ProcessExit::WaitFailed(error) => "; failed to wait for process: "@ + error@,
        ProcessExit::Killed => "; process did not exit after 2s and was killed"@,
    }
}

/// The warning logged before a restart: the failure, how the process ended,
/// and that it restarts.
pub fn restart_warning(failure: &str, exit: ProcessExit) -> (r: String)
    ensures
        r@ == failure@ + exit_text(exit) + "; restarting LuaLS"@,
{
    let mut m = String::from_str(failure);
    match exit {
        ProcessExit::Exited(status) => {
            m.append("; process exited with ");
            m.append(status.as_str());
        },
        ProcessExit::WaitFailed(error) => {
            m.append("; failed to wait for process: ");
            m.append(error.as_str());
        },
        ProcessExit::Killed => {
            m.append("; process did not exit after 2s and was killed");
        },
    }
    m.append("; restarting LuaLS");
    m
}

} // verus!
