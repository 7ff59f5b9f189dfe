//! Terminating a child process: it is asked to stop with SIGTERM, and killed with SIGKILL
//! once a timeout is over. The program sends the signals, waits and sleeps.

use vstd::prelude::*;

use crate::logging::{Level, LogRecord};

verus! {

/// The signal that a termination sends.
#[derive(Clone, Copy, Debug, PartialEq, Eq, Structural)]
pub enum Signal {
    Term,
    Kill,
}

/// What happened when the signal was sent.
pub enum KillOutcome {
    /// It was sent.
    Sent,
    /// The process does not exist any more.
    NoProcess,
    /// Another error, with its text.
    Failed(String),
}

/// What waiting for the process without blocking found.
pub enum WaitOutcome {
    /// The process has ended.
    Ended,
    /// The process is not a child that can be waited for (yet).
    NoChild,
    /// Another error, with its text.
    Failed(String),
}

/// What the termination does next.
pub enum TerminationStep {
    /// Sleep a while, then send the signal again.
    Retry,
    /// The process has ended.
    Done,
    /// The termination failed.
    Failed(String),
}

/// The termination of a named process.
pub struct Termination {
    pub name: String,
    pub signal: Signal,
}

impl Termination {
    /// A termination that starts with SIGTERM.
    pub fn new(name: &str) -> (r: Termination)
        ensures
            r.name@ == name@,
            r.signal == Signal::Term,
    {
        Termination { name: String::from_str(name), signal: Signal::Term }
    }

    /// Takes what sending the signal did, whether the timeout is over, and what waiting
    /// found: a process that is gone ends the termination; once the timeout is over,
    /// SIGTERM gives way to SIGKILL (with an error logged); errors fail it.
    pub fn step(&mut self, kill: KillOutcome, timed_out: bool, wait: WaitOutcome, log: &mut Vec<LogRecord>) -> (r: TerminationStep)
        ensures
            final(self).name@ == old(self).name@,
            match kill {
                KillOutcome::NoProcess => r is Done && final(self).signal == old(self).signal && final(log)@ == old(log)@,
                KillOutcome::Failed(e) => (r matches TerminationStep::Failed(m) && m@ == "Failed to terminate "@ + old(self).name@ + ": "@ + e@)
                    && final(self).signal == old(self).signal && final(log)@ == old(log)@,
                KillOutcome::Sent => {
                    let escalate = old(self).signal == Signal::Term && timed_out;
                    &&& final(self).signal == (if escalate { Signal::Kill } else { old(self).signal })
                    &&& escalate ==> final(log)@.len() == old(log)@.len() + 1 && final(log)@.drop_last() == old(log)@
                        && final(log)@.last().level == Level::Error
                        && final(log)@.last().message@ == "Failed to terminate "@ + old(self).name@ + " using SIGTERM. Using SIGKILL..."@
                    &&& !escalate ==> final(log)@ == old(log)@
                    &&& match wait {
                        WaitOutcome::Ended => r is Done,
                        WaitOutcome::NoChild => r is Retry,
                        WaitOutcome::Failed(e) => r matches TerminationStep::Failed(m) && m@ == "Failed to wait() "@ + old(self).name@ + ": "@ + e@,
                    }
                },
            },
    {
        match kill {
            KillOutcome::NoProcess => TerminationStep::Done,
            KillOutcome::Failed(e) => {
                let mut m = String::from_str("Failed to terminate ");
                m.append(self.name.as_str());
                m.append(": ");
                m.append(e.as_str());
                TerminationStep::Failed(m)
            },
            KillOutcome::Sent => {
                if self.signal == Signal::Term && timed_out {
                    let mut m = String::from_str("Failed to terminate ");
                    m.append(self.name.as_str());
                    m.append(" using SIGTERM. Using SIGKILL...");
                    crate::logging::log(log, Level::Error, m);
                    self.signal = Signal::Kill;
                }
                match wait {
                    WaitOutcome::Ended => TerminationStep::Done,
                    WaitOutcome::NoChild => TerminationStep::Retry,
                    WaitOutcome::Failed(e) => {
                        let mut m = String::from_str("Failed to wait() ");
                        m.append(self.name.as_str());
                        m.append(": ");
                        m.append(e.as_str());
                        TerminationStep::Failed(m)
                    },
                }
            },
        }
    }
}

} // verus!
