//! The client-facing half: a process that looks exactly like a language server on stdio but
//! forwards everything to the daemon.

use vstd::prelude::*;
use vstd::string::*;
use crate::daemon::{Control, Hello};

verus! {

/// How long the daemon may take to come up, in milliseconds.
pub const START_TIMEOUT: u64 = 10_000;

/// The first pause between two attempts to connect, in milliseconds.
pub const FIRST_PAUSE: u64 = 20;

/// The longest pause between two attempts to connect, in milliseconds.
pub const LONGEST_PAUSE: u64 = 400;

/// Waiting for a daemon to come up. Several shims may race to start it; all but one will lose
/// the bind and exit, so connecting is tried again until someone is listening.
#[derive(Debug, Clone, Copy, PartialEq, Eq, Structural)]
pub struct Waiting {
    /// When to give up, in milliseconds.
    pub deadline: u64,
    /// How long to pause before the next attempt, in milliseconds.
    pub pause: u64,
}

impl Waiting {
    /// Pauses never get longer than the longest.
    pub open spec fn wf(self) -> bool {
        FIRST_PAUSE <= self.pause <= LONGEST_PAUSE
    }

    /// Starts waiting at `now`.
    pub fn new(now: u64) -> (r: Self)
        requires
            now <= u64::MAX - START_TIMEOUT,
        ensures
            r == (Waiting { deadline: (now + START_TIMEOUT) as u64, pause: FIRST_PAUSE }),
            r.wf(),
    {
        Waiting { deadline: now + START_TIMEOUT, pause: FIRST_PAUSE }
    }

    /// How long to pause before the next attempt to connect; nothing once the deadline has
    /// passed. Each pause is twice as long as the one before it, up to the longest.
    pub fn next(&mut self, now: u64) -> (r: Option<u64>)
        requires
            old(self).wf(),
        ensures
            final(self).wf(),
            final(self).deadline == old(self).deadline,
            now < old(self).deadline ==> r == Some(old(self).pause) && final(self).pause == (if 2
                * old(self).pause > LONGEST_PAUSE {
                LONGEST_PAUSE as int
            } else {
                2 * old(self).pause
            }),
            now >= old(self).deadline ==> r is None && *final(self) == *old(self),
    {
        if now >= self.deadline {
            return None;
        }
        let pause = self.pause;
        self.pause = if pause * 2 > LONGEST_PAUSE {
            LONGEST_PAUSE
        } else {
            pause * 2
        };
        Some(pause)
    }
}

/// What is said when the daemon does not come up.
pub fn start_failed(log_path: &str) -> (r: String)
    ensures
        r@ == "daemon did not come up within 10s; see "@ + log_path@,
{
    let mut r = "daemon did not come up within 10s; see ".to_owned();
    r.append(log_path);
    r
}

impl Hello {
    /// The greeting of a shim that acts as the language server called `server`.
    pub fn serving(server: String, cwd: Option<String>, args: Vec<String>) -> (r: Self)
        ensures
            r.server == server,
            r.cwd == cwd,
            r.args == args,
            r.control is None,
    {
        Hello { server, cwd, args, control: None }
    }

    /// The greeting of a control connection.
    pub fn asking(op: Control) -> (r: Self)
        ensures
            r.server@.len() == 0,
            r.cwd is None,
            r.args@.len() == 0,
            r.control == Some(op),
    {
        Hello { server: String::new(), cwd: None, args: Vec::new(), control: Some(op) }
    }
}

} // verus!
