//! Process-group bookkeeping for bash.
//!
//! Every command runs in its own process group, so a timeout or a cancelled
//! request can kill the entire tree with one signal to the group. The guard is
//! disarmed only after the child is reaped, so that giving up a command early
//! takes the whole tree down too.

use vstd::prelude::*;

verus! {

/// A command that leads its own process group.
#[derive(Debug)]
pub struct GroupChild {
    pub pid: Option<u32>,
    /// The child is reaped, and its group need not be killed any more.
    pub defused: bool,
}

impl GroupChild {
    /// A command that was just started.
    pub fn new(pid: Option<u32>) -> (r: GroupChild)
        ensures
            r.pid == pid,
            !r.defused,
    {
        GroupChild { pid, defused: false }
    }

    /// The direct child has exited and was reaped.
    pub fn reaped(&mut self)
        ensures
            final(self).defused,
            final(self).pid == old(self).pid,
    {
        self.defused = true;
    }

    /// The group to kill when the command is given up: none once the child is
    /// reaped.
    pub fn group_to_kill(&self) -> (r: Option<u32>)
        ensures
            r == (if self.defused {
                None
            } else {
                self.pid
            }),
    {
        if self.defused {
            None
        } else {
            self.pid
        }
    }
}

/// Exit code, mapping signal deaths to the conventional 128+signal.
pub fn exit_code_of(code: Option<i32>, signal: Option<i32>) -> (r: i32)
    requires
        signal matches Some(s) ==> s <= i32::MAX - 128,
    ensures
        r == (match (code, signal) {
            (Some(c), _) => c as int,
            (None, Some(s)) => 128 + s,
            (None, None) => -1,
        }),
{
    match code {
        Some(c) => c,
        None => match signal {
            Some(s) => 128 + s,
            None => -1,
        },
    }
}

} // verus!
