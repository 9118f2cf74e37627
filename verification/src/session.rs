use vstd::prelude::*;

use crate::errors::TraceError;

verus! {

/// What the operating system reports when the controller waits on the target.
#[derive(Clone, Copy, Debug, PartialEq, Eq, Structural)]
pub enum WaitStatus {
    /// The target is suspended; the payload is the signal that stopped it.
    Stopped(i32),
    /// The target exited; the payload is its exit code.
    Exited(i32),
    /// The target was terminated by a signal; the payload is that signal.
    Signaled(i32),
}

/// The phase of one traced process, as the session records it.
///
/// The machine is `Detached -> Running -> Stopped -> { Running | Exited |
/// Signaled | Detached }`.  `Running` and `Stopped` are the two attached
/// phases; only `Stopped` permits register or memory operations.  `Exited`
/// and `Signaled` are terminal: no operation on such a handle is retried.
#[derive(Clone, Copy, Debug, PartialEq, Eq, Structural)]
pub enum Phase {
    /// No tracing relationship exists.
    Detached,
    /// Attached, and the target executes freely.
    Running,
    /// Attached, and the target is suspended, safe for inspection.
    Stopped,
    /// The target exited with the recorded code while under control.
    Exited(i32),
    /// The target was killed by the recorded signal while under control.
    Signaled(i32),
}

/// One controlled process: its process identifier and its current phase.
///
/// A handle is exclusively owned by one session; operations take it by
/// reference and record every phase change in it.  The operating-system side
/// of each operation is the caller's: an operation here only decides whether
/// the request is legal in the current phase and what the next phase is, so
/// a request refused here performs no system call at all.
#[derive(Debug)]
pub struct TraceeHandle {
    /// The target's process identifier.
    pub pid: i32,
    /// The session's current phase for this target.
    pub phase: Phase,
}

/// Decoded meaning of a raw wait status word, little-endian kernel encoding:
/// a low byte of `0x7f` marks a stop, a zero low seven bits an exit (code in
/// the second byte), anything else a termination by the signal in the low
/// seven bits.
pub open spec fn decode_wait_spec(raw: i32) -> WaitStatus {
    if raw & 0xff == 0x7f {
        WaitStatus::Stopped((raw >> 8) & 0xff)
    } else if raw & 0x7f == 0 {
        WaitStatus::Exited((raw >> 8) & 0xff)
    } else {
        WaitStatus::Signaled(raw & 0x7f)
    }
}

/// Turns the raw status word that a wait on the target yields into its tagged
/// meaning.
pub fn decode_wait_status(raw: i32) -> (status: WaitStatus)
    ensures
        status == decode_wait_spec(raw),
{
    if raw & 0xff == 0x7f {
        WaitStatus::Stopped((raw >> 8) & 0xff)
    } else if raw & 0x7f == 0 {
        WaitStatus::Exited((raw >> 8) & 0xff)
    } else {
        WaitStatus::Signaled(raw & 0x7f)
    }
}

impl TraceeHandle {
    /// True exactly in the phase that permits register and memory operations.
    pub open spec fn can_inspect(self) -> bool {
        self.phase is Stopped
    }

    /// Creates the handle for a freshly requested attachment.  The caller
    /// performs the seize request on `pid` and reports its outcome in
    /// `seized`; on success the target keeps running under trace, on failure
    /// (no such process, already traced, permission denied) no handle exists.
    pub fn attach(pid: i32, seized: bool) -> (r: Result<TraceeHandle, TraceError>)
        ensures
            seized ==> (r matches Ok(h) && h.pid == pid && h.phase is Running),
            !seized ==> r === Err(TraceError::AttachFailure),
    {
        if seized {
            Ok(TraceeHandle { pid, phase: Phase::Running })
        } else {
            Err(TraceError::AttachFailure)
        }
    }

    /// First half of stopping the target: decides whether an interrupt
    /// request followed by a wait may be issued.  Only a running attached
    /// target can be stopped; a terminal handle reports how it ended, and a
    /// detached or already stopped one reports a state error.
    pub fn stop_request(&self) -> (r: Result<(), TraceError>)
        ensures
            r is Ok <==> self.phase is Running,
            self.phase is Exited ==> r === Err(TraceError::ProcessExitedDuringControl),
            self.phase is Signaled ==> r === Err(TraceError::ProcessSignaledDuringControl),
            (self.phase is Detached || self.phase is Stopped) ==> r === Err(
                TraceError::InvalidStateTransition,
            ),
    {
        match self.phase {
            Phase::Running => Ok(()),
            Phase::Exited(_) => Err(TraceError::ProcessExitedDuringControl),
            Phase::Signaled(_) => Err(TraceError::ProcessSignaledDuringControl),
            _ => Err(TraceError::InvalidStateTransition),
        }
    }

    /// Second half of stopping the target: absorbs the wait status the
    /// operating system reported for a running target.  A stop lands in the
    /// stopped phase; an exit or a termination by signal is recorded as the
    /// terminal phase and surfaced as the matching error, never retried.
    pub fn stop_complete(&mut self, status: WaitStatus) -> (r: Result<WaitStatus, TraceError>)
        ensures
            final(self).pid == old(self).pid,
            !(old(self).phase is Running) ==> (r === Err(TraceError::InvalidStateTransition)
                && *final(self) == *old(self)),
            old(self).phase is Running ==> match status {
                WaitStatus::Stopped(_) => final(self).phase is Stopped && r === Ok(status),
                WaitStatus::Exited(code) => final(self).phase == Phase::Exited(code) && r === Err(
                    TraceError::ProcessExitedDuringControl,
                ),
                WaitStatus::Signaled(sig) => final(self).phase == Phase::Signaled(sig) && r
                    === Err(TraceError::ProcessSignaledDuringControl),
            },
    {
        match self.phase {
            Phase::Running => match status {
                WaitStatus::Stopped(_) => {
                    self.phase = Phase::Stopped;
                    Ok(status)
                },
                WaitStatus::Exited(code) => {
                    self.phase = Phase::Exited(code);
                    Err(TraceError::ProcessExitedDuringControl)
                },
                WaitStatus::Signaled(sig) => {
                    self.phase = Phase::Signaled(sig);
                    Err(TraceError::ProcessSignaledDuringControl)
                },
            },
            _ => Err(TraceError::InvalidStateTransition),
        }
    }

    /// Requests continuation of a stopped target.  On success the caller
    /// issues the continue request and the phase returns to running.  On a
    /// handle in any other phase this is a caller error: it fails with
    /// `InvalidStateTransition`, changes nothing, and, because the request is
    /// refused before it exists, no operating-system call is made for it.
    pub fn resume(&mut self) -> (r: Result<(), TraceError>)
        ensures
            final(self).pid == old(self).pid,
            old(self).phase is Stopped ==> (r is Ok && final(self).phase is Running),
            !(old(self).phase is Stopped) ==> (r === Err(TraceError::InvalidStateTransition)
                && *final(self) == *old(self)),
    {
        match self.phase {
            Phase::Stopped => {
                self.phase = Phase::Running;
                Ok(())
            },
            _ => Err(TraceError::InvalidStateTransition),
        }
    }

    /// Releases tracing control of an attached target.  Afterwards the handle
    /// is detached and invalid for any further control operation; a terminal
    /// handle reports how the target ended instead.
    pub fn detach(&mut self) -> (r: Result<(), TraceError>)
        ensures
            final(self).pid == old(self).pid,
            (old(self).phase is Running || old(self).phase is Stopped) ==> (r is Ok
                && final(self).phase is Detached),
            old(self).phase is Exited ==> (r === Err(TraceError::ProcessExitedDuringControl)
                && *final(self) == *old(self)),
            old(self).phase is Signaled ==> (r === Err(TraceError::ProcessSignaledDuringControl)
                && *final(self) == *old(self)),
            old(self).phase is Detached ==> (r === Err(TraceError::InvalidStateTransition)
                && *final(self) == *old(self)),
    {
        match self.phase {
            Phase::Running | Phase::Stopped => {
                self.phase = Phase::Detached;
                Ok(())
            },
            Phase::Exited(_) => Err(TraceError::ProcessExitedDuringControl),
            Phase::Signaled(_) => Err(TraceError::ProcessSignaledDuringControl),
            Phase::Detached => Err(TraceError::InvalidStateTransition),
        }
    }

    /// Gate for a full register snapshot read or write: both are legal only
    /// while the target is stopped.  A terminal handle reports how the target
    /// ended; any other phase is a register access failure.
    pub fn register_access(&self) -> (r: Result<(), TraceError>)
        ensures
            r is Ok <==> self.can_inspect(),
            self.phase is Exited ==> r === Err(TraceError::ProcessExitedDuringControl),
            self.phase is Signaled ==> r === Err(TraceError::ProcessSignaledDuringControl),
            (self.phase is Detached || self.phase is Running) ==> r === Err(
                TraceError::RegisterAccessFailure,
            ),
    {
        match self.phase {
            Phase::Stopped => Ok(()),
            Phase::Exited(_) => Err(TraceError::ProcessExitedDuringControl),
            Phase::Signaled(_) => Err(TraceError::ProcessSignaledDuringControl),
            _ => Err(TraceError::RegisterAccessFailure),
        }
    }

    /// Gate for a word read or write in the target's address space: legal
    /// only while the target is stopped.  A terminal handle reports how the
    /// target ended; any other phase is a memory access failure.
    pub fn memory_access(&self) -> (r: Result<(), TraceError>)
        ensures
            r is Ok <==> self.can_inspect(),
            self.phase is Exited ==> r === Err(TraceError::ProcessExitedDuringControl),
            self.phase is Signaled ==> r === Err(TraceError::ProcessSignaledDuringControl),
            (self.phase is Detached || self.phase is Running) ==> r === Err(
                TraceError::MemoryAccessFailure,
            ),
    {
        match self.phase {
            Phase::Stopped => Ok(()),
            Phase::Exited(_) => Err(TraceError::ProcessExitedDuringControl),
            Phase::Signaled(_) => Err(TraceError::ProcessSignaledDuringControl),
            _ => Err(TraceError::MemoryAccessFailure),
        }
    }
}

} // verus!
