use vstd::prelude::*;

verus! {

/// Every operation of the engine reports failure through one of these kinds
/// instead of panicking or returning a sentinel value.
#[derive(Clone, Copy, Debug, PartialEq, Eq, Structural)]
pub enum TraceError {
    /// The target does not exist, is already traced, or permission was denied.
    AttachFailure,
    /// The operation is not legal in the handle's current phase.
    InvalidStateTransition,
    /// The target exited while it was under control; the handle is terminal.
    ProcessExitedDuringControl,
    /// The target was killed by a signal while under control; the handle is terminal.
    ProcessSignaledDuringControl,
    /// Register access was attempted outside the stopped phase, or the query failed.
    RegisterAccessFailure,
    /// A word read or write hit an unmapped or unwritable address.
    MemoryAccessFailure,
    /// No region of the map snapshot matches the requested module name.
    ModuleNotFound,
    /// Regions match the module name, but none of them is executable.
    NotExecutableSegment,
}

} // verus!
