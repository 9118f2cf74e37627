use vstd::prelude::*;

verus! {

/// A full snapshot of the target's general-purpose register file.
///
/// Registers are read and written only as whole snapshots, never one at a
/// time, so a partial update is never observable.  `rsp` is the stack
/// pointer, `rbp` the frame pointer, `rip` the instruction pointer, and
/// `rax` the register this engine's calling convention uses to hand over
/// the primary argument and to receive the return value.
#[derive(Clone, Copy, Debug, PartialEq, Eq, Structural)]
pub struct RegisterSet {
    pub rax: u64,
    pub rbx: u64,
    pub rcx: u64,
    pub rdx: u64,
    pub rsi: u64,
    pub rdi: u64,
    pub rbp: u64,
    pub rsp: u64,
    pub r8: u64,
    pub r9: u64,
    pub r10: u64,
    pub r11: u64,
    pub r12: u64,
    pub r13: u64,
    pub r14: u64,
    pub r15: u64,
    pub rip: u64,
}

} // verus!
