//! A tracee control and call-injection engine.
//!
//! The crate holds the verified logic of a debugger-style controller: the
//! attach/stop/resume state machine for one traced process, word-granularity
//! access to a snapshot of its address space, parsing of its memory-map
//! listing, stack-frame construction, and the layout of a synthetic call.
//! The operating-system calls that bind this logic to a live process are the
//! caller's concern; every decision and every byte of layout is computed here.

pub mod codec;
pub mod errors;
pub mod inject;
pub mod maps;
pub mod memory;
pub mod registers;
pub mod session;
pub mod stack;
