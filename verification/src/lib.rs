//! A runtime function-detour (inline hook) engine for 32-bit x86 code on
//! Windows, with its logic verified over an explicit model of process memory.
//!
//! Given the address of an existing machine-code function (the *target*) and
//! the address of a replacement (the *detour*), the engine rewrites the
//! target's first instructions into an unconditional jump to the detour while
//! keeping a callable copy of the original prologue (the *trampoline*) in an
//! executable slot placed within the signed 32-bit displacement window of the
//! target. Detaching restores the original bytes and returns the slot.
//!
//! The address space the engine works on is the explicit model in
//! [`memory`]: a host embeds the engine by mirroring its reads, writes,
//! allocations and protection flips onto the real virtual-memory primitives,
//! and by driving the region-placement walk of [`mem`] with real queries.
//! Instruction decoding is done by the `iced_x86` crate behind the trusted
//! facade in [`inst`].

use vstd::prelude::*;

pub mod detours;
pub mod error;
pub mod ext;
pub mod inst;
pub mod mem;
pub mod memory;
pub mod x86;

pub use detours::{Detour, Detours, DetoursGuard, Trampoline};
pub use error::Error;
pub use ext::Pointer;

verus! {

} // verus!
