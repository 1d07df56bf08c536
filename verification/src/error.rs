//! The failure kinds reported by the engine.

use vstd::prelude::*;

verus! {

/// Every failure an operation of this crate can report.
///
/// `InvalidAddress` covers a null input, a target that resolves to its own
/// detour after thunk skipping, and a prologue that cannot supply five bytes
/// of whole instructions. `NotEnoughMemory` means no reachable executable
/// slot could be obtained. `ErrorCode` carries a raw operating-system status.
/// `InvalidSignature` is reserved for embedder-side consistency checks and is
/// never produced by the engine itself.
#[derive(Clone, Copy, Debug, PartialEq, Eq, Structural)]
pub enum Error {
    InvalidAddress,
    InvalidSignature(usize, usize),
    ErrorCode(usize),
    NotEnoughMemory,
}

} // verus!
