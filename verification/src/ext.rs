//! Typed wrappers for fixed absolute addresses.
//!
//! Embedders name the functions they hook by compile-time-known addresses.
//! A [`Pointer`] carries such an address in its type and offers reads and
//! writes of the bytes there, the writes under a scoped protection flip as
//! every patch of foreign code must be.

use vstd::prelude::*;

use crate::memory::{Memory, MemoryProtector};

verus! {

/// A compile-time-known absolute address.
pub struct Pointer<const ADDR: u64> {}

impl<const ADDR: u64> Pointer<ADDR> {
    pub fn new() -> (r: Pointer<ADDR>) {
        Pointer {  }
    }

    /// The wrapped address, used as the hook key.
    pub fn raw_addr(&self) -> (r: u64)
        ensures
            r == ADDR,
    {
        ADDR
    }

    /// Read `n` bytes at the wrapped address.
    pub fn raw_read(&self, mem: &Memory, n: usize) -> (r: Option<Vec<u8>>)
        requires
            mem.wf(),
            n >= 1,
        ensures
            match r {
                Some(v) => mem.range_in(ADDR as int, n as int) && v@ == mem.bytes_at(
                    ADDR as int,
                    n as nat,
                ),
                None => !mem.range_in(ADDR as int, n as int),
            },
    {
        mem.read_bytes(ADDR, n)
    }

    /// Write `val` at the wrapped address under a scoped protection flip,
    /// reporting how many bytes were written (zero when the range is
    /// unmapped).
    pub fn raw_write(&self, mem: &mut Memory, val: &Vec<u8>) -> (written: usize)
        requires
            old(mem).wf(),
            val@.len() >= 1,
        ensures
            final(mem).wf(),
            final(mem).dynamic_code_blocked == old(mem).dynamic_code_blocked,
            written == if old(mem).range_in(ADDR as int, val@.len() as int) {
                val@.len() as int
            } else {
                0
            },
            forall|x: int| final(mem).addr_in(x) == old(mem).addr_in(x),
            forall|x: int|
                old(mem).addr_in(x) ==> #[trigger] final(mem).writable_at(x) == old(
                    mem,
                ).writable_at(x),
            written > 0 ==> forall|x: int|
                old(mem).addr_in(x) ==> #[trigger] final(mem).byte_at(x) == if ADDR <= x < ADDR
                    + val@.len() {
                    val@[x - ADDR]
                } else {
                    old(mem).byte_at(x)
                },
            written == 0 ==> *final(mem) == *old(mem),
    {
        let ghost m0: Memory = *mem;
        let protector = match MemoryProtector::new(mem, ADDR, val.len()) {
            Err(_) => {
                return 0;
            },
            Ok(p) => p,
        };
        let ghost m1: Memory = *mem;
        let written = protector.write_override(mem, val);
        let ghost m2: Memory = *mem;
        let res = protector.restore(mem);
        proof {
            m0.lemma_layout_stable(m1);
            m1.lemma_layout_stable(m2);
            m2.lemma_layout_stable(*mem);
            assert forall|x: int| m0.addr_in(x) implies #[trigger] mem.writable_at(x)
                == m0.writable_at(x) by {
                if m1.idx_of(x) == m1.idx_of(ADDR as int) {
                    assert(m0.idx_of(x) == m0.idx_of(ADDR as int));
                    assert(m0.writable_at(x) == m0.writable_at(ADDR as int));
                } else {
                    assert(m1.writable_at(x) == m0.writable_at(x));
                    assert(m2.writable_at(x) == m1.writable_at(x));
                }
            }
            assert forall|x: int| m0.addr_in(x) implies #[trigger] mem.byte_at(x) == (if ADDR <= x
                < ADDR + val@.len() {
                val@[x - ADDR]
            } else {
                m0.byte_at(x)
            }) by {
                assert(m1.byte_at(x) == m0.byte_at(x));
                assert(m2.byte_at(x) == (if ADDR <= x < ADDR + val@.len() {
                    val@[x - ADDR]
                } else {
                    m1.byte_at(x)
                }));
                assert(mem.byte_at(x) == m2.byte_at(x));
            }
        }
        written
    }
}

} // verus!
